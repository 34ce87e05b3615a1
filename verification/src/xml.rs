//! An XML document as the plain values that the description reader looks
//! at: its nodes in document order, each with its kind, expanded tag name,
//! attributes and children. `roxmltree` parses the text into it.

use vstd::prelude::*;

use crate::text::same_text;

verus! {

/// An attribute: its local name and its value.
#[derive(Debug)]
pub struct XmlAttribute {
    pub name: String,
    pub value: String,
}

/// A node of the document. Node 0 is the document itself; every other
/// node is an element or something else (text, a comment, a processing
/// instruction). `children` holds the indices of the node's children in
/// document order.
#[derive(Debug)]
pub struct XmlNode {
    pub element: bool,
    /// The namespace of an element's tag name, if it is in one.
    pub namespace: Option<String>,
    /// The local part of an element's tag name; empty for other nodes.
    pub name: String,
    pub attributes: Vec<XmlAttribute>,
    pub children: Vec<usize>,
}

/// A parsed document: its nodes in document order.
#[derive(Debug)]
pub struct XmlDocument {
    pub nodes: Vec<XmlNode>,
}

/// What a node is, as mathematical values.
pub struct NodeModel {
    pub element: bool,
    pub namespace: Option<Seq<char>>,
    pub name: Seq<char>,
    pub attributes: Seq<(Seq<char>, Seq<char>)>,
    pub children: Seq<usize>,
}

/// What a document is, as mathematical values.
pub struct DocumentModel {
    pub nodes: Seq<NodeModel>,
}

impl View for XmlAttribute {
    type V = (Seq<char>, Seq<char>);

    open spec fn view(&self) -> (Seq<char>, Seq<char>) {
        (self.name@, self.value@)
    }
}

impl View for XmlNode {
    type V = NodeModel;

    open spec fn view(&self) -> NodeModel {
        NodeModel {
            element: self.element,
            namespace: self.namespace.deep_view(),
            name: self.name@,
            attributes: self.attributes@.map_values(|a: XmlAttribute| a@),
            children: self.children@,
        }
    }
}

impl View for XmlDocument {
    type V = DocumentModel;

    open spec fn view(&self) -> DocumentModel {
        DocumentModel { nodes: self.nodes@.map_values(|n: XmlNode| n@) }
    }
}

/// The value of the first attribute named `name`, or the empty text.
pub open spec fn attribute_value(attributes: Seq<(Seq<char>, Seq<char>)>, name: Seq<char>) -> Seq<
    char,
>
    decreases attributes.len(),
{
    if attributes.len() == 0 {
        Seq::empty()
    } else if attributes[0].0 == name {
        attributes[0].1
    } else {
        attribute_value(attributes.drop_first(), name)
    }
}

impl DocumentModel {
    /// The nodes of `ids` that are elements, in order.
    pub open spec fn elements_among(self, ids: Seq<usize>) -> Seq<usize>
        decreases ids.len(),
    {
        if ids.len() == 0 {
            Seq::empty()
        } else if self.nodes[ids.last() as int].element {
            self.elements_among(ids.drop_last()).push(ids.last())
        } else {
            self.elements_among(ids.drop_last())
        }
    }

    /// The nodes of `ids` that are elements with local name `name`, in order.
    pub open spec fn named_among(self, ids: Seq<usize>, name: Seq<char>) -> Seq<usize>
        decreases ids.len(),
    {
        if ids.len() == 0 {
            Seq::empty()
        } else if self.nodes[ids.last() as int].element && self.nodes[ids.last() as int].name
            == name {
            self.named_among(ids.drop_last(), name).push(ids.last())
        } else {
            self.named_among(ids.drop_last(), name)
        }
    }

    /// The element children of node `i`.
    pub open spec fn element_children(self, i: int) -> Seq<usize> {
        self.elements_among(self.nodes[i].children)
    }

    /// The element children of node `i` with local name `name`.
    pub open spec fn named_children(self, i: int, name: Seq<char>) -> Seq<usize> {
        self.named_among(self.nodes[i].children, name)
    }

    /// The root element: the first element child of the document node.
    pub open spec fn root_element(self) -> int {
        self.element_children(0)[0] as int
    }

    /// Every child index names a node, and the document node has an
    /// element child.
    pub open spec fn well_formed(self) -> bool {
        &&& self.nodes.len() > 0
        &&& forall|i: int, k: int|
            0 <= i < self.nodes.len() && 0 <= k < self.nodes[i].children.len()
                ==> #[trigger] self.nodes[i].children[k] < self.nodes.len()
        &&& self.element_children(0).len() > 0
    }

    /// The value of attribute `name` of node `i`, or the empty text.
    pub open spec fn attribute(self, i: int, name: Seq<char>) -> Seq<char> {
        attribute_value(self.nodes[i].attributes, name)
    }
}

/// What `roxmltree` reads from `text`: the document, or the text of the
/// error that refuses it.
pub uninterp spec fn xml_reading(text: Seq<char>) -> Result<DocumentModel, Seq<char>>;

/// `roxmltree::Document::parse`, with the document it returns taken node by
/// node, in document order, into plain values (index `k` is the node whose
/// `NodeId` is `k`), and its error into the error's text. The contract
/// names the result `xml_reading(text)`, and states what the crate's
/// source shows of every document: its nodes' children are nodes of it,
/// and the document node has an element child.
#[verifier::external_body]
pub(crate) fn read_xml(text: &str) -> (read: Result<XmlDocument, String>)
    ensures
        match read {
            Ok(document) => {
                &&& xml_reading(text@) == Ok::<DocumentModel, Seq<char>>(document@)
                &&& document@.well_formed()
            },
            Err(message) => xml_reading(text@) == Err::<DocumentModel, Seq<char>>(message@),
        },
{
    match roxmltree::Document::parse(text) {
        Ok(document) => Ok(XmlDocument { nodes: document.descendants().map(|node| XmlNode {
            element: node.is_element(),
            namespace: node.tag_name().namespace().map(String::from),
            name: node.tag_name().name().to_string(),
            attributes: node.attributes().map(|a| XmlAttribute {
                name: a.name().to_string(),
                value: a.value().to_string(),
            }).collect(),
            children: node.children().map(|child| child.id().get_usize()).collect(),
        }).collect() }),
        Err(error) => Err(error.to_string()),
    }
}

impl XmlDocument {
    /// The element children of node `i`, in document order; with `name`,
    /// only those whose local name is `name`.
    fn children_matching(&self, i: usize, name: Option<&str>) -> (found: Vec<usize>)
        requires
            self@.well_formed(),
            i < self@.nodes.len(),
        ensures
            found@ == match name {
                Some(name) => self@.named_children(i as int, name@),
                None => self@.element_children(i as int),
            },
            forall|k: int| 0 <= k < found.len() ==> #[trigger] found@[k] < self@.nodes.len(),
    {
        let ghost model = self@;
        let children = &self.nodes[i].children;
        assert(children@ == model.nodes[i as int].children);
        let mut found: Vec<usize> = Vec::new();
        let mut k: usize = 0;
        while k < children.len()
            invariant
                model == self@,
                model.well_formed(),
                i < model.nodes.len(),
                children@ == model.nodes[i as int].children,
                k <= children.len(),
                found@ == match name {
                    Some(name) => model.named_among(children@.take(k as int), name@),
                    None => model.elements_among(children@.take(k as int)),
                },
                forall|m: int| 0 <= m < found.len() ==> #[trigger] found@[m] < model.nodes.len(),
            decreases children.len() - k,
        {
            let child = children[k];
            assert(child < model.nodes.len());
            assert(children@.take(k + 1).drop_last() =~= children@.take(k as int));
            let node = &self.nodes[child];
            assert(node@ == model.nodes[child as int]);
            let wanted = match name {
                Some(name) => node.element && same_text(node.name.as_str(), name),
                None => node.element,
            };
            if wanted {
                found.push(child);
            }
            k = k + 1;
        }
        assert(children@.take(children.len() as int) =~= children@);
        found
    }

    /// The element children of node `i`, in document order.
    pub fn element_children(&self, i: usize) -> (found: Vec<usize>)
        requires
            self@.well_formed(),
            i < self@.nodes.len(),
        ensures
            found@ == self@.element_children(i as int),
            forall|k: int| 0 <= k < found.len() ==> #[trigger] found@[k] < self@.nodes.len(),
    {
        self.children_matching(i, None)
    }

    /// The element children of node `i` whose local name is `name`.
    pub fn named_children(&self, i: usize, name: &str) -> (found: Vec<usize>)
        requires
            self@.well_formed(),
            i < self@.nodes.len(),
        ensures
            found@ == self@.named_children(i as int, name@),
            forall|k: int| 0 <= k < found.len() ==> #[trigger] found@[k] < self@.nodes.len(),
    {
        self.children_matching(i, Some(name))
    }

    /// The root element.
    pub fn root_element(&self) -> (root: usize)
        requires
            self@.well_formed(),
        ensures
            root == self@.root_element(),
            root < self@.nodes.len(),
    {
        let top = self.element_children(0);
        top[0]
    }

    /// The value of attribute `name` of node `i`, or the empty text.
    pub fn attribute(&self, i: usize, name: &str) -> (value: String)
        requires
            i < self@.nodes.len(),
        ensures
            value@ == self@.attribute(i as int, name@),
    {
        let attributes = &self.nodes[i].attributes;
        let ghost all = self@.nodes[i as int].attributes;
        let mut k: usize = 0;
        assert(all.skip(0) =~= all);
        while k < attributes.len()
            invariant
                i < self@.nodes.len(),
                all == self@.nodes[i as int].attributes,
                attributes@.map_values(|a: XmlAttribute| a@) == all,
                k <= attributes.len(),
                attribute_value(all, name@) == attribute_value(all.skip(k as int), name@),
            decreases attributes.len() - k,
        {
            assert(all.skip(k as int).drop_first() =~= all.skip(k + 1));
            assert(all[k as int] == attributes@[k as int]@);
            assert(all.skip(k as int)[0] == attributes@[k as int]@);
            if same_text(attributes[k].name.as_str(), name) {
                let value = attributes[k].value.clone();
                assert(all.skip(k as int).len() > 0);
                return value;
            }
            k = k + 1;
        }
        assert(all.skip(k as int).len() == 0);
        String::new()
    }
}

/// The element children of a node are its children that are elements,
/// each once, in document order; those named `name` are its children that
/// are elements with local name `name`.
pub proof fn law_children_are_selected_in_document_order(
    document: DocumentModel,
    ids: Seq<usize>,
    name: Seq<char>,
)
    ensures
        document.elements_among(ids) == ids.filter(
            |id: usize| document.nodes[id as int].element,
        ),
        document.named_among(ids, name) == ids.filter(
            |id: usize| document.nodes[id as int].element && document.nodes[id as int].name == name,
        ),
    decreases ids.len(),
{
    reveal(Seq::filter);
    if ids.len() > 0 {
        law_children_are_selected_in_document_order(document, ids.drop_last(), name);
    }
}

/// The value of attribute `name` is that of the first attribute with that
/// local name, or the empty text when there is none.
pub proof fn law_an_attribute_is_its_first_occurrence(
    attributes: Seq<(Seq<char>, Seq<char>)>,
    name: Seq<char>,
)
    ensures
        (forall|k: int| 0 <= k < attributes.len() ==> (#[trigger] attributes[k]).0 != name)
            ==> attribute_value(attributes, name) == Seq::<char>::empty(),
        forall|k: int|
            0 <= k < attributes.len() && (#[trigger] attributes[k]).0 == name && (forall|j: int|
                0 <= j < k ==> attributes[j].0 != name) ==> attribute_value(attributes, name)
                == attributes[k].1,
    decreases attributes.len(),
{
    if attributes.len() > 0 {
        let rest = attributes.drop_first();
        law_an_attribute_is_its_first_occurrence(rest, name);
        assert forall|k: int|
            0 <= k < attributes.len() && (#[trigger] attributes[k]).0 == name && (forall|j: int|
                0 <= j < k ==> attributes[j].0 != name) implies attribute_value(attributes, name)
            == attributes[k].1 by {
            if k > 0 {
                assert(attributes[0].0 != name);
                assert(rest[k - 1] == attributes[k]);
                assert forall|j: int| 0 <= j < k - 1 implies rest[j].0 != name by {
                    assert(rest[j] == attributes[j + 1]);
                }
            }
        }
        if forall|k: int| 0 <= k < attributes.len() ==> (#[trigger] attributes[k]).0 != name {
            assert(attributes[0].0 != name);
            assert forall|k: int| 0 <= k < rest.len() implies (#[trigger] rest[k]).0 != name by {
                assert(rest[k] == attributes[k + 1]);
            }
        }
    }
}

} // verus!
