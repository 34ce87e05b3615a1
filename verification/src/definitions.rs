//! A WSDL document read into what it defines: messages, port types or
//! interfaces, bindings, services and their ports or endpoints, and the
//! references between them, which is where a description is unsound.

use vstd::prelude::*;
use vstd::string::StringExecFns;

use crate::text::{after_last, after_last_of, law_after_last_is_free_of_the_separator, same_text};
use crate::xml::{read_xml, xml_reading, DocumentModel, XmlDocument};

verus! {

pub const WSDL_11: &'static str = "http://schemas.xmlsoap.org/wsdl/";

pub const WSDL_20: &'static str = "http://www.w3.org/ns/wsdl";

/// Which WSDL the document is.
#[derive(Clone, Copy, Debug, PartialEq, Eq, Structural)]
pub enum Version {
    /// `definitions` in the 2001 namespace.
    V11,
    /// `description` in the W3C namespace.
    V20,
}

/// What a description defines, by local name, and what refers to what.
#[derive(Clone, Debug)]
pub struct Definitions {
    pub version: Option<Version>,
    pub messages: Vec<String>,
    pub port_types: Vec<String>,
    pub bindings: Vec<String>,
    pub services: Vec<String>,
    /// Service and port or endpoint name.
    pub ports: Vec<(String, String)>,
    /// Every reference: what kind of thing refers, its name, what it refers
    /// to and the referred kind, in document order.
    pub references: Vec<Reference>,
}

/// One reference: who refers (`from`), the kind of thing referred to and
/// its local name.
#[derive(Clone, Debug)]
pub struct Reference {
    pub from: String,
    pub to_kind: &'static str,
    pub to: String,
}

/// A reference as mathematical values.
pub struct ReferenceModel {
    pub from: Seq<char>,
    pub to_kind: Seq<char>,
    pub to: Seq<char>,
}

/// What a description defines, as mathematical values.
#[verifier::ext_equal]
pub struct DefinitionsModel {
    pub version: Option<Version>,
    pub messages: Seq<Seq<char>>,
    pub port_types: Seq<Seq<char>>,
    pub bindings: Seq<Seq<char>>,
    pub services: Seq<Seq<char>>,
    pub ports: Seq<(Seq<char>, Seq<char>)>,
    pub references: Seq<ReferenceModel>,
}

impl View for Reference {
    type V = ReferenceModel;

    open spec fn view(&self) -> ReferenceModel {
        ReferenceModel { from: self.from@, to_kind: self.to_kind@, to: self.to@ }
    }
}

pub open spec fn names_view(names: Seq<String>) -> Seq<Seq<char>> {
    names.map_values(|name: String| name@)
}

pub open spec fn pairs_view(pairs: Seq<(String, String)>) -> Seq<(Seq<char>, Seq<char>)> {
    pairs.map_values(|pair: (String, String)| (pair.0@, pair.1@))
}

pub open spec fn references_view(references: Seq<Reference>) -> Seq<ReferenceModel> {
    references.map_values(|reference: Reference| reference@)
}

impl View for Definitions {
    type V = DefinitionsModel;

    open spec fn view(&self) -> DefinitionsModel {
        DefinitionsModel {
            version: self.version,
            messages: names_view(self.messages@),
            port_types: names_view(self.port_types@),
            bindings: names_view(self.bindings@),
            services: names_view(self.services@),
            ports: pairs_view(self.ports@),
            references: references_view(self.references@),
        }
    }
}

impl DefinitionsModel {
    /// Nothing defined and nothing referred to.
    pub open spec fn empty(version: Option<Version>) -> DefinitionsModel {
        DefinitionsModel {
            version,
            messages: Seq::empty(),
            port_types: Seq::empty(),
            bindings: Seq::empty(),
            services: Seq::empty(),
            ports: Seq::empty(),
            references: Seq::empty(),
        }
    }

    /// What `self` defines and refers to, followed by what `more` does.
    pub open spec fn followed_by(self, more: DefinitionsModel) -> DefinitionsModel {
        DefinitionsModel {
            version: self.version,
            messages: self.messages + more.messages,
            port_types: self.port_types + more.port_types,
            bindings: self.bindings + more.bindings,
            services: self.services + more.services,
            ports: self.ports + more.ports,
            references: self.references + more.references,
        }
    }
}

/// `tns:Order` as `Order`: what follows the last colon.
pub open spec fn local_name(qualified: Seq<char>) -> Seq<char> {
    after_last(qualified, ':')
}

/// The references that the parts `parts` of an operation make, `from`
/// naming the operation: in WSDL 1.1 each part with a `message` attribute
/// refers to that message; WSDL 2.0 parts refer to schema elements, which
/// are not followed.
pub open spec fn part_references(
    version: Version,
    document: DocumentModel,
    from: Seq<char>,
    parts: Seq<usize>,
) -> Seq<ReferenceModel>
    decreases parts.len(),
{
    if parts.len() == 0 {
        Seq::empty()
    } else {
        let earlier = part_references(version, document, from, parts.drop_last());
        let referred = document.attribute(parts.last() as int, "message"@);
        if version == Version::V11 && referred.len() > 0 {
            earlier.push(
                ReferenceModel { from, to_kind: "message"@, to: local_name(referred) },
            )
        } else {
            earlier
        }
    }
}

/// How an operation of a port type refers: `operation PORTTYPE/OPERATION`.
pub open spec fn operation_label(port_type: Seq<char>, operation: Seq<char>) -> Seq<char> {
    "operation "@ + port_type + "/"@ + operation
}

/// How a port or endpoint of a service refers: `port SERVICE/PORT`.
pub open spec fn port_label(service: Seq<char>, port: Seq<char>) -> Seq<char> {
    "port "@ + service + "/"@ + port
}

/// How a binding refers: `binding BINDING`.
pub open spec fn binding_label(binding: Seq<char>) -> Seq<char> {
    "binding "@ + binding
}

/// The references that the operations `operations` of port type
/// `port_type` make, operation by operation.
pub open spec fn operation_references(
    version: Version,
    document: DocumentModel,
    port_type: Seq<char>,
    operations: Seq<usize>,
) -> Seq<ReferenceModel>
    decreases operations.len(),
{
    if operations.len() == 0 {
        Seq::empty()
    } else {
        let operation = operations.last() as int;
        operation_references(version, document, port_type, operations.drop_last())
            + part_references(
            version,
            document,
            operation_label(port_type, document.attribute(operation, "name"@)),
            document.element_children(operation),
        )
    }
}

/// The (service, port) pairs of the ports `ports` of `service`.
pub open spec fn port_entries(document: DocumentModel, service: Seq<char>, ports: Seq<usize>) -> Seq<
    (Seq<char>, Seq<char>),
> {
    ports.map_values(|port: usize| (service, document.attribute(port as int, "name"@)))
}

/// The references of the ports `ports` of `service`, each to its binding.
pub open spec fn port_references(
    document: DocumentModel,
    service: Seq<char>,
    ports: Seq<usize>,
) -> Seq<ReferenceModel> {
    ports.map_values(
        |port: usize|
            ReferenceModel {
                from: port_label(service, document.attribute(port as int, "name"@)),
                to_kind: "binding"@,
                to: local_name(document.attribute(port as int, "binding"@)),
            },
    )
}

/// What the top-level element `child` of a description defines and refers
/// to.
pub open spec fn defined_by(version: Version, document: DocumentModel, child: int) -> DefinitionsModel {
    let node = document.nodes[child];
    let name = document.attribute(child, "name"@);
    let nothing = DefinitionsModel::empty(None);
    if version == Version::V11 && node.name == "message"@ {
        DefinitionsModel { messages: seq![name], ..nothing }
    } else if (version == Version::V11 && node.name == "portType"@) || (version == Version::V20
        && node.name == "interface"@) {
        DefinitionsModel {
            port_types: seq![name],
            references: operation_references(
                version,
                document,
                name,
                document.named_children(child, "operation"@),
            ),
            ..nothing
        }
    } else if node.name == "binding"@ {
        let referred = if version == Version::V11 {
            document.attribute(child, "type"@)
        } else {
            document.attribute(child, "interface"@)
        };
        DefinitionsModel {
            bindings: seq![name],
            references: if referred.len() > 0 {
                seq![
                    ReferenceModel {
                        from: binding_label(name),
                        to_kind: "portType"@,
                        to: local_name(referred),
                    },
                ]
            } else {
                Seq::empty()
            },
            ..nothing
        }
    } else if node.name == "service"@ {
        let ports = document.named_children(
            child,
            if version == Version::V11 {
                "port"@
            } else {
                "endpoint"@
            },
        );
        DefinitionsModel {
            services: seq![name],
            ports: port_entries(document, name, ports),
            references: port_references(document, name, ports),
            ..nothing
        }
    } else {
        nothing
    }
}

/// What the top-level elements `children` define and refer to, in order.
pub open spec fn defined_among(version: Version, document: DocumentModel, children: Seq<usize>) -> DefinitionsModel
    decreases children.len(),
{
    if children.len() == 0 {
        DefinitionsModel::empty(Some(version))
    } else {
        defined_among(version, document, children.drop_last()).followed_by(
            defined_by(version, document, children.last() as int),
        )
    }
}

/// Why a document whose root element is `root` is not a WSDL description.
pub open spec fn root_refusal(document: DocumentModel, root: int) -> Seq<char> {
    let node = document.nodes[root];
    "the root is "@ + node.name + " in "@ + match node.namespace {
        Some(namespace) => namespace,
        None => "no namespace"@,
    } + ", not a WSDL description"@
}

/// The WSDL version that the root element `root` declares, if any.
pub open spec fn root_version(document: DocumentModel, root: int) -> Option<Version> {
    let node = document.nodes[root];
    if node.namespace == Some(WSDL_11@) && node.name == "definitions"@ {
        Some(Version::V11)
    } else if node.namespace == Some(WSDL_20@) && node.name == "description"@ {
        Some(Version::V20)
    } else {
        None
    }
}

/// A parsed XML document read as a WSDL description.
pub open spec fn reading(document: DocumentModel) -> Result<DefinitionsModel, Seq<char>> {
    let root = document.root_element();
    match root_version(document, root) {
        Some(version) => Ok(defined_among(version, document, document.element_children(root))),
        None => Err(root_refusal(document, root)),
    }
}

/// A text read as a WSDL description.
pub open spec fn parsing(text: Seq<char>) -> Result<DefinitionsModel, Seq<char>> {
    match xml_reading(text) {
        Ok(document) => reading(document),
        Err(error) => Err("not XML: "@ + error),
    }
}

pub open spec fn result_view(result: Result<Definitions, String>) -> Result<DefinitionsModel, Seq<char>> {
    match result {
        Ok(definitions) => Ok(definitions@),
        Err(message) => Err(message@),
    }
}

/// Whether `reference` refers to a message, port type or binding that
/// `definitions` does not define.
pub open spec fn is_dangling(definitions: DefinitionsModel, reference: ReferenceModel) -> bool {
    if reference.to_kind == "message"@ {
        !definitions.messages.contains(reference.to)
    } else if reference.to_kind == "portType"@ {
        !definitions.port_types.contains(reference.to)
    } else if reference.to_kind == "binding"@ {
        !definitions.bindings.contains(reference.to)
    } else {
        false
    }
}

/// The dangling references among `references`, in order.
pub open spec fn dangling_among(definitions: DefinitionsModel, references: Seq<ReferenceModel>) -> Seq<
    ReferenceModel,
>
    decreases references.len(),
{
    if references.len() == 0 {
        Seq::empty()
    } else if is_dangling(definitions, references.last()) {
        dangling_among(definitions, references.drop_last()).push(references.last())
    } else {
        dangling_among(definitions, references.drop_last())
    }
}

/// `tns:Order` as `Order`.
fn local(qualified: &str) -> (name: String)
    ensures
        name@ == local_name(qualified@),
{
    after_last_of(qualified, ':').to_owned()
}

/// `first` followed by `second`.
fn concatenation(first: &str, second: &str) -> (text: String)
    ensures
        text@ == first@ + second@,
{
    let mut text = first.to_owned();
    text.append(second);
    text
}

/// `operation PORTTYPE/OPERATION`.
fn operation_label_of(port_type: &str, operation: &str) -> (label: String)
    ensures
        label@ == operation_label(port_type@, operation@),
{
    let mut label = concatenation("operation ", port_type);
    label.append("/");
    label.append(operation);
    label
}

/// `port SERVICE/PORT`.
fn port_label_of(service: &str, port: &str) -> (label: String)
    ensures
        label@ == port_label(service@, port@),
{
    let mut label = concatenation("port ", service);
    label.append("/");
    label.append(port);
    label
}

fn reference(from: String, to_kind: &'static str, to: String) -> (reference: Reference)
    ensures
        reference@ == (ReferenceModel { from: from@, to_kind: to_kind@, to: to@ }),
{
    Reference { from, to_kind, to }
}

/// The references that the parts `parts` of an operation make.
fn part_references_of(version: Version, document: &XmlDocument, from: &String, parts: &Vec<usize>) -> (references: Vec<Reference>)
    requires
        document@.well_formed(),
        forall|k: int| 0 <= k < parts.len() ==> #[trigger] parts@[k] < document@.nodes.len(),
    ensures
        references_view(references@) == part_references(version, document@, from@, parts@),
{
    let mut references: Vec<Reference> = Vec::new();
    let mut k: usize = 0;
    while k < parts.len()
        invariant
            document@.well_formed(),
            forall|m: int| 0 <= m < parts.len() ==> #[trigger] parts@[m] < document@.nodes.len(),
            k <= parts.len(),
            references_view(references@) == part_references(version, document@, from@, parts@.take(k as int)),
        decreases parts.len() - k,
    {
        let part = parts[k];
        assert(parts@.take(k + 1).drop_last() =~= parts@.take(k as int));
        let referred = if version == Version::V11 {
            document.attribute(part, "message")
        } else {
            document.attribute(part, "element")
        };
        let ghost before = references@;
        if !referred.as_str().is_empty() && version == Version::V11 {
            references.push(reference(from.clone(), "message", local(referred.as_str())));
            assert(references_view(references@) =~= references_view(before).push(references@.last()@));
        }
        k = k + 1;
    }
    assert(parts@.take(parts.len() as int) =~= parts@);
    references
}

/// The references that the operations `operations` of `port_type` make.
fn operation_references_of(
    version: Version,
    document: &XmlDocument,
    port_type: &String,
    operations: &Vec<usize>,
) -> (references: Vec<Reference>)
    requires
        document@.well_formed(),
        forall|k: int| 0 <= k < operations.len() ==> #[trigger] operations@[k] < document@.nodes.len(),
    ensures
        references_view(references@) == operation_references(version, document@, port_type@, operations@),
{
    let mut references: Vec<Reference> = Vec::new();
    let mut k: usize = 0;
    while k < operations.len()
        invariant
            document@.well_formed(),
            forall|m: int| 0 <= m < operations.len() ==> #[trigger] operations@[m] < document@.nodes.len(),
            k <= operations.len(),
            references_view(references@) == operation_references(
                version,
                document@,
                port_type@,
                operations@.take(k as int),
            ),
        decreases operations.len() - k,
    {
        let operation = operations[k];
        assert(operations@.take(k + 1).drop_last() =~= operations@.take(k as int));
        let name = document.attribute(operation, "name");
        let from = operation_label_of(port_type.as_str(), name.as_str());
        let parts = document.element_children(operation);
        let mut more = part_references_of(version, document, &from, &parts);
        let ghost before = references@;
        let ghost added = more@;
        references.append(&mut more);
        assert(references_view(references@) =~= references_view(before) + references_view(added));
        k = k + 1;
    }
    assert(operations@.take(operations.len() as int) =~= operations@);
    references
}

/// The ports `ports` of `service`: their (service, port) pairs and their
/// references to bindings.
fn ports_of(document: &XmlDocument, service: &String, ports: &Vec<usize>) -> (found: (
    Vec<(String, String)>,
    Vec<Reference>,
))
    requires
        document@.well_formed(),
        forall|k: int| 0 <= k < ports.len() ==> #[trigger] ports@[k] < document@.nodes.len(),
    ensures
        pairs_view(found.0@) == port_entries(document@, service@, ports@),
        references_view(found.1@) == port_references(document@, service@, ports@),
{
    let mut entries: Vec<(String, String)> = Vec::new();
    let mut references: Vec<Reference> = Vec::new();
    let mut k: usize = 0;
    while k < ports.len()
        invariant
            document@.well_formed(),
            forall|m: int| 0 <= m < ports.len() ==> #[trigger] ports@[m] < document@.nodes.len(),
            k <= ports.len(),
            pairs_view(entries@) == port_entries(document@, service@, ports@.take(k as int)),
            references_view(references@) == port_references(document@, service@, ports@.take(k as int)),
        decreases ports.len() - k,
    {
        let port = ports[k];
        let name = document.attribute(port, "name");
        let binding = document.attribute(port, "binding");
        let from = port_label_of(service.as_str(), name.as_str());
        let ghost entries_before = entries@;
        let ghost references_before = references@;
        entries.push((service.clone(), name));
        references.push(reference(from, "binding", local(binding.as_str())));
        assert(ports@.take(k + 1) =~= ports@.take(k as int).push(port));
        assert(pairs_view(entries@) =~= pairs_view(entries_before).push((entries@.last().0@, entries@.last().1@)));
        assert(port_entries(document@, service@, ports@.take(k + 1)) =~= port_entries(
            document@,
            service@,
            ports@.take(k as int),
        ).push((service@, document@.attribute(port as int, "name"@))));
        assert(references_view(references@) =~= references_view(references_before).push(
            references@.last()@,
        ));
        assert(port_references(document@, service@, ports@.take(k + 1)) =~= port_references(
            document@,
            service@,
            ports@.take(k as int),
        ).push(references@.last()@));
        k = k + 1;
    }
    assert(ports@.take(ports.len() as int) =~= ports@);
    (entries, references)
}

impl Definitions {
    /// Nothing defined yet, of `version`.
    fn empty(version: Option<Version>) -> (definitions: Definitions)
        ensures
            definitions@ == DefinitionsModel::empty(version),
    {
        let definitions = Definitions {
            version,
            messages: Vec::new(),
            port_types: Vec::new(),
            bindings: Vec::new(),
            services: Vec::new(),
            ports: Vec::new(),
            references: Vec::new(),
        };
        assert(definitions@ =~= DefinitionsModel::empty(version));
        definitions
    }

    /// Records that `from` refers to the `to_kind` named `to`.
    fn refer(&mut self, from: String, to_kind: &'static str, to: String)
        ensures
            final(self)@ == (DefinitionsModel {
                references: old(self)@.references.push(
                    ReferenceModel { from: from@, to_kind: to_kind@, to: to@ },
                ),
                ..old(self)@
            }),
    {
        let ghost before = self@;
        self.references.push(Reference { from, to_kind, to });
        assert(references_view(self.references@) =~= before.references.push(
            self.references@.last()@,
        ));
        assert(self@ =~= (DefinitionsModel {
            references: before.references.push(self.references@.last()@),
            ..before
        }));
    }

    /// Adds what the top-level element `child` defines and refers to.
    fn read(&mut self, version: Version, document: &XmlDocument, child: usize)
        requires
            document@.well_formed(),
            child < document@.nodes.len(),
        ensures
            final(self)@ == old(self)@.followed_by(defined_by(version, document@, child as int)),
    {
        let ghost before = self@;
        let ghost model = document@;
        let name = document.attribute(child, "name");
        let node = &document.nodes[child];
        assert(node@ == model.nodes[child as int]);
        let tag = node.name.as_str();
        if version == Version::V11 && same_text(tag, "message") {
            self.messages.push(name);
            assert(names_view(self.messages@) =~= before.messages + seq![name@]);
        } else if (version == Version::V11 && same_text(tag, "portType")) || (version == Version::V20
            && same_text(tag, "interface")) {
            let operations = document.named_children(child, "operation");
            let mut references = operation_references_of(version, document, &name, &operations);
            self.port_types.push(name);
            let ghost added = references@;
            self.references.append(&mut references);
            assert(names_view(self.port_types@) =~= before.port_types + seq![self.port_types@.last()@]);
            assert(references_view(self.references@) =~= before.references + references_view(added));
        } else if same_text(tag, "binding") {
            let referred = if version == Version::V11 {
                document.attribute(child, "type")
            } else {
                document.attribute(child, "interface")
            };
            if !referred.as_str().is_empty() {
                let from = concatenation("binding ", name.as_str());
                self.refer(from, "portType", local(referred.as_str()));
                assert(references_view(self.references@) =~= before.references + seq![
                    self.references@.last()@,
                ]);
            } else {
                assert(references_view(self.references@) =~= before.references + Seq::empty());
            }
            self.bindings.push(name);
            assert(names_view(self.bindings@) =~= before.bindings + seq![self.bindings@.last()@]);
        } else if same_text(tag, "service") {
            let port_tag = if version == Version::V11 {
                "port"
            } else {
                "endpoint"
            };
            let ports = document.named_children(child, port_tag);
            let (mut entries, mut references) = ports_of(document, &name, &ports);
            let ghost added_entries = entries@;
            let ghost added_references = references@;
            self.services.push(name);
            self.ports.append(&mut entries);
            self.references.append(&mut references);
            assert(names_view(self.services@) =~= before.services + seq![self.services@.last()@]);
            assert(pairs_view(self.ports@) =~= before.ports + pairs_view(added_entries));
            assert(references_view(self.references@) =~= before.references + references_view(
                added_references,
            ));
        }
        assert(self@ =~= before.followed_by(defined_by(version, model, child as int)));
    }

    /// Reads an XML document, parsed, as a WSDL description.
    ///
    /// # Errors
    /// A root element that is neither `definitions` nor `description` in a
    /// WSDL namespace.
    pub fn from_document(document: &XmlDocument) -> (read: Result<Definitions, String>)
        requires
            document@.well_formed(),
        ensures
            result_view(read) == reading(document@),
    {
        let root = document.root_element();
        let node = &document.nodes[root];
        assert(node@ == document@.nodes[root as int]);
        let in_11 = match &node.namespace {
            Some(namespace) => same_text(namespace.as_str(), WSDL_11),
            None => false,
        };
        let in_20 = match &node.namespace {
            Some(namespace) => same_text(namespace.as_str(), WSDL_20),
            None => false,
        };
        let version = if in_11 && same_text(node.name.as_str(), "definitions") {
            Version::V11
        } else if in_20 && same_text(node.name.as_str(), "description") {
            Version::V20
        } else {
            let mut message = concatenation("the root is ", node.name.as_str());
            message.append(" in ");
            match &node.namespace {
                Some(namespace) => message.append(namespace.as_str()),
                None => message.append("no namespace"),
            }
            message.append(", not a WSDL description");
            return Err(message);
        };
        let children = document.element_children(root);
        let mut definitions = Definitions::empty(Some(version));
        let mut k: usize = 0;
        assert(children@.take(0) =~= Seq::<usize>::empty());
        while k < children.len()
            invariant
                document@.well_formed(),
                forall|m: int| 0 <= m < children.len() ==> #[trigger] children@[m] < document@.nodes.len(),
                k <= children.len(),
                definitions@ == defined_among(version, document@, children@.take(k as int)),
            decreases children.len() - k,
        {
            assert(children@.take(k + 1).drop_last() =~= children@.take(k as int));
            definitions.read(version, document, children[k]);
            k = k + 1;
        }
        assert(children@.take(children.len() as int) =~= children@);
        Ok(definitions)
    }

    /// Reads `text` as a WSDL description.
    ///
    /// # Errors
    /// Not well-formed XML, or a root that is neither `definitions` nor
    /// `description` in a WSDL namespace.
    pub fn parse(text: &str) -> (parsed: Result<Definitions, String>)
        ensures
            result_view(parsed) == parsing(text@),
    {
        match read_xml(text) {
            Ok(document) => Definitions::from_document(&document),
            Err(error) => Err(concatenation("not XML: ", error.as_str())),
        }
    }
}

impl Default for Definitions {
    /// Nothing defined, of no version.
    fn default() -> (definitions: Definitions)
        ensures
            definitions@ == DefinitionsModel::empty(None),
    {
        Definitions::empty(None)
    }
}

impl PartialEq for Reference {
    fn eq(&self, other: &Reference) -> (same: bool) {
        self.from == other.from && same_text(self.to_kind, other.to_kind) && self.to == other.to
    }
}

impl Eq for Reference {
}

impl vstd::std_specs::cmp::PartialEqSpecImpl for Reference {
    open spec fn obeys_eq_spec() -> bool {
        true
    }

    open spec fn eq_spec(&self, other: &Reference) -> bool {
        self@ == other@
    }
}

/// Whether `names` holds `name`.
fn holds(names: &Vec<String>, name: &String) -> (found: bool)
    ensures
        found == names_view(names@).contains(name@),
{
    let mut k: usize = 0;
    while k < names.len()
        invariant
            k <= names.len(),
            forall|m: int| 0 <= m < k ==> names_view(names@)[m] != name@,
        decreases names.len() - k,
    {
        if names[k] == *name {
            assert(names_view(names@)[k as int] == name@);
            return true;
        }
        k = k + 1;
    }
    false
}

impl Definitions {
    /// Whether the description defines service `name`.
    pub fn defines_service(&self, name: &String) -> (found: bool)
        ensures
            found == self@.services.contains(name@),
    {
        holds(&self.services, name)
    }

    /// Whether service `service` has port or endpoint `port`.
    pub fn has_port(&self, service: &String, port: &String) -> (found: bool)
        ensures
            found == self@.ports.contains((service@, port@)),
    {
        let mut k: usize = 0;
        while k < self.ports.len()
            invariant
                k <= self.ports.len(),
                forall|m: int| 0 <= m < k ==> self@.ports[m] != (service@, port@),
            decreases self.ports.len() - k,
        {
            let (s, p) = &self.ports[k];
            if *s == *service && *p == *port {
                assert(self@.ports[k as int] == (service@, port@));
                return true;
            }
            k = k + 1;
        }
        false
    }

    /// Whether `reference` refers to something that is not defined here.
    fn refers_to_nothing(&self, reference: &Reference) -> (dangles: bool)
        ensures
            dangles == is_dangling(self@, reference@),
    {
        if same_text(reference.to_kind, "message") {
            !holds(&self.messages, &reference.to)
        } else if same_text(reference.to_kind, "portType") {
            !holds(&self.port_types, &reference.to)
        } else if same_text(reference.to_kind, "binding") {
            !holds(&self.bindings, &reference.to)
        } else {
            false
        }
    }

    /// Every reference to something the description does not define, in
    /// order.
    pub fn dangling(&self) -> (dangling: Vec<&Reference>)
        ensures
            dangling.len() == dangling_among(self@, self@.references).len(),
            forall|k: int|
                0 <= k < dangling.len() ==> #[trigger] dangling[k]@ == dangling_among(
                    self@,
                    self@.references,
                )[k],
    {
        let ghost all = self@.references;
        let mut dangling: Vec<&Reference> = Vec::new();
        let mut k: usize = 0;
        while k < self.references.len()
            invariant
                all == self@.references,
                k <= self.references.len(),
                dangling.len() == dangling_among(self@, all.take(k as int)).len(),
                forall|m: int|
                    0 <= m < dangling.len() ==> #[trigger] dangling[m]@ == dangling_among(
                        self@,
                        all.take(k as int),
                    )[m],
            decreases self.references.len() - k,
        {
            assert(all.take(k + 1).drop_last() =~= all.take(k as int));
            assert(all.take(k + 1).last() == self.references@[k as int]@);
            let reference = &self.references[k];
            if self.refers_to_nothing(reference) {
                dangling.push(reference);
            }
            k = k + 1;
        }
        assert(all.take(all.len() as int) =~= all);
        dangling
    }
}

/// A reference is aimed when it refers to a message, a port type or a
/// binding, by a local name (one without a colon).
pub open spec fn aimed(reference: ReferenceModel) -> bool {
    &&& (reference.to_kind == "message"@ || reference.to_kind == "portType"@ || reference.to_kind
        == "binding"@)
    &&& !reference.to.contains(':')
}

pub open spec fn all_aimed(references: Seq<ReferenceModel>) -> bool {
    forall|k: int| 0 <= k < references.len() ==> aimed(#[trigger] references[k])
}

proof fn lemma_all_aimed_concatenation(a: Seq<ReferenceModel>, b: Seq<ReferenceModel>)
    requires
        all_aimed(a),
        all_aimed(b),
    ensures
        all_aimed(a + b),
{
    assert forall|k: int| 0 <= k < (a + b).len() implies aimed(#[trigger] (a + b)[k]) by {
        if k < a.len() {
            assert((a + b)[k] == a[k]);
        } else {
            assert((a + b)[k] == b[k - a.len()]);
        }
    }
}

proof fn lemma_part_references_aimed(
    version: Version,
    document: DocumentModel,
    from: Seq<char>,
    parts: Seq<usize>,
)
    ensures
        all_aimed(part_references(version, document, from, parts)),
    decreases parts.len(),
{
    if parts.len() > 0 {
        lemma_part_references_aimed(version, document, from, parts.drop_last());
        law_after_last_is_free_of_the_separator(
            document.attribute(parts.last() as int, "message"@),
            ':',
        );
    }
}

proof fn lemma_operation_references_aimed(
    version: Version,
    document: DocumentModel,
    port_type: Seq<char>,
    operations: Seq<usize>,
)
    ensures
        all_aimed(operation_references(version, document, port_type, operations)),
    decreases operations.len(),
{
    if operations.len() > 0 {
        let operation = operations.last() as int;
        lemma_operation_references_aimed(version, document, port_type, operations.drop_last());
        lemma_part_references_aimed(
            version,
            document,
            operation_label(port_type, document.attribute(operation, "name"@)),
            document.element_children(operation),
        );
        lemma_all_aimed_concatenation(
            operation_references(version, document, port_type, operations.drop_last()),
            part_references(
                version,
                document,
                operation_label(port_type, document.attribute(operation, "name"@)),
                document.element_children(operation),
            ),
        );
    }
}

proof fn lemma_defined_by_aimed(version: Version, document: DocumentModel, child: int)
    ensures
        all_aimed(defined_by(version, document, child).references),
{
    let node = document.nodes[child];
    let name = document.attribute(child, "name"@);
    if version == Version::V11 && node.name == "message"@ {
    } else if (version == Version::V11 && node.name == "portType"@) || (version == Version::V20
        && node.name == "interface"@) {
        lemma_operation_references_aimed(
            version,
            document,
            name,
            document.named_children(child, "operation"@),
        );
    } else if node.name == "binding"@ {
        law_after_last_is_free_of_the_separator(document.attribute(child, "type"@), ':');
        law_after_last_is_free_of_the_separator(document.attribute(child, "interface"@), ':');
    } else if node.name == "service"@ {
        let ports = document.named_children(
            child,
            if version == Version::V11 {
                "port"@
            } else {
                "endpoint"@
            },
        );
        let references = port_references(document, name, ports);
        assert forall|k: int| 0 <= k < references.len() implies aimed(#[trigger] references[k]) by {
            law_after_last_is_free_of_the_separator(
                document.attribute(ports[k] as int, "binding"@),
                ':',
            );
        }
    }
}

proof fn lemma_defined_among_aimed(version: Version, document: DocumentModel, children: Seq<usize>)
    ensures
        all_aimed(defined_among(version, document, children).references),
    decreases children.len(),
{
    if children.len() > 0 {
        lemma_defined_among_aimed(version, document, children.drop_last());
        lemma_defined_by_aimed(version, document, children.last() as int);
        lemma_all_aimed_concatenation(
            defined_among(version, document, children.drop_last()).references,
            defined_by(version, document, children.last() as int).references,
        );
    }
}

/// Every reference of a description refers to a message, a port type or
/// a binding, and by its local name: `tns:Order` is recorded as `Order`.
pub proof fn law_references_are_aimed_at_local_names(text: Seq<char>)
    ensures
        parsing(text) matches Ok(definitions) ==> all_aimed(definitions.references),
{
    if let Ok(document) = xml_reading(text) {
        let root = document.root_element();
        if let Some(version) = root_version(document, root) {
            lemma_defined_among_aimed(version, document, document.element_children(root));
        }
    }
}

pub open spec fn ports_in_services(definitions: DefinitionsModel) -> bool {
    forall|k: int|
        0 <= k < definitions.ports.len() ==> definitions.services.contains(
            #[trigger] definitions.ports[k].0,
        )
}

/// Some reference from `from` refers to a binding.
pub open spec fn refers_to_a_binding(definitions: DefinitionsModel, from: Seq<char>) -> bool {
    exists|m: int|
        0 <= m < definitions.references.len() && (#[trigger] definitions.references[m]).from == from
            && definitions.references[m].to_kind == "binding"@
}

pub open spec fn ports_refer_to_bindings(definitions: DefinitionsModel) -> bool {
    forall|k: int|
        0 <= k < definitions.ports.len() ==> refers_to_a_binding(
            definitions,
            port_label((#[trigger] definitions.ports[k]).0, definitions.ports[k].1),
        )
}

proof fn lemma_defined_by_ports(version: Version, document: DocumentModel, child: int)
    ensures
        ports_in_services(defined_by(version, document, child)),
        ports_refer_to_bindings(defined_by(version, document, child)),
{
    let node = document.nodes[child];
    let name = document.attribute(child, "name"@);
    let defined = defined_by(version, document, child);
    if !(version == Version::V11 && node.name == "message"@) && !((version == Version::V11
        && node.name == "portType"@) || (version == Version::V20 && node.name == "interface"@))
        && !(node.name == "binding"@) && node.name == "service"@ {
        let ports = document.named_children(
            child,
            if version == Version::V11 {
                "port"@
            } else {
                "endpoint"@
            },
        );
        assert forall|k: int| 0 <= k < defined.ports.len() implies defined.services.contains(
            #[trigger] defined.ports[k].0,
        ) by {
            assert(defined.services[0] == name);
        }
        assert forall|k: int| 0 <= k < defined.ports.len() implies refers_to_a_binding(
            defined,
            port_label((#[trigger] defined.ports[k]).0, defined.ports[k].1),
        ) by {
            assert(defined.ports[k] == (name, document.attribute(ports[k] as int, "name"@)));
            assert(defined.references[k].from == port_label(defined.ports[k].0, defined.ports[k].1));
            assert(defined.references[k].to_kind == "binding"@);
        }
    }
}

proof fn lemma_defined_among_ports(version: Version, document: DocumentModel, children: Seq<usize>)
    ensures
        ports_in_services(defined_among(version, document, children)),
        ports_refer_to_bindings(defined_among(version, document, children)),
    decreases children.len(),
{
    if children.len() > 0 {
        let earlier = defined_among(version, document, children.drop_last());
        let last = defined_by(version, document, children.last() as int);
        let whole = earlier.followed_by(last);
        lemma_defined_among_ports(version, document, children.drop_last());
        lemma_defined_by_ports(version, document, children.last() as int);
        assert forall|k: int| 0 <= k < whole.ports.len() implies whole.services.contains(
            #[trigger] whole.ports[k].0,
        ) by {
            if k < earlier.ports.len() {
                assert(whole.ports[k] == earlier.ports[k]);
                assert(earlier.services.contains(earlier.ports[k].0));
                let m = choose|m: int| 0 <= m < earlier.services.len() && earlier.services[m] == earlier.ports[k].0;
                assert(whole.services[m] == earlier.services[m]);
            } else {
                let j = k - earlier.ports.len();
                assert(whole.ports[k] == last.ports[j]);
                assert(last.services.contains(last.ports[j].0));
                let m = choose|m: int| 0 <= m < last.services.len() && last.services[m] == last.ports[j].0;
                assert(whole.services[earlier.services.len() + m] == last.services[m]);
            }
        }
        assert forall|k: int| 0 <= k < whole.ports.len() implies refers_to_a_binding(
            whole,
            port_label((#[trigger] whole.ports[k]).0, whole.ports[k].1),
        ) by {
            if k < earlier.ports.len() {
                assert(whole.ports[k] == earlier.ports[k]);
                let from = port_label(earlier.ports[k].0, earlier.ports[k].1);
                assert(refers_to_a_binding(earlier, from));
                let m = choose|m: int|
                    0 <= m < earlier.references.len() && (#[trigger] earlier.references[m]).from
                        == from && earlier.references[m].to_kind == "binding"@;
                assert(whole.references[m] == earlier.references[m]);
            } else {
                let j = k - earlier.ports.len();
                assert(whole.ports[k] == last.ports[j]);
                let from = port_label(last.ports[j].0, last.ports[j].1);
                assert(refers_to_a_binding(last, from));
                let m = choose|m: int|
                    0 <= m < last.references.len() && (#[trigger] last.references[m]).from == from
                        && last.references[m].to_kind == "binding"@;
                assert(whole.references[earlier.references.len() + m] == last.references[m]);
            }
        }
    }
}

/// Every port or endpoint that a description records belongs to a service
/// that it defines, and refers to a binding.
pub proof fn law_every_port_is_of_a_service_and_refers_to_a_binding(text: Seq<char>)
    ensures
        parsing(text) matches Ok(definitions) ==> ports_in_services(definitions)
            && ports_refer_to_bindings(definitions),
{
    if let Ok(document) = xml_reading(text) {
        let root = document.root_element();
        if let Some(version) = root_version(document, root) {
            lemma_defined_among_ports(version, document, document.element_children(root));
        }
    }
}

/// The dangling references are exactly the references that do not land,
/// and a description has none exactly when every reference lands.
pub proof fn law_dangling_are_the_references_that_do_not_land(
    definitions: DefinitionsModel,
    references: Seq<ReferenceModel>,
)
    ensures
        forall|reference: ReferenceModel|
            dangling_among(definitions, references).contains(reference) <==> (references.contains(
                reference,
            ) && is_dangling(definitions, reference)),
        dangling_among(definitions, references).len() == 0 <==> forall|k: int|
            0 <= k < references.len() ==> !is_dangling(definitions, #[trigger] references[k]),
    decreases references.len(),
{
    if references.len() > 0 {
        let earlier = references.drop_last();
        law_dangling_are_the_references_that_do_not_land(definitions, earlier);
        let found = dangling_among(definitions, references);
        let found_earlier = dangling_among(definitions, earlier);
        assert forall|reference: ReferenceModel|
            found.contains(reference) <==> (references.contains(reference) && is_dangling(
                definitions,
                reference,
            )) by {
            if references.contains(reference) {
                let m = choose|m: int| 0 <= m < references.len() && references[m] == reference;
                if m < earlier.len() {
                    assert(earlier[m] == reference);
                }
            }
            if earlier.contains(reference) {
                let m = choose|m: int| 0 <= m < earlier.len() && earlier[m] == reference;
                assert(references[m] == reference);
            }
            if found_earlier.contains(reference) {
                let m = choose|m: int| 0 <= m < found_earlier.len() && found_earlier[m] == reference;
                assert(found[m] == reference);
            }
            if is_dangling(definitions, references.last()) {
                assert(found[found.len() - 1] == references.last());
                if found.contains(reference) {
                    let m = choose|m: int| 0 <= m < found.len() && found[m] == reference;
                    if m < found_earlier.len() {
                        assert(found_earlier[m] == reference);
                    }
                }
            }
            assert(references[references.len() - 1] == references.last());
        }
        if found.len() == 0 {
            assert(!is_dangling(definitions, references.last()));
            assert forall|k: int| 0 <= k < references.len() implies !is_dangling(
                definitions,
                #[trigger] references[k],
            ) by {
                if k < earlier.len() {
                    assert(references[k] == earlier[k]);
                }
            }
        } else {
            if !is_dangling(definitions, references.last()) {
                assert(found_earlier.len() > 0);
                let k = choose|k: int| 0 <= k < earlier.len() && is_dangling(definitions, #[trigger] earlier[k]);
                assert(references[k] == earlier[k]);
            } else {
                assert(references[references.len() - 1] == references.last());
            }
        }
    }
}

} // verus!
