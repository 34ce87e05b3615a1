//! What a reading of a description holds, said in terms of the document
//! itself: which references and ports it records, element by element, and
//! which of them dangle.

use vstd::prelude::*;

use crate::definitions::{
    dangling_among, defined_among, defined_by, is_dangling, law_dangling_are_the_references_that_do_not_land,
    local_name, operation_references, parsing, part_references, port_entries, port_references, reading,
    root_version, DefinitionsModel, ReferenceModel, Version,
};
use crate::xml::{xml_reading, DocumentModel};

verus! {

proof fn lemma_contains_push<A>(s: Seq<A>, x: A, y: A)
    ensures
        s.push(x).contains(y) <==> (s.contains(y) || x == y),
{
    if s.contains(y) {
        let k = choose|k: int| 0 <= k < s.len() && s[k] == y;
        assert(s.push(x)[k] == y);
    }
    if x == y {
        assert(s.push(x)[s.len() as int] == y);
    }
    if s.push(x).contains(y) {
        let k = choose|k: int| 0 <= k < s.push(x).len() && s.push(x)[k] == y;
        if k < s.len() {
            assert(s[k] == y);
        }
    }
}

proof fn lemma_contains_concat<A>(a: Seq<A>, b: Seq<A>, y: A)
    ensures
        (a + b).contains(y) <==> (a.contains(y) || b.contains(y)),
{
    if a.contains(y) {
        let k = choose|k: int| 0 <= k < a.len() && a[k] == y;
        assert((a + b)[k] == y);
    }
    if b.contains(y) {
        let k = choose|k: int| 0 <= k < b.len() && b[k] == y;
        assert((a + b)[a.len() + k] == y);
    }
    if (a + b).contains(y) {
        let k = choose|k: int| 0 <= k < (a + b).len() && (a + b)[k] == y;
        if k < a.len() {
            assert(a[k] == y);
        } else {
            assert(b[k - a.len()] == y);
        }
    }
}

proof fn lemma_contains_last<A>(s: Seq<A>, y: A)
    requires
        s.len() > 0,
    ensures
        s.contains(y) <==> (s.drop_last().contains(y) || s.last() == y),
{
    assert(s =~= s.drop_last().push(s.last()));
    lemma_contains_push(s.drop_last(), s.last(), y);
}

/// The reference that a part of an operation of a port type makes to its
/// message.
pub open spec fn message_reference(
    document: DocumentModel,
    port_type: usize,
    operation: usize,
    part: usize,
) -> ReferenceModel {
    ReferenceModel {
        from: "operation "@ + document.attribute(port_type as int, "name"@) + "/"@
            + document.attribute(operation as int, "name"@),
        to_kind: "message"@,
        to: local_name(document.attribute(part as int, "message"@)),
    }
}

/// In a WSDL 1.1 description, `part` is an element child of `operation`,
/// an `operation` child of the port type `port_type`, and names a message.
pub open spec fn names_a_message(
    document: DocumentModel,
    version: Version,
    port_type: usize,
    operation: usize,
    part: usize,
) -> bool {
    &&& version == Version::V11
    &&& document.nodes[port_type as int].name == "portType"@
    &&& document.named_children(port_type as int, "operation"@).contains(operation)
    &&& document.element_children(operation as int).contains(part)
    &&& document.attribute(part as int, "message"@).len() > 0
}

/// The attribute by which a binding names its port type or interface.
pub open spec fn bound_type(document: DocumentModel, version: Version, binding: usize) -> Seq<char> {
    if version == Version::V11 {
        document.attribute(binding as int, "type"@)
    } else {
        document.attribute(binding as int, "interface"@)
    }
}

/// The reference that a binding makes to its port type or interface.
pub open spec fn binding_reference(document: DocumentModel, version: Version, binding: usize) -> ReferenceModel {
    ReferenceModel {
        from: "binding "@ + document.attribute(binding as int, "name"@),
        to_kind: "portType"@,
        to: local_name(bound_type(document, version, binding)),
    }
}

/// `binding` is a binding that names its port type or interface.
pub open spec fn names_a_port_type(document: DocumentModel, version: Version, binding: usize) -> bool {
    &&& document.nodes[binding as int].name == "binding"@
    &&& bound_type(document, version, binding).len() > 0
}

/// The tag of a service's ports: `port` in WSDL 1.1, `endpoint` in 2.0.
pub open spec fn port_tag(version: Version) -> Seq<char> {
    if version == Version::V11 {
        "port"@
    } else {
        "endpoint"@
    }
}

/// `port` is a port (WSDL 1.1) or endpoint (2.0) of the service `service`.
pub open spec fn is_port_of(document: DocumentModel, version: Version, service: usize, port: usize) -> bool {
    &&& document.nodes[service as int].name == "service"@
    &&& document.named_children(service as int, port_tag(version)).contains(port)
}

/// The reference that a port makes to its binding.
pub open spec fn port_binding_reference(document: DocumentModel, service: usize, port: usize) -> ReferenceModel {
    ReferenceModel {
        from: "port "@ + document.attribute(service as int, "name"@) + "/"@
            + document.attribute(port as int, "name"@),
        to_kind: "binding"@,
        to: local_name(document.attribute(port as int, "binding"@)),
    }
}

/// The (service, port) pair that a port is recorded as.
pub open spec fn port_entry(document: DocumentModel, service: usize, port: usize) -> (Seq<char>, Seq<char>) {
    (document.attribute(service as int, "name"@), document.attribute(port as int, "name"@))
}

/// `part` of an operation that `from` names refers, in a WSDL 1.1
/// description, to its message by `reference`.
pub open spec fn part_makes(
    version: Version,
    document: DocumentModel,
    from: Seq<char>,
    part: usize,
    reference: ReferenceModel,
) -> bool {
    &&& version == Version::V11
    &&& document.attribute(part as int, "message"@).len() > 0
    &&& reference == (ReferenceModel {
        from,
        to_kind: "message"@,
        to: local_name(document.attribute(part as int, "message"@)),
    })
}

proof fn lemma_map_contains<A, B>(s: Seq<A>, f: spec_fn(A) -> B, y: B)
    ensures
        s.map_values(f).contains(y) <==> exists|x: A| #[trigger] s.contains(x) && f(x) == y,
{
    if s.map_values(f).contains(y) {
        let k = choose|k: int| 0 <= k < s.map_values(f).len() && s.map_values(f)[k] == y;
        assert(s.contains(s[k]));
    }
    if exists|x: A| #[trigger] s.contains(x) && f(x) == y {
        let x = choose|x: A| #[trigger] s.contains(x) && f(x) == y;
        let k = choose|k: int| 0 <= k < s.len() && s[k] == x;
        assert(s.map_values(f)[k] == y);
    }
}

proof fn lemma_part_layer(version: Version, document: DocumentModel, from: Seq<char>, parts: Seq<usize>)
    ensures
        forall|r: ReferenceModel|
            #[trigger] part_references(version, document, from, parts).contains(r) <==> exists|
                part: usize,
            | #[trigger] parts.contains(part) && part_makes(version, document, from, part, r),
    decreases parts.len(),
{
    let found = part_references(version, document, from, parts);
    if parts.len() == 0 {
        assert(found =~= Seq::<ReferenceModel>::empty());
    } else {
        let earlier = parts.drop_last();
        let last = parts.last();
        lemma_part_layer(version, document, from, earlier);
        let found_earlier = part_references(version, document, from, earlier);
        let last_reference = ReferenceModel {
            from,
            to_kind: "message"@,
            to: local_name(document.attribute(last as int, "message"@)),
        };
        assert forall|r: ReferenceModel| #[trigger]
            found.contains(r) <==> exists|part: usize|
                #[trigger] parts.contains(part) && part_makes(version, document, from, part, r) by {
            lemma_contains_push(found_earlier, last_reference, r);
            lemma_contains_last(parts, last);
            if found.contains(r) && found_earlier.contains(r) {
                let part = choose|part: usize|
                    #[trigger] earlier.contains(part) && part_makes(version, document, from, part, r);
                lemma_contains_last(parts, part);
            }
            if exists|part: usize| #[trigger] parts.contains(part) && part_makes(version, document, from, part, r) {
                let part = choose|part: usize|
                    #[trigger] parts.contains(part) && part_makes(version, document, from, part, r);
                lemma_contains_last(parts, part);
            }
        }
    }
}

/// The label by which an operation of a port type refers.
spec fn operation_from(document: DocumentModel, port_type: Seq<char>, operation: usize) -> Seq<char> {
    "operation "@ + port_type + "/"@ + document.attribute(operation as int, "name"@)
}

proof fn lemma_operation_layer(
    version: Version,
    document: DocumentModel,
    port_type: Seq<char>,
    operations: Seq<usize>,
)
    ensures
        forall|r: ReferenceModel|
            #[trigger] operation_references(version, document, port_type, operations).contains(r)
                <==> exists|operation: usize, part: usize|
                #![trigger operations.contains(operation), document.element_children(operation as int).contains(part)]
                operations.contains(operation) && document.element_children(operation as int).contains(
                    part,
                ) && part_makes(version, document, operation_from(document, port_type, operation), part, r),
    decreases operations.len(),
{
    let found = operation_references(version, document, port_type, operations);
    if operations.len() == 0 {
        assert(found =~= Seq::<ReferenceModel>::empty());
    } else {
        let earlier = operations.drop_last();
        let last = operations.last();
        lemma_operation_layer(version, document, port_type, earlier);
        let found_earlier = operation_references(version, document, port_type, earlier);
        let from = operation_from(document, port_type, last);
        let parts = document.element_children(last as int);
        let found_last = part_references(version, document, from, parts);
        lemma_part_layer(version, document, from, parts);
        assert(found == found_earlier + found_last);
        assert forall|r: ReferenceModel| #[trigger]
            found.contains(r) <==> exists|operation: usize, part: usize|
                #![trigger operations.contains(operation), document.element_children(operation as int).contains(part)]
                operations.contains(operation) && document.element_children(operation as int).contains(
                    part,
                ) && part_makes(version, document, operation_from(document, port_type, operation), part, r) by {
            lemma_contains_concat(found_earlier, found_last, r);
            lemma_contains_last(operations, last);
            if found_earlier.contains(r) {
                let (operation, part) = choose|operation: usize, part: usize|
                    #![trigger earlier.contains(operation), document.element_children(operation as int).contains(part)]
                    earlier.contains(operation) && document.element_children(operation as int).contains(
                        part,
                    ) && part_makes(version, document, operation_from(document, port_type, operation), part, r);
                lemma_contains_last(operations, operation);
            }
            if found_last.contains(r) {
                let part = choose|part: usize| #[trigger] parts.contains(part) && part_makes(version, document, from, part, r);
                assert(operations.contains(last) && document.element_children(last as int).contains(part));
            }
            if exists|operation: usize, part: usize|
                #![trigger operations.contains(operation), document.element_children(operation as int).contains(part)]
                operations.contains(operation) && document.element_children(operation as int).contains(
                    part,
                ) && part_makes(version, document, operation_from(document, port_type, operation), part, r) {
                let (operation, part) = choose|operation: usize, part: usize|
                    #![trigger operations.contains(operation), document.element_children(operation as int).contains(part)]
                    operations.contains(operation) && document.element_children(operation as int).contains(
                        part,
                    ) && part_makes(version, document, operation_from(document, port_type, operation), part, r);
                lemma_contains_last(operations, operation);
                if operation == last {
                    assert(parts.contains(part));
                } else {
                    assert(earlier.contains(operation));
                }
            }
        }
    }
}

proof fn lemma_tags_differ()
    ensures
        "message"@ != "portType"@,
        "message"@ != "interface"@,
        "message"@ != "binding"@,
        "message"@ != "service"@,
        "portType"@ != "interface"@,
        "portType"@ != "binding"@,
        "portType"@ != "service"@,
        "interface"@ != "binding"@,
        "interface"@ != "service"@,
        "binding"@ != "service"@,
{
    reveal_strlit("message");
    reveal_strlit("portType");
    reveal_strlit("interface");
    reveal_strlit("binding");
    reveal_strlit("service");
    assert("message"@[0] != "portType"@[0]);
    assert("message"@[0] != "interface"@[0]);
    assert("message"@[0] != "binding"@[0]);
    assert("message"@[0] != "service"@[0]);
    assert("portType"@[0] != "interface"@[0]);
    assert("portType"@[0] != "binding"@[0]);
    assert("portType"@[0] != "service"@[0]);
    assert("interface"@[0] != "binding"@[0]);
    assert("interface"@[0] != "service"@[0]);
    assert("binding"@[0] != "service"@[0]);
}

/// What the references of one top-level element are.
spec fn element_refers(version: Version, document: DocumentModel, child: usize, r: ReferenceModel) -> bool {
    ||| exists|operation: usize, part: usize|
        #[trigger] names_a_message(document, version, child, operation, part) && r
            == message_reference(document, child, operation, part)
    ||| names_a_port_type(document, version, child) && r == binding_reference(document, version, child)
    ||| exists|port: usize| #[trigger] is_port_of(document, version, child, port) && r
        == port_binding_reference(document, child, port)
}

proof fn lemma_element_layer(version: Version, document: DocumentModel, child: usize)
    ensures
        forall|r: ReferenceModel|
            #[trigger] defined_by(version, document, child as int).references.contains(r)
                <==> element_refers(version, document, child, r),
        forall|entry: (Seq<char>, Seq<char>)|
            #[trigger] defined_by(version, document, child as int).ports.contains(entry) <==> exists|
                port: usize,
            | #[trigger] is_port_of(document, version, child, port) && entry == port_entry(
                document,
                child,
                port,
            ),
{
    lemma_tags_differ();
    let node = document.nodes[child as int];
    let name = document.attribute(child as int, "name"@);
    let defined = defined_by(version, document, child as int);
    let operations = document.named_children(child as int, "operation"@);
    let ports = document.named_children(child as int, port_tag(version));
    lemma_operation_layer(version, document, name, operations);
    let port_view = |port: usize| (name, document.attribute(port as int, "name"@));
    let reference_view = |port: usize|
        ReferenceModel {
            from: "port "@ + name + "/"@ + document.attribute(port as int, "name"@),
            to_kind: "binding"@,
            to: local_name(document.attribute(port as int, "binding"@)),
        };
    assert forall|r: ReferenceModel| #[trigger]
        defined.references.contains(r) <==> element_refers(version, document, child, r) by {
        if version == Version::V11 && node.name == "message"@ {
            assert(defined.references =~= Seq::<ReferenceModel>::empty());
        } else if (version == Version::V11 && node.name == "portType"@) || (version == Version::V20
            && node.name == "interface"@) {
            assert(defined.references == operation_references(version, document, name, operations));
            if defined.references.contains(r) {
                let (operation, part) = choose|operation: usize, part: usize|
                    #![trigger operations.contains(operation), document.element_children(operation as int).contains(part)]
                    operations.contains(operation) && document.element_children(operation as int).contains(
                        part,
                    ) && part_makes(version, document, operation_from(document, name, operation), part, r);
                assert(names_a_message(document, version, child, operation, part));
            }
            if exists|operation: usize, part: usize|
                #[trigger] names_a_message(document, version, child, operation, part) && r
                    == message_reference(document, child, operation, part) {
                let (operation, part) = choose|operation: usize, part: usize|
                    #[trigger] names_a_message(document, version, child, operation, part) && r
                        == message_reference(document, child, operation, part);
                assert(operations.contains(operation) && document.element_children(operation as int).contains(part));
            }
        } else if node.name == "binding"@ {
            if bound_type(document, version, child).len() > 0 {
                assert(defined.references =~= seq![binding_reference(document, version, child)]);
                lemma_contains_push(Seq::<ReferenceModel>::empty(), binding_reference(document, version, child), r);
                assert(seq![binding_reference(document, version, child)] =~= Seq::<ReferenceModel>::empty().push(binding_reference(document, version, child)));
            } else {
                assert(defined.references =~= Seq::<ReferenceModel>::empty());
            }
        } else if node.name == "service"@ {
            assert(defined.references == ports.map_values(reference_view));
            lemma_map_contains(ports, reference_view, r);
            if defined.references.contains(r) {
                let port = choose|port: usize| #[trigger] ports.contains(port) && reference_view(port) == r;
                assert(is_port_of(document, version, child, port));
            }
            if exists|port: usize| #[trigger] is_port_of(document, version, child, port) && r
                == port_binding_reference(document, child, port) {
                let port = choose|port: usize| #[trigger] is_port_of(document, version, child, port) && r
                    == port_binding_reference(document, child, port);
                assert(ports.contains(port));
            }
        } else {
            assert(defined.references =~= Seq::<ReferenceModel>::empty());
        }
    }
    assert forall|entry: (Seq<char>, Seq<char>)| #[trigger]
        defined.ports.contains(entry) <==> exists|port: usize|
            #[trigger] is_port_of(document, version, child, port) && entry == port_entry(document, child, port) by {
        if !(version == Version::V11 && node.name == "message"@) && !((version == Version::V11
            && node.name == "portType"@) || (version == Version::V20 && node.name == "interface"@))
            && !(node.name == "binding"@) && node.name == "service"@ {
            assert(defined.ports == ports.map_values(port_view));
            lemma_map_contains(ports, port_view, entry);
            if defined.ports.contains(entry) {
                let port = choose|port: usize| #[trigger] ports.contains(port) && port_view(port) == entry;
                assert(is_port_of(document, version, child, port));
            }
            if exists|port: usize| #[trigger] is_port_of(document, version, child, port) && entry
                == port_entry(document, child, port) {
                let port = choose|port: usize| #[trigger] is_port_of(document, version, child, port) && entry
                    == port_entry(document, child, port);
                assert(ports.contains(port));
            }
        } else {
            assert(defined.ports =~= Seq::<(Seq<char>, Seq<char>)>::empty());
        }
    }
}

proof fn lemma_among_layer(version: Version, document: DocumentModel, children: Seq<usize>)
    ensures
        forall|r: ReferenceModel|
            #[trigger] defined_among(version, document, children).references.contains(r) <==> exists|
                child: usize,
            | #[trigger] children.contains(child) && element_refers(version, document, child, r),
        forall|entry: (Seq<char>, Seq<char>)|
            #[trigger] defined_among(version, document, children).ports.contains(entry) <==> exists|
                child: usize,
                port: usize,
            |
                #![trigger children.contains(child), is_port_of(document, version, child, port)]
                children.contains(child) && is_port_of(document, version, child, port) && entry
                    == port_entry(document, child, port),
    decreases children.len(),
{
    let whole = defined_among(version, document, children);
    if children.len() == 0 {
        assert(whole.references =~= Seq::<ReferenceModel>::empty());
        assert(whole.ports =~= Seq::<(Seq<char>, Seq<char>)>::empty());
    } else {
        let earlier = children.drop_last();
        let last = children.last();
        lemma_among_layer(version, document, earlier);
        lemma_element_layer(version, document, last);
        let before = defined_among(version, document, earlier);
        let added = defined_by(version, document, last as int);
        assert(whole.references == before.references + added.references);
        assert(whole.ports == before.ports + added.ports);
        assert forall|r: ReferenceModel| #[trigger]
            whole.references.contains(r) <==> exists|child: usize|
                #[trigger] children.contains(child) && element_refers(version, document, child, r) by {
            lemma_contains_concat(before.references, added.references, r);
            lemma_contains_last(children, last);
            if before.references.contains(r) {
                let child = choose|child: usize|
                    #[trigger] earlier.contains(child) && element_refers(version, document, child, r);
                lemma_contains_last(children, child);
            }
            if exists|child: usize| #[trigger] children.contains(child) && element_refers(version, document, child, r) {
                let child = choose|child: usize|
                    #[trigger] children.contains(child) && element_refers(version, document, child, r);
                lemma_contains_last(children, child);
            }
        }
        assert forall|entry: (Seq<char>, Seq<char>)| #[trigger]
            whole.ports.contains(entry) <==> exists|child: usize, port: usize|
                #![trigger children.contains(child), is_port_of(document, version, child, port)]
                children.contains(child) && is_port_of(document, version, child, port) && entry
                    == port_entry(document, child, port) by {
            lemma_contains_concat(before.ports, added.ports, entry);
            lemma_contains_last(children, last);
            if before.ports.contains(entry) {
                let (child, port) = choose|child: usize, port: usize|
                    #![trigger earlier.contains(child), is_port_of(document, version, child, port)]
                    earlier.contains(child) && is_port_of(document, version, child, port) && entry
                        == port_entry(document, child, port);
                lemma_contains_last(children, child);
            }
            if added.ports.contains(entry) {
                let port = choose|port: usize| #[trigger] is_port_of(document, version, last, port) && entry
                    == port_entry(document, last, port);
                assert(children.contains(last) && is_port_of(document, version, last, port));
            }
            if exists|child: usize, port: usize|
                #![trigger children.contains(child), is_port_of(document, version, child, port)]
                children.contains(child) && is_port_of(document, version, child, port) && entry
                    == port_entry(document, child, port) {
                let (child, port) = choose|child: usize, port: usize|
                    #![trigger children.contains(child), is_port_of(document, version, child, port)]
                    children.contains(child) && is_port_of(document, version, child, port) && entry
                        == port_entry(document, child, port);
                lemma_contains_last(children, child);
                if child == last {
                    assert(added.ports.contains(entry));
                } else {
                    assert(earlier.contains(child));
                }
            }
        }
    }
}

/// The references of a description are exactly: for every part (input,
/// output, fault or any other element) of every operation of every WSDL
/// 1.1 port type that names a message, a reference from
/// `operation PORTTYPE/OPERATION` to that message; for every binding that
/// names its port type (1.1) or interface (2.0), a reference from
/// `binding BINDING` to it; and for every port (1.1) or endpoint (2.0) of
/// every service, a reference from `port SERVICE/PORT` to its binding.
/// Each target is taken by its local name.
pub proof fn law_the_references_are_those_of_parts_bindings_and_ports(
    document: DocumentModel,
    version: Version,
)
    requires
        root_version(document, document.root_element()) == Some(version),
    ensures
        reading(document) matches Ok(definitions) && forall|r: ReferenceModel|
            #[trigger] definitions.references.contains(r) <==> {
                ||| exists|port_type: usize, operation: usize, part: usize|
                    #![trigger document.element_children(document.root_element()).contains(port_type), names_a_message(document, version, port_type, operation, part)]
                    document.element_children(document.root_element()).contains(port_type)
                        && names_a_message(document, version, port_type, operation, part) && r
                        == message_reference(document, port_type, operation, part)
                ||| exists|binding: usize|
                    #[trigger] document.element_children(document.root_element()).contains(binding)
                        && names_a_port_type(document, version, binding) && r == binding_reference(
                        document,
                        version,
                        binding,
                    )
                ||| exists|service: usize, port: usize|
                    #![trigger document.element_children(document.root_element()).contains(service), is_port_of(document, version, service, port)]
                    document.element_children(document.root_element()).contains(service)
                        && is_port_of(document, version, service, port) && r == port_binding_reference(
                        document,
                        service,
                        port,
                    )
            },
{
    let children = document.element_children(document.root_element());
    lemma_among_layer(version, document, children);
    let definitions = defined_among(version, document, children);
    assert forall|r: ReferenceModel| #[trigger] definitions.references.contains(r) <==> {
        ||| exists|port_type: usize, operation: usize, part: usize|
            #![trigger children.contains(port_type), names_a_message(document, version, port_type, operation, part)]
            children.contains(port_type) && names_a_message(document, version, port_type, operation, part)
                && r == message_reference(document, port_type, operation, part)
        ||| exists|binding: usize|
            #[trigger] children.contains(binding) && names_a_port_type(document, version, binding) && r
                == binding_reference(document, version, binding)
        ||| exists|service: usize, port: usize|
            #![trigger children.contains(service), is_port_of(document, version, service, port)]
            children.contains(service) && is_port_of(document, version, service, port) && r
                == port_binding_reference(document, service, port)
    } by {
        if definitions.references.contains(r) {
            let child = choose|child: usize| #[trigger] children.contains(child) && element_refers(version, document, child, r);
            if exists|operation: usize, part: usize|
                #[trigger] names_a_message(document, version, child, operation, part) && r
                    == message_reference(document, child, operation, part) {
                let (operation, part) = choose|operation: usize, part: usize|
                    #[trigger] names_a_message(document, version, child, operation, part) && r
                        == message_reference(document, child, operation, part);
                assert(children.contains(child) && names_a_message(document, version, child, operation, part));
            } else if exists|port: usize| #[trigger] is_port_of(document, version, child, port) && r
                == port_binding_reference(document, child, port) {
                let port = choose|port: usize| #[trigger] is_port_of(document, version, child, port) && r
                    == port_binding_reference(document, child, port);
                assert(children.contains(child) && is_port_of(document, version, child, port));
            }
        }
        if exists|port_type: usize, operation: usize, part: usize|
            #![trigger children.contains(port_type), names_a_message(document, version, port_type, operation, part)]
            children.contains(port_type) && names_a_message(document, version, port_type, operation, part)
                && r == message_reference(document, port_type, operation, part) {
            let (port_type, operation, part) = choose|port_type: usize, operation: usize, part: usize|
                #![trigger children.contains(port_type), names_a_message(document, version, port_type, operation, part)]
                children.contains(port_type) && names_a_message(document, version, port_type, operation, part)
                    && r == message_reference(document, port_type, operation, part);
            assert(element_refers(version, document, port_type, r));
        }
        if exists|binding: usize|
            #[trigger] children.contains(binding) && names_a_port_type(document, version, binding) && r
                == binding_reference(document, version, binding) {
            let binding = choose|binding: usize|
                #[trigger] children.contains(binding) && names_a_port_type(document, version, binding) && r
                    == binding_reference(document, version, binding);
            assert(element_refers(version, document, binding, r));
        }
        if exists|service: usize, port: usize|
            #![trigger children.contains(service), is_port_of(document, version, service, port)]
            children.contains(service) && is_port_of(document, version, service, port) && r
                == port_binding_reference(document, service, port) {
            let (service, port) = choose|service: usize, port: usize|
                #![trigger children.contains(service), is_port_of(document, version, service, port)]
                children.contains(service) && is_port_of(document, version, service, port) && r
                    == port_binding_reference(document, service, port);
            assert(element_refers(version, document, service, r));
        }
    }
}

/// The ports of a description are exactly the (service, port) pairs of
/// every port (WSDL 1.1) or endpoint (2.0) of every service it defines.
pub proof fn law_the_ports_are_those_of_the_services(document: DocumentModel, version: Version)
    requires
        root_version(document, document.root_element()) == Some(version),
    ensures
        reading(document) matches Ok(definitions) && forall|entry: (Seq<char>, Seq<char>)|
            #[trigger] definitions.ports.contains(entry) <==> exists|service: usize, port: usize|
                #![trigger document.element_children(document.root_element()).contains(service), is_port_of(document, version, service, port)]
                document.element_children(document.root_element()).contains(service) && is_port_of(
                    document,
                    version,
                    service,
                    port,
                ) && entry == port_entry(document, service, port),
{
    lemma_among_layer(version, document, document.element_children(document.root_element()));
}

/// Some name of `names` is, character for character, `name`.
pub open spec fn has_name(names: Seq<Seq<char>>, name: Seq<char>) -> bool {
    exists|k: int| 0 <= k < names.len() && #[trigger] names[k] == name
}

/// A reference dangles exactly when it refers to a message, port type or
/// binding and no message, port type or binding respectively has, exactly,
/// the name it refers to; the dangling references are those of the
/// references that dangle.
pub proof fn law_a_reference_dangles_exactly_when_no_name_of_its_kind_is_its_target(
    definitions: DefinitionsModel,
)
    ensures
        forall|r: ReferenceModel|
            #[trigger] dangling_among(definitions, definitions.references).contains(r) <==> {
                &&& definitions.references.contains(r)
                &&& {
                    ||| r.to_kind == "message"@ && !has_name(definitions.messages, r.to)
                    ||| r.to_kind == "portType"@ && !has_name(definitions.port_types, r.to)
                    ||| r.to_kind == "binding"@ && !has_name(definitions.bindings, r.to)
                }
            },
{
    lemma_tags_differ();
    law_dangling_are_the_references_that_do_not_land(definitions, definitions.references);
    assert forall|r: ReferenceModel| #[trigger]
        dangling_among(definitions, definitions.references).contains(r) <==> {
            &&& definitions.references.contains(r)
            &&& {
                ||| r.to_kind == "message"@ && !has_name(definitions.messages, r.to)
                ||| r.to_kind == "portType"@ && !has_name(definitions.port_types, r.to)
                ||| r.to_kind == "binding"@ && !has_name(definitions.bindings, r.to)
            }
        } by {
        assert(definitions.messages.contains(r.to) == has_name(definitions.messages, r.to));
        assert(definitions.port_types.contains(r.to) == has_name(definitions.port_types, r.to));
        assert(definitions.bindings.contains(r.to) == has_name(definitions.bindings, r.to));
        assert(is_dangling(definitions, r) == {
            ||| r.to_kind == "message"@ && !has_name(definitions.messages, r.to)
            ||| r.to_kind == "portType"@ && !has_name(definitions.port_types, r.to)
            ||| r.to_kind == "binding"@ && !has_name(definitions.bindings, r.to)
        });
    }
}

/// How many of `parts` name a message.
pub open spec fn message_naming_parts(document: DocumentModel, parts: Seq<usize>) -> nat
    decreases parts.len(),
{
    if parts.len() == 0 {
        0
    } else {
        message_naming_parts(document, parts.drop_last()) + if document.attribute(
            parts.last() as int,
            "message"@,
        ).len() > 0 {
            1nat
        } else {
            0nat
        }
    }
}

/// How many parts of `operations`, all together, name a message.
pub open spec fn message_naming_parts_of(document: DocumentModel, operations: Seq<usize>) -> nat
    decreases operations.len(),
{
    if operations.len() == 0 {
        0
    } else {
        message_naming_parts_of(document, operations.drop_last()) + message_naming_parts(
            document,
            document.element_children(operations.last() as int),
        )
    }
}

/// How many references the top-level element `child` makes: one for each
/// message-naming part of its operations (a WSDL 1.1 port type), one for a
/// binding that names its port type or interface, one for each port or
/// endpoint of a service.
pub open spec fn references_made_by(document: DocumentModel, version: Version, child: usize) -> nat {
    let node = document.nodes[child as int];
    if version == Version::V11 && node.name == "portType"@ {
        message_naming_parts_of(document, document.named_children(child as int, "operation"@))
    } else if node.name == "binding"@ {
        if bound_type(document, version, child).len() > 0 {
            1
        } else {
            0
        }
    } else if node.name == "service"@ {
        document.named_children(child as int, port_tag(version)).len()
    } else {
        0
    }
}

/// How many ports or endpoints the top-level element `child` has.
pub open spec fn ports_of_element(document: DocumentModel, version: Version, child: usize) -> nat {
    if document.nodes[child as int].name == "service"@ {
        document.named_children(child as int, port_tag(version)).len()
    } else {
        0
    }
}

/// The references made by the top-level elements `children`, counted.
pub open spec fn references_made_among(document: DocumentModel, version: Version, children: Seq<usize>) -> nat
    decreases children.len(),
{
    if children.len() == 0 {
        0
    } else {
        references_made_among(document, version, children.drop_last()) + references_made_by(
            document,
            version,
            children.last(),
        )
    }
}

/// The ports of the top-level elements `children`, counted.
pub open spec fn ports_among(document: DocumentModel, version: Version, children: Seq<usize>) -> nat
    decreases children.len(),
{
    if children.len() == 0 {
        0
    } else {
        ports_among(document, version, children.drop_last()) + ports_of_element(
            document,
            version,
            children.last(),
        )
    }
}

proof fn lemma_part_count(version: Version, document: DocumentModel, from: Seq<char>, parts: Seq<usize>)
    ensures
        part_references(version, document, from, parts).len() == if version == Version::V11 {
            message_naming_parts(document, parts)
        } else {
            0
        },
    decreases parts.len(),
{
    if parts.len() > 0 {
        lemma_part_count(version, document, from, parts.drop_last());
    }
}

proof fn lemma_operation_count(
    version: Version,
    document: DocumentModel,
    port_type: Seq<char>,
    operations: Seq<usize>,
)
    ensures
        operation_references(version, document, port_type, operations).len() == if version
            == Version::V11 {
            message_naming_parts_of(document, operations)
        } else {
            0
        },
    decreases operations.len(),
{
    if operations.len() > 0 {
        let last = operations.last();
        lemma_operation_count(version, document, port_type, operations.drop_last());
        lemma_part_count(
            version,
            document,
            operation_from(document, port_type, last),
            document.element_children(last as int),
        );
    }
}

proof fn lemma_element_count(version: Version, document: DocumentModel, child: usize)
    ensures
        defined_by(version, document, child as int).references.len() == references_made_by(
            document,
            version,
            child,
        ),
        defined_by(version, document, child as int).ports.len() == ports_of_element(
            document,
            version,
            child,
        ),
{
    lemma_tags_differ();
    let node = document.nodes[child as int];
    let name = document.attribute(child as int, "name"@);
    lemma_operation_count(
        version,
        document,
        name,
        document.named_children(child as int, "operation"@),
    );
}

proof fn lemma_among_count(version: Version, document: DocumentModel, children: Seq<usize>)
    ensures
        defined_among(version, document, children).references.len() == references_made_among(
            document,
            version,
            children,
        ),
        defined_among(version, document, children).ports.len() == ports_among(
            document,
            version,
            children,
        ),
    decreases children.len(),
{
    if children.len() > 0 {
        lemma_among_count(version, document, children.drop_last());
        lemma_element_count(version, document, children.last());
    }
}

/// A description records one reference for each part of each operation
/// of each WSDL 1.1 port type that names a message, one for each binding
/// that names its port type or interface and one for each port or
/// endpoint of each service; and one port for each port or endpoint of
/// each service. Nothing is recorded twice or left out.
pub proof fn law_every_referring_element_is_recorded_once(document: DocumentModel, version: Version)
    requires
        root_version(document, document.root_element()) == Some(version),
    ensures
        reading(document) matches Ok(definitions) && definitions.references.len()
            == references_made_among(
            document,
            version,
            document.element_children(document.root_element()),
        ) && definitions.ports.len() == ports_among(
            document,
            version,
            document.element_children(document.root_element()),
        ),
{
    lemma_among_count(version, document, document.element_children(document.root_element()));
}

/// `reference` refers to a message, port type or binding of which no
/// name of that kind is, exactly, its target.
pub open spec fn fails_to_land(definitions: DefinitionsModel, reference: ReferenceModel) -> bool {
    ||| reference.to_kind == "message"@ && !has_name(definitions.messages, reference.to)
    ||| reference.to_kind == "portType"@ && !has_name(definitions.port_types, reference.to)
    ||| reference.to_kind == "binding"@ && !has_name(definitions.bindings, reference.to)
}

proof fn lemma_dangling_is_failing_to_land(definitions: DefinitionsModel, reference: ReferenceModel)
    ensures
        is_dangling(definitions, reference) == fails_to_land(definitions, reference),
{
    lemma_tags_differ();
    assert(definitions.messages.contains(reference.to) == has_name(definitions.messages, reference.to));
    assert(definitions.port_types.contains(reference.to) == has_name(
        definitions.port_types,
        reference.to,
    ));
    assert(definitions.bindings.contains(reference.to) == has_name(definitions.bindings, reference.to));
}

/// The dangling references are the references that fail to land, each
/// once, in the order of the references.
pub proof fn law_the_dangling_references_are_those_that_fail_to_land_in_order(
    definitions: DefinitionsModel,
    references: Seq<ReferenceModel>,
)
    ensures
        dangling_among(definitions, references) == references.filter(
            |reference: ReferenceModel| fails_to_land(definitions, reference),
        ),
    decreases references.len(),
{
    reveal(Seq::filter);
    if references.len() > 0 {
        law_the_dangling_references_are_those_that_fail_to_land_in_order(
            definitions,
            references.drop_last(),
        );
        lemma_dangling_is_failing_to_land(definitions, references.last());
    }
}

/// Which kind of name a top-level element defines: a message (WSDL 1.1),
/// a port type (1.1) or interface (2.0), a binding or a service.
pub open spec fn defines_message(document: DocumentModel, version: Version, child: usize) -> bool {
    version == Version::V11 && document.nodes[child as int].name == "message"@
}

pub open spec fn defines_port_type(document: DocumentModel, version: Version, child: usize) -> bool {
    ||| version == Version::V11 && document.nodes[child as int].name == "portType"@
    ||| version == Version::V20 && document.nodes[child as int].name == "interface"@
}

pub open spec fn defines_binding(document: DocumentModel, version: Version, child: usize) -> bool {
    document.nodes[child as int].name == "binding"@
}

pub open spec fn defines_service(document: DocumentModel, version: Version, child: usize) -> bool {
    document.nodes[child as int].name == "service"@
}

/// How many of `children` satisfy `kind`.
pub open spec fn how_many(children: Seq<usize>, kind: spec_fn(usize) -> bool) -> nat
    decreases children.len(),
{
    if children.len() == 0 {
        0
    } else {
        how_many(children.drop_last(), kind) + if kind(children.last()) {
            1nat
        } else {
            0nat
        }
    }
}

proof fn lemma_names_among(
    version: Version,
    document: DocumentModel,
    children: Seq<usize>,
    field: spec_fn(DefinitionsModel) -> Seq<Seq<char>>,
    kind: spec_fn(usize) -> bool,
)
    requires
        forall|child: usize|
            #[trigger] field(defined_by(version, document, child as int)) == if kind(child) {
                seq![document.attribute(child as int, "name"@)]
            } else {
                Seq::<Seq<char>>::empty()
            },
        forall|a: DefinitionsModel, b: DefinitionsModel|
            #[trigger] field(a.followed_by(b)) == field(a) + field(b),
        field(DefinitionsModel::empty(Some(version))) == Seq::<Seq<char>>::empty(),
    ensures
        field(defined_among(version, document, children)).len() == how_many(children, kind),
        forall|name: Seq<char>|
            #[trigger] field(defined_among(version, document, children)).contains(name) <==> exists|
                child: usize,
            | #[trigger] children.contains(child) && kind(child) && document.attribute(
                child as int,
                "name"@,
            ) == name,
    decreases children.len(),
{
    let whole = field(defined_among(version, document, children));
    if children.len() == 0 {
        assert(whole =~= Seq::<Seq<char>>::empty());
    } else {
        let earlier = children.drop_last();
        let last = children.last();
        lemma_names_among(version, document, earlier, field, kind);
        let before = field(defined_among(version, document, earlier));
        let added = field(defined_by(version, document, last as int));
        assert(whole == before + added);
        assert forall|name: Seq<char>| #[trigger]
            whole.contains(name) <==> exists|child: usize|
                #[trigger] children.contains(child) && kind(child) && document.attribute(
                    child as int,
                    "name"@,
                ) == name by {
            lemma_contains_concat(before, added, name);
            lemma_contains_last(children, last);
            lemma_contains_push(Seq::<Seq<char>>::empty(), document.attribute(last as int, "name"@), name);
            assert(seq![document.attribute(last as int, "name"@)] =~= Seq::<Seq<char>>::empty().push(
                document.attribute(last as int, "name"@),
            ));
            if before.contains(name) {
                let child = choose|child: usize|
                    #[trigger] earlier.contains(child) && kind(child) && document.attribute(
                        child as int,
                        "name"@,
                    ) == name;
                lemma_contains_last(children, child);
            }
            if exists|child: usize|
                #[trigger] children.contains(child) && kind(child) && document.attribute(
                    child as int,
                    "name"@,
                ) == name {
                let child = choose|child: usize|
                    #[trigger] children.contains(child) && kind(child) && document.attribute(
                        child as int,
                        "name"@,
                    ) == name;
                lemma_contains_last(children, child);
            }
        }
    }
}

proof fn lemma_element_names(version: Version, document: DocumentModel, child: usize)
    ensures
        defined_by(version, document, child as int).messages == if defines_message(document, version, child) {
            seq![document.attribute(child as int, "name"@)]
        } else {
            Seq::<Seq<char>>::empty()
        },
        defined_by(version, document, child as int).port_types == if defines_port_type(document, version, child) {
            seq![document.attribute(child as int, "name"@)]
        } else {
            Seq::<Seq<char>>::empty()
        },
        defined_by(version, document, child as int).bindings == if defines_binding(document, version, child) {
            seq![document.attribute(child as int, "name"@)]
        } else {
            Seq::<Seq<char>>::empty()
        },
        defined_by(version, document, child as int).services == if defines_service(document, version, child) {
            seq![document.attribute(child as int, "name"@)]
        } else {
            Seq::<Seq<char>>::empty()
        },
{
    lemma_tags_differ();
}

/// A description defines, by name, exactly one message for each WSDL 1.1
/// `message` element, one port type for each 1.1 `portType` or 2.0
/// `interface`, one binding for each `binding` and one service for each
/// `service` among the root's element children.
pub proof fn law_the_names_defined_are_those_of_the_defining_elements(
    document: DocumentModel,
    version: Version,
)
    requires
        root_version(document, document.root_element()) == Some(version),
    ensures
        reading(document) matches Ok(definitions) && {
            let children = document.element_children(document.root_element());
            &&& definitions.messages.len() == how_many(
                children,
                |child: usize| defines_message(document, version, child),
            )
            &&& forall|name: Seq<char>|
                #[trigger] definitions.messages.contains(name) <==> exists|child: usize|
                    #[trigger] children.contains(child) && defines_message(document, version, child)
                        && document.attribute(child as int, "name"@) == name
            &&& definitions.port_types.len() == how_many(
                children,
                |child: usize| defines_port_type(document, version, child),
            )
            &&& forall|name: Seq<char>|
                #[trigger] definitions.port_types.contains(name) <==> exists|child: usize|
                    #[trigger] children.contains(child) && defines_port_type(document, version, child)
                        && document.attribute(child as int, "name"@) == name
            &&& definitions.bindings.len() == how_many(
                children,
                |child: usize| defines_binding(document, version, child),
            )
            &&& forall|name: Seq<char>|
                #[trigger] definitions.bindings.contains(name) <==> exists|child: usize|
                    #[trigger] children.contains(child) && defines_binding(document, version, child)
                        && document.attribute(child as int, "name"@) == name
            &&& definitions.services.len() == how_many(
                children,
                |child: usize| defines_service(document, version, child),
            )
            &&& forall|name: Seq<char>|
                #[trigger] definitions.services.contains(name) <==> exists|child: usize|
                    #[trigger] children.contains(child) && defines_service(document, version, child)
                        && document.attribute(child as int, "name"@) == name
        },
{
    let children = document.element_children(document.root_element());
    assert forall|child: usize| #[trigger] defined_by(version, document, child as int).messages == if defines_message(document, version, child) {
            seq![document.attribute(child as int, "name"@)]
        } else {
            Seq::<Seq<char>>::empty()
        } by {
        lemma_element_names(version, document, child);
    }
    assert forall|child: usize| #[trigger] defined_by(version, document, child as int).port_types == if defines_port_type(document, version, child) {
            seq![document.attribute(child as int, "name"@)]
        } else {
            Seq::<Seq<char>>::empty()
        } by {
        lemma_element_names(version, document, child);
    }
    assert forall|child: usize| #[trigger] defined_by(version, document, child as int).bindings == if defines_binding(document, version, child) {
            seq![document.attribute(child as int, "name"@)]
        } else {
            Seq::<Seq<char>>::empty()
        } by {
        lemma_element_names(version, document, child);
    }
    assert forall|child: usize| #[trigger] defined_by(version, document, child as int).services == if defines_service(document, version, child) {
            seq![document.attribute(child as int, "name"@)]
        } else {
            Seq::<Seq<char>>::empty()
        } by {
        lemma_element_names(version, document, child);
    }
    lemma_names_among(
        version,
        document,
        children,
        |d: DefinitionsModel| d.messages,
        |child: usize| defines_message(document, version, child),
    );
    lemma_names_among(
        version,
        document,
        children,
        |d: DefinitionsModel| d.port_types,
        |child: usize| defines_port_type(document, version, child),
    );
    lemma_names_among(
        version,
        document,
        children,
        |d: DefinitionsModel| d.bindings,
        |child: usize| defines_binding(document, version, child),
    );
    lemma_names_among(
        version,
        document,
        children,
        |d: DefinitionsModel| d.services,
        |child: usize| defines_service(document, version, child),
    );
}

proof fn lemma_version_kept(version: Version, document: DocumentModel, children: Seq<usize>)
    ensures
        defined_among(version, document, children).version == Some(version),
    decreases children.len(),
{
    if children.len() > 0 {
        lemma_version_kept(version, document, children.drop_last());
    }
}

/// A document reads as a description exactly when its root element is
/// `definitions` in the WSDL 1.1 namespace (a 1.1 description) or
/// `description` in the WSDL 2.0 namespace (a 2.0 one); any other root is
/// refused with a message that names it and its namespace.
pub proof fn law_a_document_reads_exactly_when_its_root_is_a_wsdl_description(document: DocumentModel)
    ensures
        ({
            let node = document.nodes[document.root_element()];
            let in_11 = node.namespace == Some("http://schemas.xmlsoap.org/wsdl/"@) && node.name
                == "definitions"@;
            let in_20 = node.namespace == Some("http://www.w3.org/ns/wsdl"@) && node.name
                == "description"@;
            &&& reading(document) is Ok <==> (in_11 || in_20)
            &&& in_11 ==> (reading(document) matches Ok(definitions) && definitions.version == Some(
                Version::V11,
            ))
            &&& in_20 ==> (reading(document) matches Ok(definitions) && definitions.version == Some(
                Version::V20,
            ))
            &&& !(in_11 || in_20) ==> reading(document) == Err::<DefinitionsModel, Seq<char>>(
                "the root is "@ + node.name + " in "@ + match node.namespace {
                    Some(namespace) => namespace,
                    None => "no namespace"@,
                } + ", not a WSDL description"@,
            )
        }),
{
    let root = document.root_element();
    reveal_strlit("definitions");
    reveal_strlit("description");
    assert("definitions"@[2] != "description"@[2]);
    assert(crate::definitions::WSDL_11@ == "http://schemas.xmlsoap.org/wsdl/"@);
    assert(crate::definitions::WSDL_20@ == "http://www.w3.org/ns/wsdl"@);
    if let Some(version) = root_version(document, root) {
        lemma_version_kept(version, document, document.element_children(root));
    }
}

/// A text that is not XML is refused with "not XML: " and the parser's
/// error; an XML text reads as its document does.
pub proof fn law_a_text_reads_as_its_xml_document(text: Seq<char>)
    ensures
        match xml_reading(text) {
            Err(error) => parsing(text) == Err::<DefinitionsModel, Seq<char>>("not XML: "@ + error),
            Ok(document) => parsing(text) == reading(document),
        },
{
}

} // verus!
