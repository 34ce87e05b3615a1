use wsdl_contract::definitions::{Definitions, Version};
use wsdl_contract::xml::{XmlAttribute, XmlDocument, XmlNode};

const ORDERS_11: &str = r#"<?xml version="1.0"?>
<definitions name="Orders" targetNamespace="urn:orders" xmlns:tns="urn:orders"
    xmlns="http://schemas.xmlsoap.org/wsdl/"
    xmlns:soap="http://schemas.xmlsoap.org/wsdl/soap/">
  <message name="PlaceOrderIn"><part name="body" element="tns:Order"/></message>
  <message name="PlaceOrderOut"><part name="body" element="tns:Receipt"/></message>
  <portType name="OrdersPortType">
    <operation name="PlaceOrder">
      <input message="tns:PlaceOrderIn"/>
      <output message="tns:PlaceOrderOut"/>
    </operation>
  </portType>
  <binding name="OrdersSoap" type="tns:OrdersPortType">
    <soap:binding style="document" transport="http://schemas.xmlsoap.org/soap/http"/>
  </binding>
  <service name="OrderService">
    <port name="OrdersPort" binding="tns:OrdersSoap">
      <soap:address location="http://example/orders"/>
    </port>
  </service>
</definitions>"#;

const ORDERS_20: &str = r#"<description xmlns="http://www.w3.org/ns/wsdl"
    targetNamespace="urn:orders" xmlns:tns="urn:orders">
  <interface name="Orders"><operation name="place"/></interface>
  <binding name="OrdersHttp" interface="tns:Orders" type="http://www.w3.org/ns/wsdl/http"/>
  <service name="OrderService" interface="tns:Orders">
    <endpoint name="Main" binding="tns:OrdersHttp" address="http://example/orders"/>
  </service>
</description>"#;

#[test]
fn both_versions_read_into_their_definitions_and_references() {
    let v11 = Definitions::parse(ORDERS_11).expect("1.1");
    assert_eq!(v11.version, Some(Version::V11));
    assert_eq!(v11.messages, ["PlaceOrderIn", "PlaceOrderOut"]);
    assert_eq!(v11.port_types, ["OrdersPortType"]);
    assert_eq!(v11.bindings, ["OrdersSoap"]);
    assert_eq!(v11.services, ["OrderService"]);
    assert_eq!(
        v11.ports,
        [("OrderService".to_string(), "OrdersPort".to_string())]
    );
    assert_eq!(v11.references.len(), 4);
    assert!(v11.dangling().is_empty());
    let v20 = Definitions::parse(ORDERS_20).expect("2.0");
    assert_eq!(v20.version, Some(Version::V20));
    assert_eq!(v20.port_types, ["Orders"]);
    assert_eq!(
        v20.ports,
        [("OrderService".to_string(), "Main".to_string())]
    );
    assert!(v20.dangling().is_empty());
}

#[test]
fn a_dangling_reference_is_named_and_a_non_wsdl_root_is_refused() {
    let broken = ORDERS_11
        .replace("type=\"tns:OrdersPortType\"", "type=\"tns:Missing\"")
        .replace("message=\"tns:PlaceOrderOut\"", "message=\"tns:Gone\"");
    let definitions = Definitions::parse(&broken).expect("parse");
    let dangling = definitions.dangling();
    assert_eq!(dangling.len(), 2);
    assert_eq!(dangling[0].from, "operation OrdersPortType/PlaceOrder");
    assert_eq!(dangling[0].to, "Gone");
    assert_eq!(dangling[1].from, "binding OrdersSoap");
    assert_eq!(dangling[1].to, "Missing");
    assert!(Definitions::parse("<order/>").is_err());
    assert!(Definitions::parse("<definitions xmlns=\"urn:x\"/>").is_err());
    assert!(Definitions::parse("<definitions").is_err());
}

#[test]
fn the_references_of_a_description_come_in_document_order() {
    let v11 = Definitions::parse(ORDERS_11).expect("1.1");
    let found: Vec<(&str, &str, &str)> = v11
        .references
        .iter()
        .map(|r| (r.from.as_str(), r.to_kind, r.to.as_str()))
        .collect();
    assert_eq!(
        found,
        [
            ("operation OrdersPortType/PlaceOrder", "message", "PlaceOrderIn"),
            ("operation OrdersPortType/PlaceOrder", "message", "PlaceOrderOut"),
            ("binding OrdersSoap", "portType", "OrdersPortType"),
            ("port OrderService/OrdersPort", "binding", "OrdersSoap"),
        ]
    );
    let v20 = Definitions::parse(ORDERS_20).expect("2.0");
    let found: Vec<(&str, &str, &str)> = v20
        .references
        .iter()
        .map(|r| (r.from.as_str(), r.to_kind, r.to.as_str()))
        .collect();
    assert_eq!(
        found,
        [
            ("binding OrdersHttp", "portType", "Orders"),
            ("port OrderService/Main", "binding", "OrdersHttp"),
        ]
    );
    assert!(v20.messages.is_empty());
}

#[test]
fn a_refused_root_is_named_in_the_error() {
    assert_eq!(
        Definitions::parse("<order/>").unwrap_err(),
        "the root is order in no namespace, not a WSDL description"
    );
    assert_eq!(
        Definitions::parse("<definitions xmlns=\"urn:x\"/>").unwrap_err(),
        "the root is definitions in urn:x, not a WSDL description"
    );
    assert_eq!(
        Definitions::parse("<description xmlns=\"http://schemas.xmlsoap.org/wsdl/\"/>").unwrap_err(),
        "the root is description in http://schemas.xmlsoap.org/wsdl/, not a WSDL description"
    );
    assert!(Definitions::parse("<definitions")
        .unwrap_err()
        .starts_with("not XML: "));
}

#[test]
fn a_port_without_a_binding_refers_to_the_empty_name() {
    let text = r#"<definitions xmlns="http://schemas.xmlsoap.org/wsdl/">
  <binding name="B"/>
  <service name="S"><port name="P"/></service>
</definitions>"#;
    let definitions = Definitions::parse(text).expect("parse");
    assert_eq!(definitions.bindings, ["B"]);
    assert_eq!(definitions.references.len(), 1);
    assert_eq!(definitions.references[0].to, "");
    let dangling = definitions.dangling();
    assert_eq!(dangling.len(), 1);
    assert_eq!(dangling[0].from, "port S/P");
}

#[test]
fn version_specific_elements_are_ignored_in_the_other_version() {
    let text = r#"<description xmlns="http://www.w3.org/ns/wsdl">
  <message name="M"/>
  <portType name="T"/>
  <interface name="I"><operation name="o"><input element="tns:Gone" message="x:Gone"/></operation></interface>
</description>"#;
    let definitions = Definitions::parse(text).expect("parse");
    assert!(definitions.messages.is_empty());
    assert_eq!(definitions.port_types, ["I"]);
    assert!(definitions.references.is_empty());
    assert!(definitions.dangling().is_empty());
}

#[test]
fn a_qualified_name_refers_by_its_last_part() {
    let text = r#"<definitions xmlns="http://schemas.xmlsoap.org/wsdl/">
  <binding name="B" type="a:b:T"/>
  <binding name="C" type="T"/>
</definitions>"#;
    let definitions = Definitions::parse(text).expect("parse");
    assert_eq!(definitions.references[0].to, "T");
    assert_eq!(definitions.references[1].to, "T");
    assert_eq!(definitions.dangling().len(), 2);
}

fn node(element: bool, namespace: Option<&str>, name: &str, attributes: &[(&str, &str)], children: Vec<usize>) -> XmlNode {
    XmlNode {
        element,
        namespace: namespace.map(str::to_string),
        name: name.to_string(),
        attributes: attributes
            .iter()
            .map(|(n, v)| XmlAttribute { name: n.to_string(), value: v.to_string() })
            .collect(),
        children,
    }
}

#[test]
fn a_document_written_by_hand_reads_like_a_parsed_one() {
    let wsdl = Some("http://schemas.xmlsoap.org/wsdl/");
    let document = XmlDocument {
        nodes: vec![
            node(false, None, "", &[], vec![1]),
            node(true, wsdl, "definitions", &[], vec![2, 3, 4]),
            node(true, wsdl, "binding", &[("name", "B"), ("type", "tns:T")], vec![]),
            node(false, None, "", &[], vec![]),
            node(true, wsdl, "service", &[("name", "S")], vec![5]),
            node(true, wsdl, "port", &[("name", "P"), ("binding", "tns:B")], vec![]),
        ],
    };
    let definitions = Definitions::from_document(&document).expect("read");
    assert_eq!(definitions.version, Some(Version::V11));
    assert_eq!(definitions.bindings, ["B"]);
    assert_eq!(definitions.services, ["S"]);
    assert_eq!(definitions.ports, [("S".to_string(), "P".to_string())]);
    let dangling = definitions.dangling();
    assert_eq!(dangling.len(), 1);
    assert_eq!(dangling[0].to_kind, "portType");
    assert_eq!(dangling[0].to, "T");
}

#[test]
fn every_port_belongs_to_a_defined_service_and_refers_to_a_binding() {
    let v11 = Definitions::parse(ORDERS_11).expect("1.1");
    for (service, port) in &v11.ports {
        assert!(v11.services.contains(service));
        let from = format!("port {service}/{port}");
        assert!(v11
            .references
            .iter()
            .any(|r| r.from == from && r.to_kind == "binding"));
    }
}

#[test]
fn default_definitions_define_nothing_and_references_compare_by_value() {
    let empty = Definitions::default();
    assert_eq!(empty.version, None);
    assert!(empty.messages.is_empty() && empty.references.is_empty() && empty.ports.is_empty());
    assert!(empty.dangling().is_empty());
    let v11 = Definitions::parse(ORDERS_11).expect("1.1");
    let again = Definitions::parse(ORDERS_11).expect("1.1");
    assert_eq!(v11.references, again.references);
    assert_ne!(v11.references[0], v11.references[1]);
    assert_eq!(v11.clone().references, v11.references);
}
