use wsdl_contract::contract::Stream;
use wsdl_contract::wsdl::{Service, Wsdl, WsdlFactory};

const ORDERS_11: &str = r#"<?xml version="1.0"?>
<definitions name="Orders" targetNamespace="urn:orders" xmlns:tns="urn:orders"
    xmlns="http://schemas.xmlsoap.org/wsdl/"
    xmlns:soap="http://schemas.xmlsoap.org/wsdl/soap/">
  <message name="PlaceOrderIn"><part name="body" element="tns:Order"/></message>
  <message name="PlaceOrderOut"><part name="body" element="tns:Receipt"/></message>
  <portType name="OrdersPortType">
    <operation name="PlaceOrder">
      <input message="tns:PlaceOrderIn"/>
      <output message="tns:PlaceOrderOut"/>
    </operation>
  </portType>
  <binding name="OrdersSoap" type="tns:OrdersPortType">
    <soap:binding style="document" transport="http://schemas.xmlsoap.org/soap/http"/>
  </binding>
  <service name="OrderService">
    <port name="OrdersPort" binding="tns:OrdersSoap">
      <soap:address location="http://example/orders"/>
    </port>
  </service>
</definitions>"#;

const ORDERS_20: &str = r#"<description xmlns="http://www.w3.org/ns/wsdl"
    targetNamespace="urn:orders" xmlns:tns="urn:orders">
  <interface name="Orders"><operation name="place"/></interface>
  <binding name="OrdersHttp" interface="tns:Orders" type="http://www.w3.org/ns/wsdl/http"/>
  <service name="OrderService" interface="tns:Orders">
    <endpoint name="Main" binding="tns:OrdersHttp" address="http://example/orders"/>
  </service>
</description>"#;

fn stream(text: &str, media_type: Option<&str>) -> Stream {
    Stream::new(text.as_bytes().to_vec(), media_type.map(str::to_string))
}

#[test]
fn a_sound_description_holds_bare_and_bound() {
    let bare = Wsdl::new();
    assert!(bare.identify(&stream(ORDERS_11, None)).expect("identify"));
    assert!(bare.identify(&stream(ORDERS_20, None)).expect("identify"));
    assert!(
        bare.identify(&stream("x", Some("application/wsdl+xml; charset=utf-8")))
            .expect("identify")
    );
    assert!(!bare.identify(&stream("<order/>", None)).expect("identify"));
    assert!(
        bare.validate(&stream(ORDERS_11, None))
            .expect("validate")
            .valid
    );
    assert!(
        bare.validate(&stream(ORDERS_20, None))
            .expect("validate")
            .valid
    );
    let bound = WsdlFactory.load("OrderService/OrdersPort").expect("load");
    assert_eq!(bound.descriptor().id.0, "wsdl:OrderService/OrdersPort");
    assert!(
        bound
            .validate(&stream(ORDERS_11, None))
            .expect("validate")
            .valid
    );
    assert!(Wsdl::of(Service::parse("OrderService").expect("parse")).is_bound());
    assert!(
        !WsdlFactory
            .load(" ")
            .expect("bare")
            .descriptor()
            .id
            .0
            .contains(':')
    );
}

#[test]
fn a_missing_service_port_or_reference_is_named() {
    let bound = Wsdl::of(Service::parse("Billing").expect("parse"));
    let result = bound.validate(&stream(ORDERS_11, None)).expect("validate");
    assert!(!result.valid);
    assert_eq!(result.issues[0].code, "service");
    assert_eq!(result.issues[0].message, "does not define service Billing");
    let bound = Wsdl::of(Service::parse("OrderService/Other").expect("parse"));
    let result = bound.validate(&stream(ORDERS_20, None)).expect("validate");
    assert_eq!(
        result.issues[0].message,
        "service OrderService has no port Other"
    );
    let dangling = ORDERS_11.replace("binding=\"tns:OrdersSoap\"", "binding=\"tns:Nope\"");
    let result = Wsdl::new()
        .validate(&stream(&dangling, None))
        .expect("validate");
    assert_eq!(result.issues[0].code, "reference");
    assert_eq!(
        result.issues[0].path.as_deref(),
        Some("port OrderService/OrdersPort")
    );
    assert!(result.issues[0].message.contains("binding Nope"));
}

#[test]
fn what_is_not_wsdl_does_not_hold() {
    let result = Wsdl::new()
        .validate(&stream("<definitions", None))
        .expect("validate");
    assert_eq!(result.issues[0].code, "malformed");
    let binary = Stream::new(vec![0xff], None);
    assert!(!Wsdl::new().validate(&binary).expect("validate").valid);
    assert!(Service::parse("").is_err());
    assert!(Service::parse("a/b/c").is_err());
    assert!(Service::parse("a/").is_err());
}

#[test]
fn a_service_reference_is_trimmed_piece_by_piece() {
    let service = Service::parse("  OrderService / OrdersPort ").expect("parse");
    assert_eq!(service.name, "OrderService");
    assert_eq!(service.port.as_deref(), Some("OrdersPort"));
    let service = Service::parse("\tBilling\n").expect("parse");
    assert_eq!(service.name, "Billing");
    assert_eq!(service.port, None);
    assert!(Service::parse(" / x").is_err());
    assert!(Service::parse("/").is_err());
}

#[test]
fn a_refused_service_reference_is_quoted_in_the_error() {
    let error = Service::parse("a/b/c").unwrap_err();
    assert_eq!(error.message, "\"a/b/c\" is not SERVICE or SERVICE/PORT");
    let error = Service::parse("say \"x\"/").unwrap_err();
    assert_eq!(error.message, "\"say \\\"x\\\"/\" is not SERVICE or SERVICE/PORT");
}

#[test]
fn the_factory_loads_bare_or_bound_contracts() {
    let factory = WsdlFactory;
    assert_eq!(factory.technology(), "wsdl");
    let bare = factory.load("").expect("bare");
    assert!(!bare.is_bound());
    assert_eq!(bare.descriptor().id.0, "wsdl");
    assert_eq!(bare.descriptor().version, "1");
    assert_eq!(bare.descriptor().representation, "application/wsdl+xml");
    let bound = factory.load(" OrderService ").expect("bound");
    assert!(bound.is_bound());
    assert_eq!(bound.descriptor().id.0, "wsdl:OrderService");
    assert!(factory.load("a/b/c").is_err());
    let default = Wsdl::default();
    assert!(!default.is_bound());
    assert_eq!(default.descriptor().id.0, "wsdl");
}

#[test]
fn a_media_type_is_compared_without_parameters_or_ascii_case() {
    let bare = Wsdl::new();
    assert!(bare
        .identify(&stream("", Some("  Application/WSDL+XML ")))
        .expect("identify"));
    assert!(bare
        .identify(&Stream::new(vec![0xff, 0xfe], Some("application/wsdl+xml;q=1".to_string())))
        .expect("identify"));
    assert!(!bare
        .identify(&stream("<a/>", Some("application/wsdl")))
        .expect("identify"));
    assert!(bare
        .identify(&stream("see http://www.w3.org/ns/wsdl", Some("text/plain")))
        .expect("identify"));
    assert!(!bare
        .identify(&Stream::new(vec![0xff], None))
        .expect("identify"));
}

#[test]
fn a_validation_is_valid_exactly_when_it_has_no_issues() {
    let texts = [ORDERS_11, ORDERS_20, "<definitions", "<order/>"];
    for text in texts {
        for contract in [Wsdl::new(), Wsdl::of(Service::parse("Billing").expect("parse"))] {
            let result = contract.validate(&stream(text, None)).expect("validate");
            assert_eq!(result.valid, result.issues.is_empty());
        }
    }
}

#[test]
fn text_that_is_not_utf8_is_malformed() {
    let result = Wsdl::new()
        .validate(&Stream::new(vec![0x3c, 0xff], None))
        .expect("validate");
    assert!(!result.valid);
    assert_eq!(result.issues.len(), 1);
    assert_eq!(result.issues[0].code, "malformed");
    assert!(result.issues[0].message.starts_with("not text: "));
    assert_eq!(result.issues[0].path, None);
}

#[test]
fn every_dangling_reference_is_an_issue_then_the_service() {
    let broken = ORDERS_11
        .replace("type=\"tns:OrdersPortType\"", "type=\"tns:Missing\"")
        .replace("message=\"tns:PlaceOrderOut\"", "message=\"tns:Gone\"");
    let result = Wsdl::of(Service::parse("Billing").expect("parse"))
        .validate(&stream(&broken, None))
        .expect("validate");
    assert_eq!(result.issues.len(), 3);
    assert_eq!(
        result.issues[0].message,
        "refers to message Gone, which is not defined"
    );
    assert_eq!(
        result.issues[0].path.as_deref(),
        Some("operation OrdersPortType/PlaceOrder")
    );
    assert_eq!(
        result.issues[1].message,
        "refers to portType Missing, which is not defined"
    );
    assert_eq!(result.issues[2].code, "service");
    assert_eq!(result.issues[2].path, None);
}

#[test]
fn a_bound_port_is_looked_up_in_its_own_service() {
    let result = Wsdl::of(Service::parse("OrderService/OrdersPort").expect("parse"))
        .validate(&stream(ORDERS_20, None))
        .expect("validate");
    assert!(!result.valid);
    assert_eq!(result.issues[0].path.as_deref(), Some("service OrderService"));
    let result = Wsdl::of(Service::parse("OrderService/Main").expect("parse"))
        .validate(&stream(ORDERS_20, None))
        .expect("validate");
    assert!(result.valid);
}

#[test]
fn services_compare_by_name_and_port() {
    let a = Service::parse("S/P").expect("parse");
    let b = Service::parse(" S / P ").expect("parse");
    assert_eq!(a, b);
    assert_ne!(a, Service::parse("S").expect("parse"));
    assert_ne!(a, Service::parse("S/Q").expect("parse"));
    assert_eq!(a.clone(), a);
}
