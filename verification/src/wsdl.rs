//! The WSDL content contract: a sound description, bare or bound to a
//! service, and the factory that loads it from a Location's reference.
//!
//! Well-formed here is a sound description: well-formed XML whose root is
//! WSDL 1.1's `definitions` or WSDL 2.0's `description`, and in which every
//! reference lands. Conformance, once a service is bound, is that the
//! description defines that service and, when one is named, that port or
//! endpoint of it.

use vstd::prelude::*;
use vstd::string::StringExecFns;
use vstd::utf8::{decode_utf8, valid_utf8};

use crate::contract::{
    judged, ContractDescriptor, ContractError, ContractId, DescriptorModel, IssueModel, Stream,
    StreamModel, ValidationIssue, ValidationModel, ValidationResult,
};
use crate::definitions::{
    dangling_among, parsing, Definitions, DefinitionsModel, ReferenceModel, WSDL_11, WSDL_20,
};
use crate::text::{
    chars_of, contains_text, debug_of, debug_text, eq_ignoring_ascii_case, lemma_split_pair,
    lemma_split_without_separator, lemma_trimmed_starts_without_white_space, law_split_pieces_are_free_of_the_separator, law_trimming_is_idempotent, occurs_in, same_ignoring_ascii_case, split, split_on, trim,
    trim_end, trim_start, trimmed, utf8_error_text, utf8_text, white_space,
};

verus! {

/// The media type of a WSDL description.
pub const WSDL_MEDIA_TYPE: &'static str = "application/wsdl+xml";

/// The bound service, and optionally its port or endpoint.
#[derive(Clone, Debug)]
pub struct Service {
    pub name: String,
    pub port: Option<String>,
}

/// A service as mathematical values.
pub struct ServiceModel {
    pub name: Seq<char>,
    pub port: Option<Seq<char>>,
}

impl View for Service {
    type V = ServiceModel;

    open spec fn view(&self) -> ServiceModel {
        ServiceModel { name: self.name@, port: self.port.deep_view() }
    }
}

/// `SERVICE` or `SERVICE/PORT`.
pub open spec fn service_reference(service: ServiceModel) -> Seq<char> {
    match service.port {
        Some(port) => service.name + "/"@ + port,
        None => service.name,
    }
}

/// What `Service::parse` makes of `reference`: split at `/`, each piece
/// trimmed, one non-empty piece for a service or two for a service and
/// its port; anything else is refused.
pub open spec fn service_parsing(reference: Seq<char>) -> Result<ServiceModel, Seq<char>> {
    let pieces = split(reference, '/');
    if pieces.len() == 1 && trimmed(pieces[0]).len() > 0 {
        Ok(ServiceModel { name: trimmed(pieces[0]), port: None })
    } else if pieces.len() == 2 && trimmed(pieces[0]).len() > 0 && trimmed(pieces[1]).len() > 0 {
        Ok(ServiceModel { name: trimmed(pieces[0]), port: Some(trimmed(pieces[1])) })
    } else {
        Err(debug_text(reference) + " is not SERVICE or SERVICE/PORT"@)
    }
}

pub open spec fn service_result_view(result: Result<Service, ContractError>) -> Result<
    ServiceModel,
    Seq<char>,
> {
    match result {
        Ok(service) => Ok(service@),
        Err(error) => Err(error@),
    }
}

impl Service {
    /// `OrderService` or `OrderService/OrdersPort`.
    ///
    /// # Errors
    /// An empty name, or more than one slash.
    pub fn parse(reference: &str) -> (parsed: Result<Service, ContractError>)
        ensures
            service_result_view(parsed) == service_parsing(reference@),
    {
        let pieces = split_on(reference, '/');
        if pieces.len() == 1 {
            let name = trim(pieces[0]);
            if !name.is_empty() {
                return Ok(Service { name: name.to_owned(), port: None });
            }
        } else if pieces.len() == 2 {
            let name = trim(pieces[0]);
            let port = trim(pieces[1]);
            if !name.is_empty() && !port.is_empty() {
                return Ok(Service { name: name.to_owned(), port: Some(port.to_owned()) });
            }
        }
        let mut message = debug_of(reference);
        message.append(" is not SERVICE or SERVICE/PORT");
        Err(ContractError { message })
    }

    /// `SERVICE` or `SERVICE/PORT`.
    fn reference(&self) -> (reference: String)
        ensures
            reference@ == service_reference(self@),
    {
        match &self.port {
            Some(port) => {
                let mut reference = self.name.clone();
                reference.append("/");
                reference.append(port.as_str());
                reference
            },
            None => self.name.clone(),
        }
    }
}

impl PartialEq for Service {
    fn eq(&self, other: &Service) -> (same: bool) {
        let same_port = match (&self.port, &other.port) {
            (Some(mine), Some(theirs)) => *mine == *theirs,
            (None, None) => true,
            _ => false,
        };
        self.name == other.name && same_port
    }
}

impl Eq for Service {
}

impl vstd::std_specs::cmp::PartialEqSpecImpl for Service {
    open spec fn obeys_eq_spec() -> bool {
        true
    }

    open spec fn eq_spec(&self, other: &Service) -> bool {
        self@ == other@
    }
}

/// The WSDL contract, bare or bound to a service.
#[derive(Debug)]
pub struct Wsdl {
    descriptor: ContractDescriptor,
    service: Option<Service>,
}

/// The contract as mathematical values.
pub struct WsdlModel {
    pub descriptor: DescriptorModel,
    pub service: Option<ServiceModel>,
}

impl View for Wsdl {
    type V = WsdlModel;

    closed spec fn view(&self) -> WsdlModel {
        WsdlModel {
            descriptor: self.descriptor@,
            service: match self.service {
                Some(service) => Some(service@),
                None => None,
            },
        }
    }
}

/// The descriptor of the contract with identifier `id`.
pub open spec fn descriptor_for(id: Seq<char>) -> DescriptorModel {
    DescriptorModel { id, version: "1"@, representation: WSDL_MEDIA_TYPE@ }
}

/// The bare contract: a sound description, of any services.
pub open spec fn bare() -> WsdlModel {
    WsdlModel { descriptor: descriptor_for("wsdl"@), service: None }
}

/// The contract bound to `service`.
pub open spec fn bound_to(service: ServiceModel) -> WsdlModel {
    WsdlModel {
        descriptor: descriptor_for("wsdl:"@ + service_reference(service)),
        service: Some(service),
    }
}

/// Whether a stream is announced as, or reads like, a WSDL description:
/// its media type, before any parameter and trimmed, is
/// `application/wsdl+xml` in any ASCII case; or its bytes are UTF-8 text
/// that names a WSDL namespace.
pub open spec fn identifies(stream: StreamModel) -> bool {
    ||| stream.media_type matches Some(media_type) && same_ignoring_ascii_case(
        trimmed(split(media_type, ';')[0]),
        WSDL_MEDIA_TYPE@,
    )
    ||| valid_utf8(stream.bytes) && (occurs_in(decode_utf8(stream.bytes), WSDL_11@) || occurs_in(
        decode_utf8(stream.bytes),
        WSDL_20@,
    ))
}

/// The issue of a dangling reference.
pub open spec fn reference_issue(reference: ReferenceModel) -> IssueModel {
    IssueModel {
        code: "reference"@,
        message: "refers to "@ + reference.to_kind + " "@ + reference.to
            + ", which is not defined"@,
        path: Some(reference.from),
    }
}

/// The issues of a bound service that the description does not define,
/// or of a named port that the service does not have.
pub open spec fn service_issues(service: Option<ServiceModel>, definitions: DefinitionsModel) -> Seq<
    IssueModel,
> {
    match service {
        None => Seq::empty(),
        Some(service) => if !definitions.services.contains(service.name) {
            seq![
                IssueModel {
                    code: "service"@,
                    message: "does not define service "@ + service.name,
                    path: None,
                },
            ]
        } else {
            match service.port {
                Some(port) => if !definitions.ports.contains((service.name, port)) {
                    seq![
                        IssueModel {
                            code: "service"@,
                            message: "service "@ + service.name + " has no port "@ + port,
                            path: Some("service "@ + service.name),
                        },
                    ]
                } else {
                    Seq::empty()
                },
                None => Seq::empty(),
            }
        },
    }
}

/// What a contract bound to `service` (or bare) finds of a description:
/// one issue for each dangling reference, in order, then the service's.
pub open spec fn issues_of(service: Option<ServiceModel>, definitions: DefinitionsModel) -> Seq<
    IssueModel,
> {
    dangling_among(definitions, definitions.references).map_values(
        |reference: ReferenceModel| reference_issue(reference),
    ) + service_issues(service, definitions)
}

/// The issue of a stream that is not a description at all.
pub open spec fn malformed(message: Seq<char>) -> IssueModel {
    IssueModel { code: "malformed"@, message, path: None }
}

/// What a contract bound to `service` (or bare) makes of the bytes `bytes`.
pub open spec fn validation_of(service: Option<ServiceModel>, bytes: Seq<u8>) -> ValidationModel {
    if !valid_utf8(bytes) {
        judged(seq![malformed("not text: "@ + utf8_error_text(bytes))])
    } else {
        match parsing(decode_utf8(bytes)) {
            Err(message) => judged(seq![malformed(message)]),
            Ok(definitions) => judged(issues_of(service, definitions)),
        }
    }
}

/// The descriptor of the contract with identifier `id`.
fn descriptor(id: String) -> (descriptor: ContractDescriptor)
    ensures
        descriptor@ == descriptor_for(id@),
{
    ContractDescriptor {
        id: ContractId(id),
        version: "1".to_owned(),
        representation: WSDL_MEDIA_TYPE.to_owned(),
    }
}

fn issue(code: &str, message: String, path: Option<String>) -> (issue: ValidationIssue)
    ensures
        issue@ == (IssueModel { code: code@, message: message@, path: path.deep_view() }),
{
    ValidationIssue::new(code, message, path)
}

impl Wsdl {
    /// A sound description, of any services.
    pub fn new() -> (wsdl: Wsdl)
        ensures
            wsdl@ == bare(),
    {
        Wsdl { descriptor: descriptor("wsdl".to_owned()), service: None }
    }

    /// A sound description that defines `service`.
    pub fn of(service: Service) -> (wsdl: Wsdl)
        ensures
            wsdl@ == bound_to(service@),
    {
        let mut id = "wsdl:".to_owned();
        let reference = service.reference();
        id.append(reference.as_str());
        Wsdl { descriptor: descriptor(id), service: Some(service) }
    }

    /// Whether a service is bound.
    pub fn is_bound(&self) -> (bound: bool)
        ensures
            bound == self@.service is Some,
    {
        self.service.is_some()
    }

    /// The contract's descriptor.
    pub fn descriptor(&self) -> (descriptor: &ContractDescriptor)
        ensures
            descriptor@ == self@.descriptor,
    {
        &self.descriptor
    }

    /// Whether `stream` is, by its media type or its content, a WSDL
    /// description. Never fails.
    pub fn identify(&self, stream: &Stream) -> (identified: Result<bool, ContractError>)
        ensures
            identified matches Ok(found) && found == identifies(stream@),
    {
        if let Some(media_type) = stream.media_type() {
            let pieces = split_on(media_type, ';');
            if eq_ignoring_ascii_case(trim(pieces[0]), WSDL_MEDIA_TYPE) {
                return Ok(true);
            }
        }
        match utf8_text(stream.bytes()) {
            Ok(text) => {
                let chars = chars_of(text);
                Ok(contains_text(&chars, WSDL_11) || contains_text(&chars, WSDL_20))
            },
            Err(_) => Ok(false),
        }
    }

    /// What this contract finds of `definitions`: each dangling reference,
    /// then, when a service is bound, whether the description defines it
    /// and, when a port is named, that port of it.
    pub fn check(&self, definitions: &Definitions) -> (result: ValidationResult)
        ensures
            result@ == judged(issues_of(self@.service, definitions@)),
    {
        let dangling = definitions.dangling();
        let ghost gone = dangling_among(definitions@, definitions@.references);
        let mut issues: Vec<ValidationIssue> = Vec::new();
        let mut k: usize = 0;
        while k < dangling.len()
            invariant
                gone == dangling_among(definitions@, definitions@.references),
                dangling.len() == gone.len(),
                forall|m: int| 0 <= m < dangling.len() ==> #[trigger] dangling[m]@ == gone[m],
                k <= dangling.len(),
                issues@.map_values(|issue: ValidationIssue| issue@) == gone.take(k as int).map_values(
                    |reference: ReferenceModel| reference_issue(reference),
                ),
            decreases dangling.len() - k,
        {
            let reference = dangling[k];
            assert(dangling[k as int]@ == gone[k as int]);
            assert(reference@ == gone[k as int]);
            let mut message = "refers to ".to_owned();
            message.append(reference.to_kind);
            message.append(" ");
            message.append(reference.to.as_str());
            message.append(", which is not defined");
            assert(message@ == "refers to "@ + gone[k as int].to_kind + " "@ + gone[k as int].to
                + ", which is not defined"@);
            let ghost before = issues@;
            let from = reference.from.clone();
            let found = issue("reference", message, Some(from));
            assert(found@ == reference_issue(gone[k as int]));
            issues.push(found);
            assert(issues@.map_values(|issue: ValidationIssue| issue@) =~= before.map_values(
                |issue: ValidationIssue| issue@,
            ).push(issues@.last()@));
            assert(gone.take(k + 1) =~= gone.take(k as int).push(gone[k as int]));
            assert(gone.take(k + 1).map_values(|reference: ReferenceModel| reference_issue(reference))
                =~= gone.take(k as int).map_values(
                |reference: ReferenceModel| reference_issue(reference),
            ).push(reference_issue(gone[k as int])));
            k = k + 1;
        }
        assert(gone.take(gone.len() as int) =~= gone);
        let ghost found = issues@;
        let ghost for_references = gone.map_values(
            |reference: ReferenceModel| reference_issue(reference),
        );
        if let Some(service) = &self.service {
            if !definitions.defines_service(&service.name) {
                let mut message = "does not define service ".to_owned();
                message.append(service.name.as_str());
                issues.push(issue("service", message, None));
            } else if let Some(port) = &service.port {
                if !definitions.has_port(&service.name, port) {
                    let mut message = "service ".to_owned();
                    message.append(service.name.as_str());
                    message.append(" has no port ");
                    message.append(port.as_str());
                    let mut path = "service ".to_owned();
                    path.append(service.name.as_str());
                    issues.push(issue("service", message, Some(path)));
                }
            }
        }
        assert(issues@.map_values(|issue: ValidationIssue| issue@) =~= for_references
            + service_issues(self@.service, definitions@));
        ValidationResult::of(issues)
    }

    /// Holds `stream` to this contract: it must be UTF-8 text, well-formed
    /// XML, a WSDL description in which every reference lands, and, when a
    /// service is bound, define that service (and port). Never fails.
    pub fn validate(&self, stream: &Stream) -> (validated: Result<ValidationResult, ContractError>)
        ensures
            validated matches Ok(result) && result@ == validation_of(self@.service, stream@.bytes),
    {
        let text = match utf8_text(stream.bytes()) {
            Ok(text) => text,
            Err(error) => {
                let mut message = "not text: ".to_owned();
                message.append(error.as_str());
                let mut issues: Vec<ValidationIssue> = Vec::new();
                issues.push(issue("malformed", message, None));
                assert(issues@.map_values(|issue: ValidationIssue| issue@) =~= seq![
                    malformed("not text: "@ + utf8_error_text(stream@.bytes)),
                ]);
                return Ok(ValidationResult::of(issues));
            },
        };
        match Definitions::parse(text) {
            Ok(definitions) => Ok(self.check(&definitions)),
            Err(message) => {
                let ghost text_view = message@;
                let mut issues: Vec<ValidationIssue> = Vec::new();
                issues.push(issue("malformed", message, None));
                assert(issues@.map_values(|issue: ValidationIssue| issue@) =~= seq![
                    malformed(text_view),
                ]);
                Ok(ValidationResult::of(issues))
            },
        }
    }
}

impl Default for Wsdl {
    fn default() -> (wsdl: Wsdl)
        ensures
            wsdl@ == bare(),
    {
        Wsdl::new()
    }
}

/// Loads the contract a Location names: an empty reference is the bare
/// contract, anything else a service, `OrderService` or
/// `OrderService/OrdersPort`.
#[derive(Debug)]
pub struct WsdlFactory;

/// What `WsdlFactory::load` makes of `reference`.
pub open spec fn loading(reference: Seq<char>) -> Result<WsdlModel, Seq<char>> {
    if trimmed(reference).len() == 0 {
        Ok(bare())
    } else {
        match service_parsing(reference) {
            Ok(service) => Ok(bound_to(service)),
            Err(message) => Err(message),
        }
    }
}

pub open spec fn wsdl_result_view(result: Result<Wsdl, ContractError>) -> Result<WsdlModel, Seq<char>> {
    match result {
        Ok(wsdl) => Ok(wsdl@),
        Err(error) => Err(error@),
    }
}

impl WsdlFactory {
    /// The technology this factory loads contracts of.
    pub fn technology(&self) -> (technology: &'static str)
        ensures
            technology@ == "wsdl"@,
    {
        "wsdl"
    }

    /// The contract that `reference` names.
    ///
    /// # Errors
    /// A reference that is neither empty nor `SERVICE` or `SERVICE/PORT`.
    pub fn load(&self, reference: &str) -> (loaded: Result<Wsdl, ContractError>)
        ensures
            wsdl_result_view(loaded) == loading(reference@),
    {
        if trim(reference).is_empty() {
            return Ok(Wsdl::new());
        }
        match Service::parse(reference) {
            Ok(service) => Ok(Wsdl::of(service)),
            Err(error) => Err(error),
        }
    }
}

/// A description conforms to `service` when it defines the service and,
/// when a port is named, that port of it; every description conforms to
/// no service.
pub open spec fn conforms(service: Option<ServiceModel>, definitions: DefinitionsModel) -> bool {
    match service {
        None => true,
        Some(service) => {
            &&& definitions.services.contains(service.name)
            &&& service.port matches Some(port) ==> definitions.ports.contains((service.name, port))
        },
    }
}

/// A contract holds a stream exactly when the stream is UTF-8 text of a
/// WSDL description in which every reference lands and which conforms to
/// the bound service; and a result is valid exactly when it names no
/// issue.
pub proof fn law_a_contract_holds_exactly_sound_conforming_descriptions(
    service: Option<ServiceModel>,
    bytes: Seq<u8>,
)
    ensures
        validation_of(service, bytes).valid <==> validation_of(service, bytes).issues.len() == 0,
        validation_of(service, bytes).valid <==> {
            &&& valid_utf8(bytes)
            &&& parsing(decode_utf8(bytes)) matches Ok(definitions)
            &&& dangling_among(definitions, definitions.references).len() == 0
            &&& conforms(service, definitions)
        },
{
}

/// A name without a slash and without surrounding white space.
pub open spec fn plain_name(name: Seq<char>) -> bool {
    &&& name.len() > 0
    &&& !name.contains('/')
    &&& trimmed(name) == name
}

/// Parsing a service's reference gives the service back.
pub proof fn law_a_service_reference_parses_back(service: ServiceModel)
    requires
        plain_name(service.name),
        service.port matches Some(port) ==> plain_name(port),
    ensures
        service_parsing(service_reference(service)) == Ok::<ServiceModel, Seq<char>>(service),
{
    reveal_strlit("/");
    match service.port {
        Some(port) => {
            assert("/"@ =~= seq!['/']);
            lemma_split_pair(service.name, port, '/');
        },
        None => {
            lemma_split_without_separator(service.name, '/');
        },
    }
}

proof fn lemma_trim_end_keeps_a_first_non_white_character(s: Seq<char>)
    requires
        s.len() > 0,
        !white_space(s[0]),
    ensures
        trim_end(s).len() > 0,
    decreases s.len(),
{
    if s.len() > 1 && white_space(s.last()) {
        assert(s.drop_last()[0] == s[0]);
        lemma_trim_end_keeps_a_first_non_white_character(s.drop_last());
    }
}

/// The factory loads, for a service's reference, the contract bound to
/// that service.
pub proof fn law_the_factory_loads_the_contract_of_a_service_reference(service: ServiceModel)
    requires
        plain_name(service.name),
        service.port matches Some(port) ==> plain_name(port),
    ensures
        loading(service_reference(service)) == Ok::<WsdlModel, Seq<char>>(bound_to(service)),
{
    law_a_service_reference_parses_back(service);
    let reference = service_reference(service);
    let name = service.name;
    lemma_trimmed_starts_without_white_space(name);
    assert(reference[0] == name[0]);
    assert(trim_start(reference) == reference);
    lemma_trim_end_keeps_a_first_non_white_character(reference);
}

/// A stream is identified exactly when its media type, before any `;`
/// parameter and without surrounding white space, is
/// `application/wsdl+xml` up to the case of ASCII letters, or its bytes
/// are UTF-8 text in which one of the WSDL namespaces occurs. So a stream
/// announced as anything else, whose text names neither namespace, is not
/// identified.
pub proof fn law_a_stream_is_identified_exactly_when_announced_or_naming_a_wsdl_namespace(
    stream: StreamModel,
)
    ensures
        identifies(stream) <==> {
            ||| stream.media_type matches Some(media_type) && same_ignoring_ascii_case(
                trimmed(split(media_type, ';')[0]),
                "application/wsdl+xml"@,
            )
            ||| valid_utf8(stream.bytes) && (occurs_in(
                decode_utf8(stream.bytes),
                "http://schemas.xmlsoap.org/wsdl/"@,
            ) || occurs_in(decode_utf8(stream.bytes), "http://www.w3.org/ns/wsdl"@))
        },
{
}

/// What a contract finds of a description: first, for each dangling
/// reference in order, an issue `reference` saying what it refers to, at
/// the element that refers; then, when the description does not conform
/// to the bound service, one issue `service`: that the service is not
/// defined, or, at the service, that it has no such port.
pub proof fn law_the_issues_are_the_dangling_references_then_the_service(
    service: Option<ServiceModel>,
    definitions: DefinitionsModel,
)
    ensures
        ({
            let issues = issues_of(service, definitions);
            let gone = dangling_among(definitions, definitions.references);
            &&& issues.len() == gone.len() + if conforms(service, definitions) {
                0int
            } else {
                1int
            }
            &&& forall|k: int|
                0 <= k < gone.len() ==> #[trigger] issues[k] == (IssueModel {
                    code: "reference"@,
                    message: "refers to "@ + gone[k].to_kind + " "@ + gone[k].to
                        + ", which is not defined"@,
                    path: Some(gone[k].from),
                })
            &&& (service is Some && !definitions.services.contains(service->0.name)) ==> issues.last()
                == (IssueModel {
                code: "service"@,
                message: "does not define service "@ + service->0.name,
                path: None,
            })
            &&& (service is Some && definitions.services.contains(service->0.name)
                && service->0.port is Some && !definitions.ports.contains(
                (service->0.name, service->0.port->0),
            )) ==> issues.last() == (IssueModel {
                code: "service"@,
                message: "service "@ + service->0.name + " has no port "@ + service->0.port->0,
                path: Some("service "@ + service->0.name),
            })
        }),
{
    let gone = dangling_among(definitions, definitions.references);
    let issues = issues_of(service, definitions);
    let first = gone.map_values(|reference: ReferenceModel| reference_issue(reference));
    assert(issues == first + service_issues(service, definitions));
}

/// A stream that is not UTF-8 text, or whose text is not a WSDL
/// description, has exactly one issue, `malformed`, that says why; a WSDL
/// description has the issues that the contract finds of it.
pub proof fn law_a_stream_that_is_not_a_description_has_one_malformed_issue(
    service: Option<ServiceModel>,
    bytes: Seq<u8>,
)
    ensures
        !valid_utf8(bytes) ==> validation_of(service, bytes).issues == seq![
            IssueModel {
                code: "malformed"@,
                message: "not text: "@ + utf8_error_text(bytes),
                path: None,
            },
        ],
        valid_utf8(bytes) ==> match parsing(decode_utf8(bytes)) {
            Err(message) => validation_of(service, bytes).issues == seq![
                IssueModel { code: "malformed"@, message, path: None },
            ],
            Ok(definitions) => validation_of(service, bytes).issues == issues_of(service, definitions),
        },
{
}

/// A parsed service is made of plain names: its name and port are
/// non-empty, hold no slash and no surrounding white space; and it has a
/// port exactly when the reference holds a slash.
pub proof fn law_a_parsed_service_is_made_of_plain_names(reference: Seq<char>)
    ensures
        service_parsing(reference) matches Ok(service) ==> {
            &&& plain_name(service.name)
            &&& service.port matches Some(port) ==> plain_name(port)
            &&& service.port is None <==> !reference.contains('/')
        },
{
    let pieces = split(reference, '/');
    law_split_pieces_are_free_of_the_separator(reference, '/');
    if pieces.len() >= 1 {
        law_trimming_is_idempotent(pieces[0]);
        assert(!pieces[0].contains('/'));
    }
    if pieces.len() >= 2 {
        law_trimming_is_idempotent(pieces[1]);
        assert(!pieces[1].contains('/'));
    }
}

/// The bare contract is named `wsdl`, a bound one `wsdl:SERVICE` or
/// `wsdl:SERVICE/PORT`; both are of version 1, for
/// `application/wsdl+xml`.
pub proof fn law_a_contract_is_named_by_what_it_is_bound_to(service: ServiceModel)
    ensures
        bare().service is None,
        bare().descriptor == (DescriptorModel {
            id: "wsdl"@,
            version: "1"@,
            representation: "application/wsdl+xml"@,
        }),
        bound_to(service).service == Some(service),
        bound_to(service).descriptor == (DescriptorModel {
            id: match service.port {
                Some(port) => "wsdl:"@ + service.name + "/"@ + port,
                None => "wsdl:"@ + service.name,
            },
            version: "1"@,
            representation: "application/wsdl+xml"@,
        }),
{
    match service.port {
        Some(port) => {
            assert("wsdl:"@ + (service.name + "/"@ + port) =~= "wsdl:"@ + service.name + "/"@ + port);
        },
        None => {},
    }
}

} // verus!
