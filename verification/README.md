# wsdl_contract

The WSDL content contract, verified with Verus.

A WSDL description is *sound* when it is well-formed XML whose root is
WSDL 1.1's `definitions` or WSDL 2.0's `description`, and every reference in
it lands: an operation's parts on messages, a binding on a port type or
interface, a port or endpoint on a binding. Bound to a service (`OrderService`
or `OrderService/OrdersPort`), the contract also holds a description to
defining that service and port.

- `src/text.rs`: trimming, splitting, local names, ASCII case-insensitive
  comparison and substring search on characters.
- `src/xml.rs`: a parsed XML document as plain values; `roxmltree` parses.
- `src/definitions.rs`: what a description defines and refers to, and its
  dangling references.
- `src/contract.rs`: streams, descriptors, issues and validation results.
- `src/wsdl.rs`: services, the contract (identify, validate) and its factory.
- `app/lib.rs`: the contract framework's traits implemented over the library.
