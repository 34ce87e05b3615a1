//! WSDL descriptions: read into what they define and what refers to what,
//! and held as a content contract.

pub mod text;
pub mod xml;
pub mod definitions;
pub mod contract;
pub mod wsdl;
pub mod structure;
