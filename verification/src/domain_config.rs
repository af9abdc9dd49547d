//! The declarative VM configuration: the values a configuration file
//! provides for creating and booting a domain. Reading such a file is the
//! caller's concern; this module holds only the configuration record.

use vstd::prelude::*;
use vstd::string::StringExecFns;

verus! {

/// A configuration-layer failure, carrying no further detail.
#[derive(Debug)]
pub struct Error {}

impl Error {
    pub fn new() -> Error {
        Error {  }
    }

    /// The textual form of a configuration failure.
    pub fn text(&self) -> (r: String)
        ensures
            r@ == "error"@,
    {
        String::from_str("error")
    }
}

/// The virtualization mode a configuration asks for.
pub enum DomainType {
    Hvm,
    PvHvm,
    Pv,
}

/// A declarative VM configuration.
pub struct Config {
    pub name: String,
    pub vcpus: u32,
    pub domain_type: DomainType,
    pub memory: usize,
    pub kernel: String,
    pub firmware_override: String,
}

impl Config {
    /// An empty configuration: no name, no resources, paravirtualized.
    pub fn new() -> (r: Config)
        ensures
            r.name@ == Seq::<char>::empty(),
            r.vcpus == 0,
            r.domain_type is Pv,
            r.memory == 0,
            r.kernel@ == Seq::<char>::empty(),
            r.firmware_override@ == Seq::<char>::empty(),
    {
        Config {
            name: String::new(),
            vcpus: 0,
            domain_type: DomainType::Pv,
            memory: 0,
            kernel: String::new(),
            firmware_override: String::new(),
        }
    }
}

} // verus!
