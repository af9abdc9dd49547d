//! A minimal hypervisor control plane: enumerating, pausing and unpausing
//! domains, creating a domain and bootstrapping it from a raw kernel image,
//! and signalling shutdown through a hierarchical control store.
//!
//! The crate models the two privileged handles of such a control plane — the
//! hypervisor session and the control-store session — as explicit state
//! machines over plain values, and verifies the logic that drives them: the
//! paginated domain enumeration, the transactional shutdown protocol, the
//! HVM save-record codec, and the domain boot orchestrator.

pub mod boot;
pub mod domain_config;
pub mod hvm;
pub mod text;
pub mod xenctrl;
pub mod vm;
pub mod xenstore;
