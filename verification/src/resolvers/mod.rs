//! The protocols over which domains are looked up.

pub mod bd;
pub mod domain_object;
pub mod rdap;
pub mod whois;
