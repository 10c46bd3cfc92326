//! DNS Templar's verified core: the text handling, the domain features that
//! are counts and pieces of text, the blacklist and whitelist, the tiers of
//! a verdict, and the DNS decisions (reading the query, blocking with
//! NXDOMAIN or forwarding).
pub mod text;
pub mod features;
pub mod blacklist;
pub mod classifier;
pub mod dns;
pub mod config;
