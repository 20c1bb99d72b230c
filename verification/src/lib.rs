//! Online aggregation of IPv4 addresses into a minimal covering set of CIDR
//! prefixes.
//!
//! The heart of the crate is [`subnet_tree`]: a trie over the four octets of
//! an IPv4 address whose nodes track, in a 512-bit packed bitmap, both the
//! presence of child octets and the set of already-merged subnets.  Sibling
//! blocks are merged eagerly as insertions proceed, and the current aggregate
//! set is enumerated as a sequence of `(prefix, mask)` pairs.
//!
//! The surrounding modules hold the pure parts of the service built around
//! the tree: payload parsing ([`parsers`]), output formatting
//! ([`formatters`] and its plain-string twin [`udp`]), configuration data
//! ([`config`]), and the decision logic of the event loop ([`ipagg`],
//! [`listeners`], [`senders`]).

pub mod config;
pub mod formatters;
pub mod ipagg;
pub mod listeners;
pub mod parsers;
pub mod senders;
pub mod subnet_tree;
pub mod udp;
