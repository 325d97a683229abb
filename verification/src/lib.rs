//! Verified core of a read-only smart-HTTP Git server: pkt-line framing,
//! upload-pack request parsing, ref advertisement, pack stream encoding,
//! repository path resolution and repository discovery bookkeeping.

pub mod backend;
pub mod bytes_util;
pub mod collect;
pub mod discovery;
pub mod error;
pub mod fixture;
pub mod http;
pub mod oid;
pub mod packfile;
pub mod path;
pub mod pktline;
pub mod refs;
pub mod request;
pub mod text;
