//! Mirror IMAP mailbox folders into a Markdown file store.
//!
//! The library holds the verified core of the tool: the Markdown codec for
//! conversation threads, the merge engine that folds newly fetched messages
//! into thread files, the label router, the sync cursor bookkeeping, the
//! orphan reconciler and the manifest generator.  All file, network and
//! terminal work stays outside, in the surrounding application; the library
//! computes on plain values handed in from there.

pub mod strutil;
pub mod types;
pub mod util;
pub mod markdown;
pub mod merge;
pub mod driver;
pub mod routes;
pub mod orphan;
pub mod manifest;
pub mod resolve;
pub mod accounts;
