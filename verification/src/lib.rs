//! A registry of scheduled tasks kept inside the system job table.
//!
//! The library models each job-table entry as an [`item::Item`]: either a
//! structured entry owned by this tool, tagged with a JSON payload in a
//! marker comment, or an opaque entry preserved byte for byte. On top of
//! that model it provides the table codec, the file-discovery scanner and
//! the repository reconciliation engine. All input and output (the job
//! table accessor, the version-control client, the filesystem walk) is the
//! caller's business: every function here is a pure computation.

pub mod codec;
pub mod errors;
pub mod item;
pub mod payload;
pub mod repo;
pub mod rex;
pub mod scan;
pub mod strutil;

pub use item::{Item, ItemArgs, Payload, RepoArgs};
