use vstd::prelude::*;

pub mod bundle;
pub mod bundle_index;
pub mod bytes;
pub mod dat;
pub mod dat_schema;
pub mod poefs;
pub mod ggpk;
pub mod it;
pub mod text;
pub mod translation;

verus! {

/// Errors reported by the archive and resource codecs.
#[derive(Debug, Clone, Copy, PartialEq, Eq, Structural)]
pub enum Error {
    /// A malformed byte stream: unknown tag, bad sentinel, inconsistent sizes.
    Format,
    /// A logical path, bundle, file hash or schema table is absent.
    NotFound,
    /// A network failure other than a missing resource.
    Transport,
    /// The block decoder refused its input.
    Codec,
    /// A schema column requests a type the decoder cannot satisfy.
    SchemaMismatch,
    /// A feature not implemented for the requested input.
    Unsupported,
    /// An `extends` chain is cyclic.
    Cycle,
}

} // verus!
