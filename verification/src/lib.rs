//! Minimal perfect hashing by BDZ (3-hypergraph peeling).
//!
//! - Build once on a set of **unique** byte-string keys.
//! - O(1) lookups: key -> unique index in `[0..n)`.
//! - Robust: if a build attempt finds a cycle, we rehash with another salt.

mod bdz;
mod codec;
mod counts;
mod hash;
mod util;

pub use bdz::{
    graph_peelable, has_duplicate, key_views, lemma_algebraic_identity,
    lemma_build_salt_deterministic, lemma_default_salt_round0_fresh, lemma_perfect_hashing,
    m_spec, mix_salt_spec, peel_done,
    peelable, perfect_on, rec_vertex, splitmix64_spec, vertices_spec, wyhash_of, BuildConfig,
    Builder, MphError, Mphf, PeelRec, MAX_KEYS,
};
pub use codec::{
    lemma_serialization_round_trip, lemma_to_bytes_injective, spec_g_bytes, spec_to_bytes,
};
pub use hash::{xxh3_of, KeyHash};
pub use util::BitSet;
