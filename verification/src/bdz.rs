//! Minimal perfect hash by BDZ (3-hypergraph peeling) with:
//! - wyhash-based vertex derivation (1 x wyhash + splitmix64)
//! - CSR adjacency (offsets + flat edges)
//! - u32 everywhere and cache-friendly data layout
//!
//! Query: f(k) = (g[v0] + g[v1] + g[v2]) % n

use crate::counts::{
    ec1, edge_count, prefix_count, live_count, col_sum, lemma_prefix_count_bounds,
    lemma_prefix_count_mono, lemma_live_count_all_false, lemma_live_count_term,
    lemma_live_count_two_terms, lemma_live_count_remove, lemma_live_count_zero,
    lemma_live_count_single, lemma_covering_seq_len,
    lemma_col_sum_total, lemma_col_sum_mono, lemma_distinct_bounded_len, lemma_distinct_covers,
};
use vstd::prelude::*;
use vstd::string::StringSliceAdditionalSpecFns;

verus! {

/// Constant XORed into the hash before the first splitmix64 derivation.
pub const DERIVE_XOR_A: u64 = 0x9E37_79B9_7F4A_7C15;

/// Constant added (wrapping) to the hash before the second derivation.
pub const DERIVE_ADD_B: u64 = 0xA24B_1F6F;

/// Constant XORed into the hash before the third derivation.
pub const DERIVE_XOR_C: u64 = 0x853C_49E6_0A6C_9D39;

/// Largest supported key count: keeps every vertex degree and every CSR
/// offset within `u32`/`usize` range for any accepted `gamma_centi`.
pub const MAX_KEYS: usize = 1_000_000_000;

/// The 64-bit keyed hash of a byte string, as the wyhash algorithm defines
/// it: a pure function of the bytes and the seed.
pub uninterp spec fn wyhash_of(data: Seq<u8>, seed: u64) -> u64;

/// Relies on `wyhash::wyhash`: a keyed 64-bit hash whose result depends on
/// the bytes and the seed alone.
#[verifier::external_body]
fn wyhash64(data: &[u8], seed: u64) -> (r: u64)
    ensures
        r == wyhash_of(data@, seed),
{
    wyhash::wyhash(data, seed)
}

/// What `splitmix64` computes: the standard 64-bit avalanche mix.
pub open spec fn splitmix64_spec(x0: u64) -> u64 {
    let x = vstd::wrapping::u64_specs::wrapping_add(x0, 0x9E3779B97F4A7C15u64);
    let z1 = vstd::wrapping::u64_specs::wrapping_mul(x ^ (x >> 30u64), 0xBF58476D1CE4E5B9u64);
    let z2 = vstd::wrapping::u64_specs::wrapping_mul(z1 ^ (z1 >> 27u64), 0x94D049BB133111EBu64);
    z2 ^ (z2 >> 31u64)
}

/// The standard 64-bit avalanche mix (splitmix64 finalizer).
fn splitmix64(x0: u64) -> (r: u64)
    ensures
        r == splitmix64_spec(x0),
{
    let x = x0.wrapping_add(0x9E3779B97F4A7C15u64);
    let mut z = x;
    z = (z ^ (z >> 30u64)).wrapping_mul(0xBF58476D1CE4E5B9u64);
    z = (z ^ (z >> 27u64)).wrapping_mul(0x94D049BB133111EBu64);
    z ^ (z >> 31u64)
}

/// What `mix_salt` computes: an FNV-style mix of base salt and round.
pub open spec fn mix_salt_spec(base: u64, round: u32) -> u64 {
    let h0 = 0xcbf29ce484222325u64 ^ base;
    let h1 = h0 ^ (round as u64);
    let h2 = vstd::wrapping::u64_specs::wrapping_mul(h1, 0x100000001b3u64);
    h2 ^ (h2 >> 33u64)
}

/// Deterministically tweak the base salt by the round number (FNV-like).
fn mix_salt(base: u64, round: u32) -> (r: u64)
    ensures
        r == mix_salt_spec(base, round),
{
    let h0: u64 = 0xcbf29ce484222325u64 ^ base;
    let h1: u64 = h0 ^ (round as u64);
    let h2: u64 = h1.wrapping_mul(0x100000001b3u64);
    h2 ^ (h2 >> 33u64)
}

/// The three vertex indices of a key: one keyed hash, three avalanche-mix
/// derivations, each reduced modulo `m`.  Build and query agree on this
/// function bit for bit.
pub open spec fn vertices_spec(key: Seq<u8>, salt: u64, m: u64) -> (u32, u32, u32) {
    let base = wyhash_of(key, salt);
    (
        ((splitmix64_spec(base ^ DERIVE_XOR_A) as int % m as int) as u32),
        ((splitmix64_spec(
            vstd::wrapping::u64_specs::wrapping_add(base, DERIVE_ADD_B),
        ) as int % m as int) as u32),
        ((splitmix64_spec(base ^ DERIVE_XOR_C) as int % m as int) as u32),
    )
}

/// 1 x wyhash + splitmix64 -> three vertex indices below `m`.
fn vertices(key: &[u8], salt: u64, m: u64) -> (r: (u32, u32, u32))
    requires
        1 <= m <= u32::MAX as u64,
    ensures
        r == vertices_spec(key@, salt, m),
        (r.0 as u64) < m,
        (r.1 as u64) < m,
        (r.2 as u64) < m,
{
    let base = wyhash64(key, salt);
    let a = splitmix64(base ^ DERIVE_XOR_A) % m;
    let b = splitmix64(base.wrapping_add(DERIVE_ADD_B)) % m;
    let c = splitmix64(base ^ DERIVE_XOR_C) % m;
    (a as u32, b as u32, c as u32)
}

/// Minimal perfect hash artifact, created by [`Builder::build`] and immutable
/// afterwards.
#[derive(Debug, Clone)]
pub struct Mphf {
    /// Number of keys.
    pub n: u64,
    /// Graph vertices (`m = ceil(gamma * n)`).
    pub m: u32,
    /// Effective salt used to derive vertices.
    pub salt: u64,
    /// Displacement table; length `m`, values in `[0..n)`.
    pub g: Vec<u32>,
}

impl Mphf {
    /// Structural validity: the builder establishes it, and every query
    /// relies on it.
    pub open spec fn wf(self) -> bool {
        &&& 1 <= self.n <= u32::MAX as u64
        &&& 1 <= self.m
        &&& self.g@.len() == self.m as int
        &&& forall|v: int| 0 <= v < self.g@.len() ==> (self.g@[v] as u64) < self.n
    }

    /// The index of a key: displacements of its three vertices, summed
    /// modulo `n`.
    pub open spec fn index_spec(self, key: Seq<u8>) -> int {
        let abc = vertices_spec(key, self.salt, self.m as u64);
        (self.g@[abc.0 as int] + self.g@[abc.1 as int] + self.g@[abc.2 as int]) % (self.n as int)
    }

    /// O(1) lookup.  Total on byte strings: a key outside the build set maps
    /// to an arbitrary value below `n`.
    pub fn index(&self, key: &[u8]) -> (r: u64)
        requires
            self.wf(),
        ensures
            r == self.index_spec(key@),
            r < self.n,
    {
        let abc = vertices(key, self.salt, self.m as u64);
        let ga = self.g[abc.0 as usize] as u64;
        let gb = self.g[abc.1 as usize] as u64;
        let gc = self.g[abc.2 as usize] as u64;
        (ga + gb + gc) % self.n
    }

    /// O(1) lookup of a text key, through its UTF-8 bytes.
    pub fn index_str(&self, s: &str) -> (r: u64)
        requires
            self.wf(),
        ensures
            r == self.index_spec(s.spec_bytes()),
            r < self.n,
    {
        self.index(s.as_bytes())
    }
}

/// Builder configuration.
#[derive(Debug, Clone)]
pub struct BuildConfig {
    /// Vertex ratio `m/n` in hundredths: BDZ classic ~123; for very large
    /// key sets a good value is 127.
    pub gamma_centi: u32,
    /// Maximum rehash attempts if the graph is not peelable.
    pub rehash_limit: u32,
    /// Base salt.  Effective salts are derived deterministically.
    pub salt: u64,
}

impl BuildConfig {
    /// The accepted parameter range: `gamma` between 1.00 and 4.00 keeps
    /// every working array within its integer type for `MAX_KEYS` keys.
    pub open spec fn wf(self) -> bool {
        100 <= self.gamma_centi <= 400
    }
}

impl Default for BuildConfig {
    /// `gamma = 1.27`, 16 rehash rounds, a fixed default salt.
    fn default() -> (r: Self)
        ensures
            r.gamma_centi == 127,
            r.rehash_limit == 16,
            r.salt == 0xC0FF_EE00_D15E_A5Eu64,
            r.wf(),
    {
        BuildConfig { gamma_centi: 127, rehash_limit: 16, salt: 0xC0FF_EE00_D15E_A5Eu64 }
    }
}

/// Build and serialization failures.
#[derive(Debug, Clone, Copy, PartialEq, Eq)]
pub enum MphError {
    /// Two input keys are byte-equal.
    DuplicateKey,
    /// The graph was not peelable after all rehash attempts.
    Unresolvable,
    /// A serialized artifact could not be decoded.
    Serde,
}

/// Number of vertices for `n` keys at ratio `gamma_centi / 100`, rounded up.
pub open spec fn m_spec(gamma_centi: u32, n: int) -> int {
    (gamma_centi * n + 99) / 100
}

/// Sentinel marking a `g` entry that no peel record has assigned yet; such
/// an entry counts as 0 and is finalized to 0.
pub const UNASSIGNED: u32 = 0xFFFF_FFFF;

/// One record of a peeling: an edge and which of its three slots held the
/// free (degree-1) vertex when the edge was removed.
#[derive(Clone, Copy)]
pub struct PeelRec {
    /// The removed edge.
    pub edge: u32,
    /// The slot (0, 1 or 2) of the pivot vertex.
    pub pivot: u8,
}

/// The pivot vertex of a peel record.
pub open spec fn rec_vertex(r: PeelRec, v0: Seq<u32>, v1: Seq<u32>, v2: Seq<u32>) -> int {
    if r.pivot == 0 {
        v0[r.edge as int] as int
    } else if r.pivot == 1 {
        v1[r.edge as int] as int
    } else {
        v2[r.edge as int] as int
    }
}

/// How many records of `recs` have pivot vertex `v`.
spec fn pivot_count(v: int, recs: Seq<PeelRec>, v0: Seq<u32>, v1: Seq<u32>, v2: Seq<u32>) -> int
    decreases recs.len(),
{
    if recs.len() <= 0 {
        0
    } else {
        pivot_count(v, recs.drop_last(), v0, v1, v2) + if rec_vertex(recs.last(), v0, v1, v2)
            == v {
            1int
        } else {
            0int
        }
    }
}

proof fn lemma_pivot_count_nonneg(
    v: int,
    recs: Seq<PeelRec>,
    v0: Seq<u32>,
    v1: Seq<u32>,
    v2: Seq<u32>,
)
    ensures
        0 <= pivot_count(v, recs, v0, v1, v2),
    decreases recs.len(),
{
    if recs.len() > 0 {
        lemma_pivot_count_nonneg(v, recs.drop_last(), v0, v1, v2);
    }
}

proof fn lemma_pivot_count_push(
    v: int,
    recs: Seq<PeelRec>,
    r: PeelRec,
    v0: Seq<u32>,
    v1: Seq<u32>,
    v2: Seq<u32>,
)
    ensures
        pivot_count(v, recs.push(r), v0, v1, v2) == pivot_count(v, recs, v0, v1, v2) + if
            rec_vertex(r, v0, v1, v2) == v {
            1int
        } else {
            0int
        },
{
    assert(recs.push(r).drop_last() =~= recs);
    assert(recs.push(r).last() == r);
}

/// A record already in the peel order: its edge is in range and removed,
/// and its pivot vertex fills exactly one of the edge's three slots.
spec fn peel_rec_ok(
    r: PeelRec,
    n: int,
    v0: Seq<u32>,
    v1: Seq<u32>,
    v2: Seq<u32>,
    removed: Seq<bool>,
) -> bool {
    &&& (r.edge as int) < n
    &&& r.pivot < 3
    &&& removed[r.edge as int]
    &&& edge_count(rec_vertex(r, v0, v1, v2), v0, v1, v2, r.edge as int) == 1
}

/// The peeling state invariant: degrees track live incidence plus past
/// pivots, pivots are off every live edge, and earlier pivots are off every
/// later-peeled edge.
spec fn peel_inv(
    n: int,
    m: int,
    v0: Seq<u32>,
    v1: Seq<u32>,
    v2: Seq<u32>,
    deg: Seq<u32>,
    removed: Seq<bool>,
    peel: Seq<PeelRec>,
) -> bool {
    &&& v0.len() == n && v1.len() == n && v2.len() == n
    &&& forall|i: int|
        0 <= i < n ==> (v0[i] as int) < m && (v1[i] as int) < m && (v2[i] as int) < m
    &&& deg.len() == m
    &&& removed.len() == n
    &&& forall|v: int|
        0 <= v < m ==> (deg[v] as int) == live_count(v, v0, v1, v2, removed, n) + pivot_count(
            v,
            peel,
            v0,
            v1,
            v2,
        )
    &&& forall|t: int| 0 <= t < peel.len() ==> peel_rec_ok(#[trigger] peel[t], n, v0, v1, v2, removed)
    &&& forall|t: int, e: int|
        #![trigger peel[t], removed[e]]
        0 <= t < peel.len() && 0 <= e < n && !removed[e] ==> edge_count(
            rec_vertex(peel[t], v0, v1, v2),
            v0,
            v1,
            v2,
            e,
        ) == 0
    &&& forall|t1: int, t2: int|
        0 <= t1 < t2 < peel.len() ==> edge_count(
            rec_vertex(#[trigger] peel[t1], v0, v1, v2),
            v0,
            v1,
            v2,
            (#[trigger] peel[t2]).edge as int,
        ) == 0
    &&& forall|t1: int, t2: int|
        0 <= t1 < t2 < peel.len() ==> (#[trigger] peel[t1]).edge != (#[trigger] peel[t2]).edge
    &&& forall|e: int|
        0 <= e < n && #[trigger] removed[e] ==> exists|t: int|
            0 <= t < peel.len() && ((#[trigger] peel[t]).edge as int) == e
}

/// A valid peel order: every record's edge is in range, its pivot vertex
/// fills exactly one of the edge's slots and touches no later-peeled edge,
/// and no edge is peeled twice.
pub open spec fn peel_done(n: int, v0: Seq<u32>, v1: Seq<u32>, v2: Seq<u32>, peel: Seq<PeelRec>) -> bool {
    &&& forall|t: int|
        0 <= t < peel.len() ==> {
            &&& ((#[trigger] peel[t]).edge as int) < n
            &&& peel[t].pivot < 3
            &&& edge_count(rec_vertex(peel[t], v0, v1, v2), v0, v1, v2, peel[t].edge as int) == 1
        }
    &&& forall|t1: int, t2: int|
        0 <= t1 < t2 < peel.len() ==> edge_count(
            rec_vertex(#[trigger] peel[t1], v0, v1, v2),
            v0,
            v1,
            v2,
            (#[trigger] peel[t2]).edge as int,
        ) == 0
    &&& forall|t1: int, t2: int|
        0 <= t1 < t2 < peel.len() ==> (#[trigger] peel[t1]).edge != (#[trigger] peel[t2]).edge
}

/// The 3-uniform hypergraph with edges `(v0[i], v1[i], v2[i])` is fully
/// peelable: some complete peel order removes every edge.
pub open spec fn peelable(n: int, v0: Seq<u32>, v1: Seq<u32>, v2: Seq<u32>) -> bool {
    exists|peel: Seq<PeelRec>| peel.len() == n && peel_done(n, v0, v1, v2, peel)
}

/// The hypergraph a build attempt derives from `keys` under `salt` over `m`
/// vertices is fully peelable.
pub open spec fn graph_peelable(keys: Seq<Seq<u8>>, salt: u64, m: u64) -> bool {
    peelable(
        keys.len() as int,
        Seq::new(keys.len(), |i: int| vertices_spec(keys[i], salt, m).0),
        Seq::new(keys.len(), |i: int| vertices_spec(keys[i], salt, m).1),
        Seq::new(keys.len(), |i: int| vertices_spec(keys[i], salt, m).2),
    )
}

proof fn lemma_pivot_count_witness(
    v: int,
    recs: Seq<PeelRec>,
    v0: Seq<u32>,
    v1: Seq<u32>,
    v2: Seq<u32>,
)
    requires
        pivot_count(v, recs, v0, v1, v2) >= 1,
    ensures
        exists|t: int| 0 <= t < recs.len() && rec_vertex(#[trigger] recs[t], v0, v1, v2) == v,
    decreases recs.len(),
{
    if recs.len() > 0 {
        if rec_vertex(recs.last(), v0, v1, v2) == v {
            assert(rec_vertex(recs[recs.len() - 1], v0, v1, v2) == v);
        } else {
            lemma_pivot_count_witness(v, recs.drop_last(), v0, v1, v2);
            let t = choose|t: int|
                0 <= t < recs.drop_last().len() && rec_vertex(
                    #[trigger] recs.drop_last()[t],
                    v0,
                    v1,
                    v2,
                ) == v;
            assert(recs[t] == recs.drop_last()[t]);
        }
    } else {
        lemma_pivot_count_nonneg(v, recs, v0, v1, v2);
    }
}

/// The earliest position of `w` whose edge the algorithm left unremoved.
proof fn lemma_least_unremoved(w: Seq<PeelRec>, removed: Seq<bool>, t: int) -> (t0: int)
    requires
        0 <= t < w.len(),
        0 <= w[t].edge < removed.len(),
        !removed[w[t].edge as int],
        forall|s: int| 0 <= s < w.len() ==> 0 <= (#[trigger] w[s]).edge < removed.len(),
    ensures
        0 <= t0 <= t,
        !removed[w[t0].edge as int],
        forall|s: int| 0 <= s < t0 ==> removed[(#[trigger] w[s]).edge as int],
    decreases t,
{
    if exists|s: int| 0 <= s < t && !removed[(#[trigger] w[s]).edge as int] {
        let s = choose|s: int| 0 <= s < t && !removed[(#[trigger] w[s]).edge as int];
        lemma_least_unremoved(w, removed, s)
    } else {
        t
    }
}

/// The contribution of vertex `s` to a sum over `g`, reading the sentinel
/// as 0.
spec fn gval(g: Seq<u32>, s: u32) -> int {
    if g[s as int] == UNASSIGNED {
        0
    } else {
        g[s as int] as int
    }
}

/// Edge `e` already satisfies its displacement equation, with unassigned
/// vertices counting as 0.
spec fn eq_val(g: Seq<u32>, v0: Seq<u32>, v1: Seq<u32>, v2: Seq<u32>, n: int, e: int) -> bool {
    (gval(g, v0[e]) + gval(g, v1[e]) + gval(g, v2[e])) % n == e
}

/// The assignment formula hits its target residue.
proof fn lemma_mod_assign(e: int, gy: int, gz: int, n: int)
    requires
        0 <= e < n,
        0 <= gy,
        0 <= gz,
    ensures
        (((e % n) + n - ((gy + gz) % n)) % n + gy + gz) % n == e,
{
    let s = gy + gz;
    let r = s % n;
    let a = (e % n) + n - r;
    vstd::arithmetic::div_mod::lemma_mod_bound(s, n);
    vstd::arithmetic::div_mod::lemma_small_mod(e as nat, n as nat);
    vstd::arithmetic::div_mod::lemma_add_mod_noop_right(s, a, n);
    assert((s + a % n) % n == (s + a) % n);
    vstd::arithmetic::div_mod::lemma_fundamental_div_mod(s, n);
    assert(s - r == n * (s / n));
    assert(a % n + s == (a % n) + s);
    assert((a % n + s) % n == (s + a % n) % n);
    assert(s + a == e + n + n * (s / n));
    vstd::arithmetic::div_mod::lemma_mod_multiples_vanish(1 + s / n, e, n);
    assert((n * (1 + s / n) + e) % n == e % n);
    assert(n * (1 + s / n) == n + n * (s / n)) by (nonlinear_arith);
}

/// Decrement the degree of `v`; a vertex reaching degree 1 becomes a peel
/// candidate and joins the queue.
fn dec_deg(deg: &mut Vec<u32>, v: u32, q: &mut Vec<u32>)
    requires
        (v as int) < old(deg)@.len(),
    ensures
        final(deg)@.len() == old(deg)@.len(),
        old(deg)@[v as int] > 0 ==> final(deg)@ == old(deg)@.update(
            v as int,
            (old(deg)@[v as int] - 1) as u32,
        ),
        old(deg)@[v as int] == 0 ==> final(deg)@ == old(deg)@,
        old(deg)@[v as int] == 2 ==> final(q)@ == old(q)@.push(v),
        old(deg)@[v as int] != 2 ==> final(q)@ == old(q)@,
{
    let d = deg[v as usize];
    if d > 0 {
        deg[v as usize] = d - 1;
        if d - 1 == 1 {
            q.push(v);
        }
    }
}

/// Copy a key byte for byte.
fn clone_bytes(v: &Vec<u8>) -> (r: Vec<u8>)
    ensures
        r@ == v@,
{
    let mut r: Vec<u8> = Vec::new();
    let mut i: usize = 0;
    while i < v.len()
        invariant
            i <= v@.len(),
            r@ == v@.subrange(0, i as int),
        decreases v@.len() - i,
    {
        proof {
            assert(v@.subrange(0, i as int).push(v@[i as int]) =~= v@.subrange(0, i as int + 1));
        }
        r.push(v[i]);
        i = i + 1;
    }
    proof {
        assert(r@ =~= v@);
    }
    r
}

/// The byte strings a duplicate-detection set holds.
pub uninterp spec fn seen_keys(s: std::collections::HashSet<Vec<u8>>) -> Set<Seq<u8>>;

/// Relies on std's `HashSet::new`: the new set is empty.
#[verifier::external_body]
fn key_set_new() -> (r: std::collections::HashSet<Vec<u8>>)
    ensures
        seen_keys(r) == Set::<Seq<u8>>::empty(),
{
    std::collections::HashSet::new()
}

/// Relies on std's `HashSet::insert` with `Vec<u8>` keys: membership is
/// decided by exact byte equality, and the result says whether the value
/// was new.
#[verifier::external_body]
fn key_set_insert(s: &mut std::collections::HashSet<Vec<u8>>, v: Vec<u8>) -> (r: bool)
    ensures
        r == !seen_keys(*old(s)).contains(v@),
        seen_keys(*final(s)) == seen_keys(*old(s)).insert(v@),
{
    s.insert(v)
}

/// The views of the first `k` keys, as a set.
spec fn prefix_key_set(ks: Seq<Vec<u8>>, k: int) -> Set<Seq<u8>>
    decreases k,
{
    if k <= 0 {
        Set::empty()
    } else {
        prefix_key_set(ks, k - 1).insert(ks[k - 1]@)
    }
}

proof fn lemma_prefix_key_set_has(ks: Seq<Vec<u8>>, k: int, a: int)
    requires
        0 <= a < k,
    ensures
        prefix_key_set(ks, k).contains(ks[a]@),
    decreases k,
{
    if a < k - 1 {
        lemma_prefix_key_set_has(ks, k - 1, a);
    }
}

proof fn lemma_prefix_key_set_member(ks: Seq<Vec<u8>>, k: int, s: Seq<u8>)
    requires
        0 <= k,
        prefix_key_set(ks, k).contains(s),
    ensures
        exists|a: int| 0 <= a < k && ks[a]@ == s,
    decreases k,
{
    if k > 0 {
        if ks[k - 1]@ == s {
            assert(0 <= k - 1 < k && ks[k - 1]@ == s);
        } else {
            lemma_prefix_key_set_member(ks, k - 1, s);
            let a = choose|a: int| 0 <= a < k - 1 && ks[a]@ == s;
            assert(0 <= a < k && ks[a]@ == s);
        }
    }
}

/// Two of the keys are byte-equal.
pub open spec fn has_duplicate(ks: Seq<Vec<u8>>) -> bool {
    exists|a: int, b: int| 0 <= a < b < ks.len() && ks[a]@ == ks[b]@
}

/// The views of a key list, in order.
pub open spec fn key_views(ks: Seq<Vec<u8>>) -> Seq<Seq<u8>> {
    Seq::new(ks.len(), |i: int| ks[i]@)
}

/// `mph` is a minimal perfect hash for `keys`: every key maps to its own
/// position, so the indices of the key set are exactly `0 .. keys.len()`.
pub open spec fn perfect_on(mph: Mphf, keys: Seq<Seq<u8>>) -> bool {
    &&& mph.wf()
    &&& mph.n as int == keys.len()
    &&& forall|i: int| 0 <= i < keys.len() ==> mph.index_spec(#[trigger] keys[i]) == i
}

/// Derive the three vertices of every key (phase a of a build attempt).
fn derive_vertices(keys: &Vec<Vec<u8>>, salt: u64, m: u64) -> (r: (Vec<u32>, Vec<u32>, Vec<u32>))
    requires
        1 <= m <= u32::MAX as u64,
    ensures
        r.0@.len() == keys@.len(),
        r.1@.len() == keys@.len(),
        r.2@.len() == keys@.len(),
        forall|i: int|
            0 <= i < keys@.len() ==> #[trigger] r.0@[i] == vertices_spec(keys@[i]@, salt, m).0
                && r.1@[i] == vertices_spec(keys@[i]@, salt, m).1 && r.2@[i] == vertices_spec(
                keys@[i]@,
                salt,
                m,
            ).2,
        forall|i: int|
            0 <= i < keys@.len() ==> ((#[trigger] r.0@[i]) as u64) < m && (r.1@[i] as u64) < m && (
            r.2@[i] as u64) < m,
{
    let nn = keys.len();
    let mut v0: Vec<u32> = Vec::new();
    let mut v1: Vec<u32> = Vec::new();
    let mut v2: Vec<u32> = Vec::new();
    let mut i: usize = 0;
    while i < nn
        invariant
            nn == keys@.len(),
            1 <= m <= u32::MAX as u64,
            i <= nn,
            v0@.len() == i,
            v1@.len() == i,
            v2@.len() == i,
            forall|k: int|
                0 <= k < i ==> #[trigger] v0@[k] == vertices_spec(keys@[k]@, salt, m).0
                    && v1@[k] == vertices_spec(keys@[k]@, salt, m).1 && v2@[k] == vertices_spec(
                    keys@[k]@,
                    salt,
                    m,
                ).2,
            forall|k: int|
                0 <= k < i ==> ((#[trigger] v0@[k]) as u64) < m && (v1@[k] as u64) < m && (
                v2@[k] as u64) < m,
        decreases nn - i,
    {
        let t = vertices(keys[i].as_slice(), salt, m);
        v0.push(t.0);
        v1.push(t.1);
        v2.push(t.2);
        i = i + 1;
    }
    (v0, v1, v2)
}

/// Count vertex degrees (phase b of a build attempt).
fn count_degrees(v0: &Vec<u32>, v1: &Vec<u32>, v2: &Vec<u32>, n: usize, m: usize) -> (deg: Vec<
    u32,
>)
    requires
        v0@.len() == n,
        v1@.len() == n,
        v2@.len() == n,
        n <= MAX_KEYS,
        forall|i: int|
            0 <= i < n ==> ((#[trigger] v0@[i]) as int) < m && (v1@[i] as int) < m && (
            v2@[i] as int) < m,
    ensures
        deg@.len() == m,
        forall|v: int|
            0 <= v < m ==> ((#[trigger] deg@[v]) as int) == prefix_count(
                v,
                v0@,
                v1@,
                v2@,
                n as int,
            ),
{
    let mut deg: Vec<u32> = Vec::new();
    let mut v: usize = 0;
    while v < m
        invariant
            v <= m,
            deg@.len() == v,
            forall|w: int| 0 <= w < v ==> deg@[w] == 0u32,
        decreases m - v,
    {
        deg.push(0);
        v = v + 1;
    }
    let mut i: usize = 0;
    while i < n
        invariant
            v0@.len() == n,
            v1@.len() == n,
            v2@.len() == n,
            n <= MAX_KEYS,
            forall|k: int|
                0 <= k < n ==> ((#[trigger] v0@[k]) as int) < m && (v1@[k] as int) < m && (
                v2@[k] as int) < m,
            i <= n,
            deg@.len() == m,
            forall|w: int|
                0 <= w < m ==> ((#[trigger] deg@[w]) as int) == prefix_count(
                    w,
                    v0@,
                    v1@,
                    v2@,
                    i as int,
                ),
        decreases n - i,
    {
        let a = v0[i];
        let b = v1[i];
        let c = v2[i];
        let ghost deg0 = deg@;
        proof {
            lemma_prefix_count_bounds(a as int, v0@, v1@, v2@, i as int);
            lemma_prefix_count_bounds(b as int, v0@, v1@, v2@, i as int);
            lemma_prefix_count_bounds(c as int, v0@, v1@, v2@, i as int);
        }
        let da = deg[a as usize];
        deg[a as usize] = da + 1;
        let db = deg[b as usize];
        deg[b as usize] = db + 1;
        let dc = deg[c as usize];
        deg[c as usize] = dc + 1;
        proof {
            assert forall|w: int| 0 <= w < m implies ((#[trigger] deg@[w]) as int) == prefix_count(
                w,
                v0@,
                v1@,
                v2@,
                i as int + 1,
            ) by {
                assert(deg@[w] as int == deg0[w] as int + ec1(w, v0@[i as int]) + ec1(
                    w,
                    v1@[i as int],
                ) + ec1(w, v2@[i as int]));
                assert(prefix_count(w, v0@, v1@, v2@, i as int + 1) == prefix_count(
                    w,
                    v0@,
                    v1@,
                    v2@,
                    i as int,
                ) + edge_count(w, v0@, v1@, v2@, i as int));
            }
        }
        i = i + 1;
    }
    deg
}

/// Prefix-sum the degrees into CSR offsets (start of phase c).
fn build_offsets(deg: &Vec<u32>, v0: &Vec<u32>, v1: &Vec<u32>, v2: &Vec<u32>, n: usize, m: usize)
    -> (off: Vec<usize>)
    requires
        deg@.len() == m,
        v0@.len() == n,
        v1@.len() == n,
        v2@.len() == n,
        1 <= n <= MAX_KEYS,
        forall|i: int|
            0 <= i < n ==> ((#[trigger] v0@[i]) as int) < m && (v1@[i] as int) < m && (
            v2@[i] as int) < m,
        forall|v: int|
            0 <= v < m ==> ((#[trigger] deg@[v]) as int) == prefix_count(
                v,
                v0@,
                v1@,
                v2@,
                n as int,
            ),
    ensures
        off@.len() == m + 1,
        forall|w: int|
            0 <= w <= m ==> ((#[trigger] off@[w]) as int) == col_sum(w, v0@, v1@, v2@, n as int),
        off@[m as int] as int == 3 * n,
{
    let mut off: Vec<usize> = Vec::new();
    off.push(0);
    let mut v: usize = 0;
    while v < m
        invariant
            deg@.len() == m,
            v0@.len() == n,
            v1@.len() == n,
            v2@.len() == n,
            1 <= n <= MAX_KEYS,
            forall|i: int|
                0 <= i < n ==> ((#[trigger] v0@[i]) as int) < m && (v1@[i] as int) < m && (
                v2@[i] as int) < m,
            forall|w: int|
                0 <= w < m ==> ((#[trigger] deg@[w]) as int) == prefix_count(
                    w,
                    v0@,
                    v1@,
                    v2@,
                    n as int,
                ),
            v <= m,
            off@.len() == v + 1,
            forall|w: int|
                0 <= w <= v ==> ((#[trigger] off@[w]) as int) == col_sum(w, v0@, v1@, v2@, n as int),
        decreases m - v,
    {
        proof {
            lemma_col_sum_mono(v as int + 1, m as int, v0@, v1@, v2@, n as int);
            lemma_col_sum_total(m as int, v0@, v1@, v2@, n as int);
            lemma_prefix_count_bounds(v as int, v0@, v1@, v2@, n as int);
            assert(col_sum(v as int + 1, v0@, v1@, v2@, n as int) == col_sum(
                v as int,
                v0@,
                v1@,
                v2@,
                n as int,
            ) + prefix_count(v as int, v0@, v1@, v2@, n as int));
        }
        let o = off[v] + (deg[v] as usize);
        off.push(o);
        v = v + 1;
    }
    proof {
        lemma_col_sum_total(m as int, v0@, v1@, v2@, n as int);
    }
    off
}

/// The vertex in slot `s` (0, 1 or 2) of edge `e`.
spec fn slot_vertex(v0: Seq<u32>, v1: Seq<u32>, v2: Seq<u32>, e: int, s: int) -> int {
    if s == 0 {
        v0[e] as int
    } else if s == 1 {
        v1[e] as int
    } else {
        v2[e] as int
    }
}

/// Edge `e` is written in vertex `v`'s CSR row below the row's cursor.
spec fn row_entry(edges: Seq<u32>, off: Seq<usize>, cur: Seq<usize>, v: int, e: int) -> bool {
    exists|idx: int| off[v] <= idx < cur[v] && ((#[trigger] edges[idx]) as int) == e
}

/// Edge `e` stands in vertex `v`'s finished CSR row.
spec fn in_row(edges: Seq<u32>, off: Seq<usize>, v: int, e: int) -> bool {
    exists|idx: int| off[v] <= idx < off[v + 1] as int && ((#[trigger] edges[idx]) as int) == e
}

/// Two distinct vertices' CSR rows do not overlap.
proof fn lemma_rows_disjoint(
    v0: Seq<u32>,
    v1: Seq<u32>,
    v2: Seq<u32>,
    off: Seq<usize>,
    w1: int,
    w2: int,
    n: int,
    m: int,
)
    requires
        0 <= w1 < m,
        0 <= w2 < m,
        w1 != w2,
        off.len() == m + 1,
        forall|w: int| 0 <= w <= m ==> ((#[trigger] off[w]) as int) == col_sum(w, v0, v1, v2, n),
        0 <= n,
    ensures
        (off[w1 + 1] as int) <= off[w2] as int || (off[w2 + 1] as int) <= off[w1] as int,
{
    if w1 < w2 {
        lemma_col_sum_mono(w1 + 1, w2, v0, v1, v2, n);
    } else {
        lemma_col_sum_mono(w2 + 1, w1, v0, v1, v2, n);
    }
}

/// One CSR write at a row's cursor keeps every already-recorded row entry
/// in place.
proof fn lemma_rows_after_write(
    v0: Seq<u32>,
    v1: Seq<u32>,
    v2: Seq<u32>,
    off: Seq<usize>,
    cur0: Seq<usize>,
    cur1: Seq<usize>,
    edges0: Seq<u32>,
    edges1: Seq<u32>,
    x: int,
    upto: int,
    n: int,
    m: int,
)
    requires
        0 <= x < m,
        0 <= upto <= n,
        v0.len() == n && v1.len() == n && v2.len() == n,
        forall|i: int|
            0 <= i < n ==> ((#[trigger] v0[i]) as int) < m && (v1[i] as int) < m && (v2[i] as int)
                < m,
        off.len() == m + 1,
        forall|w: int| 0 <= w <= m ==> ((#[trigger] off[w]) as int) == col_sum(w, v0, v1, v2, n),
        cur0.len() == m,
        forall|w: int|
            0 <= w < m ==> off[w] <= #[trigger] cur0[w] && (cur0[w] as int) <= off[w + 1] as int,
        (cur0[x] as int) < off[x + 1] as int,
        edges0.len() == off[m as int],
        edges1.len() == edges0.len(),
        forall|idx: int|
            0 <= idx < edges0.len() && idx != cur0[x] as int ==> #[trigger] edges1[idx]
                == edges0[idx],
        cur1.len() == m,
        forall|w: int| 0 <= w < m && w != x ==> #[trigger] cur1[w] == cur0[w],
        (cur1[x] as int) == cur0[x] as int + 1,
        forall|e2: int, s: int|
            #![trigger slot_vertex(v0, v1, v2, e2, s)]
            0 <= e2 < upto && 0 <= s < 3 ==> row_entry(
                edges0,
                off,
                cur0,
                slot_vertex(v0, v1, v2, e2, s),
                e2,
            ),
    ensures
        forall|e2: int, s: int|
            #![trigger slot_vertex(v0, v1, v2, e2, s)]
            0 <= e2 < upto && 0 <= s < 3 ==> row_entry(
                edges1,
                off,
                cur1,
                slot_vertex(v0, v1, v2, e2, s),
                e2,
            ),
{
    assert forall|e2: int, s: int|
        #![trigger slot_vertex(v0, v1, v2, e2, s)]
        0 <= e2 < upto && 0 <= s < 3 implies row_entry(
        edges1,
        off,
        cur1,
        slot_vertex(v0, v1, v2, e2, s),
        e2,
    ) by {
        let sv = slot_vertex(v0, v1, v2, e2, s);
        if s == 0 {
            assert(sv == v0[e2] as int);
        } else if s == 1 {
            assert(sv == v1[e2] as int);
        } else {
            assert(sv == v2[e2] as int);
        }
        assert(((v0[e2]) as int) < m);
        assert(0 <= sv < m);
        lemma_col_sum_mono(sv + 1, m, v0, v1, v2, n);
        assert(row_entry(edges0, off, cur0, sv, e2));
        let idx = choose|idx: int|
            off[sv] <= idx < cur0[sv] && ((#[trigger] edges0[idx]) as int) == e2;
        if sv != x {
            lemma_rows_disjoint(v0, v1, v2, off, sv, x, n, m);
            if (off[sv + 1] as int) <= off[x] as int {
                assert(idx < cur0[sv] as int);
                assert((cur0[sv] as int) <= off[sv + 1] as int);
                assert((off[x] as int) <= cur0[x] as int);
            } else {
                assert((cur0[x] as int) < off[x + 1] as int);
                assert((off[x + 1] as int) <= off[sv] as int);
                assert((off[sv] as int) <= idx);
            }
        }
        assert(idx != cur0[x] as int);
        assert((cur0[sv] as int) <= off[sv + 1] as int);
        assert((off[sv + 1] as int) <= off[m as int] as int);
        assert(idx < edges0.len());
        assert(((edges1[idx]) as int) == e2);
        assert(off[sv] <= idx && idx < cur1[sv] as int);
    }
}

/// Scatter every edge into its vertices' CSR rows (end of phase c).  On
/// return every edge stands in the row of each of its three endpoints.
fn fill_edges(v0: &Vec<u32>, v1: &Vec<u32>, v2: &Vec<u32>, off: &Vec<usize>, n: usize, m: usize)
    -> (edges: Vec<u32>)
    requires
        v0@.len() == n,
        v1@.len() == n,
        v2@.len() == n,
        1 <= n <= MAX_KEYS,
        forall|i: int|
            0 <= i < n ==> ((#[trigger] v0@[i]) as int) < m && (v1@[i] as int) < m && (
            v2@[i] as int) < m,
        off@.len() == m + 1,
        forall|w: int|
            0 <= w <= m ==> ((#[trigger] off@[w]) as int) == col_sum(w, v0@, v1@, v2@, n as int),
        off@[m as int] as int == 3 * n,
    ensures
        edges@.len() == 3 * n,
        forall|k: int| 0 <= k < edges@.len() ==> ((#[trigger] edges@[k]) as int) < n,
        forall|e: int, s: int|
            #![trigger slot_vertex(v0@, v1@, v2@, e, s)]
            0 <= e < n && 0 <= s < 3 ==> in_row(edges@, off@, slot_vertex(v0@, v1@, v2@, e, s), e),
{
    let total = off[m];
    let mut edges: Vec<u32> = Vec::new();
    let mut k: usize = 0;
    while k < total
        invariant
            k <= total,
            edges@.len() == k,
            1 <= n,
            forall|j: int| 0 <= j < k ==> ((#[trigger] edges@[j]) as int) < n,
        decreases total - k,
    {
        edges.push(0);
        k = k + 1;
    }
    let mut cur: Vec<usize> = Vec::new();
    let mut v: usize = 0;
    while v < m
        invariant
            v <= m,
            cur@.len() == v,
            off@.len() == m + 1,
            forall|w: int| 0 <= w < v ==> cur@[w] == off@[w],
        decreases m - v,
    {
        cur.push(off[v]);
        v = v + 1;
    }
    let mut eid: usize = 0;
    while eid < n
        invariant
            v0@.len() == n,
            v1@.len() == n,
            v2@.len() == n,
            1 <= n <= MAX_KEYS,
            forall|i: int|
                0 <= i < n ==> ((#[trigger] v0@[i]) as int) < m && (v1@[i] as int) < m && (
                v2@[i] as int) < m,
            off@.len() == m + 1,
            forall|w: int|
                0 <= w <= m ==> ((#[trigger] off@[w]) as int) == col_sum(w, v0@, v1@, v2@, n as int),
            off@[m as int] as int == 3 * n,
            eid <= n,
            cur@.len() == m,
            edges@.len() == 3 * n,
            forall|w: int|
                0 <= w < m ==> ((#[trigger] cur@[w]) as int) == off@[w] as int + prefix_count(
                    w,
                    v0@,
                    v1@,
                    v2@,
                    eid as int,
                ),
            forall|j: int| 0 <= j < edges@.len() ==> ((#[trigger] edges@[j]) as int) < n,
            forall|e2: int, s: int|
                #![trigger slot_vertex(v0@, v1@, v2@, e2, s)]
                0 <= e2 < eid && 0 <= s < 3 ==> row_entry(
                    edges@,
                    off@,
                    cur@,
                    slot_vertex(v0@, v1@, v2@, e2, s),
                    e2,
                ),
        decreases n - eid,
    {
        let a = v0[eid];
        let b = v1[eid];
        let c = v2[eid];
        let ghost av = v0@[eid as int];
        let ghost bv = v1@[eid as int];
        let ghost cv = v2@[eid as int];
        let ghost cur0 = cur@;
        let ghost edges0 = edges@;
        proof {
            lemma_fill_step(a as int, 0, v0@, v1@, v2@, off@, eid as int, n as int, m as int);
            assert forall|w: int| 0 <= w < m implies off@[w] <= #[trigger] cur@[w] && (
            cur@[w] as int) <= off@[w + 1] as int by {
                lemma_prefix_count_bounds(w, v0@, v1@, v2@, eid as int);
                lemma_prefix_count_mono(w, v0@, v1@, v2@, eid as int, n as int);
                assert(off@[w + 1] as int == col_sum(w + 1, v0@, v1@, v2@, n as int));
                assert(col_sum(w + 1, v0@, v1@, v2@, n as int) == col_sum(w, v0@, v1@, v2@, n as int)
                    + prefix_count(w, v0@, v1@, v2@, n as int));
            }
        }
        let ia = cur[a as usize];
        edges[ia] = eid as u32;
        cur[a as usize] = ia + 1;
        let ghost cur1 = cur@;
        let ghost edges1 = edges@;
        proof {
            assert forall|w: int| 0 <= w < m implies ((#[trigger] cur@[w]) as int) == off@[w] as int
                + prefix_count(w, v0@, v1@, v2@, eid as int) + ec1(w, av) by {}
            lemma_rows_after_write(
                v0@,
                v1@,
                v2@,
                off@,
                cur0,
                cur1,
                edges0,
                edges1,
                av as int,
                eid as int,
                n as int,
                m as int,
            );
            lemma_fill_step(
                b as int,
                ec1(b as int, av),
                v0@,
                v1@,
                v2@,
                off@,
                eid as int,
                n as int,
                m as int,
            );
            assert forall|w: int| 0 <= w < m implies off@[w] <= #[trigger] cur@[w] && (
            cur@[w] as int) <= off@[w + 1] as int by {
                lemma_prefix_count_bounds(w, v0@, v1@, v2@, eid as int);
                lemma_prefix_count_mono(w, v0@, v1@, v2@, eid as int + 1, n as int);
                assert(prefix_count(w, v0@, v1@, v2@, eid as int + 1) == prefix_count(
                    w,
                    v0@,
                    v1@,
                    v2@,
                    eid as int,
                ) + edge_count(w, v0@, v1@, v2@, eid as int));
                assert(off@[w + 1] as int == col_sum(w + 1, v0@, v1@, v2@, n as int));
                assert(col_sum(w + 1, v0@, v1@, v2@, n as int) == col_sum(w, v0@, v1@, v2@, n as int)
                    + prefix_count(w, v0@, v1@, v2@, n as int));
            }
        }
        let ib = cur[b as usize];
        edges[ib] = eid as u32;
        cur[b as usize] = ib + 1;
        let ghost cur2 = cur@;
        let ghost edges2 = edges@;
        proof {
            assert forall|w: int| 0 <= w < m implies ((#[trigger] cur@[w]) as int) == off@[w] as int
                + prefix_count(w, v0@, v1@, v2@, eid as int) + ec1(w, av) + ec1(w, bv) by {}
            lemma_rows_after_write(
                v0@,
                v1@,
                v2@,
                off@,
                cur1,
                cur2,
                edges1,
                edges2,
                bv as int,
                eid as int,
                n as int,
                m as int,
            );
            lemma_fill_step(
                c as int,
                ec1(c as int, av) + ec1(c as int, bv),
                v0@,
                v1@,
                v2@,
                off@,
                eid as int,
                n as int,
                m as int,
            );
            assert forall|w: int| 0 <= w < m implies off@[w] <= #[trigger] cur@[w] && (
            cur@[w] as int) <= off@[w + 1] as int by {
                lemma_prefix_count_bounds(w, v0@, v1@, v2@, eid as int);
                lemma_prefix_count_mono(w, v0@, v1@, v2@, eid as int + 1, n as int);
                assert(prefix_count(w, v0@, v1@, v2@, eid as int + 1) == prefix_count(
                    w,
                    v0@,
                    v1@,
                    v2@,
                    eid as int,
                ) + edge_count(w, v0@, v1@, v2@, eid as int));
                assert(off@[w + 1] as int == col_sum(w + 1, v0@, v1@, v2@, n as int));
                assert(col_sum(w + 1, v0@, v1@, v2@, n as int) == col_sum(w, v0@, v1@, v2@, n as int)
                    + prefix_count(w, v0@, v1@, v2@, n as int));
            }
        }
        let ic = cur[c as usize];
        edges[ic] = eid as u32;
        cur[c as usize] = ic + 1;
        proof {
            let cur3 = cur@;
            let edges3 = edges@;
            assert forall|w: int| 0 <= w < m implies ((#[trigger] cur@[w]) as int) == off@[w] as int
                + prefix_count(w, v0@, v1@, v2@, eid as int + 1) by {
                assert(cur@[w] as int == cur0[w] as int + ec1(w, av) + ec1(w, bv) + ec1(w, cv));
                assert(prefix_count(w, v0@, v1@, v2@, eid as int + 1) == prefix_count(
                    w,
                    v0@,
                    v1@,
                    v2@,
                    eid as int,
                ) + edge_count(w, v0@, v1@, v2@, eid as int));
            }
            lemma_rows_after_write(
                v0@,
                v1@,
                v2@,
                off@,
                cur2,
                cur3,
                edges2,
                edges3,
                cv as int,
                eid as int,
                n as int,
                m as int,
            );
            // The three fresh entries stay distinct and in place.
            if bv != av {
                lemma_rows_disjoint(v0@, v1@, v2@, off@, av as int, bv as int, n as int, m as int);
            }
            if cv != av {
                lemma_rows_disjoint(v0@, v1@, v2@, off@, av as int, cv as int, n as int, m as int);
            }
            if cv != bv {
                lemma_rows_disjoint(v0@, v1@, v2@, off@, bv as int, cv as int, n as int, m as int);
            }
            assert(ib != ia && ic != ia && ic != ib);
            assert((edges3[ia as int] as int) == eid);
            assert((edges3[ib as int] as int) == eid);
            assert((edges3[ic as int] as int) == eid);
            assert(off@[av as int] <= ia && (ia as int) < cur3[av as int] as int);
            assert(off@[bv as int] <= ib && (ib as int) < cur3[bv as int] as int);
            assert(off@[cv as int] <= ic && (ic as int) < cur3[cv as int] as int);
            assert forall|e2: int, s: int|
                #![trigger slot_vertex(v0@, v1@, v2@, e2, s)]
                0 <= e2 < eid + 1 && 0 <= s < 3 implies row_entry(
                edges@,
                off@,
                cur@,
                slot_vertex(v0@, v1@, v2@, e2, s),
                e2,
            ) by {
                if e2 == eid {
                    if s == 0 {
                        assert(off@[av as int] <= ia as int && (ia as int) < cur@[av as int] as int && ((edges@[ia as int]) as int) == e2);
                    } else if s == 1 {
                        assert(off@[bv as int] <= ib as int && (ib as int) < cur@[bv as int] as int && ((edges@[ib as int]) as int) == e2);
                    } else {
                        assert(off@[cv as int] <= ic as int && (ic as int) < cur@[cv as int] as int && ((edges@[ic as int]) as int) == e2);
                    }
                }
            }
        }
        eid = eid + 1;
    }
    proof {
        assert forall|e: int, s: int|
            #![trigger slot_vertex(v0@, v1@, v2@, e, s)]
            0 <= e < n && 0 <= s < 3 implies in_row(
            edges@,
            off@,
            slot_vertex(v0@, v1@, v2@, e, s),
            e,
        ) by {
            let sv = slot_vertex(v0@, v1@, v2@, e, s);
            if s == 0 {
                assert(sv == v0@[e] as int);
            } else if s == 1 {
                assert(sv == v1@[e] as int);
            } else {
                assert(sv == v2@[e] as int);
            }
            assert(((v0@[e]) as int) < m);
            assert(0 <= sv < m);
            assert(row_entry(edges@, off@, cur@, sv, e));
            let idx = choose|idx: int|
                off@[sv] <= idx < cur@[sv] && ((#[trigger] edges@[idx]) as int) == e;
            lemma_prefix_count_mono(sv, v0@, v1@, v2@, n as int, n as int);
            assert(off@[sv + 1] as int == col_sum(sv + 1, v0@, v1@, v2@, n as int));
            assert(col_sum(sv + 1, v0@, v1@, v2@, n as int) == col_sum(sv, v0@, v1@, v2@, n as int)
                + prefix_count(sv, v0@, v1@, v2@, n as int));
            assert(cur@[sv] as int <= off@[sv + 1] as int);
        }
    }
    edges
}

/// The scan of a popped degree-1 vertex `u` still has every live edge
/// incident to `u` ahead of it, between positions `ii` and `end`.
spec fn u_scan_ok(
    u: int,
    ii: int,
    end: int,
    edges: Seq<u32>,
    removed: Seq<bool>,
    v0: Seq<u32>,
    v1: Seq<u32>,
    v2: Seq<u32>,
    n: int,
) -> bool {
    forall|e: int|
        #![trigger removed[e]]
        0 <= e < n && !removed[e] && edge_count(u, v0, v1, v2, e) >= 1 ==> exists|idx: int|
            ii <= idx < end && ((#[trigger] edges[idx]) as int) == e
}

/// Every vertex that could pivot an edge right now is still pending in the
/// queue.
spec fn queue_covers(
    m: int,
    n: int,
    v0: Seq<u32>,
    v1: Seq<u32>,
    v2: Seq<u32>,
    deg: Seq<u32>,
    removed: Seq<bool>,
    q: Seq<u32>,
    q_head: int,
    skip: int,
) -> bool {
    forall|v: int|
        #![trigger deg[v]]
        0 <= v < m && v != skip && deg[v] == 1 && live_count(v, v0, v1, v2, removed, n) >= 1
            ==> exists|k: int| q_head <= k < q.len() && ((#[trigger] q[k]) as int) == v
}

/// Peel the hypergraph (phase d): repeatedly pop a queued vertex and remove
/// every incident live edge that still has a degree-1 endpoint, recording
/// each removal with its pivot slot.  The peel order is complete exactly
/// when the hypergraph is peelable.
#[verifier::rlimit(100)]
fn peel_graph(
    v0: &Vec<u32>,
    v1: &Vec<u32>,
    v2: &Vec<u32>,
    off: &Vec<usize>,
    edges: &Vec<u32>,
    deg: &mut Vec<u32>,
    n: usize,
    m: usize,
) -> (r: (Vec<PeelRec>, Ghost<Seq<bool>>))
    requires
        v0@.len() == n,
        v1@.len() == n,
        v2@.len() == n,
        1 <= n <= MAX_KEYS,
        1 <= m,
        m as int <= u32::MAX as int,
        forall|i: int|
            0 <= i < n ==> ((#[trigger] v0@[i]) as int) < m && (v1@[i] as int) < m && (
            v2@[i] as int) < m,
        old(deg)@.len() == m,
        forall|v: int|
            0 <= v < m ==> ((#[trigger] old(deg)@[v]) as int) == prefix_count(
                v,
                v0@,
                v1@,
                v2@,
                n as int,
            ),
        off@.len() == m + 1,
        forall|w: int|
            0 <= w <= m ==> ((#[trigger] off@[w]) as int) == col_sum(w, v0@, v1@, v2@, n as int),
        edges@.len() == off@[m as int],
        forall|k: int| 0 <= k < edges@.len() ==> ((#[trigger] edges@[k]) as int) < n,
        forall|e: int, s: int|
            #![trigger slot_vertex(v0@, v1@, v2@, e, s)]
            0 <= e < n && 0 <= s < 3 ==> in_row(edges@, off@, slot_vertex(v0@, v1@, v2@, e, s), e),
    ensures
        r.1@.len() == n,
        r.0@.len() <= n,
        peel_inv(n as int, m as int, v0@, v1@, v2@, final(deg)@, r.1@, r.0@),
        peelable(n as int, v0@, v1@, v2@) ==> r.0@.len() == n,
        r.0@.len() == n ==> peelable(n as int, v0@, v1@, v2@),
{
    let mut removed: Vec<bool> = Vec::new();
    let mut k: usize = 0;
    while k < n
        invariant
            k <= n,
            removed@.len() == k,
            forall|j: int| 0 <= j < k ==> !(#[trigger] removed@[j]),
        decreases n - k,
    {
        removed.push(false);
        k = k + 1;
    }
    let mut q: Vec<u32> = Vec::new();
    let mut vid: usize = 0;
    while vid < m
        invariant
            vid <= m,
            m as int <= u32::MAX as int,
            deg@.len() == m,
            q@.len() <= vid,
            forall|j: int| 0 <= j < q@.len() ==> ((#[trigger] q@[j]) as int) < m,
            forall|j: int| 0 <= j < q@.len() ==> deg@[(#[trigger] q@[j]) as int] <= 1,
            forall|v: int|
                0 <= v < vid && #[trigger] deg@[v] == 1 ==> exists|j: int|
                    0 <= j < q@.len() && ((#[trigger] q@[j]) as int) == v,
        decreases m - vid,
    {
        let ghost q_before = q@;
        if deg[vid] == 1 {
            q.push(vid as u32);
        }
        proof {
            assert forall|v: int| 0 <= v < vid + 1 && #[trigger] deg@[v] == 1 implies exists|j: int|
                0 <= j < q@.len() && ((#[trigger] q@[j]) as int) == v by {
                if v == vid as int {
                    assert(((q@[q@.len() - 1]) as int) == v);
                } else {
                    let j = choose|j: int|
                        0 <= j < q_before.len() && ((#[trigger] q_before[j]) as int) == v;
                    assert(((q@[j]) as int) == v);
                }
            }
        }
        vid = vid + 1;
    }
    let mut peel_order: Vec<PeelRec> = Vec::new();
    proof {
        assert forall|v: int| 0 <= v < m implies ((#[trigger] deg@[v]) as int) == live_count(
            v,
            v0@,
            v1@,
            v2@,
            removed@,
            n as int,
        ) + pivot_count(v, peel_order@, v0@, v1@, v2@) by {
            lemma_live_count_all_false(v, v0@, v1@, v2@, removed@, n as int);
        }
    }
    let mut q_head: usize = 0;
    while q_head < q.len()
        invariant
            v0@.len() == n,
            v1@.len() == n,
            v2@.len() == n,
            1 <= n <= MAX_KEYS,
            1 <= m,
            m as int <= u32::MAX as int,
            forall|i: int|
                0 <= i < n ==> ((#[trigger] v0@[i]) as int) < m && (v1@[i] as int) < m && (
                v2@[i] as int) < m,
            off@.len() == m + 1,
            forall|w: int|
                0 <= w <= m ==> ((#[trigger] off@[w]) as int) == col_sum(w, v0@, v1@, v2@, n as int),
            edges@.len() == off@[m as int],
            forall|kk: int| 0 <= kk < edges@.len() ==> ((#[trigger] edges@[kk]) as int) < n,
            forall|e: int, s: int|
                #![trigger slot_vertex(v0@, v1@, v2@, e, s)]
                0 <= e < n && 0 <= s < 3 ==> in_row(
                    edges@,
                    off@,
                    slot_vertex(v0@, v1@, v2@, e, s),
                    e,
                ),
            peel_inv(n as int, m as int, v0@, v1@, v2@, deg@, removed@, peel_order@),
            q_head <= q@.len(),
            forall|j: int| 0 <= j < q@.len() ==> ((#[trigger] q@[j]) as int) < m,
            forall|j: int| 0 <= j < q@.len() ==> deg@[(#[trigger] q@[j]) as int] <= 1,
            q@.len() <= m + 2 * peel_order@.len(),
            peel_order@.len() <= n,
            queue_covers(
                m as int,
                n as int,
                v0@,
                v1@,
                v2@,
                deg@,
                removed@,
                q@,
                q_head as int,
                m as int,
            ),
        decreases m + 2 * n + 1 - q_head,
    {
        let u = q[q_head];
        q_head = q_head + 1;
        proof {
            lemma_col_sum_mono(u as int + 1, m as int, v0@, v1@, v2@, n as int);
        }
        let start = off[u as usize];
        let end = off[(u as usize) + 1];
        proof {
            lemma_prefix_count_bounds(u as int, v0@, v1@, v2@, n as int);
            assert(off@[u as int + 1] as int == col_sum(u as int + 1, v0@, v1@, v2@, n as int));
            assert(col_sum(u as int + 1, v0@, v1@, v2@, n as int) == col_sum(
                u as int,
                v0@,
                v1@,
                v2@,
                n as int,
            ) + prefix_count(u as int, v0@, v1@, v2@, n as int));
            assert(start <= end);
            assert(deg@[u as int] <= 1);
            // All of u's pending work sits in its CSR row.
            if deg@[u as int] == 1 {
                assert forall|e: int|
                    #![trigger removed@[e]]
                    0 <= e < n && !removed@[e] && edge_count(u as int, v0@, v1@, v2@, e)
                        >= 1 implies exists|idx: int|
                    start <= idx < end && ((#[trigger] edges@[idx]) as int) == e by {
                    assert(ec1(u as int, v0@[e]) + ec1(u as int, v1@[e]) + ec1(u as int, v2@[e])
                        >= 1);
                    if v0@[e] as int == u as int {
                        assert(slot_vertex(v0@, v1@, v2@, e, 0) == u as int);
                        assert(in_row(edges@, off@, u as int, e));
                    } else if v1@[e] as int == u as int {
                        assert(slot_vertex(v0@, v1@, v2@, e, 1) == u as int);
                        assert(in_row(edges@, off@, u as int, e));
                    } else {
                        assert(slot_vertex(v0@, v1@, v2@, e, 2) == u as int);
                        assert(in_row(edges@, off@, u as int, e));
                    }
                    let idx = choose|idx: int|
                        off@[u as int] <= idx < off@[u as int + 1] as int && ((
                        #[trigger] edges@[idx]) as int) == e;
                    assert(start <= idx && idx < end && (edges@[idx] as int) == e);
                }
                assert(u_scan_ok(
                    u as int,
                    start as int,
                    end as int,
                    edges@,
                    removed@,
                    v0@,
                    v1@,
                    v2@,
                    n as int,
                ));
            }
            // Everyone else stays covered by the rest of the queue.
            assert forall|v: int|
                #![trigger deg@[v]]
                0 <= v < m && v != u as int && deg@[v] == 1 && live_count(
                    v,
                    v0@,
                    v1@,
                    v2@,
                    removed@,
                    n as int,
                ) >= 1 implies exists|kk: int|
                q_head <= kk < q@.len() && ((#[trigger] q@[kk]) as int) == v by {
                let kk = choose|kk: int|
                    q_head - 1 <= kk < q@.len() && ((#[trigger] q@[kk]) as int) == v;
                assert(kk != q_head - 1);
            }
        }
        let mut ii = start;
        while ii < end
            invariant
                v0@.len() == n,
                v1@.len() == n,
                v2@.len() == n,
                1 <= n <= MAX_KEYS,
                1 <= m,
                m as int <= u32::MAX as int,
                (u as int) < m,
                forall|i: int|
                    0 <= i < n ==> ((#[trigger] v0@[i]) as int) < m && (v1@[i] as int) < m && (
                    v2@[i] as int) < m,
                edges@.len() >= end,
                ii <= end,
                q_head <= q@.len(),
                deg@[u as int] <= 1,
                forall|kk: int| 0 <= kk < edges@.len() ==> ((#[trigger] edges@[kk]) as int) < n,
                peel_inv(n as int, m as int, v0@, v1@, v2@, deg@, removed@, peel_order@),
                forall|j: int| 0 <= j < q@.len() ==> ((#[trigger] q@[j]) as int) < m,
                forall|j: int| 0 <= j < q@.len() ==> deg@[(#[trigger] q@[j]) as int] <= 1,
                q@.len() <= m + 2 * peel_order@.len(),
                peel_order@.len() <= n,
                queue_covers(
                    m as int,
                    n as int,
                    v0@,
                    v1@,
                    v2@,
                    deg@,
                    removed@,
                    q@,
                    q_head as int,
                    u as int,
                ),
                deg@[u as int] == 1 ==> u_scan_ok(
                    u as int,
                    ii as int,
                    end as int,
                    edges@,
                    removed@,
                    v0@,
                    v1@,
                    v2@,
                    n as int,
                ),
            decreases end - ii,
        {
            let e = edges[ii];
            let e_us = e as usize;
            if !removed[e_us] {
                let a = v0[e_us];
                let b = v1[e_us];
                let c = v2[e_us];
                let da = deg[a as usize];
                let db = deg[b as usize];
                let dc = deg[c as usize];
                let pivot: u8 = if da == 1 {
                    0
                } else if db == 1 {
                    1
                } else if dc == 1 {
                    2
                } else {
                    3
                };
                if pivot < 3 {
                    let xv: u32 = if pivot == 0 {
                        a
                    } else if pivot == 1 {
                        b
                    } else {
                        c
                    };
                    let yv: u32 = if pivot == 0 {
                        b
                    } else {
                        a
                    };
                    let zv: u32 = if pivot == 2 {
                        b
                    } else {
                        c
                    };
                    let ghost deg0 = deg@;
                    let ghost removed0 = removed@;
                    let ghost peel0 = peel_order@;
                    let ghost q0 = q@;
                    let ghost ei = e as int;
                    let ghost x = xv as int;
                    let rec = PeelRec { edge: e, pivot };
                    proof {
                        assert forall|v: int|
                            edge_count(v, v0@, v1@, v2@, ei) == ec1(v, xv) + ec1(v, yv) + ec1(
                            v,
                            zv,
                        ) by {}
                        lemma_live_count_term(x, v0@, v1@, v2@, removed0, ei, n as int);
                        lemma_pivot_count_nonneg(x, peel0, v0@, v1@, v2@);
                        assert(live_count(x, v0@, v1@, v2@, removed0, n as int) == 1);
                        assert(pivot_count(x, peel0, v0@, v1@, v2@) == 0);
                        assert(edge_count(x, v0@, v1@, v2@, ei) == 1);
                        assert(ec1(x, yv) == 0 && ec1(x, zv) == 0);
                        assert(rec_vertex(rec, v0@, v1@, v2@) == x);
                        lemma_live_count_term(yv as int, v0@, v1@, v2@, removed0, ei, n as int);
                        lemma_pivot_count_nonneg(yv as int, peel0, v0@, v1@, v2@);
                        lemma_live_count_term(zv as int, v0@, v1@, v2@, removed0, ei, n as int);
                        lemma_pivot_count_nonneg(zv as int, peel0, v0@, v1@, v2@);
                        assert(deg0[yv as int] >= 1);
                        assert(yv == zv ==> deg0[yv as int] >= 2);
                    }
                    peel_order.push(rec);
                    removed[e_us] = true;
                    dec_deg(deg, yv, &mut q);
                    dec_deg(deg, zv, &mut q);
                    proof {
                        let peel1 = peel_order@;
                        let removed1 = removed@;
                        assert(removed1 =~= removed0.update(ei, true));
                        // Degrees track live incidence plus pivots.
                        assert forall|v: int| 0 <= v < m implies ((#[trigger] deg@[v]) as int)
                            == live_count(v, v0@, v1@, v2@, removed1, n as int) + pivot_count(
                            v,
                            peel1,
                            v0@,
                            v1@,
                            v2@,
                        ) by {
                            lemma_live_count_remove(v, v0@, v1@, v2@, removed0, ei, n as int);
                            lemma_pivot_count_push(v, peel0, rec, v0@, v1@, v2@);
                            assert(deg@[v] as int == deg0[v] as int - ec1(v, yv) - ec1(v, zv));
                        }
                        // Every recorded pivot is off every live edge.
                        assert forall|t: int, e2: int|
                            #![trigger peel1[t], removed1[e2]]
                            0 <= t < peel1.len() && 0 <= e2 < n && !removed1[e2] implies edge_count(
                            rec_vertex(peel1[t], v0@, v1@, v2@),
                            v0@,
                            v1@,
                            v2@,
                            e2,
                        ) == 0 by {
                            if t < peel0.len() {
                                assert(peel1[t] == peel0[t]);
                                assert(!removed0[e2]);
                            } else {
                                assert(peel1[t] == rec);
                                assert(e2 != ei);
                                lemma_live_count_two_terms(
                                    x,
                                    v0@,
                                    v1@,
                                    v2@,
                                    removed0,
                                    ei,
                                    e2,
                                    n as int,
                                );
                            }
                        }
                        // Earlier pivots are off every later-peeled edge.
                        assert forall|t1: int, t2: int|
                            0 <= t1 < t2 < peel1.len() implies edge_count(
                            rec_vertex(#[trigger] peel1[t1], v0@, v1@, v2@),
                            v0@,
                            v1@,
                            v2@,
                            (#[trigger] peel1[t2]).edge as int,
                        ) == 0 by {
                            if t2 < peel0.len() {
                                assert(peel1[t1] == peel0[t1] && peel1[t2] == peel0[t2]);
                            } else {
                                assert(peel1[t2] == rec);
                                assert(peel1[t1] == peel0[t1]);
                                assert(!removed0[ei]);
                            }
                        }
                        // Recorded edges stay marked and distinct.
                        assert forall|t: int| 0 <= t < peel1.len() implies peel_rec_ok(
                            #[trigger] peel1[t],
                            n as int,
                            v0@,
                            v1@,
                            v2@,
                            removed1,
                        ) by {
                            if t < peel0.len() {
                                assert(peel1[t] == peel0[t]);
                                assert(peel0[t].edge != ei) by {
                                    assert(removed0[peel0[t].edge as int]);
                                }
                            }
                        }
                        assert forall|t1: int, t2: int| 0 <= t1 < t2 < peel1.len() implies (
                        #[trigger] peel1[t1]).edge != (#[trigger] peel1[t2]).edge by {
                            if t2 < peel0.len() {
                                assert(peel1[t1] == peel0[t1] && peel1[t2] == peel0[t2]);
                            } else {
                                assert(removed0[peel0[t1].edge as int] && !removed0[ei]);
                            }
                        }
                        // Every removed edge has its record.
                        assert forall|e2: int| 0 <= e2 < n && #[trigger] removed1[e2] implies
                            exists|t: int|
                                0 <= t < peel1.len() && ((#[trigger] peel1[t]).edge as int)
                                    == e2 by {
                            if e2 == ei {
                                assert(((peel1[peel0.len() as int]).edge as int) == e2);
                            } else {
                                assert(removed0[e2]);
                                let t = choose|t: int|
                                    0 <= t < peel0.len() && ((#[trigger] peel0[t]).edge as int)
                                        == e2;
                                assert(((peel1[t]).edge as int) == e2);
                            }
                        }
                        // The peel order holds pairwise-distinct edges below n.
                        let eseq = Seq::new(peel1.len(), |t: int| peel1[t].edge);
                        assert forall|t1: int, t2: int|
                            0 <= t1 < t2 < eseq.len() implies eseq[t1] != eseq[t2] by {
                            assert(peel1[t1].edge != peel1[t2].edge);
                        }
                        lemma_distinct_bounded_len(eseq, n as int);
                        assert(peel1.len() <= n);
                        // Queue entries keep degree at most 1.
                        assert forall|j: int| 0 <= j < q@.len() implies deg@[(
                        #[trigger] q@[j]) as int] <= 1 by {
                            if j < q0.len() {
                                assert(q@[j] == q0[j]);
                                assert(deg@[q0[j] as int] as int <= deg0[q0[j] as int] as int);
                            }
                        }
                        // Every pivot candidate is still pending in the queue.
                        assert forall|v: int|
                            #![trigger deg@[v]]
                            0 <= v < m && v != u as int && deg@[v] == 1 && live_count(
                                v,
                                v0@,
                                v1@,
                                v2@,
                                removed1,
                                n as int,
                            ) >= 1 implies exists|kk: int|
                            q_head <= kk < q@.len() && ((#[trigger] q@[kk]) as int) == v by {
                            lemma_live_count_remove(v, v0@, v1@, v2@, removed0, ei, n as int);
                            assert(deg@[v] as int == deg0[v] as int - ec1(v, yv) - ec1(v, zv));
                            if v == yv as int || v == zv as int {
                                if yv == zv {
                                    assert(deg0[v] == 3);
                                    assert(((#[trigger] q@[q@.len() - 1]) as int) == v);
                                } else if v == yv as int {
                                    assert(deg0[v] == 2);
                                    assert(((#[trigger] q@[q0.len() as int]) as int) == v);
                                } else {
                                    assert(deg0[v] == 2);
                                    assert(((#[trigger] q@[q@.len() - 1]) as int) == v);
                                }
                            } else {
                                assert(deg@[v] == deg0[v]);
                                assert(live_count(v, v0@, v1@, v2@, removed0, n as int) >= 1);
                                let kk = choose|kk: int|
                                    q_head <= kk < q0.len() && ((#[trigger] q0[kk]) as int) == v;
                                assert(((q@[kk]) as int) == v);
                            }
                        }
                        // The scan still holds u's remaining live edges.
                        if deg@[u as int] == 1 {
                            assert(deg@[u as int] as int == deg0[u as int] as int - ec1(
                                u as int,
                                yv,
                            ) - ec1(u as int, zv));
                            assert(deg0[u as int] == 1);
                            assert forall|e2: int|
                                #![trigger removed1[e2]]
                                0 <= e2 < n && !removed1[e2] && edge_count(
                                    u as int,
                                    v0@,
                                    v1@,
                                    v2@,
                                    e2,
                                ) >= 1 implies exists|idx: int|
                                ii + 1 <= idx < end && ((#[trigger] edges@[idx]) as int) == e2 by {
                                assert(!removed0[e2]);
                                let idx = choose|idx: int|
                                    ii <= idx < end && ((#[trigger] edges@[idx]) as int) == e2;
                                if idx == ii {
                                    assert(e2 == ei);
                                    assert(false);
                                }
                            }
                        }
                    }
                } else {
                    proof {
                        if deg@[u as int] == 1 {
                            assert forall|e2: int|
                                #![trigger removed@[e2]]
                                0 <= e2 < n && !removed@[e2] && edge_count(
                                    u as int,
                                    v0@,
                                    v1@,
                                    v2@,
                                    e2,
                                ) >= 1 implies exists|idx: int|
                                ii + 1 <= idx < end && ((#[trigger] edges@[idx]) as int) == e2 by {
                                let idx = choose|idx: int|
                                    ii <= idx < end && ((#[trigger] edges@[idx]) as int) == e2;
                                if idx == ii {
                                    assert(e2 == e as int);
                                    assert(ec1(u as int, v0@[e2]) + ec1(u as int, v1@[e2]) + ec1(
                                        u as int,
                                        v2@[e2],
                                    ) >= 1);
                                    assert(deg@[u as int] != 1);
                                    assert(false);
                                }
                            }
                        }
                    }
                }
            } else {
                proof {
                    if deg@[u as int] == 1 {
                        assert forall|e2: int|
                            #![trigger removed@[e2]]
                            0 <= e2 < n && !removed@[e2] && edge_count(u as int, v0@, v1@, v2@, e2)
                                >= 1 implies exists|idx: int|
                            ii + 1 <= idx < end && ((#[trigger] edges@[idx]) as int) == e2 by {
                            let idx = choose|idx: int|
                                ii <= idx < end && ((#[trigger] edges@[idx]) as int) == e2;
                            if idx == ii {
                                assert(e2 == e as int);
                                assert(false);
                            }
                        }
                    }
                }
            }
            ii = ii + 1;
        }
        proof {
            // u's scan is finished: if u still has degree 1, it has no live
            // incident edge left, so the queue covers every pivot candidate.
            if deg@[u as int] == 1 {
                assert forall|e2: int| 0 <= e2 < n && !removed@[e2] implies edge_count(
                    u as int,
                    v0@,
                    v1@,
                    v2@,
                    e2,
                ) == 0 by {
                    if edge_count(u as int, v0@, v1@, v2@, e2) >= 1 {
                        let idx = choose|idx: int|
                            end <= idx < end && ((#[trigger] edges@[idx]) as int) == e2;
                        assert(false);
                    }
                }
                lemma_live_count_zero(u as int, v0@, v1@, v2@, removed@, n as int);
            }
            assert forall|v: int|
                #![trigger deg@[v]]
                0 <= v < m && deg@[v] == 1 && live_count(v, v0@, v1@, v2@, removed@, n as int)
                    >= 1 implies exists|kk: int|
                q_head <= kk < q@.len() && ((#[trigger] q@[kk]) as int) == v by {
                assert(v != u as int);
            }
        }
    }
    proof {
        if peel_order@.len() == n {
            // The produced order witnesses peelability.
            let peel = peel_order@;
            assert forall|t: int| 0 <= t < peel.len() implies {
                &&& ((#[trigger] peel[t]).edge as int) < n as int
                &&& peel[t].pivot < 3
                &&& edge_count(
                    rec_vertex(peel[t], v0@, v1@, v2@),
                    v0@,
                    v1@,
                    v2@,
                    peel[t].edge as int,
                ) == 1
            } by {
                assert(peel_rec_ok(peel[t], n as int, v0@, v1@, v2@, removed@));
            }
            assert(peel_done(n as int, v0@, v1@, v2@, peel));
            assert(peelable(n as int, v0@, v1@, v2@));
        } else if peelable(n as int, v0@, v1@, v2@) {
            let peelf = peel_order@;
            let removedf = removed@;
            let w = choose|w: Seq<PeelRec>|
                w.len() == n as int && #[trigger] peel_done(n as int, v0@, v1@, v2@, w);
            let weseq = Seq::new(n as nat, |t: int| w[t].edge);
            assert forall|t1: int, t2: int|
                0 <= t1 < t2 < weseq.len() implies weseq[t1] != weseq[t2] by {
                assert(w[t1].edge != w[t2].edge);
            }
            assert forall|t: int| 0 <= t < weseq.len() implies (weseq[t] as int) < n as int by {
                assert(((#[trigger] w[t]).edge as int) < n as int);
            }
            lemma_distinct_covers(weseq, n as int);
            if exists|e: int| 0 <= e < n && !(#[trigger] removedf[e]) {
                let e0 = choose|e: int| 0 <= e < n && !(#[trigger] removedf[e]);
                assert(weseq.contains(e0 as u32));
                let ta = choose|t: int| 0 <= t < weseq.len() && weseq[t] == e0 as u32;
                assert(!removedf[w[ta].edge as int]);
                let t0 = lemma_least_unremoved(w, removedf, ta);
                let xr = rec_vertex(w[t0], v0@, v1@, v2@);
                let ex = w[t0].edge as int;
                assert(!removedf[ex]);
                assert(edge_count(xr, v0@, v1@, v2@, ex) == 1);
                assert(0 <= xr < m) by {
                    assert(((w[t0]).edge as int) < n as int);
                    if w[t0].pivot == 0 {
                        assert(xr == v0@[ex] as int);
                    } else if w[t0].pivot == 1 {
                        assert(xr == v1@[ex] as int);
                    } else {
                        assert(xr == v2@[ex] as int);
                    }
                    assert(((v0@[ex]) as int) < m);
                }
                assert forall|e: int|
                    0 <= e < n && !(#[trigger] removedf[e]) && e != ex implies edge_count(
                    xr,
                    v0@,
                    v1@,
                    v2@,
                    e,
                ) == 0 by {
                    assert(weseq.contains(e as u32));
                    let s2 = choose|t: int| 0 <= t < weseq.len() && weseq[t] == e as u32;
                    assert(((w[s2]).edge as int) == e);
                    if s2 < t0 {
                        assert(removedf[(w[s2]).edge as int]);
                        assert(false);
                    } else if s2 == t0 {
                        assert(false);
                    } else {
                        assert(edge_count(
                            rec_vertex(w[t0], v0@, v1@, v2@),
                            v0@,
                            v1@,
                            v2@,
                            (w[s2]).edge as int,
                        ) == 0);
                    }
                }
                lemma_live_count_single(xr, v0@, v1@, v2@, removedf, ex, n as int);
                assert(live_count(xr, v0@, v1@, v2@, removedf, n as int) == 1);
                lemma_pivot_count_nonneg(xr, peelf, v0@, v1@, v2@);
                if pivot_count(xr, peelf, v0@, v1@, v2@) == 0 {
                    assert(deg@[xr] == 1);
                    assert(exists|kk: int|
                        q_head <= kk < q@.len() && ((#[trigger] q@[kk]) as int) == xr);
                    assert(false);
                } else {
                    lemma_pivot_count_witness(xr, peelf, v0@, v1@, v2@);
                    let tr = choose|t: int|
                        0 <= t < peelf.len() && rec_vertex(#[trigger] peelf[t], v0@, v1@, v2@)
                            == xr;
                    assert(edge_count(
                        rec_vertex(peelf[tr], v0@, v1@, v2@),
                        v0@,
                        v1@,
                        v2@,
                        ex,
                    ) == 0);
                    assert(false);
                }
            } else {
                // Every edge removed, yet fewer than n records: impossible,
                // since records carry pairwise-distinct edges.
                let eseq = Seq::new(peelf.len(), |t: int| peelf[t].edge);
                assert forall|e: u32| (e as int) < n as int implies eseq.contains(e) by {
                    assert(removedf[e as int]);
                    let t = choose|t: int|
                        0 <= t < peelf.len() && ((#[trigger] peelf[t]).edge as int) == e as int;
                    assert(eseq[t] == e);
                }
                lemma_covering_seq_len(eseq, n as int);
                assert(false);
            }
        }
    }
    let ghost removed_final = removed@;
    (peel_order, Ghost(removed_final))
}


/// Assign the displacement table in reverse peel order (phases e and f).
fn assign_g(
    v0: &Vec<u32>,
    v1: &Vec<u32>,
    v2: &Vec<u32>,
    peel_order: &Vec<PeelRec>,
    n: usize,
    m: usize,
) -> (g: Vec<u32>)
    requires
        v0@.len() == n,
        v1@.len() == n,
        v2@.len() == n,
        1 <= n <= MAX_KEYS,
        1 <= m,
        m as int <= u32::MAX as int,
        forall|i: int|
            0 <= i < n ==> ((#[trigger] v0@[i]) as int) < m && (v1@[i] as int) < m && (
            v2@[i] as int) < m,
        peel_order@.len() == n,
        peel_done(n as int, v0@, v1@, v2@, peel_order@),
    ensures
        g@.len() == m,
        forall|v: int| 0 <= v < m ==> ((#[trigger] g@[v]) as int) < n,
        forall|e: int|
            0 <= e < n ==> (g@[v0@[e] as int] + g@[v1@[e] as int] + g@[v2@[e] as int]) % (
            n as int) == e,
{
    let mut g: Vec<u32> = Vec::new();
    let mut k: usize = 0;
    while k < m
        invariant
            k <= m,
            g@.len() == k,
            forall|w: int| 0 <= w < k ==> (#[trigger] g@[w]) == UNASSIGNED,
        decreases m - k,
    {
        g.push(UNASSIGNED);
        k = k + 1;
    }
    let mut idx: usize = 0;
    while idx < n
        invariant
            v0@.len() == n,
            v1@.len() == n,
            v2@.len() == n,
            1 <= n <= MAX_KEYS,
            1 <= m,
            m as int <= u32::MAX as int,
            forall|i: int|
                0 <= i < n ==> ((#[trigger] v0@[i]) as int) < m && (v1@[i] as int) < m && (
                v2@[i] as int) < m,
            peel_order@.len() == n,
            peel_done(n as int, v0@, v1@, v2@, peel_order@),
            idx <= n,
            g@.len() == m,
            forall|v: int|
                0 <= v < m ==> (#[trigger] g@[v]) == UNASSIGNED || (g@[v] as int) < n,
            forall|t: int|
                n - idx <= t < n ==> eq_val(
                    g@,
                    v0@,
                    v1@,
                    v2@,
                    n as int,
                    (#[trigger] peel_order@[t]).edge as int,
                ),
        decreases n - idx,
    {
        let j = n - 1 - idx;
        let rec = peel_order[j];
        let e_us = rec.edge as usize;
        let a = v0[e_us];
        let b = v1[e_us];
        let c = v2[e_us];
        let xv: u32 = if rec.pivot == 0 {
            a
        } else if rec.pivot == 1 {
            b
        } else {
            c
        };
        let yv: u32 = if rec.pivot == 0 {
            b
        } else {
            a
        };
        let zv: u32 = if rec.pivot == 2 {
            b
        } else {
            c
        };
        let ghost ei = rec.edge as int;
        let ghost x = xv as int;
        let ghost g0 = g@;
        proof {
            assert forall|v: int|
                edge_count(v, v0@, v1@, v2@, ei) == ec1(v, xv) + ec1(v, yv) + ec1(v, zv) by {}
            assert(rec_vertex(rec, v0@, v1@, v2@) == x);
            assert(edge_count(x, v0@, v1@, v2@, ei) == 1);
            assert(ec1(x, yv) == 0 && ec1(x, zv) == 0);
        }
        let gy_raw = g[yv as usize];
        let gy: u64 = if gy_raw == UNASSIGNED {
            0
        } else {
            gy_raw as u64
        };
        let gz_raw = g[zv as usize];
        let gz: u64 = if gz_raw == UNASSIGNED {
            0
        } else {
            gz_raw as u64
        };
        let n64 = n as u64;
        proof {
            vstd::arithmetic::div_mod::lemma_mod_bound((gy + gz) as int, n as int);
            vstd::arithmetic::div_mod::lemma_mod_bound(rec.edge as int, n as int);
        }
        let s = (gy + gz) % n64;
        let want64 = ((rec.edge as u64 % n64) + n64 - s) % n64;
        let want = want64 as u32;
        proof {
            lemma_mod_assign(ei, gy as int, gz as int, n as int);
        }
        g[xv as usize] = want;
        proof {
            assert(gval(g@, xv) == want as int);
            assert(gval(g@, yv) == gy as int);
            assert(gval(g@, zv) == gz as int);
            assert((want as int + gy as int + gz as int) % (n as int) == ei);
            assert(eq_val(g@, v0@, v1@, v2@, n as int, ei)) by {
                assert(gval(g@, v0@[ei]) + gval(g@, v1@[ei]) + gval(g@, v2@[ei]) == gval(g@, xv)
                    + gval(g@, yv) + gval(g@, zv));
            }
            assert forall|t: int| n - (idx + 1) <= t < n implies eq_val(
                g@,
                v0@,
                v1@,
                v2@,
                n as int,
                (#[trigger] peel_order@[t]).edge as int,
            ) by {
                if t > j {
                    let e2 = peel_order@[t].edge as int;
                    assert(edge_count(
                        rec_vertex(peel_order@[j as int], v0@, v1@, v2@),
                        v0@,
                        v1@,
                        v2@,
                        e2,
                    ) == 0);
                    assert(ec1(x, v0@[e2]) == 0 && ec1(x, v1@[e2]) == 0 && ec1(x, v2@[e2]) == 0);
                    assert(gval(g@, v0@[e2]) == gval(g0, v0@[e2]));
                    assert(gval(g@, v1@[e2]) == gval(g0, v1@[e2]));
                    assert(gval(g@, v2@[e2]) == gval(g0, v2@[e2]));
                    assert(eq_val(g0, v0@, v1@, v2@, n as int, e2));
                }
            }
        }
        idx = idx + 1;
    }
    let ghost g1 = g@;
    let mut v: usize = 0;
    while v < m
        invariant
            v <= m,
            g@.len() == m,
            1 <= n,
            g1.len() == m,
            forall|w: int| 0 <= w < m ==> (#[trigger] g1[w]) == UNASSIGNED || (g1[w] as int) < n,
            forall|w: int| v <= w < m ==> (#[trigger] g@[w]) == g1[w],
            forall|w: int|
                0 <= w < v ==> ((#[trigger] g@[w]) as int) == (if g1[w] == UNASSIGNED {
                    0int
                } else {
                    g1[w] as int
                }) && (g@[w] as int) < n,
        decreases m - v,
    {
        if g[v] == UNASSIGNED {
            g[v] = 0;
        }
        v = v + 1;
    }
    proof {
        let eseq = Seq::new(n as nat, |t: int| peel_order@[t].edge);
        assert forall|t1: int, t2: int| 0 <= t1 < t2 < eseq.len() implies eseq[t1] != eseq[t2] by {
            assert(peel_order@[t1].edge != peel_order@[t2].edge);
        }
        assert forall|t: int| 0 <= t < eseq.len() implies (eseq[t] as int) < n by {
            assert((peel_order@[t].edge as int) < n);
        }
        lemma_distinct_covers(eseq, n as int);
        assert forall|e: int|
            0 <= e < n implies (g@[v0@[e] as int] + g@[v1@[e] as int] + g@[v2@[e] as int]) % (
        n as int) == e by {
            assert(eseq.contains(e as u32));
            let t = choose|t: int| 0 <= t < eseq.len() && eseq[t] == e as u32;
            assert(peel_order@[t].edge as int == e);
            assert(eq_val(g1, v0@, v1@, v2@, n as int, e));
            assert(g@[v0@[e] as int] as int == gval(g1, v0@[e]));
            assert(g@[v1@[e] as int] as int == gval(g1, v1@[e]));
            assert(g@[v2@[e] as int] as int == gval(g1, v2@[e]));
        }
    }
    g
}

/// The cursor of the vertex about to receive edge `eid` is strictly inside
/// its CSR row: `ec_prior` slots of this edge wrote to it already, and at
/// least one more slot of the edge names it.
proof fn lemma_fill_step(
    x: int,
    ec_prior: int,
    v0: Seq<u32>,
    v1: Seq<u32>,
    v2: Seq<u32>,
    off: Seq<usize>,
    eid: int,
    n: int,
    m: int,
)
    requires
        0 <= x < m,
        0 <= eid < n,
        v0.len() == n && v1.len() == n && v2.len() == n,
        forall|i: int|
            0 <= i < n ==> ((#[trigger] v0[i]) as int) < m && (v1[i] as int) < m && (v2[i] as int)
                < m,
        off.len() == m + 1,
        forall|w: int| 0 <= w <= m ==> ((#[trigger] off[w]) as int) == col_sum(w, v0, v1, v2, n),
        ec_prior + 1 <= edge_count(x, v0, v1, v2, eid),
    ensures
        off[x] as int + prefix_count(x, v0, v1, v2, eid) + ec_prior + 1 <= off[m] as int,
        off[x] as int + prefix_count(x, v0, v1, v2, eid) + ec_prior < off[m] as int,
        off[x] as int + prefix_count(x, v0, v1, v2, eid) + ec_prior + 1 <= off[x + 1] as int,
{
    assert(prefix_count(x, v0, v1, v2, eid + 1) == prefix_count(x, v0, v1, v2, eid) + edge_count(
        x,
        v0,
        v1,
        v2,
        eid,
    ));
    lemma_prefix_count_mono(x, v0, v1, v2, eid + 1, n);
    assert(col_sum(x + 1, v0, v1, v2, n) == col_sum(x, v0, v1, v2, n) + prefix_count(
        x,
        v0,
        v1,
        v2,
        n,
    ));
    lemma_col_sum_mono(x + 1, m, v0, v1, v2, n);
}

/// One BDZ build attempt: derive vertices, build the CSR adjacency, peel,
/// and assign the displacement table in reverse peel order.
#[verifier::rlimit(60)]
fn try_build_bdz(keys: &Vec<Vec<u8>>, n: usize, salt: u64, gamma_centi: u32) -> (r: Result<
    Mphf,
    MphError,
>)
    requires
        n == keys@.len(),
        1 <= n <= MAX_KEYS,
        100 <= gamma_centi <= 400,
    ensures
        match r {
            Ok(mph) => {
                &&& mph.wf()
                &&& mph.n == n as u64
                &&& mph.salt == salt
                &&& mph.m as int == m_spec(gamma_centi, n as int)
                &&& forall|i: int| 0 <= i < n ==> mph.index_spec(#[trigger] keys@[i]@) == i
                &&& graph_peelable(key_views(keys@), salt, m_spec(gamma_centi, n as int) as u64)
            },
            Err(e) => {
                &&& e == MphError::Unresolvable
                &&& !graph_peelable(key_views(keys@), salt, m_spec(gamma_centi, n as int) as u64)
            },
        },
{
    proof {
        assert(gamma_centi as int * n as int >= 100) by (nonlinear_arith)
            requires
                gamma_centi >= 100,
                n >= 1,
        ;
        assert(gamma_centi as int * n as int <= 400int * 1_000_000_000) by (nonlinear_arith)
            requires
                gamma_centi <= 400,
                n <= 1_000_000_000,
        ;
        vstd::arithmetic::div_mod::lemma_div_is_ordered(
            199,
            gamma_centi as int * n as int + 99,
            100,
        );
        vstd::arithmetic::div_mod::lemma_div_is_ordered(
            gamma_centi as int * n as int + 99,
            400int * 1_000_000_000 + 99,
            100,
        );
    }
    let m64: u64 = ((gamma_centi as u64) * (n as u64) + 99) / 100;
    let m32 = m64 as u32;
    let m_us = m32 as usize;
    let vtriples = derive_vertices(keys, salt, m64);
    let v0 = vtriples.0;
    let v1 = vtriples.1;
    let v2 = vtriples.2;
    let mut deg = count_degrees(&v0, &v1, &v2, n, m_us);
    let off = build_offsets(&deg, &v0, &v1, &v2, n, m_us);
    let edges = fill_edges(&v0, &v1, &v2, &off, n, m_us);
    let pr = peel_graph(&v0, &v1, &v2, &off, &edges, &mut deg, n, m_us);
    let peel_order = pr.0;
    proof {
        let kv = key_views(keys@);
        let s0 = Seq::new(kv.len(), |i: int| vertices_spec(kv[i], salt, m64).0);
        let s1 = Seq::new(kv.len(), |i: int| vertices_spec(kv[i], salt, m64).1);
        let s2 = Seq::new(kv.len(), |i: int| vertices_spec(kv[i], salt, m64).2);
        assert forall|i: int| 0 <= i < n implies #[trigger] s0[i] == v0@[i] && s1[i] == v1@[i]
            && s2[i] == v2@[i] by {
            assert(kv[i] == keys@[i]@);
        }
        assert(s0 =~= v0@);
        assert(s1 =~= v1@);
        assert(s2 =~= v2@);
        assert(m_spec(gamma_centi, n as int) as u64 == m64);
        assert(graph_peelable(kv, salt, m_spec(gamma_centi, n as int) as u64) == peelable(
            n as int,
            v0@,
            v1@,
            v2@,
        ));
    }
    if peel_order.len() != n {
        return Err(MphError::Unresolvable);
    }
    proof {
        let peel = peel_order@;
        let removedv = pr.1@;
        assert forall|t: int| 0 <= t < peel.len() implies {
            &&& ((#[trigger] peel[t]).edge as int) < n
            &&& peel[t].pivot < 3
            &&& edge_count(rec_vertex(peel[t], v0@, v1@, v2@), v0@, v1@, v2@, peel[t].edge as int)
                == 1
        } by {
            assert(peel_rec_ok(peel[t], n as int, v0@, v1@, v2@, removedv));
        }
        assert(peel_done(n as int, v0@, v1@, v2@, peel));
    }
    let g = assign_g(&v0, &v1, &v2, &peel_order, n, m_us);
    let mph = Mphf { n: n as u64, m: m32, salt, g };
    proof {
        assert forall|i: int| 0 <= i < n implies mph.index_spec(#[trigger] keys@[i]@) == i by {
            let abc = vertices_spec(keys@[i]@, salt, m64);
            assert(v0@[i] == abc.0 && v1@[i] == abc.1 && v2@[i] == abc.2);
            assert((mph.g@[v0@[i] as int] + mph.g@[v1@[i] as int] + mph.g@[v2@[i] as int]) % (
            n as int) == i);
        }
    }
    Ok(mph)
}

/// Builds [`Mphf`] artifacts from a list of unique keys.
pub struct Builder {
    cfg: BuildConfig,
}

impl Builder {
    /// The configuration this builder will use.
    pub closed spec fn config(self) -> BuildConfig {
        self.cfg
    }

    /// A builder with the default configuration.
    pub fn new() -> (r: Builder)
        ensures
            r.config().gamma_centi == 127,
            r.config().rehash_limit == 16,
            r.config().salt == 0xC0FF_EE00_D15E_A5Eu64,
            r.config().wf(),
    {
        Builder { cfg: BuildConfig::default() }
    }

    /// The same builder with another configuration.
    pub fn with_config(self, cfg: BuildConfig) -> (r: Builder)
        ensures
            r.config() == cfg,
    {
        Builder { cfg }
    }

    /// Build an MPH from **unique** keys.
    ///
    /// Fails with `DuplicateKey` exactly when two keys are byte-equal, and
    /// with `Unresolvable` when no rehash round yields a peelable graph.  On
    /// success every key maps to its own position in the input order.
    pub fn build(self, keys: Vec<Vec<u8>>) -> (r: Result<Mphf, MphError>)
        requires
            1 <= keys@.len() <= MAX_KEYS as int,
            self.config().wf(),
        ensures
            match r {
                Ok(mph) => {
                    &&& !has_duplicate(keys@)
                    &&& perfect_on(mph, key_views(keys@))
                    &&& mph.m as int == m_spec(self.config().gamma_centi, keys@.len() as int)
                    &&& exists|round: u32|
                        #![trigger mix_salt_spec(self.config().salt, round)]
                        {
                            &&& round <= self.config().rehash_limit
                            &&& mph.salt == mix_salt_spec(self.config().salt, round)
                            &&& graph_peelable(
                                key_views(keys@),
                                mix_salt_spec(self.config().salt, round),
                                m_spec(self.config().gamma_centi, keys@.len() as int) as u64,
                            )
                            &&& forall|r2: u32|
                                r2 < round ==> !graph_peelable(
                                    key_views(keys@),
                                    #[trigger] mix_salt_spec(self.config().salt, r2),
                                    m_spec(self.config().gamma_centi, keys@.len() as int) as u64,
                                )
                        }
                },
                Err(e) => {
                    &&& (e == MphError::DuplicateKey <==> has_duplicate(keys@))
                    &&& (e == MphError::DuplicateKey || e == MphError::Unresolvable)
                    &&& e == MphError::Unresolvable ==> forall|round: u32|
                        round <= self.config().rehash_limit ==> !graph_peelable(
                            key_views(keys@),
                            #[trigger] mix_salt_spec(self.config().salt, round),
                            m_spec(self.config().gamma_centi, keys@.len() as int) as u64,
                        )
                },
            },
    {
        let n = keys.len();
        let mut seen = key_set_new();
        let mut i: usize = 0;
        while i < n
            invariant
                n == keys@.len(),
                1 <= n <= MAX_KEYS,
                i <= n,
                seen_keys(seen) == prefix_key_set(keys@, i as int),
                forall|a: int, b: int| 0 <= a < b < i ==> keys@[a]@ != keys@[b]@,
            decreases n - i,
        {
            let kc = clone_bytes(&keys[i]);
            let fresh = key_set_insert(&mut seen, kc);
            if !fresh {
                proof {
                    lemma_prefix_key_set_member(keys@, i as int, keys@[i as int]@);
                    let a = choose|a: int| 0 <= a < i && keys@[a]@ == keys@[i as int]@;
                    assert(0 <= a && a < i as int && (i as int) < keys@.len() && keys@[a]@ == keys@[i as int]@);
                }
                return Err(MphError::DuplicateKey);
            }
            proof {
                assert forall|a: int| 0 <= a < i implies keys@[a]@ != keys@[i as int]@ by {
                    lemma_prefix_key_set_has(keys@, i as int, a);
                }
            }
            i = i + 1;
        }
        proof {
            if has_duplicate(keys@) {
                let (a, b) = choose|a: int, b: int|
                    0 <= a < b < keys@.len() && keys@[a]@ == keys@[b]@;
                assert(keys@[a]@ != keys@[b]@);
            }
        }
        let mut round: u32 = 0;
        loop
            invariant
                n == keys@.len(),
                1 <= n <= MAX_KEYS,
                self.config().wf(),
                !has_duplicate(keys@),
                round <= self.config().rehash_limit,
                forall|r2: u32|
                    r2 < round ==> !graph_peelable(
                        key_views(keys@),
                        #[trigger] mix_salt_spec(self.config().salt, r2),
                        m_spec(self.config().gamma_centi, keys@.len() as int) as u64,
                    ),
            decreases self.config().rehash_limit - round,
        {
            let salt = mix_salt(self.cfg.salt, round);
            let res = try_build_bdz(&keys, n, salt, self.cfg.gamma_centi);
            match res {
                Ok(mph) => {
                    proof {
                        assert forall|i2: int| 0 <= i2 < key_views(keys@).len() implies
                            mph.index_spec(#[trigger] key_views(keys@)[i2]) == i2 by {
                            assert(key_views(keys@)[i2] == keys@[i2]@);
                        }
                        assert(round <= self.config().rehash_limit && mph.salt == mix_salt_spec(
                            self.config().salt,
                            round,
                        ) && graph_peelable(
                            key_views(keys@),
                            mix_salt_spec(self.config().salt, round),
                            m_spec(self.config().gamma_centi, keys@.len() as int) as u64,
                        ));
                    }
                    return Ok(mph);
                },
                Err(_) => {
                    proof {
                        assert(!graph_peelable(
                            key_views(keys@),
                            mix_salt_spec(self.config().salt, round),
                            m_spec(self.config().gamma_centi, keys@.len() as int) as u64,
                        ));
                    }
                },
            }
            if round == self.cfg.rehash_limit {
                proof {
                    assert forall|r2: u32| r2 <= self.config().rehash_limit implies !graph_peelable(
                        key_views(keys@),
                        #[trigger] mix_salt_spec(self.config().salt, r2),
                        m_spec(self.config().gamma_centi, keys@.len() as int) as u64,
                    ) by {
                        if r2 < round {
                        } else {
                            assert(r2 == round);
                        }
                    }
                }
                return Err(MphError::Unresolvable);
            }
            round = round + 1;
        }
    }
}

/// Salt derivation is fresh at round 0 for the default base salt: the first
/// attempt already hashes under a salt other than the base.
pub proof fn lemma_default_salt_round0_fresh()
    ensures
        mix_salt_spec(0xC0FF_EE00_D15E_A5Eu64, 0) != 0xC0FF_EE00_D15E_A5Eu64,
{
    assert(0xcbf29ce484222325u64 ^ 0xC0FF_EE00_D15E_A5Eu64 == 0xc7fd62048937c97bu64)
        by (bit_vector);
    assert(0xc7fd62048937c97bu64 ^ 0u64 == 0xc7fd62048937c97bu64) by (bit_vector);
    assert(0xc7fd62048937c97bu64 as nat * 0x100000001b3u64 as nat
        == 0xc7fd6205dd0b5708b529cb5c01nat);
    assert(0xc7fd6205dd0b5708b529cb5c01nat % 0x1_0000_0000_0000_0000nat
        == 0x0b5708b529cb5c01nat);
    assert(vstd::wrapping::u64_specs::wrapping_mul(0xc7fd62048937c97bu64, 0x100000001b3u64)
        == 0x0b5708b529cb5c01u64);
    assert(0x0b5708b529cb5c01u64 ^ (0x0b5708b529cb5c01u64 >> 33u64) == 0x0b5708b52c60d85bu64)
        by (bit_vector);
}

/// The salt a successful build stamps is a function of the build inputs
/// alone: it is the smallest rehash round whose derived hypergraph peels, so
/// two builds from the same keys and configuration stamp the same salt and
/// agree on every build-set index.  (The displacement tables themselves are
/// pinned only through the index equations; byte-level identity of repeated
/// builds is exercised by tests.)
pub proof fn lemma_build_salt_deterministic(
    m1: Mphf,
    m2: Mphf,
    keys: Seq<Seq<u8>>,
    base: u64,
    limit: u32,
    mm: u64,
)
    requires
        perfect_on(m1, keys),
        perfect_on(m2, keys),
        exists|r: u32|
            #![trigger mix_salt_spec(base, r)]
            {
                &&& r <= limit
                &&& m1.salt == mix_salt_spec(base, r)
                &&& graph_peelable(keys, mix_salt_spec(base, r), mm)
                &&& forall|r2: u32|
                    r2 < r ==> !graph_peelable(keys, #[trigger] mix_salt_spec(base, r2), mm)
            },
        exists|r: u32|
            #![trigger mix_salt_spec(base, r)]
            {
                &&& r <= limit
                &&& m2.salt == mix_salt_spec(base, r)
                &&& graph_peelable(keys, mix_salt_spec(base, r), mm)
                &&& forall|r2: u32|
                    r2 < r ==> !graph_peelable(keys, #[trigger] mix_salt_spec(base, r2), mm)
            },
    ensures
        m1.salt == m2.salt,
        m1.n == m2.n,
        forall|i: int|
            0 <= i < keys.len() ==> m1.index_spec(#[trigger] keys[i]) == m2.index_spec(keys[i]),
{
    let r1 = choose|r: u32|
        #![trigger mix_salt_spec(base, r)]
        {
            &&& r <= limit
            &&& m1.salt == mix_salt_spec(base, r)
            &&& graph_peelable(keys, mix_salt_spec(base, r), mm)
            &&& forall|r2: u32|
                r2 < r ==> !graph_peelable(keys, #[trigger] mix_salt_spec(base, r2), mm)
        };
    let r2 = choose|r: u32|
        #![trigger mix_salt_spec(base, r)]
        {
            &&& r <= limit
            &&& m2.salt == mix_salt_spec(base, r)
            &&& graph_peelable(keys, mix_salt_spec(base, r), mm)
            &&& forall|r3: u32|
                r3 < r ==> !graph_peelable(keys, #[trigger] mix_salt_spec(base, r3), mm)
        };
    if r1 < r2 {
        assert(!graph_peelable(keys, mix_salt_spec(base, r1), mm));
        assert(false);
    } else if r2 < r1 {
        assert(!graph_peelable(keys, mix_salt_spec(base, r2), mm));
        assert(false);
    }
}

/// Perfect hashing: on the build set, the indices are exactly the key
/// positions, so no two keys share an index and none is skipped.
pub proof fn lemma_perfect_hashing(mph: Mphf, keys: Seq<Seq<u8>>, i: int, j: int)
    requires
        perfect_on(mph, keys),
        0 <= i < keys.len(),
        0 <= j < keys.len(),
        i != j,
    ensures
        mph.index_spec(keys[i]) == i,
        mph.index_spec(keys[j]) == j,
        mph.index_spec(keys[i]) != mph.index_spec(keys[j]),
{
}

/// Algebraic identity: for the `i`-th build key, the displacements of its
/// three derived vertices sum to `i` modulo `n`.
pub proof fn lemma_algebraic_identity(mph: Mphf, keys: Seq<Seq<u8>>, i: int)
    requires
        perfect_on(mph, keys),
        0 <= i < keys.len(),
    ensures
        ({
            let abc = vertices_spec(keys[i], mph.salt, mph.m as u64);
            (mph.g@[abc.0 as int] + mph.g@[abc.1 as int] + mph.g@[abc.2 as int]) % (mph.n as int)
                == i
        }),
{
}

} // verus!
