//! Serialization of the MPH artifact: a framed little-endian record holding
//! `n`, `m`, the salt, a length prefix, and the displacement table.

use crate::bdz::{MphError, Mphf};
use vstd::bytes::{
    lemma_auto_spec_u32_to_from_le_bytes, lemma_auto_spec_u64_to_from_le_bytes,
    spec_u32_from_le_bytes, spec_u32_to_le_bytes, spec_u64_from_le_bytes, spec_u64_to_le_bytes,
    u32_from_le_bytes, u32_to_le_bytes, u64_from_le_bytes, u64_to_le_bytes,
};
use vstd::prelude::*;
use vstd::slice::slice_subrange;

verus! {

/// The displacement table as bytes: each entry as little-endian `u32`, in
/// order.
pub open spec fn spec_g_bytes(g: Seq<u32>) -> Seq<u8>
    decreases g.len(),
{
    if g.len() <= 0 {
        Seq::empty()
    } else {
        spec_g_bytes(g.drop_last()) + spec_u32_to_le_bytes(g.last())
    }
}

/// The serialized artifact: `n` (8 bytes), `m` (4), `salt` (8), the length
/// of the table again (4), then the table, all little-endian.
pub open spec fn spec_to_bytes(mph: Mphf) -> Seq<u8> {
    spec_u64_to_le_bytes(mph.n) + spec_u32_to_le_bytes(mph.m) + spec_u64_to_le_bytes(mph.salt)
        + spec_u32_to_le_bytes(mph.m) + spec_g_bytes(mph.g@)
}

proof fn lemma_g_bytes_len(g: Seq<u32>)
    ensures
        spec_g_bytes(g).len() == 4 * g.len(),
    decreases g.len(),
{
    lemma_auto_spec_u32_to_from_le_bytes();
    if g.len() > 0 {
        lemma_g_bytes_len(g.drop_last());
    }
}

proof fn lemma_g_bytes_push(g: Seq<u32>, x: u32)
    ensures
        spec_g_bytes(g.push(x)) == spec_g_bytes(g) + spec_u32_to_le_bytes(x),
{
    assert(g.push(x).drop_last() =~= g);
    assert(g.push(x).last() == x);
}

proof fn lemma_g_bytes_index(g: Seq<u32>, k: int)
    requires
        0 <= k < g.len(),
    ensures
        spec_g_bytes(g).subrange(4 * k, 4 * k + 4) == spec_u32_to_le_bytes(g[k]),
    decreases g.len(),
{
    lemma_auto_spec_u32_to_from_le_bytes();
    lemma_g_bytes_len(g.drop_last());
    if k == g.len() - 1 {
        assert(spec_g_bytes(g).subrange(4 * k, 4 * k + 4) =~= spec_u32_to_le_bytes(g.last()));
    } else {
        lemma_g_bytes_index(g.drop_last(), k);
        assert(spec_g_bytes(g).subrange(4 * k, 4 * k + 4) =~= spec_g_bytes(
            g.drop_last(),
        ).subrange(4 * k, 4 * k + 4));
        assert(g.drop_last()[k] == g[k]);
    }
}

/// How the serialized fields read back out of the byte string.
proof fn lemma_ser_shape(mph: Mphf)
    ensures
        spec_to_bytes(mph).len() == 24 + 4 * mph.g@.len(),
        spec_u64_from_le_bytes(spec_to_bytes(mph).subrange(0, 8)) == mph.n,
        spec_u32_from_le_bytes(spec_to_bytes(mph).subrange(8, 12)) == mph.m,
        spec_u64_from_le_bytes(spec_to_bytes(mph).subrange(12, 20)) == mph.salt,
        spec_u32_from_le_bytes(spec_to_bytes(mph).subrange(20, 24)) == mph.m,
        forall|k: int|
            0 <= k < mph.g@.len() ==> spec_u32_from_le_bytes(
                #[trigger] spec_to_bytes(mph).subrange(24 + 4 * k, 28 + 4 * k),
            ) == mph.g@[k],
{
    lemma_auto_spec_u32_to_from_le_bytes();
    lemma_auto_spec_u64_to_from_le_bytes();
    lemma_g_bytes_len(mph.g@);
    let bs = spec_to_bytes(mph);
    assert(bs.subrange(0, 8) =~= spec_u64_to_le_bytes(mph.n));
    assert(bs.subrange(8, 12) =~= spec_u32_to_le_bytes(mph.m));
    assert(bs.subrange(12, 20) =~= spec_u64_to_le_bytes(mph.salt));
    assert(bs.subrange(20, 24) =~= spec_u32_to_le_bytes(mph.m));
    assert forall|k: int| 0 <= k < mph.g@.len() implies spec_u32_from_le_bytes(
        #[trigger] bs.subrange(24 + 4 * k, 28 + 4 * k),
    ) == mph.g@[k] by {
        lemma_g_bytes_index(mph.g@, k);
        assert(bs.subrange(24 + 4 * k, 28 + 4 * k) =~= spec_g_bytes(mph.g@).subrange(
            4 * k,
            4 * k + 4,
        ));
    }
}

/// Serialization is injective: equal byte strings come from equal artifacts.
pub proof fn lemma_to_bytes_injective(m1: Mphf, m2: Mphf)
    requires
        spec_to_bytes(m1) == spec_to_bytes(m2),
    ensures
        m1.n == m2.n,
        m1.m == m2.m,
        m1.salt == m2.salt,
        m1.g@ == m2.g@,
{
    lemma_ser_shape(m1);
    lemma_ser_shape(m2);
    assert(m1.g@.len() == m2.g@.len());
    assert forall|k: int| 0 <= k < m1.g@.len() implies m1.g@[k] == m2.g@[k] by {
        assert(spec_to_bytes(m1).subrange(24 + 4 * k, 28 + 4 * k) == spec_to_bytes(m2).subrange(
            24 + 4 * k,
            28 + 4 * k,
        ));
    }
    assert(m1.g@ =~= m2.g@);
}

/// Round trip: two artifacts with the same serialization answer every query
/// alike, so deserializing a serialized artifact changes no lookup.
pub proof fn lemma_serialization_round_trip(m1: Mphf, m2: Mphf, key: Seq<u8>)
    requires
        spec_to_bytes(m1) == spec_to_bytes(m2),
    ensures
        m1.index_spec(key) == m2.index_spec(key),
        m1.n == m2.n,
{
    lemma_to_bytes_injective(m1, m2);
}

impl Mphf {
    /// Serialize the artifact to its framed little-endian byte layout.
    pub fn to_bytes(&self) -> (r: Result<Vec<u8>, MphError>)
        ensures
            match r {
                Ok(bytes) => bytes@ == spec_to_bytes(*self),
                Err(_) => false,
            },
    {
        let mut buf: Vec<u8> = Vec::new();
        let mut part = u64_to_le_bytes(self.n);
        buf.append(&mut part);
        let mut part = u32_to_le_bytes(self.m);
        buf.append(&mut part);
        let mut part = u64_to_le_bytes(self.salt);
        buf.append(&mut part);
        let mut part = u32_to_le_bytes(self.m);
        buf.append(&mut part);
        let ghost header = buf@;
        let mut k: usize = 0;
        while k < self.g.len()
            invariant
                k <= self.g@.len(),
                buf@ == header + spec_g_bytes(self.g@.subrange(0, k as int)),
            decreases self.g@.len() - k,
        {
            let mut part = u32_to_le_bytes(self.g[k]);
            buf.append(&mut part);
            proof {
                assert(self.g@.subrange(0, k as int).push(self.g@[k as int]) =~= self.g@.subrange(
                    0,
                    k as int + 1,
                ));
                lemma_g_bytes_push(self.g@.subrange(0, k as int), self.g@[k as int]);
            }
            k = k + 1;
        }
        proof {
            assert(self.g@.subrange(0, self.g@.len() as int) =~= self.g@);
            assert(buf@ =~= spec_to_bytes(*self));
        }
        Ok(buf)
    }

    /// Decode an artifact from its framed little-endian byte layout,
    /// checking the frame and every table entry.  Fails with `Serde` exactly
    /// when the bytes are not the serialization of a well-formed artifact.
    pub fn from_bytes(bytes: &[u8]) -> (r: Result<Mphf, MphError>)
        ensures
            match r {
                Ok(mph) => mph.wf() && bytes@ == spec_to_bytes(mph),
                Err(e) => {
                    &&& e == MphError::Serde
                    &&& forall|mph: Mphf| mph.wf() ==> bytes@ != #[trigger] spec_to_bytes(mph)
                },
            },
    {
        proof {
            lemma_auto_spec_u32_to_from_le_bytes();
            lemma_auto_spec_u64_to_from_le_bytes();
        }
        if bytes.len() < 24 {
            proof {
                assert forall|mph: Mphf| mph.wf() implies bytes@ != #[trigger] spec_to_bytes(
                    mph,
                ) by {
                    lemma_ser_shape(mph);
                }
            }
            return Err(MphError::Serde);
        }
        let n = u64_from_le_bytes(slice_subrange(bytes, 0, 8));
        let m = u32_from_le_bytes(slice_subrange(bytes, 8, 12));
        let salt = u64_from_le_bytes(slice_subrange(bytes, 12, 20));
        let len_field = u32_from_le_bytes(slice_subrange(bytes, 20, 24));
        let ok_fields = n >= 1 && n <= u32::MAX as u64 && m >= 1 && len_field == m;
        let need64: u64 = 24u64 + 4u64 * (m as u64);
        let ok_len = ok_fields && (bytes.len() as u64) == need64;
        if !ok_len {
            proof {
                assert forall|mph: Mphf| mph.wf() implies bytes@ != #[trigger] spec_to_bytes(
                    mph,
                ) by {
                    if bytes@ == spec_to_bytes(mph) {
                        lemma_ser_shape(mph);
                        assert(mph.n == n && mph.m == m && mph.m == len_field);
                        assert(bytes@.len() == 24 + 4 * mph.g@.len());
                    }
                }
            }
            return Err(MphError::Serde);
        }
        let m_us = m as usize;
        let blen = bytes.len();
        let mut g: Vec<u32> = Vec::new();
        let mut k: usize = 0;
        while k < m_us
            invariant
                k <= m_us,
                m_us == m as int,
                1 <= n <= u32::MAX as u64,
                m >= 1,
                blen == bytes@.len(),
                bytes@.len() == 24 + 4 * (m as int),
                n == spec_u64_from_le_bytes(bytes@.subrange(0, 8)),
                m == spec_u32_from_le_bytes(bytes@.subrange(8, 12)),
                g@.len() == k,
                forall|w: int| 0 <= w < k ==> ((#[trigger] g@[w]) as u64) < n,
                spec_g_bytes(g@) == bytes@.subrange(24, 24 + 4 * (k as int)),
            decreases m_us - k,
        {
            proof {
                assert(28 + 4 * (k as int) <= blen);
            }
            let entry = u32_from_le_bytes(slice_subrange(bytes, 24 + 4 * k, 28 + 4 * k));
            if (entry as u64) >= n {
                proof {
                    assert forall|mph: Mphf| mph.wf() implies bytes@ != #[trigger] spec_to_bytes(
                        mph,
                    ) by {
                        if bytes@ == spec_to_bytes(mph) {
                            lemma_ser_shape(mph);
                            assert(mph.n == n && mph.g@.len() == m as int);
                            assert(spec_u32_from_le_bytes(
                                bytes@.subrange(24 + 4 * (k as int), 28 + 4 * (k as int)),
                            ) == mph.g@[k as int]);
                            assert((mph.g@[k as int] as u64) < mph.n);
                        }
                    }
                }
                return Err(MphError::Serde);
            }
            let ghost g0 = g@;
            g.push(entry);
            proof {
                lemma_auto_spec_u32_to_from_le_bytes();
                lemma_g_bytes_push(g0, entry);
                assert(g@ =~= g0.push(entry));
                assert(spec_u32_to_le_bytes(entry) == bytes@.subrange(
                    24 + 4 * (k as int),
                    28 + 4 * (k as int),
                ));
                assert(spec_g_bytes(g@) =~= bytes@.subrange(24, 24 + 4 * (k as int) + 4));
            }
            k = k + 1;
        }
        let mph = Mphf { n, m, salt, g };
        proof {
            lemma_ser_shape(mph);
            lemma_g_bytes_len(mph.g@);
            assert(spec_to_bytes(mph).subrange(0, 8) =~= spec_u64_to_le_bytes(mph.n));
            assert(bytes@.subrange(0, 8) =~= spec_u64_to_le_bytes(n));
            assert(bytes@.subrange(8, 12) =~= spec_u32_to_le_bytes(m));
            assert(bytes@.subrange(12, 20) =~= spec_u64_to_le_bytes(salt));
            assert(bytes@.subrange(20, 24) =~= spec_u32_to_le_bytes(m));
            assert(bytes@ =~= bytes@.subrange(0, 8) + bytes@.subrange(8, 12) + bytes@.subrange(
                12,
                20,
            ) + bytes@.subrange(20, 24) + bytes@.subrange(24, bytes@.len() as int));
            assert(bytes@.subrange(24, bytes@.len() as int) =~= spec_g_bytes(mph.g@));
            assert(bytes@ =~= spec_to_bytes(mph));
        }
        Ok(mph)
    }
}

} // verus!
