use super::prng::{next_accepted, stream_byte, stream_len, Aes128Prng};
use super::PrpError;
use vstd::prelude::*;

verus! {

/// The table `i -> i` on the 256 byte values.
pub open spec fn identity_table() -> Seq<u8> {
    Seq::new(256, |i: int| i as u8)
}

/// `t` maps the 256 byte values one to one.
pub open spec fn is_permutation(t: Seq<u8>) -> bool {
    &&& t.len() == 256
    &&& forall|a: int, b: int| 0 <= a < 256 && 0 <= b < 256 && a != b ==> t[a] != t[b]
}

/// The Fisher-Yates shuffle of `t` for the indices `i - 1` down to 1, each index
/// swapped with a position drawn in `[0, index]` from the stream of `key` starting
/// at `pos`; `None` when the stream runs out.
pub open spec fn shuffle_from(key: Seq<u8>, t: Seq<u8>, i: nat, pos: nat) -> Option<Seq<u8>>
    decreases i,
{
    if i <= 1 {
        Some(t)
    } else {
        let idx = i - 1;
        let p = next_accepted(key, pos, idx as u8);
        if p >= stream_len() {
            None
        } else {
            let j = (stream_byte(key, p as int) as int) % (idx + 1);
            shuffle_from(key, t.update(idx, t[j]).update(j, t[idx]), (i - 1) as nat, p + 1)
        }
    }
}

/// The forward table of the permutation seeded by `seed`.
pub open spec fn shuffle_table(seed: Seq<u8>) -> Option<Seq<u8>> {
    shuffle_from(seed, identity_table(), 256, 0)
}

proof fn lemma_shuffle_from_permutation(key: Seq<u8>, t: Seq<u8>, i: nat, pos: nat)
    requires
        is_permutation(t),
        i <= 256,
    ensures
        shuffle_from(key, t, i, pos) matches Some(r) ==> is_permutation(r),
    decreases i,
{
    if i > 1 {
        let idx = i - 1;
        let p = next_accepted(key, pos, idx as u8);
        if p < stream_len() {
            let j = (stream_byte(key, p as int) as int) % (idx + 1);
            let t2 = t.update(idx, t[j]).update(j, t[idx]);
            assert forall|a: int, b: int|
                0 <= a < 256 && 0 <= b < 256 && a != b implies t2[a] != t2[b] by {
                let sa = if a == j { idx as int } else if a == idx { j } else { a };
                let sb = if b == j { idx as int } else if b == idx { j } else { b };
                assert(t2[a] == t[sa]);
                assert(t2[b] == t[sb]);
            }
            lemma_shuffle_from_permutation(key, t2, (i - 1) as nat, p + 1);
        }
    }
}

/// Every table that a seed yields is a permutation.
pub proof fn lemma_shuffle_table_permutation(seed: Seq<u8>)
    ensures
        shuffle_table(seed) matches Some(t) ==> is_permutation(t),
{
    lemma_shuffle_from_permutation(seed, identity_table(), 256, 0);
}

/// A pseudorandom permutation of the 256 byte values, held as a forward
/// table and its inverse.
pub struct Prp {
    forward: [u8; 256],
    inverse: [u8; 256],
}

impl Drop for Prp {
    /// Wipes both tables.
    fn drop(&mut self)
        opens_invariants none
        no_unwind
    {
        super::zeroize_bytes(&mut self.forward);
        super::zeroize_bytes(&mut self.inverse);
    }
}

impl Prp {
    /// The forward table.
    pub closed spec fn table(&self) -> Seq<u8> {
        self.forward@
    }

    /// The inverse table.
    pub closed spec fn inverse_table(&self) -> Seq<u8> {
        self.inverse@
    }

    /// The two tables undo each other.
    pub open spec fn wf(&self) -> bool {
        &&& self.table().len() == 256
        &&& self.inverse_table().len() == 256
        &&& forall|y: int|
            0 <= y < 256 ==> #[trigger] self.table()[self.inverse_table()[y] as int] == y
        &&& forall|x: int|
            0 <= x < 256 ==> #[trigger] self.inverse_table()[self.table()[x] as int] == x
    }

    /// Builds the permutation seeded by `seed`: starting from the identity, for
    /// each index from 255 down to 1 swap it with a position drawn in
    /// `[0, index]` from the counter-mode stream seeded by `seed`; then fill the
    /// inverse table.
    pub fn init(seed: &[u8; 16]) -> (r: Result<Prp, PrpError>)
        ensures
            match r {
                Ok(p) => p.wf() && shuffle_table(seed@) == Some(p.table()),
                Err(_) => shuffle_table(seed@) is None,
            },
    {
        let mut rng = Aes128Prng::init(seed);
        let mut forward = [0u8; 256];
        let mut k: usize = 0;
        while k < 256
            invariant
                k <= 256,
                forall|m: int| 0 <= m < k ==> forward@[m] == m as u8,
            decreases 256 - k,
        {
            forward[k] = k as u8;
            k = k + 1;
        }
        assert(forward@ =~= identity_table());
        let ghost mut g: Seq<u8> = identity_table();
        let mut i: usize = 255;
        while i >= 1
            invariant
                i <= 255,
                rng.wf(),
                rng.key() == seed@,
                g.len() == 256,
                shuffle_from(seed@, forward@, (i + 1) as nat, rng.pos()) == shuffle_table(seed@),
                forall|y: int| 0 <= y < 256 ==> #[trigger] forward@[g[y] as int] == y,
                forall|x: int| 0 <= x < 256 ==> #[trigger] g[forward@[x] as int] == x,
            decreases i,
        {
            let ghost before = forward@;
            let j = match rng.gen_range(i as u8) {
                Ok(j) => j,
                Err(e) => {
                    return Err(e);
                },
            };
            let a = forward[i];
            let b = forward[j as usize];
            forward[i] = b;
            forward[j as usize] = a;
            proof {
                assert(forward@ == before.update(i as int, before[j as int]).update(
                    j as int,
                    before[i as int],
                ));
                let g0 = g;
                g = g.update(a as int, j as u8).update(b as int, i as u8);
                assert forall|y: int| 0 <= y < 256 implies #[trigger] forward@[g[y] as int] == y by {
                    if y != a && y != b {
                        assert(g[y] == g0[y]);
                        assert(g0[y] != i && g0[y] != j) by {
                            if g0[y] == i {
                                assert(g0[before[i as int] as int] == i);
                            }
                            if g0[y] == j {
                                assert(g0[before[j as int] as int] == j);
                            }
                        }
                    }
                }
                assert forall|x: int| 0 <= x < 256 implies #[trigger] g[forward@[x] as int] == x by {
                    if x != i && x != j {
                        assert(forward@[x] == before[x]);
                        assert(g0[before[x] as int] == x);
                        assert(before[x] != a) by {
                            assert(g0[before[i as int] as int] == i);
                        }
                        assert(before[x] != b) by {
                            assert(g0[before[j as int] as int] == j);
                        }
                    } else if a == b {
                        assert(g0[before[i as int] as int] == i);
                        assert(g0[before[j as int] as int] == j);
                    }
                }
            }
            i = i - 1;
        }
        let mut inverse = [0u8; 256];
        let mut k: usize = 0;
        while k < 256
            invariant
                k <= 256,
                g.len() == 256,
                forall|y: int| 0 <= y < 256 ==> #[trigger] forward@[g[y] as int] == y,
                forall|x: int| 0 <= x < 256 ==> #[trigger] g[forward@[x] as int] == x,
                forall|m: int| 0 <= m < k ==> #[trigger] inverse@[forward@[m] as int] == m,
            decreases 256 - k,
        {
            let v = forward[k];
            proof {
                assert forall|m: int| 0 <= m < k implies forward@[m] != v by {
                    assert(g[forward@[m] as int] == m);
                    assert(g[forward@[k as int] as int] == k);
                }
            }
            inverse[v as usize] = k as u8;
            k = k + 1;
        }
        let p = Prp { forward, inverse };
        proof {
            assert forall|y: int| 0 <= y < 256 implies #[trigger] p.table()[p.inverse_table()[y] as int]
                == y by {
                assert(inverse@[forward@[g[y] as int] as int] == g[y]);
            }
        }
        Ok(p)
    }

    /// The image of `input`: its entry in the forward table.
    pub fn permute(&self, input: u8) -> (r: u8)
        ensures
            r == self.table()[input as int],
    {
        self.forward[input as usize]
    }

    /// The preimage of `input`: its entry in the inverse table.
    pub fn inverse(&self, input: u8) -> (r: u8)
        ensures
            r == self.inverse_table()[input as int],
    {
        self.inverse[input as usize]
    }
}

/// Inverting undoes permuting and permuting undoes inverting, for every byte.
pub proof fn lemma_prp_round_trip(p: Prp, y: u8)
    requires
        p.wf(),
    ensures
        p.table()[p.inverse_table()[y as int] as int] == y,
        p.inverse_table()[p.table()[y as int] as int] == y,
{
}

} // verus!
