//! The integer core of 2D Perlin noise: the seeded permutation table and the
//! hashing of lattice corners.
use vstd::prelude::*;
use vstd::wrapping::u64_specs::{wrapping_add, wrapping_mul};

verus! {

/// One step of the linear-congruential generator (Knuth's MMIX constants).
#[verifier::opaque]
pub open spec fn lcg_next(r: u64) -> u64 {
    wrapping_add(wrapping_mul(r, 6364136223846793005u64), 1442695040888963407u64)
}

/// The generator state after `k` draws.
pub open spec fn perm_rng(seed: u64, k: nat) -> u64
    decreases k,
{
    if k == 0 {
        wrapping_add(seed, 1)
    } else {
        lcg_next(perm_rng(seed, (k - 1) as nat))
    }
}

fn lcg_step(r: u64) -> (n: u64)
    ensures
        n == lcg_next(r),
{
    proof {
        reveal(lcg_next);
    }
    r.wrapping_mul(6364136223846793005u64).wrapping_add(1442695040888963407u64)
}

/// `s` with the entries at `i` and `j` exchanged.
pub open spec fn swapped(s: Seq<u8>, i: int, j: int) -> Seq<u8> {
    s.update(i, s[j]).update(j, s[i])
}

/// The table after the first `k` steps of the Fisher-Yates shuffle: step `k`
/// exchanges position `256 - k` with a position drawn below or at it.
#[verifier::opaque]
pub open spec fn shuffle(seed: u64, k: nat) -> Seq<u8>
    decreases k,
{
    if k == 0 {
        Seq::new(256, |i: int| i as u8)
    } else {
        let i = 256 - k;
        swapped(shuffle(seed, (k - 1) as nat), i, ((perm_rng(seed, k) >> 33u64) as int) % (i + 1))
    }
}

/// The shuffled table of a seed.
pub open spec fn perm_table(seed: u64) -> Seq<u8> {
    shuffle(seed, 255)
}

/// Every one of the 256 byte values occurs exactly once.
pub open spec fn is_byte_permutation(t: Seq<u8>) -> bool {
    &&& t.len() == 256
    &&& forall|i: int, j: int| 0 <= i < j < 256 ==> t[i] != t[j]
    &&& forall|v: u8| #[trigger] t.contains(v)
}

proof fn lemma_shuffle_start(seed: u64)
    ensures
        shuffle(seed, 0) == Seq::new(256, |i: int| i as u8),
{
    reveal(shuffle);
}

proof fn lemma_shuffle_step(seed: u64, k: nat)
    requires
        1 <= k <= 255,
    ensures
        shuffle(seed, k) == swapped(
            shuffle(seed, (k - 1) as nat),
            256 - k,
            ((perm_rng(seed, k) >> 33u64) as int) % (256 - k + 1),
        ),
{
    reveal(shuffle);
}

/// `pos` gives the position of every byte value in `t`.
#[verifier::opaque]
spec fn inverse(t: Seq<u8>, pos: Seq<int>) -> bool {
    &&& t.len() == 256
    &&& pos.len() == 256
    &&& forall|v: int| 0 <= v < 256 ==> 0 <= #[trigger] pos[v] < 256 && t[pos[v]] == v
    &&& forall|p: int| 0 <= p < 256 ==> #[trigger] pos[t[p] as int] == p
}

proof fn lemma_inverse_start()
    ensures
        inverse(Seq::new(256, |i: int| i as u8), Seq::new(256, |v: int| v)),
{
    reveal(inverse);
}

proof fn lemma_inverse_swap(t: Seq<u8>, pos: Seq<int>, i: int, j: int)
    requires
        inverse(t, pos),
        0 <= i < 256,
        0 <= j < 256,
    ensures
        inverse(swapped(t, i, j), pos.update(t[i] as int, j).update(t[j] as int, i)),
{
    reveal(inverse);
    let a = t[i];
    let b = t[j];
    let t2 = swapped(t, i, j);
    let pos2 = pos.update(a as int, j).update(b as int, i);
    assert(pos[a as int] == i);
    assert(pos[b as int] == j);
    assert forall|p: int| 0 <= p < 256 implies #[trigger] pos2[t2[p] as int] == p by {
        if p != i && p != j {
            assert(pos[t[p] as int] == p);
            assert(t[p] != a);
            assert(t[p] != b);
        }
    }
    assert forall|v: int| 0 <= v < 256 implies 0 <= #[trigger] pos2[v] < 256 && t2[pos2[v]] == v by {
        if v != a && v != b {
            assert(pos[v] != i);
            assert(pos[v] != j);
        }
    }
}

proof fn lemma_inverse_permutation(t: Seq<u8>, pos: Seq<int>)
    requires
        inverse(t, pos),
    ensures
        is_byte_permutation(t),
{
    reveal(inverse);
    assert forall|a: int, b: int| 0 <= a < b < 256 implies t[a] != t[b] by {
        assert(pos[t[a] as int] == a);
        assert(pos[t[b] as int] == b);
    }
    assert forall|v: u8| #[trigger] t.contains(v) by {
        assert(t[pos[v as int]] == v);
    }
}

proof fn lemma_shuffle_inverse(seed: u64, k: nat) -> (pos: Seq<int>)
    requires
        k <= 255,
    ensures
        inverse(shuffle(seed, k), pos),
    decreases k,
{
    if k == 0 {
        lemma_shuffle_start(seed);
        lemma_inverse_start();
        Seq::new(256, |v: int| v)
    } else {
        let p = lemma_shuffle_inverse(seed, (k - 1) as nat);
        let t = shuffle(seed, (k - 1) as nat);
        let i = 256 - k;
        let j = ((perm_rng(seed, k) >> 33u64) as int) % (i + 1);
        lemma_shuffle_step(seed, k);
        lemma_inverse_swap(t, p, i, j);
        p.update(t[i] as int, j).update(t[j] as int, i)
    }
}

/// For every seed, the shuffled table holds each byte value exactly once.
pub proof fn law_perm_table_is_permutation(seed: u64)
    ensures
        is_byte_permutation(perm_table(seed)),
{
    let pos = lemma_shuffle_inverse(seed, 255);
    lemma_inverse_permutation(perm_table(seed), pos);
}

/// 2D Perlin noise: a 256-entry permutation table, stored twice over.
pub struct PerlinNoise {
    perm: Vec<u8>,
}

/// The table entries hashing the four corners of lattice cell `(x, y)`,
/// `x` and `y` in `0..256`: corners (x, y), (x, y + 1), (x + 1, y), (x + 1, y + 1).
pub open spec fn corner_spec(t: Seq<u8>, x: int, y: int) -> (u8, u8, u8, u8) {
    (t[t[x] + y], t[t[x] + y + 1], t[t[x + 1] + y], t[t[x + 1] + y + 1])
}

impl PerlinNoise {
    /// The 512 entries of the doubled table.
    pub closed spec fn table(&self) -> Seq<u8> {
        self.perm@
    }

    #[verifier::type_invariant]
    spec fn table_len(&self) -> bool {
        self.perm@.len() == 512
    }

    /// The hashes of the four corners of the lattice cell whose lower corner
    /// is `(xi, yi)`; coordinates wrap modulo 256.
    pub fn corner_hashes(&self, xi: i64, yi: i64) -> (r: (u8, u8, u8, u8))
        ensures
            r == corner_spec(self.table(), (xi & 255i64) as int, (yi & 255i64) as int),
    {
        proof {
            use_type_invariant(self);
        }
        assert(0 <= (xi & 255i64) <= 255) by (bit_vector);
        assert(0 <= (yi & 255i64) <= 255) by (bit_vector);
        let x: usize = (xi & 255i64) as usize;
        let y: usize = (yi & 255i64) as usize;
        let px = self.perm[x] as usize;
        let px1 = self.perm[x + 1] as usize;
        (self.perm[px + y], self.perm[px + y + 1], self.perm[px1 + y], self.perm[px1 + y + 1])
    }

    /// Fisher-Yates shuffle of `0..=255` driven by a linear-congruential generator.
    fn build_perm(seed: u64) -> (t: Vec<u8>)
        ensures
            t@ == perm_table(seed),
            is_byte_permutation(t@),
    {
        let mut table: Vec<u8> = Vec::new();
        let mut k: usize = 0;
        while k < 256
            invariant
                k <= 256,
                table@.len() == k,
                forall|i: int| 0 <= i < k ==> table@[i] == i as u8,
            decreases 256 - k,
        {
            table.push(k as u8);
            k = k + 1;
        }
        proof {
            lemma_shuffle_start(seed);
            assert(table@ =~= shuffle(seed, 0));
        }
        let mut rng: u64 = seed.wrapping_add(1);
        let mut i: usize = 255;
        while i >= 1
            invariant
                i <= 255,
                table@ == shuffle(seed, (255 - i) as nat),
                rng == perm_rng(seed, (255 - i) as nat),
                table@.len() == 256,
            decreases i,
        {
            rng = lcg_step(rng);
            assert(rng >> 33u64 <= 0x7FFF_FFFFu64) by (bit_vector);
            let j: usize = ((rng >> 33u64) as usize) % (i + 1);
            let a = table[i];
            let b = table[j];
            let ghost old_table = table@;
            proof {
                lemma_shuffle_step(seed, (255 - i + 1) as nat);
            }
            table.set(i, b);
            table.set(j, a);
            proof {
                assert(table@ =~= swapped(old_table, i as int, j as int));
            }
            i = i - 1;
        }
        proof {
            law_perm_table_is_permutation(seed);
        }
        table
    }

    /// Create a new Perlin noise generator with the given seed.
    pub fn new(seed: u64) -> (r: Self)
        ensures
            r.table().len() == 512,
            forall|i: int| 0 <= i < 512 ==> #[trigger] r.table()[i] == perm_table(seed)[i % 256],
    {
        let perm256 = Self::build_perm(seed);
        let ghost t = perm256@;
        let mut perm: Vec<u8> = Vec::new();
        let mut i: usize = 0;
        while i < 512
            invariant
                perm256@ == t,
                t.len() == 256,
                i <= 512,
                perm@.len() == i,
                forall|k: int| 0 <= k < i ==> #[trigger] perm@[k] == t[k % 256],
            decreases 512 - i,
        {
            perm.push(perm256[i % 256]);
            i = i + 1;
        }
        PerlinNoise { perm }
    }
}

} // verus!
