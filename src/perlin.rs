use vstd::prelude::*;

use itertools::Itertools;

use crate::bvh::{is_permutation, lemma_swap_permutation, occurs_in};
use crate::random::draw_below;

verus! {

/// The number of lattice points along each axis before the hash repeats.
pub const POINT_COUNT: usize = 256;

/// Relies on `itertools::Itertools::multi_cartesian_product`: the product of
/// three copies of `0..2`, as vectors in lexicographic order, the last place
/// changing fastest.
#[verifier::external_body]
fn cube_corners() -> (r: Vec<Vec<usize>>)
    ensures
        r@.len() == 8,
        forall|n: int|
            0 <= n < 8 ==> (#[trigger] r@[n])@ == seq![(n / 4) as usize, ((n / 2) % 2) as usize, (n % 2) as usize],
{
    std::iter::repeat(0..2usize).take(3).multi_cartesian_product().collect()
}

/// The lattice cell of coordinate `i` along one axis.
pub open spec fn cell(i: int) -> int {
    i % (POINT_COUNT as int)
}

/// Three independent random permutations of the lattice points, one per
/// axis, which hash a lattice point to one of them.
#[derive(Clone, Debug)]
pub struct PerlinHash {
    pub perm_x: Vec<usize>,
    pub perm_y: Vec<usize>,
    pub perm_z: Vec<usize>,
}

/// Shuffles the first `swaps` places of `p`: from the last of them down, each
/// trades places with a place drawn at random at or below it.
fn permute(p: &mut Vec<usize>, swaps: usize)
    requires
        swaps <= old(p).len(),
        is_permutation(old(p)@, old(p).len() as nat),
    ensures
        is_permutation(final(p)@, old(p).len() as nat),
{
    let mut i: usize = swaps;
    while i > 0
        invariant
            i <= swaps <= p.len(),
            p.len() == old(p).len(),
            is_permutation(p@, p.len() as nat),
        decreases i,
    {
        i = i - 1;
        let draw = draw_below(i + 1);
        let a = p[i];
        let b = p[draw];
        let ghost prev = p@;
        p.set(i, b);
        p.set(draw, a);
        proof {
            lemma_swap_permutation(prev, p@, i as int, draw as int, p.len() as nat);
        }
    }
}

/// A random permutation of the lattice points.
fn generate_permutation() -> (r: Vec<usize>)
    ensures
        is_permutation(r@, POINT_COUNT as nat),
{
    let mut p: Vec<usize> = Vec::new();
    let mut i: usize = 0;
    while i < POINT_COUNT
        invariant
            i <= POINT_COUNT,
            p@.len() == i,
            forall|q: int| 0 <= q < i ==> p@[q] == q,
        decreases POINT_COUNT - i,
    {
        p.push(i);
        i = i + 1;
    }
    assert forall|v: usize| v < POINT_COUNT implies occurs_in(p@, v, 0, p@.len() as int) by {
        assert(p@[v as int] == v);
    }
    permute(&mut p, POINT_COUNT);
    p
}

proof fn lemma_xor_below(a: usize, b: usize, c: usize)
    requires
        a < 256,
        b < 256,
        c < 256,
    ensures
        a ^ b ^ c < 256,
{
    assert(a < 256 && b < 256 && c < 256 ==> a ^ b ^ c < 256) by (bit_vector);
}

impl PerlinHash {
    /// Each table is a permutation of the lattice points.
    pub open spec fn wf(&self) -> bool {
        &&& is_permutation(self.perm_x@, POINT_COUNT as nat)
        &&& is_permutation(self.perm_y@, POINT_COUNT as nat)
        &&& is_permutation(self.perm_z@, POINT_COUNT as nat)
    }

    /// The hash of lattice point `(i, j, k)`.
    pub open spec fn hash_spec(&self, i: int, j: int, k: int) -> usize {
        self.perm_x@[cell(i)] ^ self.perm_y@[cell(j)] ^ self.perm_z@[cell(k)]
    }

    /// Draws three fresh permutations.
    pub fn new() -> (r: PerlinHash)
        ensures
            r.wf(),
    {
        let perm_x = generate_permutation();
        let perm_y = generate_permutation();
        let perm_z = generate_permutation();
        PerlinHash { perm_x, perm_y, perm_z }
    }

    /// The cell of coordinate `i`.
    fn cell_of(i: i64) -> (r: usize)
        ensures
            r == cell(i as int),
            r < POINT_COUNT,
    {
        let m: i64 = i % 256;
        if m < 0 {
            (m + 256) as usize
        } else {
            m as usize
        }
    }

    /// The hash of lattice cells `(cx, cy, cz)`, a lattice point.
    fn hash_cells(&self, cx: usize, cy: usize, cz: usize) -> (r: usize)
        requires
            self.wf(),
            cx < POINT_COUNT,
            cy < POINT_COUNT,
            cz < POINT_COUNT,
        ensures
            r == self.perm_x@[cx as int] ^ self.perm_y@[cy as int] ^ self.perm_z@[cz as int],
            r < POINT_COUNT,
    {
        proof {
            lemma_xor_below(self.perm_x@[cx as int], self.perm_y@[cy as int], self.perm_z@[cz as int]);
        }
        self.perm_x[cx] ^ self.perm_y[cy] ^ self.perm_z[cz]
    }

    /// The hash of lattice point `(i, j, k)`: one of the lattice points.
    pub fn hash(&self, i: i64, j: i64, k: i64) -> (r: usize)
        requires
            self.wf(),
        ensures
            r == self.hash_spec(i as int, j as int, k as int),
            r < POINT_COUNT,
    {
        self.hash_cells(Self::cell_of(i), Self::cell_of(j), Self::cell_of(k))
    }

    /// The hashes of the eight corners of the lattice cube whose lowest
    /// corner is `(i, j, k)`. The corner `(i + a, j + b, k + c)` stands at
    /// place `4a + 2b + c`.
    pub fn corners(&self, i: i64, j: i64, k: i64) -> (r: Vec<usize>)
        requires
            self.wf(),
        ensures
            r@.len() == 8,
            forall|n: int|
                0 <= n < 8 ==> #[trigger] r@[n] == self.hash_spec(
                    i + n / 4,
                    j + (n / 2) % 2,
                    k + n % 2,
                ),
            forall|n: int| 0 <= n < 8 ==> #[trigger] r@[n] < POINT_COUNT,
    {
        let ci = Self::cell_of(i);
        let cj = Self::cell_of(j);
        let ck = Self::cell_of(k);
        let offsets = cube_corners();
        let mut r: Vec<usize> = Vec::new();
        let mut n: usize = 0;
        while n < 8
            invariant
                self.wf(),
                n <= 8,
                offsets@.len() == 8,
                forall|m: int|
                    0 <= m < 8 ==> (#[trigger] offsets@[m])@ == seq![(m / 4) as usize, ((m / 2) % 2) as usize, (m % 2) as usize],
                ci == cell(i as int),
                cj == cell(j as int),
                ck == cell(k as int),
                ci < POINT_COUNT && cj < POINT_COUNT && ck < POINT_COUNT,
                r@.len() == n,
                forall|m: int|
                    0 <= m < n ==> #[trigger] r@[m] == self.hash_spec(
                        i + m / 4,
                        j + (m / 2) % 2,
                        k + m % 2,
                    ),
                forall|m: int| 0 <= m < n ==> #[trigger] r@[m] < POINT_COUNT,
            decreases 8 - n,
        {
            let off = &offsets[n];
            assert(off@ == seq![(n / 4) as usize, ((n / 2) % 2) as usize, (n % 2) as usize]);
            let a = off[0];
            let b = off[1];
            let c = off[2];
            proof {
                vstd::arithmetic::div_mod::lemma_add_mod_noop(i as int, a as int, 256);
                vstd::arithmetic::div_mod::lemma_add_mod_noop(j as int, b as int, 256);
                vstd::arithmetic::div_mod::lemma_add_mod_noop(k as int, c as int, 256);
                vstd::arithmetic::div_mod::lemma_small_mod(a as nat, 256);
                vstd::arithmetic::div_mod::lemma_small_mod(b as nat, 256);
                vstd::arithmetic::div_mod::lemma_small_mod(c as nat, 256);
            }
            let h = self.hash_cells((ci + a) % 256, (cj + b) % 256, (ck + c) % 256);
            r.push(h);
            n = n + 1;
        }
        r
    }
}

} // verus!
