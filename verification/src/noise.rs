//! The lattice of procedural noise: three random permutations, one for each
//! axis, that scatter the points of an integer grid over a table of random
//! values.

use crate::random::Random;
use vstd::prelude::*;

verus! {

/// How noise is smoothed between the points of the lattice.
#[derive(Debug, Clone, Copy, PartialEq, Eq, Structural)]
pub enum SmoothType {
    Off,
    LinearInterpolate,
    HermitianCubic,
}

/// The numbers below `count`, in ascending order.
pub open spec fn identity(count: nat) -> Seq<usize> {
    Seq::new(count, |i: int| i as usize)
}

/// Whether the table holds the numbers below `count`, each of them once, in
/// some order.
pub open spec fn is_permutation(table: Seq<usize>, count: nat) -> bool {
    table.to_multiset() == identity(count).to_multiset()
}

/// Whether a number is a power of two.
pub open spec fn spec_is_power_of_two(count: usize) -> bool {
    count > 0 && (count as u64) & ((count - 1) as u64) == 0
}

/// Whether a number is a power of two.
#[verifier::when_used_as_spec(spec_is_power_of_two)]
pub fn is_power_of_two(count: usize) -> (power: bool)
    ensures
        power == is_power_of_two(count),
{
    count > 0 && (count as u64) & ((count - 1) as u64) == 0
}

/// The place in a table of `count` entries at which a coordinate of the grid
/// falls: the coordinate's lowest bits, as many as it takes to count the
/// entries. The grid repeats from there on.
pub open spec fn wrap(coordinate: i64, count: usize) -> usize {
    (coordinate & ((count - 1) as i64)) as usize
}

/// The lattice: for a grid point, the place of its random value.
#[derive(Debug, Clone)]
pub struct Lattice {
    point_count: usize,
    perm_x: Vec<usize>,
    perm_y: Vec<usize>,
    perm_z: Vec<usize>,
}

impl Lattice {
    /// The number of random values that the lattice scatters the grid over.
    pub closed spec fn spec_point_count(&self) -> usize {
        self.point_count
    }

    /// The permutation along the x axis.
    pub closed spec fn perm_x(&self) -> Seq<usize> {
        self.perm_x@
    }

    /// The permutation along the y axis.
    pub closed spec fn perm_y(&self) -> Seq<usize> {
        self.perm_y@
    }

    /// The permutation along the z axis.
    pub closed spec fn perm_z(&self) -> Seq<usize> {
        self.perm_z@
    }

    /// Each of the three tables is a permutation of the places of the random
    /// values.
    pub open spec fn wf(&self) -> bool {
        &&& is_permutation(self.perm_x(), self.point_count() as nat)
        &&& is_permutation(self.perm_y(), self.point_count() as nat)
        &&& is_permutation(self.perm_z(), self.point_count() as nat)
    }

    /// The place of the random value of a grid point: each coordinate is
    /// wrapped into its table, and what the three tables hold there is
    /// combined bit by bit.
    pub open spec fn spec_index(&self, i: i64, j: i64, k: i64) -> usize {
        self.perm_x()[wrap(i, self.point_count()) as int] ^ self.perm_y()[wrap(
            j,
            self.point_count(),
        ) as int] ^ self.perm_z()[wrap(k, self.point_count()) as int]
    }

    /// The number of random values that the lattice scatters the grid over.
    #[verifier::when_used_as_spec(spec_point_count)]
    pub fn point_count(&self) -> (count: usize)
        ensures
            count == self.point_count(),
    {
        self.point_count
    }

    /// A lattice over the given number of random values, with three
    /// permutations drawn at random.
    pub fn new(point_count: usize) -> (lattice: Self)
        ensures
            lattice.wf(),
            lattice.point_count() == point_count,
    {
        let perm_x = random_permutation(point_count);
        let perm_y = random_permutation(point_count);
        let perm_z = random_permutation(point_count);
        Self { point_count, perm_x, perm_y, perm_z }
    }

    /// The place of the random value of a grid point. The number of random
    /// values must be a power of two: then every grid point has a place.
    #[verifier::when_used_as_spec(spec_index)]
    pub fn index(&self, i: i64, j: i64, k: i64) -> (place: usize)
        requires
            self.wf(),
            is_power_of_two(self.point_count()),
        ensures
            place == self.index(i, j, k),
            place < self.point_count(),
    {
        let count = self.point_count;
        let mask: i64 = (count - 1) as i64;
        proof {
            lemma_permutation(self.perm_x@, count as nat);
            lemma_permutation(self.perm_y@, count as nat);
            lemma_permutation(self.perm_z@, count as nat);
            let c = count as u64;
            assert(c > 0 && c & ((c - 1) as u64) == 0 ==> c <= 0x8000_0000_0000_0000)
                by (bit_vector);
            assert(mask >= 0 ==> 0 <= (i & mask) <= mask && 0 <= (j & mask) <= mask && 0 <= (k
                & mask) <= mask) by (bit_vector);
        }
        let x = self.perm_x[(i & mask) as usize];
        let y = self.perm_y[(j & mask) as usize];
        let z = self.perm_z[(k & mask) as usize];
        proof {
            let c = count as u64;
            let (a, b, d) = (x as u64, y as u64, z as u64);
            assert(c > 0 && c & ((c - 1) as u64) == 0 && a < c && b < c && d < c ==> a ^ b ^ d
                < c) by (bit_vector);
            assert(x ^ y ^ z == (a ^ b ^ d) as usize) by {
                assert(x == a as usize && y == b as usize && z == d as usize);
            }
        }
        x ^ y ^ z
    }
}

/// The numbers below `count` in a random order.
fn random_permutation(count: usize) -> (table: Vec<usize>)
    ensures
        is_permutation(table@, count as nat),
{
    let mut table: Vec<usize> = Vec::new();
    let mut next: usize = 0;
    while next < count
        invariant
            next <= count,
            table@ == identity(next as nat),
        decreases count - next,
    {
        table.push(next);
        proof {
            assert(table@ =~= identity((next + 1) as nat));
        }
        next += 1;
    }
    Random::shuffle(&mut table);
    table
}

/// A permutation of the numbers below `count` has `count` entries, all of
/// them below `count`.
pub proof fn lemma_permutation(table: Seq<usize>, count: nat)
    requires
        count <= usize::MAX,
        is_permutation(table, count),
    ensures
        table.len() == count,
        forall|i: int| 0 <= i < table.len() ==> #[trigger] table[i] < count,
{
    broadcast use vstd::seq_lib::group_to_multiset_ensures;

    let plain = identity(count);
    assert(table.to_multiset().len() == table.len());
    assert(plain.to_multiset().len() == plain.len());
    assert forall|i: int| 0 <= i < table.len() implies #[trigger] table[i] < count by {
        assert(table.contains(table[i]));
        assert(table.to_multiset().count(table[i]) > 0);
        assert(plain.to_multiset().count(table[i]) > 0);
        assert(plain.contains(table[i]));
        let j = choose|j: int| 0 <= j < plain.len() && plain[j] == table[i];
        assert(plain[j] == j);
    }
}

} // verus!
