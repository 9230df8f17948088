//! Random demand matrices.

use crate::solver::{demand_valid, matrix};
use crate::topology::Network;
use rand::Rng;
use vstd::prelude::*;

verus! {

/// The generator of `rand_pcg` that is known as `Pcg64`. Nothing of its
/// state is visible here.
#[verifier::external_type_specification]
#[verifier::external_body]
pub struct ExLcg128Xsl64(rand_pcg::Lcg128Xsl64);

/// The greatest intensity that a random matrix holds.
pub const MAX_INTENSITY: u8 = 63;

/// `Rng::gen_range` of `rand` on the inclusive range `low..=high`. It draws
/// from the generator until a sample falls within the range, so all that is
/// claimed is that the result lies in the range. The call panics on an
/// empty range, which `requires` keeps out.
#[verifier::external_body]
fn sample_inclusive(rng: &mut rand_pcg::Lcg128Xsl64, low: u8, high: u8) -> (r: u8)
    requires
        low <= high,
    ensures
        low <= r <= high,
{
    rng.gen_range(low..=high)
}

/// A row of the matrix from the samples drawn for it: entry `j` is sample
/// `j`, as an intensity.
pub fn intensities(samples: &Vec<u8>) -> (row: Vec<i64>)
    ensures
        row.len() == samples.len(),
        forall|j: int| 0 <= j < samples.len() ==> #[trigger] row[j] == samples[j],
{
    let mut row: Vec<i64> = Vec::new();
    let mut j: usize = 0;
    while j < samples.len()
        invariant
            j <= samples.len(),
            row.len() == j,
            forall|b: int| 0 <= b < j ==> #[trigger] row[b] == samples[b],
        decreases samples.len() - j,
    {
        row.push(samples[j] as i64);
        j = j + 1;
    }
    row
}

/// Every entry of the matrix is an intensity from 0 to `MAX_INTENSITY`.
pub open spec fn intensities_bounded(demand: Seq<Seq<i64>>) -> bool {
    forall|i: int, j: int|
        0 <= i < demand.len() && 0 <= j < demand[i].len() ==> 0 <= (#[trigger] demand[i][j])
            <= MAX_INTENSITY
}

impl Network {
    /// A demand matrix for this network with every entry, those from a node
    /// to itself included, drawn from `rng` between 0 and `MAX_INTENSITY`.
    /// The entries are drawn row by row. Whatever the generator gives, the
    /// matrix is one that `flow` accepts.
    pub fn gen_random_intensity_matrix(&self, rng: &mut rand_pcg::Lcg128Xsl64) -> (r: Vec<Vec<i64>>)
        ensures
            demand_valid(self@.node_quantity, matrix(r@)),
            intensities_bounded(matrix(r@)),
    {
        let n: usize = self.node_quantity();
        let mut rows: Vec<Vec<i64>> = Vec::new();
        let mut i: usize = 0;
        while i < n
            invariant
                i <= n,
                rows.len() == i,
                forall|a: int| 0 <= a < i ==> (#[trigger] rows[a]).len() == n,
                forall|a: int, b: int|
                    0 <= a < i && 0 <= b < n ==> 0 <= (#[trigger] rows[a][b]) <= MAX_INTENSITY,
            decreases n - i,
        {
            let mut samples: Vec<u8> = Vec::new();
            let mut j: usize = 0;
            while j < n
                invariant
                    j <= n,
                    samples.len() == j,
                    forall|b: int| 0 <= b < j ==> (#[trigger] samples[b]) <= MAX_INTENSITY,
                decreases n - j,
            {
                samples.push(sample_inclusive(rng, 0, MAX_INTENSITY));
                j = j + 1;
            }
            let row: Vec<i64> = intensities(&samples);
            assert forall|b: int| 0 <= b < n implies 0 <= (#[trigger] row[b]) <= MAX_INTENSITY by {
                assert(samples[b] <= MAX_INTENSITY);
            }
            rows.push(row);
            i = i + 1;
        }
        proof {
            let demand = matrix(rows@);
            assert forall|a: int| 0 <= a < demand.len() implies (#[trigger] demand[a]).len()
                == n by {
                assert(rows[a].len() == n);
            }
            assert forall|a: int, b: int|
                0 <= a < demand.len() && 0 <= b < demand[a].len() implies 0 <= (
            #[trigger] demand[a][b]) <= MAX_INTENSITY by {
                assert(rows[a].len() == n);
                assert(0 <= rows[a][b] <= MAX_INTENSITY);
            }
        }
        rows
    }
}

} // verus!
