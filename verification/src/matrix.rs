use vstd::prelude::*;
use crate::model::{Node, DIST_BOUND};
use crate::geom::{
    is_scaled_dist, lemma_scaled_dist_self, lemma_scaled_dist_symmetric, scaled_distance,
};

verus! {

/// The square matrix of fixed-point pairwise distances, indexed by node
/// position (id minus one); computed once and then only read.
pub struct DistanceMatrix {
    pub d: Vec<Vec<u64>>,
}

/// `m` is the distance matrix of `nodes`: square, with every entry the
/// fixed-point Euclidean distance of its pair, and every entry bounded.
pub open spec fn matrix_wf(m: Seq<Seq<u64>>, nodes: Seq<Node>) -> bool {
    &&& m.len() == nodes.len()
    &&& forall|i: int| 0 <= i < m.len() ==> (#[trigger] m[i]).len() == nodes.len()
    &&& forall|i: int, j: int|
        0 <= i < m.len() && 0 <= j < m.len() ==> is_scaled_dist(nodes[i], nodes[j], (#[trigger] m[i][j]) as int)
    &&& forall|i: int, j: int|
        0 <= i < m.len() && 0 <= j < m.len() ==> #[trigger] m[i][j] < DIST_BOUND
}

impl DistanceMatrix {
    /// The mathematical view of the matrix: a sequence of rows.
    pub open spec fn m(&self) -> Seq<Seq<u64>> {
        self.d@.map(|i: int, row: Vec<u64>| row@)
    }

    /// The matrix is well formed for `nodes`.
    pub open spec fn wf(&self, nodes: Seq<Node>) -> bool {
        matrix_wf(self.m(), nodes)
    }

    /// Looks one distance up by node positions, hiding the underlying
    /// double indexing from every caller.
    pub fn dist(&self, i: usize, j: usize) -> (r: u64)
        requires
            i < self.m().len(),
            j < self.m()[i as int].len(),
        ensures
            r == self.m()[i as int][j as int],
    {
        let row: &Vec<u64> = &self.d[i];
        row[j]
    }
}

/// Every entry of a well-formed matrix equals its transposed entry.
pub proof fn lemma_matrix_symmetric(m: Seq<Seq<u64>>, nodes: Seq<Node>, i: int, j: int)
    requires
        matrix_wf(m, nodes),
        0 <= i < m.len(),
        0 <= j < m.len(),
    ensures
        m[i][j] == m[j][i],
{
    lemma_scaled_dist_symmetric(nodes[i], nodes[j], m[i][j] as int, m[j][i] as int);
}

/// Every diagonal entry of a well-formed matrix is zero.
pub proof fn lemma_matrix_diag_zero(m: Seq<Seq<u64>>, nodes: Seq<Node>, i: int)
    requires
        matrix_wf(m, nodes),
        0 <= i < m.len(),
    ensures
        m[i][i] == 0,
{
    lemma_scaled_dist_self(nodes[i], m[i][i] as int);
}

/// Builds the full pairwise distance matrix of `nodes`.
pub fn generate_distance_matrix(nodes: &Vec<Node>) -> (dm: DistanceMatrix)
    requires
        forall|k: int| 0 <= k < nodes@.len() ==> crate::model::node_ok(#[trigger] nodes@[k]),
    ensures
        dm.wf(nodes@),
{
    let n = nodes.len();
    let mut d: Vec<Vec<u64>> = Vec::new();
    let mut i: usize = 0;
    while i < n
        invariant
            0 <= i <= n,
            n == nodes@.len(),
            forall|k: int| 0 <= k < n ==> crate::model::node_ok(#[trigger] nodes@[k]),
            d@.len() == i,
            forall|a: int| 0 <= a < i ==> (#[trigger] d@[a])@.len() == n,
            forall|a: int, b: int|
                0 <= a < i && 0 <= b < n ==> is_scaled_dist(
                    nodes@[a],
                    nodes@[b],
                    (#[trigger] d@[a]@[b]) as int,
                ),
            forall|a: int, b: int| 0 <= a < i && 0 <= b < n ==> #[trigger] d@[a]@[b] < DIST_BOUND,
        decreases n - i,
    {
        let mut row: Vec<u64> = Vec::new();
        let mut j: usize = 0;
        while j < n
            invariant
                0 <= j <= n,
                i < n,
                n == nodes@.len(),
                forall|k: int| 0 <= k < n ==> crate::model::node_ok(#[trigger] nodes@[k]),
                row@.len() == j,
                forall|b: int|
                    0 <= b < j ==> is_scaled_dist(nodes@[i as int], nodes@[b], (#[trigger] row@[b]) as int),
                forall|b: int| 0 <= b < j ==> #[trigger] row@[b] < DIST_BOUND,
            decreases n - j,
        {
            let v = scaled_distance(&nodes[i], &nodes[j]);
            row.push(v);
            j = j + 1;
        }
        d.push(row);
        i = i + 1;
    }
    let dm = DistanceMatrix { d };
    proof {
        assert forall|a: int| 0 <= a < dm.m().len() implies (#[trigger] dm.m()[a]).len()
            == nodes@.len() by {}
    }
    dm
}

} // verus!
