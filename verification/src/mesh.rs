//! The triangle mesh of the egui bar graphs: every bar is a quad of four vertices
//! (left top, right top, left bottom, right bottom) drawn as two triangles.
use vstd::prelude::*;

verus! {

/// The six indices that draw the quad whose first vertex is `base`: the triangles
/// (left top, right top, left bottom) and (left bottom, right top, right bottom).
pub open spec fn quad_indices(base: int) -> Seq<u32> {
    seq![base as u32, (base + 1) as u32, (base + 2) as u32, (base + 2) as u32, (base + 1) as u32, (base + 3) as u32]
}

/// Vertices and `u32` triangle indices, built quad by quad.
pub struct QuadMesh<V> {
    vertices: Vec<V>,
    indices: Vec<u32>,
}

impl<V> QuadMesh<V> {
    /// The vertices, in the order added.
    pub closed spec fn vertices(self) -> Seq<V> {
        self.vertices@
    }

    /// The triangle indices, three per triangle.
    pub closed spec fn indices(self) -> Seq<u32> {
        self.indices@
    }

    /// Every index refers to a vertex of the mesh.
    pub open spec fn indices_in_range(self) -> bool {
        forall|k: int| 0 <= k < self.indices().len() ==> #[trigger] self.indices()[k] < self.vertices().len()
    }

    /// An empty mesh.
    pub fn new() -> (mesh: Self)
        ensures
            mesh.vertices() == Seq::<V>::empty(),
            mesh.indices() == Seq::<u32>::empty(),
    {
        QuadMesh { vertices: Vec::new(), indices: Vec::new() }
    }

    /// The number of vertices.
    pub fn vertex_count(&self) -> (n: usize)
        ensures
            n == self.vertices().len(),
    {
        self.vertices.len()
    }

    /// The vertices, in the order added.
    pub fn vertex_slice(&self) -> (v: &[V])
        ensures
            v@ == self.vertices(),
    {
        self.vertices.as_slice()
    }

    /// The triangle indices.
    pub fn index_slice(&self) -> (i: &[u32])
        ensures
            i@ == self.indices(),
    {
        self.indices.as_slice()
    }

    /// Adds a quad: its four corners (left top, right top, left bottom, right
    /// bottom) as new vertices, and the six indices of its two triangles. The vertex
    /// count after the quad must fit a `u32`.
    pub fn push_quad(&mut self, left_top: V, right_top: V, left_bottom: V, right_bottom: V)
        requires
            old(self).vertices().len() + 4 <= u32::MAX,
        ensures
            final(self).vertices() == old(self).vertices() + seq![left_top, right_top, left_bottom, right_bottom],
            final(self).indices() == old(self).indices() + quad_indices(old(self).vertices().len() as int),
            old(self).indices_in_range() ==> final(self).indices_in_range(),
    {
        let base = self.vertices.len() as u32;
        self.indices.push(base);
        self.indices.push(base + 1);
        self.indices.push(base + 2);
        self.indices.push(base + 2);
        self.indices.push(base + 1);
        self.indices.push(base + 3);
        self.vertices.push(left_top);
        self.vertices.push(right_top);
        self.vertices.push(left_bottom);
        self.vertices.push(right_bottom);
        assert(self.indices@ =~= old(self).indices@ + quad_indices(old(self).vertices@.len() as int));
        assert(self.vertices@ =~= old(self).vertices@ + seq![left_top, right_top, left_bottom, right_bottom]);
    }
}

/// A mesh built of quads only is well formed: after quads are added one by one to
/// an empty mesh, there are four vertices and six indices per quad, the indices of
/// quad `q` are `4q, 4q+1, 4q+2, 4q+2, 4q+1, 4q+3`, and every index refers to a
/// vertex of the mesh.
pub proof fn lemma_quads_stay_in_range(quads: nat)
    requires
        quads * 4 <= u32::MAX,
    ensures
        ({
            let idx = quad_index_list(quads);
            &&& idx.len() == quads * 6
            &&& forall|k: int| 0 <= k < idx.len() ==> #[trigger] idx[k] < quads * 4
            &&& forall|q: int, j: int|
                0 <= q < quads && 0 <= j < 6 ==> #[trigger] idx[q * 6 + j] == quad_indices(q * 4)[j]
        }),
    decreases quads,
{
    if quads > 0 {
        let prev = (quads - 1) as nat;
        assert(prev * 4 <= u32::MAX) by (nonlinear_arith)
            requires
                quads * 4 <= u32::MAX,
                prev == quads - 1,
        ;
        lemma_quads_stay_in_range(prev);
        let before = quad_index_list(prev);
        let idx = quad_index_list(quads);
        let tail = quad_indices((prev * 4) as int);
        assert(idx == before + tail);
        assert(prev * 6 + 6 == quads * 6) by (nonlinear_arith)
            requires
                prev == quads - 1,
        ;
        assert(prev * 4 + 4 == quads * 4) by (nonlinear_arith)
            requires
                prev == quads - 1,
        ;
        assert forall|k: int| 0 <= k < idx.len() implies #[trigger] idx[k] < quads * 4 by {
            if k < before.len() {
                assert(idx[k] == before[k]);
            } else {
                assert(idx[k] == tail[k - before.len()]);
            }
        }
        assert forall|q: int, j: int|
            0 <= q < quads && 0 <= j < 6 implies #[trigger] idx[q * 6 + j] == quad_indices(q * 4)[j] by {
            if q < prev {
                assert(q * 6 + j < prev * 6) by (nonlinear_arith)
                    requires
                        q < prev,
                        0 <= j < 6,
                ;
                assert(0 <= q * 6) by (nonlinear_arith)
                    requires
                        0 <= q,
                ;
                assert(idx[q * 6 + j] == before[q * 6 + j]);
            } else {
                assert(q == prev);
                assert(idx[q * 6 + j] == tail[j]);
            }
        }
    }
}

/// The indices of a mesh of `quads` quads added to an empty mesh.
pub open spec fn quad_index_list(quads: nat) -> Seq<u32>
    decreases quads,
{
    if quads == 0 {
        Seq::empty()
    } else {
        quad_index_list((quads - 1) as nat) + quad_indices((quads - 1) * 4)
    }
}

} // verus!
