//! Flat (compressed) random projection tree structure.
//!
//! The flat tree format is optimized for search operations, storing all tree data in contiguous
//! arrays. Inner products come from the caller.

use crate::calls;
use crate::distance::quantized;
use crate::distance::quantized::quantized_i8_dot;
use crate::layout;
use crate::rng::FastRng;
use crate::single;
use crate::single::{max_abs, Single};
use crate::tree::routing;
use crate::tree::routing::{choose_side, range_of, route, walk_down};
use vstd::arithmetic::div_mod::{lemma_fundamental_div_mod, lemma_fundamental_div_mod_converse};
use vstd::prelude::*;
use vstd::slice::{slice_subrange, slice_to_vec};

verus! {

/// A flattened random projection tree for efficient search.
#[derive(Debug)]
pub struct FlatTree {
    /// Hyperplane vectors for each internal node, `dim` numbers per node.
    pub hyperplanes: Vec<Single>,
    /// Hyperplane offsets for each internal node.
    pub offsets: Vec<Single>,
    /// Child pointers: `children[node]` is the left and the right child. Values that are not
    /// positive make a leaf: negated, they delimit its range of `indices`.
    pub children: Vec<[i32; 2]>,
    /// Point indices in leaf order.
    pub indices: Vec<i32>,
    /// Dimension of data.
    pub dim: usize,
    /// Number of nodes in the tree.
    pub n_nodes: usize,
}

/// A signed-int8 routing representation of a [`FlatTree`].
///
/// Each hyperplane has an independent symmetric scale. Offsets remain single-precision numbers;
/// topology and leaf index storage are preserved exactly.
#[derive(Debug)]
pub struct QuantizedFlatTree {
    /// Hyperplane codes, `dim` per node.
    pub hyperplanes: Vec<i8>,
    /// The scale of each hyperplane.
    pub scales: Vec<Single>,
    /// Hyperplane offsets.
    pub offsets: Vec<Single>,
    /// Child pointers, as in [`FlatTree`].
    pub children: Vec<[i32; 2]>,
    /// Point indices in leaf order.
    pub indices: Vec<i32>,
    /// Dimension of data.
    pub dim: usize,
    /// Number of nodes in the tree.
    pub n_nodes: usize,
}

/// Every way down ends at a leaf that delimits a range of `n` point indices, and the nodes can
/// be counted.
pub open spec fn topology(children: Seq<[i32; 2]>, n: int) -> bool {
    &&& routing::grounded(children)
    &&& routing::delimits(children, n)
    &&& children.len() > 0 ==> routing::weight(children, 0) <= usize::MAX
}

impl FlatTree {
    /// The topology is sound, and every internal node has its hyperplane and its offset.
    pub open spec fn wf(&self) -> bool {
        &&& topology(self.children@, self.indices@.len() as int)
        &&& forall|v: int|
            0 <= v < self.children@.len() && #[trigger] routing::internal(self.children@, v) ==> v
                < self.offsets@.len() && v * self.dim + self.dim <= self.hyperplanes@.len()
    }

    /// The margin of a point at node `v`.
    pub open spec fn margin_at<M: Fn(&[Single], &[Single], Single) -> Single>(
        &self,
        margin: M,
        point: Seq<Single>,
        v: int,
    ) -> Single {
        calls::score(
            margin,
            point,
            layout::row(self.hyperplanes@, self.dim as int, v),
            self.offsets@[v],
        )
    }

    /// The margins of a point at all nodes.
    pub open spec fn margins<M: Fn(&[Single], &[Single], Single) -> Single>(
        &self,
        margin: M,
        point: Seq<Single>,
    ) -> spec_fn(int) -> Single {
        |v: int| self.margin_at(margin, point, v)
    }

    /// The margin at a node is of the point against that node's own hyperplane and offset.
    pub proof fn margins_are_of_their_nodes<M: Fn(&[Single], &[Single], Single) -> Single>(
        self,
        margin: M,
        point: Seq<Single>,
        v: int,
    )
        ensures
            self.margins(margin, point)(v) == calls::score(
                margin,
                point,
                self.hyperplanes@.subrange(v * self.dim, v * self.dim + self.dim),
                self.offsets@[v],
            ),
    {
    }

    /// Create a new empty flat tree.
    pub fn new(dim: usize) -> (r: FlatTree)
        ensures
            r.wf(),
            r.hyperplanes@ == Seq::<Single>::empty(),
            r.offsets@ == Seq::<Single>::empty(),
            r.children@ == Seq::<[i32; 2]>::empty(),
            r.indices@ == Seq::<i32>::empty(),
            r.dim == dim,
            r.n_nodes == 0,
    {
        let r = FlatTree {
            hyperplanes: Vec::new(),
            offsets: Vec::new(),
            children: Vec::new(),
            indices: Vec::new(),
            dim,
            n_nodes: 0,
        };
        proof {
            assert(routing::descends(r.children@, |v: int| 0nat));
        }
        r
    }

    fn margin_of<M: Fn(&[Single], &[Single], Single) -> Single>(
        &self,
        margin: &M,
        point: &[Single],
        v: usize,
    ) -> (m: Single)
        requires
            self.wf(),
            v < self.children@.len(),
            routing::internal(self.children@, v as int),
            point@.len() == self.dim,
            calls::scores(*margin),
        ensures
            m == self.margin_at(*margin, point@, v as int),
    {
        proof {
            layout::row_fits(v as int, v + 1, self.dim as int);
        }
        assert(v * self.dim + self.dim <= self.hyperplanes@.len());
        let length: usize = self.hyperplanes.len();
        assert(v * self.dim <= length);
        let start: usize = v * self.dim;
        let hyperplane = slice_subrange(self.hyperplanes.as_slice(), start, start + self.dim);
        let offset: Single = self.offsets[v];
        let m: Single = margin(point, hyperplane, offset);
        assert(calls::scored(*margin, point@, hyperplane@, offset, m));
        m
    }

    /// Search the tree to find the leaf containing a query point.
    ///
    /// Returns the bounds of the leaf's range of `indices`. `margin(point, hyperplane, offset)`
    /// is to be the inner product plus the offset; a margin that ties is decided by `rng`.
    pub fn search<M: Fn(&[Single], &[Single], Single) -> Single>(
        &self,
        point: &[Single],
        rng: &mut FastRng,
        margin: &M,
    ) -> (r: (usize, usize))
        requires
            self.wf(),
            self.children@.len() > 0,
            point@.len() == self.dim,
            calls::scores(*margin),
        ensures
            ({
                let (leaf, end, _) = routing::walk(
                    self.children@,
                    self.margins(*margin, point@),
                    0,
                    *old(rng),
                );
                r == routing::range(self.children@, leaf) && *final(rng) == end
            }),
            r.0 <= r.1 <= self.indices@.len(),
    {
        let margin_at = |v: usize| -> (m: Single)
            requires
                v < self.children@.len(),
                routing::internal(self.children@, v as int),
            ensures
                m == self.margin_at(*margin, point@, v as int),
            { self.margin_of(margin, point, v) };
        let leaf: usize = walk_down(
            &self.children,
            &margin_at,
            rng,
            Ghost(self.margins(*margin, point@)),
        );
        range_of(&self.children, leaf, Ghost(self.indices@.len() as int))
    }

    /// Find up to `leaf_budget` leaves using bounded best-first spill traversal.
    ///
    /// The query-side child inherits its parent's priority. The alternate child is prioritized by
    /// the smallest margin that suffices to reach it, which is the largest one on the way. A
    /// budget of one is equivalent to ordinary hard tree traversal. Caller-owned scratch buffers
    /// avoid per-query allocation: `frontier` holds what was left to open, `leaves` the ranges
    /// found. Returns the number of margins evaluated.
    pub fn search_leaves<M: Fn(&[Single], &[Single], Single) -> Single>(
        &self,
        point: &[Single],
        rng: &mut FastRng,
        leaf_budget: usize,
        frontier: &mut Vec<(Single, usize)>,
        leaves: &mut Vec<(usize, usize)>,
        margin: &M,
    ) -> (evaluations: usize)
        requires
            self.wf(),
            point@.len() == self.dim,
            calls::scores(*margin),
        ensures
            (routing::Spill {
                frontier: final(frontier)@,
                leaves: final(leaves)@,
                rng: *final(rng),
                evaluations: evaluations as nat,
            }) == routing::routed(
                self.children@,
                self.margins(*margin, point@),
                leaf_budget as nat,
                *old(rng),
            ),
            forall|i: int|
                0 <= i < final(leaves)@.len() ==> (#[trigger] final(leaves)@[i]).0
                    <= final(leaves)@[i].1 <= self.indices@.len(),
    {
        let margin_at = |v: usize| -> (m: Single)
            requires
                v < self.children@.len(),
                routing::internal(self.children@, v as int),
            ensures
                m == self.margin_at(*margin, point@, v as int),
            { self.margin_of(margin, point, v) };
        route(
            &self.children,
            &margin_at,
            rng,
            leaf_budget,
            frontier,
            leaves,
            Ghost(self.margins(*margin, point@)),
            Ghost(self.indices@.len() as int),
        )
    }

    /// Search tree for angular data. The search is the same: normalization happens during
    /// construction.
    pub fn search_angular<M: Fn(&[Single], &[Single], Single) -> Single>(
        &self,
        point: &[Single],
        rng: &mut FastRng,
        margin: &M,
    ) -> (r: (usize, usize))
        requires
            self.wf(),
            self.children@.len() > 0,
            point@.len() == self.dim,
            calls::scores(*margin),
        ensures
            ({
                let (leaf, end, _) = routing::walk(
                    self.children@,
                    self.margins(*margin, point@),
                    0,
                    *old(rng),
                );
                r == routing::range(self.children@, leaf) && *final(rng) == end
            }),
            r.0 <= r.1 <= self.indices@.len(),
    {
        self.search(point, rng, margin)
    }

    /// Get the leaf indices for a query.
    pub fn get_leaf_indices<M: Fn(&[Single], &[Single], Single) -> Single>(
        &self,
        point: &[Single],
        rng: &mut FastRng,
        margin: &M,
    ) -> (r: &[i32])
        requires
            self.wf(),
            self.children@.len() > 0,
            point@.len() == self.dim,
            calls::scores(*margin),
        ensures
            ({
                let (leaf, end, _) = routing::walk(
                    self.children@,
                    self.margins(*margin, point@),
                    0,
                    *old(rng),
                );
                let (start, stop) = routing::range(self.children@, leaf);
                r@ == self.indices@.subrange(start as int, stop as int) && *final(rng) == end
            }),
    {
        let (start, end) = self.search(point, rng, margin);
        slice_subrange(self.indices.as_slice(), start, end)
    }

    /// Remap point IDs stored in leaves from an old ID space to a new one.
    ///
    /// `old_to_new[old_id]` must contain the corresponding new point ID.
    pub fn remap_indices(&mut self, old_to_new: &[usize])
        requires
            forall|i: int|
                0 <= i < old(self).indices@.len() ==> 0 <= #[trigger] old(self).indices@[i]
                    < old_to_new@.len(),
        ensures
            final(self).indices@ == old(self).indices@.map_values(
                |id: i32| old_to_new@[id as int] as i32,
            ),
            final(self).hyperplanes == old(self).hyperplanes,
            final(self).offsets == old(self).offsets,
            final(self).children == old(self).children,
            final(self).dim == old(self).dim,
            final(self).n_nodes == old(self).n_nodes,
            old(self).wf() ==> final(self).wf(),
    {
        let n: usize = self.indices.len();
        let mut i: usize = 0;
        while i < n
            invariant
                i <= n,
                n == self.indices@.len(),
                n == old(self).indices@.len(),
                self.hyperplanes == old(self).hyperplanes,
                self.offsets == old(self).offsets,
                self.children == old(self).children,
                self.dim == old(self).dim,
                self.n_nodes == old(self).n_nodes,
                forall|i: int|
                    0 <= i < old(self).indices@.len() ==> 0 <= #[trigger] old(self).indices@[i]
                        < old_to_new@.len(),
                forall|j: int| i <= j < n ==> #[trigger] self.indices@[j] == old(self).indices@[j],
                forall|j: int|
                    0 <= j < i ==> #[trigger] self.indices@[j] == old_to_new@[old(
                        self,
                    ).indices@[j] as int] as i32,
            decreases n - i,
        {
            assert(self.indices@[i as int] == old(self).indices@[i as int]);
            let id: usize = self.indices[i] as usize;
            self.indices[i] = old_to_new[id] as i32;
            i = i + 1;
        }
        assert(self.indices@ =~= old(self).indices@.map_values(
            |id: i32| old_to_new@[id as int] as i32,
        ));
    }

    /// Get all leaf boundaries: the range of each leaf, from left to right.
    pub fn get_all_leaves(&self) -> (leaves: Vec<(usize, usize)>)
        requires
            self.wf(),
            self.children@.len() > 0,
        ensures
            leaves@ == routing::leaves_below(self.children@, 0),
    {
        let mut leaves: Vec<(usize, usize)> = Vec::new();
        self.collect_leaves(0, &mut leaves);
        assert(leaves@ =~= routing::leaves_below(self.children@, 0));
        leaves
    }

    fn collect_leaves(&self, node: usize, leaves: &mut Vec<(usize, usize)>)
        requires
            self.wf(),
            node < self.children@.len(),
        ensures
            final(leaves)@ == old(leaves)@ + routing::leaves_below(self.children@, node as int),
        decreases routing::height(self.children@, node as int),
    {
        if self.children[node][0] <= 0 {
            assert(!routing::internal(self.children@, node as int));
            leaves.push(range_of(&self.children, node, Ghost(self.indices@.len() as int)));
        } else {
            assert(routing::internal(self.children@, node as int));
            proof {
                routing::below_is_lower(self.children@, node as int, false);
                routing::below_is_lower(self.children@, node as int, true);
            }
            self.collect_leaves(self.children[node][0] as usize, leaves);
            self.collect_leaves(self.children[node][1] as usize, leaves);
        }
        assert(leaves@ =~= old(leaves)@ + routing::leaves_below(self.children@, node as int));
    }
}

impl Clone for FlatTree {
    fn clone(&self) -> (r: FlatTree)
        ensures
            r.hyperplanes@ == self.hyperplanes@,
            r.offsets@ == self.offsets@,
            r.children@ == self.children@,
            r.indices@ == self.indices@,
            r.dim == self.dim,
            r.n_nodes == self.n_nodes,
            r.wf() == self.wf(),
    {
        FlatTree {
            hyperplanes: slice_to_vec(self.hyperplanes.as_slice()),
            offsets: slice_to_vec(self.offsets.as_slice()),
            children: slice_to_vec(self.children.as_slice()),
            indices: slice_to_vec(self.indices.as_slice()),
            dim: self.dim,
            n_nodes: self.n_nodes,
        }
    }
}

/// The scale of a hyperplane: that of its largest magnitude, or zero where that is zero.
pub open spec fn plane_scale<S: Fn(Single) -> Single>(plane: Seq<Single>, scale_of: S) -> Single {
    if Single::spec_zero().below(single::peak(plane)) {
        calls::image1(scale_of, single::peak(plane))
    } else {
        Single::spec_zero()
    }
}

/// The code of a number under a scale; zero where the scale is not positive.
pub open spec fn plane_code<C: Fn(Single, Single) -> i8>(x: Single, scale: Single, code: C) -> i8 {
    if Single::spec_zero().below(scale) {
        calls::image2(code, x, scale)
    } else {
        0
    }
}

/// The scales of all hyperplanes.
pub open spec fn plane_scales<S: Fn(Single) -> Single>(
    planes: Seq<Single>,
    dim: int,
    scale_of: S,
) -> Seq<Single> {
    Seq::new(
        (planes.len() / dim as nat) as nat,
        |v: int| plane_scale(layout::row(planes, dim, v), scale_of),
    )
}

/// The codes of all hyperplanes: each number's code is under the scale of its own hyperplane.
pub open spec fn plane_codes<S: Fn(Single) -> Single, C: Fn(Single, Single) -> i8>(
    planes: Seq<Single>,
    dim: int,
    scale_of: S,
    code: C,
) -> Seq<i8> {
    Seq::new(
        ((planes.len() / dim as nat) * dim) as nat,
        |e: int|
            plane_code(
                planes[e],
                plane_scale(layout::row(planes, dim, e / dim), scale_of),
                code,
            ),
    )
}

impl QuantizedFlatTree {
    /// The topology is sound, and every internal node has its hyperplane, scale and offset.
    pub open spec fn wf(&self) -> bool {
        &&& topology(self.children@, self.indices@.len() as int)
        &&& forall|v: int|
            0 <= v < self.children@.len() && #[trigger] routing::internal(self.children@, v) ==> v
                < self.offsets@.len() && v < self.scales@.len() && v * self.dim + self.dim
                <= self.hyperplanes@.len()
    }

    /// `self` is the quantization of `tree`: topology, leaves and offsets as they are, and the
    /// hyperplanes in codes.
    pub open spec fn quantizes<S: Fn(Single) -> Single, C: Fn(Single, Single) -> i8>(
        &self,
        tree: FlatTree,
        scale_of: S,
        code: C,
    ) -> bool {
        &&& self.hyperplanes@ == plane_codes(
            tree.hyperplanes@,
            tree.dim as int,
            scale_of,
            code,
        )
        &&& self.scales@ == plane_scales(tree.hyperplanes@, tree.dim as int, scale_of)
        &&& self.offsets@ == tree.offsets@
        &&& self.children@ == tree.children@
        &&& self.indices@ == tree.indices@
        &&& self.dim == tree.dim
        &&& self.n_nodes == tree.n_nodes
    }

    /// The quantization of a sound tree is sound.
    pub proof fn quantization_is_sound<S: Fn(Single) -> Single, C: Fn(Single, Single) -> i8>(
        self,
        tree: FlatTree,
        scale_of: S,
        code: C,
    )
        requires
            tree.wf(),
            tree.dim > 0,
            self.quantizes(tree, scale_of, code),
        ensures
            self.wf(),
    {
        let dim = tree.dim as int;
        let length = tree.hyperplanes@.len() as int;
        let planes = length / dim;
        lemma_fundamental_div_mod(length, dim);
        assert forall|v: int|
            0 <= v < self.children@.len() && #[trigger] routing::internal(
                self.children@,
                v,
            ) implies v < self.offsets@.len() && v < self.scales@.len() && v * self.dim + self.dim
            <= self.hyperplanes@.len() by {
            assert(v < planes) by (nonlinear_arith)
                requires
                    v * dim + dim <= length,
                    length == dim * planes + length % dim,
                    0 <= length % dim < dim,
                    dim > 0,
            ;
            layout::row_fits(v, planes, dim);
        }
    }

    fn quantize_hyperplanes<S: Fn(Single) -> Single, C: Fn(Single, Single) -> i8>(
        tree: &FlatTree,
        scale_of: &S,
        code: &C,
    ) -> (r: (Vec<i8>, Vec<Single>))
        requires
            tree.dim > 0,
            calls::maps1(*scale_of),
            calls::maps2(*code),
        ensures
            r.0@ == plane_codes(tree.hyperplanes@, tree.dim as int, *scale_of, *code),
            r.1@ == plane_scales(tree.hyperplanes@, tree.dim as int, *scale_of),
    {
        let dim: usize = tree.dim;
        let planes: usize = tree.hyperplanes.len() / dim;
        let ghost numbers = tree.hyperplanes@;
        proof {
            lemma_fundamental_div_mod(numbers.len() as int, dim as int);
            assert(planes * dim <= numbers.len()) by (nonlinear_arith)
                requires
                    numbers.len() == dim * planes + numbers.len() as int % dim as int,
                    numbers.len() as int % dim as int >= 0,
            ;
        }
        let mut hyperplanes: Vec<i8> = Vec::with_capacity(tree.hyperplanes.len());
        let mut scales: Vec<Single> = Vec::with_capacity(planes);
        let ghost codes = plane_codes(numbers, dim as int, *scale_of, *code);
        let mut v: usize = 0;
        while v < planes
            invariant
                v <= planes,
                dim > 0,
                dim == tree.dim,
                numbers == tree.hyperplanes@,
                planes == numbers.len() / dim as nat,
                planes * dim <= numbers.len(),
                calls::maps1(*scale_of),
                calls::maps2(*code),
                codes == plane_codes(numbers, dim as int, *scale_of, *code),
                scales@ == plane_scales(numbers, dim as int, *scale_of).take(v as int),
                hyperplanes@ == codes.take(v * dim),
                v * dim <= codes.len(),
            decreases planes - v,
        {
            let hyperplane = layout::row_of(tree.hyperplanes.as_slice(), planes, dim, v);
            let peak: Single = max_abs(hyperplane);
            let scale: Single = if Single::zero().lt(peak) {
                scale_of(peak)
            } else {
                Single::zero()
            };
            scales.push(scale);
            proof {
                layout::row_fits(v as int, planes as int, dim as int);
                assert(scales@ =~= plane_scales(numbers, dim as int, *scale_of).take(v + 1));
            }
            let mut j: usize = 0;
            while j < dim
                invariant
                    j <= dim,
                    dim > 0,
                    v < planes,
                    hyperplane@ == layout::row(numbers, dim as int, v as int),
                    hyperplane@.len() == dim,
                    scale == plane_scale(hyperplane@, *scale_of),
                    calls::maps2(*code),
                    planes == numbers.len() / dim as nat,
                    planes * dim <= numbers.len(),
                    codes == plane_codes(numbers, dim as int, *scale_of, *code),
                    v * dim + dim <= codes.len(),
                    0 <= v * dim,
                    hyperplanes@ == codes.take(v * dim + j),
                decreases dim - j,
            {
                let value: Single = hyperplane[j];
                let c: i8 = if Single::zero().lt(scale) {
                    code(value, scale)
                } else {
                    0
                };
                hyperplanes.push(c);
                proof {
                    let e = v * dim + j;
                    lemma_fundamental_div_mod_converse(e, dim as int, v as int, j as int);
                    assert(numbers[e] == hyperplane@[j as int]);
                    assert(hyperplanes@ =~= codes.take(e + 1));
                }
                j = j + 1;
            }
            v = v + 1;
        }
        assert(hyperplanes@ =~= codes);
        assert(scales@ =~= plane_scales(numbers, dim as int, *scale_of));
        (hyperplanes, scales)
    }

    /// Quantize a tree. `scale_of(m)` is to be the scale under which the magnitude `m` has the
    /// largest code, and `code(x, scale)` the code of `x`.
    pub fn from_flat_tree<S: Fn(Single) -> Single, C: Fn(Single, Single) -> i8>(
        tree: &FlatTree,
        scale_of: &S,
        code: &C,
    ) -> (r: QuantizedFlatTree)
        requires
            tree.dim > 0,
            calls::maps1(*scale_of),
            calls::maps2(*code),
        ensures
            r.quantizes(*tree, *scale_of, *code),
            tree.wf() ==> r.wf(),
    {
        let (hyperplanes, scales) = Self::quantize_hyperplanes(tree, scale_of, code);
        let r = QuantizedFlatTree {
            hyperplanes,
            scales,
            offsets: slice_to_vec(tree.offsets.as_slice()),
            children: slice_to_vec(tree.children.as_slice()),
            indices: slice_to_vec(tree.indices.as_slice()),
            dim: tree.dim,
            n_nodes: tree.n_nodes,
        };
        proof {
            if tree.wf() {
                r.quantization_is_sound(*tree, *scale_of, *code);
            }
        }
        r
    }

    /// Quantize routing parameters while taking ownership of the source tree's offsets, topology,
    /// and leaves. The source's hyperplanes are dropped.
    pub fn from_owned_flat_tree<S: Fn(Single) -> Single, C: Fn(Single, Single) -> i8>(
        tree: FlatTree,
        scale_of: &S,
        code: &C,
    ) -> (r: QuantizedFlatTree)
        requires
            tree.dim > 0,
            calls::maps1(*scale_of),
            calls::maps2(*code),
        ensures
            r.quantizes(tree, *scale_of, *code),
            tree.wf() ==> r.wf(),
    {
        let (hyperplanes, scales) = Self::quantize_hyperplanes(&tree, scale_of, code);
        let ghost source = tree;
        let r = QuantizedFlatTree {
            hyperplanes,
            scales,
            offsets: tree.offsets,
            children: tree.children,
            indices: tree.indices,
            dim: tree.dim,
            n_nodes: tree.n_nodes,
        };
        proof {
            if source.wf() {
                r.quantization_is_sound(source, *scale_of, *code);
            }
        }
        r
    }

    /// The reconstructed margin of a quantized query at node `v`.
    pub open spec fn margin_at<Q: Fn(i32, Single, Single, Single) -> Single>(
        &self,
        rescale: Q,
        query: Seq<i8>,
        query_scale: Single,
        v: int,
    ) -> Single {
        calls::image4(
            rescale,
            quantized::register(
                quantized::dot(
                    quantized::integers(layout::row(self.hyperplanes@, self.dim as int, v)),
                    quantized::integers(query),
                ),
            ) as i32,
            self.scales@[v],
            query_scale,
            self.offsets@[v],
        )
    }

    /// The reconstructed margins of a quantized query at all nodes.
    pub open spec fn margins<Q: Fn(i32, Single, Single, Single) -> Single>(
        &self,
        rescale: Q,
        query: Seq<i8>,
        query_scale: Single,
    ) -> spec_fn(int) -> Single {
        |v: int| self.margin_at(rescale, query, query_scale, v)
    }

    /// The margin at a node is made of the scales, the node's offset and the sum of the products of
    /// the query's codes with those of the node's own hyperplane, in all dimensions.
    pub proof fn margins_are_of_their_planes<Q: Fn(i32, Single, Single, Single) -> Single>(
        self,
        rescale: Q,
        query: Seq<i8>,
        query_scale: Single,
        v: int,
        product: i32,
    )
        requires
            0 <= v,
            query.len() == self.dim,
            v * self.dim + self.dim <= self.hyperplanes@.len(),
            (Seq::new(
                self.dim as nat,
                |j: int| self.hyperplanes@[v * self.dim + j] * query[j],
            ).fold_left(0int, |sum: int, product: int| sum + product) - product) % 0x1_0000_0000
                == 0,
        ensures
            self.margins(rescale, query, query_scale)(v) == calls::image4(
                rescale,
                product,
                self.scales@[v],
                query_scale,
                self.offsets@[v],
            ),
    {
        let plane = layout::row(self.hyperplanes@, self.dim as int, v);
        assert(0 <= v * self.dim) by (nonlinear_arith)
            requires
                0 <= v,
        ;
        assert(Seq::new(plane.len(), |j: int| plane[j] * query[j]) =~= Seq::new(
            self.dim as nat,
            |j: int| self.hyperplanes@[v * self.dim + j] * query[j],
        ));
        quantized::code_products_are_residues(plane, query, product);
    }

    /// Each hyperplane is coded under a scale of its own, which belongs to its largest magnitude,
    /// and every number of it has its code in its own place. All else stays as it is.
    pub proof fn quantization_scales_each_hyperplane<
        S: Fn(Single) -> Single,
        C: Fn(Single, Single) -> i8,
    >(self, tree: FlatTree, scale_of: S, code: C, v: int, top: Single, j: int)
        requires
            self.quantizes(tree, scale_of, code),
            0 <= v,
            0 <= j < tree.dim,
            v * tree.dim + tree.dim <= tree.hyperplanes@.len(),
            single::tops(
                top,
                tree.hyperplanes@.subrange(v * tree.dim, v * tree.dim + tree.dim),
            ),
        ensures
            v * tree.dim + tree.dim <= self.hyperplanes@.len(),
            self.scales@[v] == if top.bits == 0 {
                Single::spec_zero()
            } else {
                calls::image1(scale_of, top)
            },
            self.hyperplanes@[v * tree.dim + j] == if Single::spec_zero().below(self.scales@[v]) {
                calls::image2(code, tree.hyperplanes@[v * tree.dim + j], self.scales@[v])
            } else {
                0
            },
            self.offsets@ == tree.offsets@,
            self.children@ == tree.children@,
            self.indices@ == tree.indices@,
            self.dim == tree.dim,
    {
        let dim = tree.dim as int;
        let n = tree.hyperplanes@.len() as int;
        single::peak_is_the_top(layout::row(tree.hyperplanes@, dim, v), top);
        vstd::arithmetic::div_mod::lemma_fundamental_div_mod(n, dim);
        let planes = n / dim;
        assert(v < planes && v * dim + dim <= planes * dim && 0 <= v * dim) by (nonlinear_arith)
            requires
                n == dim * planes + n % dim,
                0 <= n % dim < dim,
                v * dim + dim <= n,
                0 <= v,
                0 < dim,
        ;
        lemma_fundamental_div_mod_converse(v * dim + j, dim, v, j);
    }

    /// Reconstruct the margin of a quantized query at a node.
    ///
    /// `rescale(dot, scale, query_scale, offset)` is to be `dot * scale * query_scale + offset`.
    pub fn margin<Q: Fn(i32, Single, Single, Single) -> Single>(
        &self,
        node: usize,
        query: &[i8],
        query_scale: Single,
        rescale: &Q,
    ) -> (m: Single)
        requires
            node * self.dim + self.dim <= self.hyperplanes@.len(),
            node < self.scales@.len(),
            node < self.offsets@.len(),
            query@.len() == self.dim,
            calls::maps4(*rescale),
        ensures
            m == self.margin_at(*rescale, query@, query_scale, node as int),
    {
        proof {
            layout::row_fits(node as int, node + 1, self.dim as int);
        }
        let length: usize = self.hyperplanes.len();
        assert(node * self.dim <= length);
        let start: usize = node * self.dim;
        let hyperplane = slice_subrange(self.hyperplanes.as_slice(), start, start + self.dim);
        rescale(
            quantized_i8_dot(hyperplane, query),
            self.scales[node],
            query_scale,
            self.offsets[node],
        )
    }

    /// Quantized counterpart of [`FlatTree::search_leaves`], including the reconstructed absolute
    /// margin used for spill-frontier priority.
    pub fn search_leaves<Q: Fn(i32, Single, Single, Single) -> Single>(
        &self,
        query: &[i8],
        query_scale: Single,
        rng: &mut FastRng,
        leaf_budget: usize,
        frontier: &mut Vec<(Single, usize)>,
        leaves: &mut Vec<(usize, usize)>,
        rescale: &Q,
    ) -> (evaluations: usize)
        requires
            self.wf(),
            query@.len() == self.dim,
            calls::maps4(*rescale),
        ensures
            (routing::Spill {
                frontier: final(frontier)@,
                leaves: final(leaves)@,
                rng: *final(rng),
                evaluations: evaluations as nat,
            }) == routing::routed(
                self.children@,
                self.margins(*rescale, query@, query_scale),
                leaf_budget as nat,
                *old(rng),
            ),
            forall|i: int|
                0 <= i < final(leaves)@.len() ==> (#[trigger] final(leaves)@[i]).0
                    <= final(leaves)@[i].1 <= self.indices@.len(),
    {
        let margin_at = |v: usize| -> (m: Single)
            requires
                v < self.children@.len(),
                routing::internal(self.children@, v as int),
            ensures
                m == self.margin_at(*rescale, query@, query_scale, v as int),
            {
                assert(routing::internal(self.children@, v as int));
                self.margin(v, query, query_scale, rescale)
            };
        route(
            &self.children,
            &margin_at,
            rng,
            leaf_budget,
            frontier,
            leaves,
            Ghost(self.margins(*rescale, query@, query_scale)),
            Ghost(self.indices@.len() as int),
        )
    }

    /// Bytes of the hyperplane codes.
    pub fn code_bytes(&self) -> (r: usize)
        ensures
            r == self.hyperplanes@.len(),
    {
        self.hyperplanes.len()
    }

    /// Bytes of the scales.
    pub fn scale_bytes(&self) -> (r: usize)
        requires
            self.scales@.len() * 4 <= usize::MAX,
        ensures
            r == self.scales@.len() * 4,
    {
        self.scales.len() * 4
    }

    /// Bytes of the offsets.
    pub fn offset_bytes(&self) -> (r: usize)
        requires
            self.offsets@.len() * 4 <= usize::MAX,
        ensures
            r == self.offsets@.len() * 4,
    {
        self.offsets.len() * 4
    }
}

impl Clone for QuantizedFlatTree {
    fn clone(&self) -> (r: QuantizedFlatTree)
        ensures
            r.hyperplanes@ == self.hyperplanes@,
            r.scales@ == self.scales@,
            r.offsets@ == self.offsets@,
            r.children@ == self.children@,
            r.indices@ == self.indices@,
            r.dim == self.dim,
            r.n_nodes == self.n_nodes,
            r.wf() == self.wf(),
    {
        QuantizedFlatTree {
            hyperplanes: slice_to_vec(self.hyperplanes.as_slice()),
            scales: slice_to_vec(self.scales.as_slice()),
            offsets: slice_to_vec(self.offsets.as_slice()),
            children: slice_to_vec(self.children.as_slice()),
            indices: slice_to_vec(self.indices.as_slice()),
            dim: self.dim,
            n_nodes: self.n_nodes,
        }
    }
}

/// Owned and borrowed quantization of one tree give the same arrays.
pub proof fn quantizations_agree<S: Fn(Single) -> Single, C: Fn(Single, Single) -> i8>(
    a: QuantizedFlatTree,
    b: QuantizedFlatTree,
    tree: FlatTree,
    scale_of: S,
    code: C,
)
    requires
        a.quantizes(tree, scale_of, code),
        b.quantizes(tree, scale_of, code),
    ensures
        a.hyperplanes@ == b.hyperplanes@,
        a.scales@ == b.scales@,
        a.offsets@ == b.offsets@,
        a.children@ == b.children@,
        a.indices@ == b.indices@,
        a.dim == b.dim,
        a.n_nodes == b.n_nodes,
{
}

/// The margin that `step` accumulates from the offset over the dimensions.
pub open spec fn accumulated<F: Fn(Single, Single, Single) -> Single>(
    step: F,
    offset: Single,
    point: Seq<Single>,
    hyperplane: Seq<Single>,
) -> Single
    decreases hyperplane.len(),
{
    if hyperplane.len() == 0 {
        offset
    } else {
        let i = hyperplane.len() - 1;
        calls::image3(
            step,
            accumulated(step, offset, point, hyperplane.drop_last()),
            point[i],
            hyperplane[i],
        )
    }
}

/// A margin takes every dimension of the hyperplane, each once, from the first to the last, and
/// starts from the offset.
pub proof fn margins_accumulate_every_dimension<F: Fn(Single, Single, Single) -> Single>(
    step: F,
    offset: Single,
    point: Seq<Single>,
    hyperplane: Seq<Single>,
)
    requires
        hyperplane.len() <= point.len(),
    ensures
        accumulated(step, offset, point, hyperplane) == point.take(
            hyperplane.len() as int,
        ).zip_with(hyperplane).fold_left(
            offset,
            |acc: Single, pair: (Single, Single)| calls::image3(step, acc, pair.0, pair.1),
        ),
    decreases hyperplane.len(),
{
    let n = hyperplane.len() as int;
    if n > 0 {
        margins_accumulate_every_dimension(step, offset, point, hyperplane.drop_last());
        assert(point.take(n).zip_with(hyperplane).drop_last() =~= point.take(n - 1).zip_with(
            hyperplane.drop_last(),
        ));
    }
}

/// Select which side of a hyperplane a point falls on: 0 for left, 1 for right.
///
/// `add_product(acc, a, b)` is to be `acc + a * b`.
pub fn select_side<F: Fn(Single, Single, Single) -> Single>(
    hyperplane: &[Single],
    offset: Single,
    point: &[Single],
    rng: &mut FastRng,
    add_product: &F,
) -> (side: usize)
    requires
        hyperplane@.len() <= point@.len(),
        calls::maps3(*add_product),
    ensures
        ({
            let margin = accumulated(*add_product, offset, point@, hyperplane@);
            &&& side == if routing::goes_right(margin, *old(rng)) {
                1usize
            } else {
                0
            }
            &&& *final(rng) == routing::tossed_for(margin, *old(rng))
        }),
{
    let mut margin: Single = offset;
    let mut i: usize = 0;
    while i < hyperplane.len()
        invariant
            i <= hyperplane@.len(),
            hyperplane@.len() <= point@.len(),
            calls::maps3(*add_product),
            margin == accumulated(*add_product, offset, point@, hyperplane@.take(i as int)),
        decreases hyperplane@.len() - i,
    {
        assert(hyperplane@.take(i + 1).drop_last() =~= hyperplane@.take(i as int));
        margin = add_product(margin, point[i], hyperplane[i]);
        i = i + 1;
    }
    assert(hyperplane@.take(hyperplane@.len() as int) =~= hyperplane@);
    if choose_side(margin, rng) {
        1
    } else {
        0
    }
}

} // verus!
