//! How many bytes the parts of an index take.

use crate::distance::Distance;
use crate::index::quantized::QuantizedI8Index;
use crate::index::query::NNDescentIndex;
use crate::options::QuantizedI8Encoding;
use crate::single::Single;
use crate::tree::{FlatTree, QuantizedFlatTree};
use vstd::prelude::*;

verus! {

/// The sizes of some items, added up.
pub open spec fn total<T>(items: Seq<T>, size: spec_fn(T) -> nat) -> nat
    decreases items.len(),
{
    if items.len() == 0 {
        0
    } else {
        total(items.drop_last(), size) + size(items.last())
    }
}

proof fn totals_grow<T>(items: Seq<T>, size: spec_fn(T) -> nat, i: int)
    requires
        0 <= i <= items.len(),
    ensures
        total(items.take(i), size) <= total(items, size),
    decreases items.len() - i,
{
    if i < items.len() {
        totals_grow(items, size, i + 1);
        assert(items.take(i + 1).drop_last() =~= items.take(i));
    } else {
        assert(items.take(i) =~= items);
    }
}

proof fn total_of_next<T>(items: Seq<T>, size: spec_fn(T) -> nat, i: int)
    requires
        0 <= i < items.len(),
    ensures
        total(items.take(i + 1), size) == total(items.take(i), size) + size(items[i]),
        total(items.take(i + 1), size) <= total(items, size),
{
    assert(items.take(i + 1).drop_last() =~= items.take(i));
    totals_grow(items, size, i + 1);
}

/// A total takes every item, each once.
pub proof fn totals_take_every_item<T>(items: Seq<T>, size: spec_fn(T) -> nat)
    ensures
        total(items, size) == items.fold_left(0nat, |sum: nat, item: T| sum + size(item)),
    decreases items.len(),
{
    if items.len() > 0 {
        totals_take_every_item(items.drop_last(), size);
    }
}

/// The parts of a tree make up the whole: four bytes for every single-precision number and every
/// point index, one for every code, and eight for a pair of child pointers.
pub proof fn sizes_cover_all_arrays(tree: FlatTree, quantized: QuantizedFlatTree)
    ensures
        flat_size()(tree) == 4 * tree.hyperplanes@.len() + 4 * tree.offsets@.len()
            + flat_topology()(tree),
        flat_topology()(tree) == 8 * tree.children@.len() + 4 * tree.indices@.len(),
        quantized_topology()(quantized) == 8 * quantized.children@.len() + 4
            * quantized.indices@.len(),
        code_size()(quantized) == quantized.hyperplanes@.len(),
        scale_size()(quantized) == 4 * quantized.scales@.len(),
        offset_size()(quantized) == 4 * quantized.offsets@.len(),
{
}

/// Bytes of a tree's child pointers and point indices.
pub open spec fn topology_size(children: Seq<[i32; 2]>, indices: Seq<i32>) -> nat {
    children.len() * 8 + indices.len() * 4
}

/// Bytes of a tree's child pointers and point indices.
pub open spec fn flat_topology() -> spec_fn(FlatTree) -> nat {
    |tree: FlatTree| topology_size(tree.children@, tree.indices@)
}

/// Bytes of a quantized tree's child pointers and point indices.
pub open spec fn quantized_topology() -> spec_fn(QuantizedFlatTree) -> nat {
    |tree: QuantizedFlatTree| topology_size(tree.children@, tree.indices@)
}

/// Bytes of a tree's arrays.
pub open spec fn flat_size() -> spec_fn(FlatTree) -> nat {
    |tree: FlatTree|
        tree.hyperplanes@.len() * 4 + tree.offsets@.len() * 4 + topology_size(
            tree.children@,
            tree.indices@,
        )
}

/// Bytes of a quantized tree's hyperplane codes.
pub open spec fn code_size() -> spec_fn(QuantizedFlatTree) -> nat {
    |tree: QuantizedFlatTree| tree.hyperplanes@.len()
}

/// Bytes of a quantized tree's scales.
pub open spec fn scale_size() -> spec_fn(QuantizedFlatTree) -> nat {
    |tree: QuantizedFlatTree| tree.scales@.len() * 4
}

/// Bytes of a quantized tree's offsets.
pub open spec fn offset_size() -> spec_fn(QuantizedFlatTree) -> nat {
    |tree: QuantizedFlatTree| tree.offsets@.len() * 4
}

/// Bytes of the arrays of some trees.
pub(crate) fn tree_bytes(trees: &Vec<FlatTree>) -> (r: usize)
    requires
        total(trees@, flat_size()) <= usize::MAX,
    ensures
        r == total(trees@, flat_size()),
{
    let mut r: usize = 0;
    let mut t: usize = 0;
    assert(trees@.take(0) =~= Seq::empty());
    while t < trees.len()
        invariant
            t <= trees@.len(),
            r == total(trees@.take(t as int), flat_size()),
            total(trees@, flat_size()) <= usize::MAX,
        decreases trees@.len() - t,
    {
        proof {
            total_of_next(trees@, flat_size(), t as int);
        }
        r = r + (trees[t].hyperplanes.len() * 4 + trees[t].offsets.len() * 4
            + trees[t].children.len() * 8 + trees[t].indices.len() * 4);
        t = t + 1;
    }
    assert(trees@.take(t as int) =~= trees@);
    r
}

impl<D: Distance, K: Fn(Single) -> Single> NNDescentIndex<D, K> {
    /// The name of the search representation; the bytes of its codes, which are the data; of its
    /// metadata; and of other single-precision arrays that are accounted for.
    pub fn storage_info(&self) -> (r: (&'static str, usize, usize, usize))
        requires
            self.data@.len() * 4 <= usize::MAX,
        ensures
            r.0@ == "fp32"@,
            r.1 == self.data@.len() * 4,
            r.2 == 0,
            r.3 == 0,
    {
        ("fp32", self.data.len() * 4, 0, 0)
    }
}

/// The name of an encoding.
pub open spec fn encoding_name(encoding: QuantizedI8Encoding) -> Seq<char> {
    match encoding {
        QuantizedI8Encoding::PerVectorCosine => "int8_per_vector_cosine"@,
        QuantizedI8Encoding::GlobalSymmetric => "sq8u_global_symmetric"@,
        QuantizedI8Encoding::PerVectorSymmetric => "sq8p_per_vector_symmetric"@,
    }
}

impl<D: Distance, K: Fn(Single) -> Single> QuantizedI8Index<D, K> {
    /// Bytes in retained single-precision arrays.
    pub open spec fn retained(&self) -> nat {
        (self.index.data@.len() + self.index.neighbor_distances@.len() + NNDescentIndex::<
            D,
            K,
        >::tree_numbers(self.index.search_trees@)) * 4
    }

    /// The name of the search representation; the bytes of its codes; of its metadata; and of
    /// retained single-precision arrays.
    pub fn storage_info(&self) -> (r: (&'static str, usize, usize, usize))
        requires
            self.inv_norms@.len() * 4 <= usize::MAX,
            self.retained() <= usize::MAX,
        ensures
            r.0@ == encoding_name(self.encoding),
            r.1 == self.quantized_data@.len(),
            r.2 == self.inv_norms@.len() * 4,
            r.3 == self.retained(),
    {
        let encoding = match self.encoding {
            QuantizedI8Encoding::PerVectorCosine => "int8_per_vector_cosine",
            QuantizedI8Encoding::GlobalSymmetric => "sq8u_global_symmetric",
            QuantizedI8Encoding::PerVectorSymmetric => "sq8p_per_vector_symmetric",
        };
        (
            encoding,
            self.quantized_data.len(),
            self.inv_norms.len() * 4,
            self.index.retained_fp32_bytes(),
        )
    }

    /// Bytes of the quantized trees: their codes, scales, offsets, and topology; what could yet be
    /// given up, which is nothing; and what was given up for them.
    pub fn quantized_tree_storage_info(&self) -> (r: (usize, usize, usize, usize, usize, usize))
        requires
            total(self.quantized_trees@, code_size()) <= usize::MAX,
            total(self.quantized_trees@, scale_size()) <= usize::MAX,
            total(self.quantized_trees@, offset_size()) <= usize::MAX,
            total(self.quantized_trees@, quantized_topology()) <= usize::MAX,
        ensures
            r.0 == total(self.quantized_trees@, code_size()),
            r.1 == total(self.quantized_trees@, scale_size()),
            r.2 == total(self.quantized_trees@, offset_size()),
            r.3 == total(self.quantized_trees@, quantized_topology()),
            r.4 == 0,
            r.5 == self.released_fp32_tree_bytes,
    {
        let trees = &self.quantized_trees;
        let mut code_bytes: usize = 0;
        let mut scale_bytes: usize = 0;
        let mut offset_bytes: usize = 0;
        let mut topology_bytes: usize = 0;
        let mut t: usize = 0;
        assert(trees@.take(0) =~= Seq::empty());
        while t < trees.len()
            invariant
                t <= trees@.len(),
                code_bytes == total(trees@.take(t as int), code_size()),
                scale_bytes == total(trees@.take(t as int), scale_size()),
                offset_bytes == total(trees@.take(t as int), offset_size()),
                topology_bytes == total(trees@.take(t as int), quantized_topology()),
                total(trees@, code_size()) <= usize::MAX,
                total(trees@, scale_size()) <= usize::MAX,
                total(trees@, offset_size()) <= usize::MAX,
                total(trees@, quantized_topology()) <= usize::MAX,
            decreases trees@.len() - t,
        {
            proof {
                total_of_next(trees@, code_size(), t as int);
                total_of_next(trees@, scale_size(), t as int);
                total_of_next(trees@, offset_size(), t as int);
                total_of_next(trees@, quantized_topology(), t as int);
            }
            let tree = &trees[t];
            code_bytes = code_bytes + tree.code_bytes();
            scale_bytes = scale_bytes + tree.scale_bytes();
            offset_bytes = offset_bytes + tree.offset_bytes();
            topology_bytes = topology_bytes + (tree.children.len() * 8 + tree.indices.len() * 4);
            t = t + 1;
        }
        assert(trees@.take(t as int) =~= trees@);
        (
            code_bytes,
            scale_bytes,
            offset_bytes,
            topology_bytes,
            0,
            self.released_fp32_tree_bytes,
        )
    }

    /// Bytes of the topology of trees that were not quantized.
    pub fn retained_fp32_tree_topology_bytes(&self) -> (r: usize)
        requires
            total(self.index.search_trees@, flat_topology()) <= usize::MAX,
        ensures
            r == total(self.index.search_trees@, flat_topology()),
    {
        let trees = &self.index.search_trees;
        let mut r: usize = 0;
        let mut t: usize = 0;
        assert(trees@.take(0) =~= Seq::empty());
        while t < trees.len()
            invariant
                t <= trees@.len(),
                r == total(trees@.take(t as int), flat_topology()),
                total(trees@, flat_topology()) <= usize::MAX,
            decreases trees@.len() - t,
        {
            proof {
                total_of_next(trees@, flat_topology(), t as int);
            }
            r = r + (trees[t].children.len() * 8 + trees[t].indices.len() * 4);
            t = t + 1;
        }
        assert(trees@.take(t as int) =~= trees@);
        r
    }
}

/// Bytes that an index takes, given what is known of its vectors, of its quantized trees, and of
/// the topology of its other trees; what could be or was given up takes none.
pub fn allocated_bytes(
    vectors: (&'static str, usize, usize, usize),
    quantized_trees: (usize, usize, usize, usize, usize, usize),
    retained_fp32_tree_topology_bytes: usize,
) -> (r: usize)
    requires
        vectors.1 + vectors.2 + vectors.3 + retained_fp32_tree_topology_bytes + quantized_trees.0
            + quantized_trees.1 + quantized_trees.2 + quantized_trees.3 <= usize::MAX,
    ensures
        r == vectors.1 + vectors.2 + vectors.3 + retained_fp32_tree_topology_bytes
            + quantized_trees.0 + quantized_trees.1 + quantized_trees.2 + quantized_trees.3,
{
    vectors.1 + vectors.2 + vectors.3 + retained_fp32_tree_topology_bytes + quantized_trees.0
        + quantized_trees.1 + quantized_trees.2 + quantized_trees.3
}

} // verus!
