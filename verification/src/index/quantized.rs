//! An index over signed-int8 codes.

use crate::calls;
use crate::distance::alternatives;
use crate::distance::quantized;
use crate::distance::quantized::quantized_i8_dot;
use crate::distance::Distance;
use crate::index::query;
use crate::index::query::NNDescentIndex;
use crate::index::storage;
use crate::index::widths;
use crate::index::widths::{should_rerank_quantized, validate_quantized_widths, WidthError};
use crate::layout;
use crate::layout::row_of;
use crate::options::QuantizedI8Encoding;
use crate::rng::FastRng;
use crate::search::arithmetic::Arithmetic;
use crate::search::coverage;
use crate::search::economy;
use crate::search::greedy;
use crate::search::model;
use crate::search::SearchWorkspace;
use crate::single;
use crate::single::{max_abs, Single};
use crate::tree::{FlatTree, QuantizedFlatTree};
use vstd::prelude::*;

verus! {

/// The floating-point arithmetic of coding.
pub struct Coding<U, R, E, N, P, H> {
    /// `multiplier(m)` is to be `127 / m`.
    pub multiplier: U,
    /// `reciprocal(x)` is to be `1 / x`.
    pub reciprocal: R,
    /// `code(x, multiplier)` is to be `x * multiplier`, rounded and moved into `[-127, 127]`.
    pub code: E,
    /// `inverse_root(n)` is to be one over the square root of `n`.
    pub inverse_root: N,
    /// `scale(m)` is to be `m / 127`.
    pub scale: P,
    /// `plane_code(x, scale)` is to be `x / scale`, rounded and moved into `[-127, 127]`.
    pub plane_code: H,
}

/// `f` of a magnitude where that is positive, zero elsewhere.
pub open spec fn where_positive<F: Fn(Single) -> Single>(f: F, x: Single) -> Single {
    if Single::spec_zero().below(x) {
        calls::image1(f, x)
    } else {
        Single::spec_zero()
    }
}

fn if_positive<F: Fn(Single) -> Single>(f: &F, x: Single) -> (r: Single)
    requires
        calls::maps1(*f),
    ensures
        r == where_positive(*f, x),
{
    if Single::zero().lt(x) {
        f(x)
    } else {
        Single::zero()
    }
}

impl<
    U: Fn(Single) -> Single,
    R: Fn(Single) -> Single,
    E: Fn(Single, Single) -> i8,
    N: Fn(i32) -> Single,
    P: Fn(Single) -> Single,
    H: Fn(Single, Single) -> i8,
> Coding<U, R, E, N, P, H> {
    /// Every operation is a function of its arguments.
    pub open spec fn wf(&self) -> bool {
        &&& calls::maps1(self.multiplier)
        &&& calls::maps1(self.reciprocal)
        &&& calls::maps2(self.code)
        &&& calls::maps1(self.inverse_root)
        &&& calls::maps1(self.scale)
        &&& calls::maps2(self.plane_code)
    }

    /// The multiplier under which a vector is coded, given the one for all data.
    pub open spec fn multiplier_for(
        &self,
        encoding: QuantizedI8Encoding,
        v: Seq<Single>,
        global_multiplier: Single,
    ) -> Single {
        match encoding {
            QuantizedI8Encoding::GlobalSymmetric => global_multiplier,
            _ => where_positive(self.multiplier, single::peak(v)),
        }
    }

    /// The codes of a vector.
    pub open spec fn codes(&self, v: Seq<Single>, multiplier: Single) -> Seq<i8> {
        v.map_values(|x: Single| calls::image2(self.code, x, multiplier))
    }

    /// The factor that turns dot products of codes into similarities: one over the norm of the
    /// codes, or the dequantization scale.
    pub open spec fn factor_for(
        &self,
        encoding: QuantizedI8Encoding,
        codes: Seq<i8>,
        multiplier: Single,
        global_dequant_scale: Single,
    ) -> Single {
        match encoding {
            QuantizedI8Encoding::PerVectorCosine => {
                let norm_sq = quantized::register(
                    quantized::dot(quantized::integers(codes), quantized::integers(codes)),
                );
                if norm_sq > 0 {
                    calls::image1(self.inverse_root, norm_sq as i32)
                } else {
                    Single::spec_zero()
                }
            },
            QuantizedI8Encoding::PerVectorSymmetric => where_positive(
                self.reciprocal,
                multiplier,
            ),
            QuantizedI8Encoding::GlobalSymmetric => global_dequant_scale,
        }
    }

    /// `codes` are those of a vector, and `factor` belongs to them.
    pub open spec fn encodes(
        &self,
        encoding: QuantizedI8Encoding,
        v: Seq<Single>,
        global_multiplier: Single,
        global_dequant_scale: Single,
        codes: Seq<i8>,
        factor: Single,
    ) -> bool {
        let m = self.multiplier_for(encoding, v, global_multiplier);
        &&& codes == self.codes(v, m)
        &&& factor == self.factor_for(encoding, codes, m, global_dequant_scale)
    }

    /// Every number of a vector has its code in its own place, all under one multiplier: that of
    /// all data under the global encoding, and elsewhere the one that belongs to the vector's
    /// largest magnitude. The factor is the dequantization scale of all data under the global
    /// encoding, one over the multiplier under symmetric codes, and one over the norm of the codes
    /// under cosine.
    pub proof fn encodings_scale_whole_vectors(
        self,
        encoding: QuantizedI8Encoding,
        v: Seq<Single>,
        global_multiplier: Single,
        global_dequant_scale: Single,
        codes: Seq<i8>,
        factor: Single,
        top: Single,
        norm_sq: i32,
    )
        requires
            self.encodes(encoding, v, global_multiplier, global_dequant_scale, codes, factor),
            single::tops(top, v),
            (Seq::new(codes.len(), |i: int| codes[i] * codes[i]).fold_left(
                0int,
                |sum: int, product: int| sum + product,
            ) - norm_sq) % 0x1_0000_0000 == 0,
        ensures
            ({
                let own = if top.bits == 0 {
                    Single::spec_zero()
                } else {
                    calls::image1(self.multiplier, top)
                };
                &&& codes.len() == v.len()
                &&& forall|i: int|
                    0 <= i < v.len() ==> #[trigger] codes[i] == calls::image2(
                        self.code,
                        v[i],
                        if encoding is GlobalSymmetric {
                            global_multiplier
                        } else {
                            own
                        },
                    )
                &&& encoding is GlobalSymmetric ==> factor == global_dequant_scale
                &&& encoding is PerVectorSymmetric && Single::spec_zero().below(own) ==> factor
                    == calls::image1(self.reciprocal, own)
                &&& encoding is PerVectorSymmetric && !Single::spec_zero().below(own) ==> factor
                    == Single::spec_zero()
                &&& encoding is PerVectorCosine && norm_sq > 0 ==> factor == calls::image1(
                    self.inverse_root,
                    norm_sq,
                )
                &&& encoding is PerVectorCosine && norm_sq <= 0 ==> factor == Single::spec_zero()
            }),
    {
        single::peak_is_the_top(v, top);
        quantized::code_products_are_residues(codes, codes, norm_sq);
    }

    /// Code a vector; returns the factor that belongs to the codes.
    fn encode(
        &self,
        encoding: QuantizedI8Encoding,
        v: &[Single],
        global_multiplier: Single,
        global_dequant_scale: Single,
        codes: &mut Vec<i8>,
    ) -> (factor: Single)
        requires
            self.wf(),
        ensures
            self.encodes(
                encoding,
                v@,
                global_multiplier,
                global_dequant_scale,
                final(codes)@,
                factor,
            ),
    {
        let multiplier: Single = match encoding {
            QuantizedI8Encoding::GlobalSymmetric => global_multiplier,
            _ => if_positive(&self.multiplier, max_abs(v)),
        };
        codes.clear();
        let mut i: usize = 0;
        while i < v.len()
            invariant
                i <= v@.len(),
                self.wf(),
                codes@ == self.codes(v@, multiplier).take(i as int),
            decreases v@.len() - i,
        {
            let c: i8 = (self.code)(v[i], multiplier);
            codes.push(c);
            i = i + 1;
            assert(codes@ =~= self.codes(v@, multiplier).take(i as int));
        }
        assert(codes@ =~= self.codes(v@, multiplier));
        match encoding {
            QuantizedI8Encoding::PerVectorCosine => {
                let norm_sq: i32 = quantized_i8_dot(codes.as_slice(), codes.as_slice());
                if norm_sq > 0 {
                    (self.inverse_root)(norm_sq)
                } else {
                    Single::zero()
                }
            },
            QuantizedI8Encoding::PerVectorSymmetric => if_positive(&self.reciprocal, multiplier),
            QuantizedI8Encoding::GlobalSymmetric => global_dequant_scale,
        }
    }
}

/// An index whose candidates are compared by signed-int8 codes.
pub struct QuantizedI8Index<D, K> {
    /// The index that is searched.
    pub index: NNDescentIndex<D, K>,
    /// The codes of the data, in physical order.
    pub quantized_data: Vec<i8>,
    /// The factor that belongs to each vector's codes.
    pub inv_norms: Vec<Single>,
    /// The number of candidates that a query keeps unless it says otherwise.
    pub candidate_width: usize,
    /// The number of candidates that a query ranks again unless it says otherwise.
    pub rerank_width: usize,
    /// How vectors are coded.
    pub encoding: QuantizedI8Encoding,
    /// The multiplier for all data.
    pub global_multiplier: Single,
    /// Its reciprocal.
    pub global_dequant_scale: Single,
    /// The quantized trees, if trees are quantized.
    pub quantized_trees: Vec<QuantizedFlatTree>,
    /// Bytes of the trees that were given up for quantized ones.
    pub released_fp32_tree_bytes: usize,
    /// Bytes of the data that was given up.
    pub released_fp32_data_bytes: usize,
}

/// Reranking was asked for, but the data that it needs was given up.
#[derive(Clone, Copy, PartialEq, Eq, Structural, Debug)]
pub struct RerankUnavailable;

/// Why a query is refused.
#[derive(Clone, Copy, PartialEq, Eq, Structural, Debug)]
pub enum QueryError {
    /// The widths cannot be used together.
    Widths(WidthError),
    /// The query has another dimension than the data.
    Dimension {
        /// The dimension of the query.
        query: usize,
        /// The dimension of the data.
        data: usize,
    },
    /// Reranking was asked for, but the data that it needs was given up.
    RerankUnavailable,
}

impl<D: Distance, K: Fn(Single) -> Single> QuantizedI8Index<D, K> {
    /// The index is sound; there are codes and a factor for every point, sound quantized trees,
    /// and the data, unless it was given up; and then nothing is ranked again by default.
    pub open spec fn wf(&self) -> bool {
        &&& self.index.wf()
        &&& self.quantized_data@.len() == self.index.n_points * self.index.dim
        &&& self.inv_norms@.len() == self.index.n_points
        &&& greedy::quantized_trees_serve(
            self.quantized_trees@,
            self.index.dim as int,
            self.index.n_points as int,
        )
        &&& self.released_fp32_data_bytes == 0 ==> self.index.has_data()
        &&& self.released_fp32_data_bytes > 0 ==> self.rerank_width == 0
    }

    /// The codes and factors are those of `data`, under the multiplier of all of it where the
    /// encoding has one.
    pub open spec fn codes_data<
        U: Fn(Single) -> Single,
        R: Fn(Single) -> Single,
        E: Fn(Single, Single) -> i8,
        N: Fn(i32) -> Single,
        P: Fn(Single) -> Single,
        H: Fn(Single, Single) -> i8,
    >(&self, data: Seq<Single>, coding: Coding<U, R, E, N, P, H>) -> bool {
        let dim = self.index.dim as int;
        &&& self.global_multiplier == where_positive(coding.multiplier, single::peak(data))
        &&& self.global_dequant_scale == where_positive(coding.reciprocal, self.global_multiplier)
        &&& forall|i: int|
            0 <= i < self.index.n_points ==> coding.encodes(
                self.encoding,
                layout::row(data, dim, i),
                self.global_multiplier,
                self.global_dequant_scale,
                #[trigger] layout::row(self.quantized_data@, dim, i),
                self.inv_norms@[i],
            )
    }

    /// Code the data of an index, and its trees if asked for.
    ///
    /// Where the trees are quantized they replace the index's own, and where then nothing is to be
    /// ranked again the data is given up too.
    pub fn new<
        U: Fn(Single) -> Single,
        R: Fn(Single) -> Single,
        E: Fn(Single, Single) -> i8,
        N: Fn(i32) -> Single,
        P: Fn(Single) -> Single,
        H: Fn(Single, Single) -> i8,
    >(
        index: NNDescentIndex<D, K>,
        candidate_width: usize,
        rerank_width: usize,
        encoding: QuantizedI8Encoding,
        quantize_trees: bool,
        coding: &Coding<U, R, E, N, P, H>,
    ) -> (r: QuantizedI8Index<D, K>)
        requires
            index.wf(),
            index.dim > 0,
            index.data@.len() == index.n_points * index.dim,
            index.data@.len() * 4 <= usize::MAX,
            quantize_trees ==> storage::total(index.search_trees@, storage::flat_size())
                <= usize::MAX,
            coding.wf(),
        ensures
            r.wf(),
            r.codes_data(index.data@, *coding),
            r.candidate_width == candidate_width,
            r.rerank_width == rerank_width,
            r.encoding == encoding,
            !quantize_trees ==> r.quantized_trees@.len() == 0 && r.index.search_trees
                == index.search_trees && r.released_fp32_tree_bytes == 0,
            quantize_trees ==> {
                &&& r.index.search_trees@.len() == 0
                &&& r.quantized_trees@.len() == index.search_trees@.len()
                &&& forall|t: int|
                    0 <= t < index.search_trees@.len() ==> (
                    #[trigger] r.quantized_trees@[t]).quantizes(
                        index.search_trees@[t],
                        coding.scale,
                        coding.plane_code,
                    )
                &&& r.released_fp32_tree_bytes == storage::total(
                    index.search_trees@,
                    storage::flat_size(),
                )
            },
            r.released_fp32_data_bytes == if quantize_trees && rerank_width == 0 {
                index.data@.len() * 4
            } else {
                0
            },
            r.index.data@ == if quantize_trees && rerank_width == 0 {
                Seq::empty()
            } else {
                index.data@
            },
            r.index == (NNDescentIndex {
                data: r.index.data,
                search_trees: r.index.search_trees,
                ..index
            }),
    {
        let ghost data = index.data@;
        let ghost source = index;
        let dim: usize = index.dim;
        let n: usize = index.n_points;
        let global_multiplier: Single = if_positive(
            &coding.multiplier,
            max_abs(index.data.as_slice()),
        );
        let global_dequant_scale: Single = if_positive(&coding.reciprocal, global_multiplier);
        let mut quantized_data: Vec<i8> = Vec::with_capacity(index.data.len());
        let mut inv_norms: Vec<Single> = Vec::with_capacity(n);
        let mut codes: Vec<i8> = Vec::with_capacity(dim);
        let mut i: usize = 0;
        while i < n
            invariant
                i <= n,
                coding.wf(),
                dim == index.dim,
                n * dim == data.len(),
                data == index.data@,
                quantized_data@.len() == i * dim,
                inv_norms@.len() == i,
                forall|j: int|
                    0 <= j < i ==> coding.encodes(
                        encoding,
                        layout::row(data, dim as int, j),
                        global_multiplier,
                        global_dequant_scale,
                        #[trigger] layout::row(quantized_data@, dim as int, j),
                        inv_norms@[j],
                    ),
            decreases n - i,
        {
            let ghost before = (quantized_data@, inv_norms@);
            let row = row_of(index.data.as_slice(), n, dim, i);
            let factor: Single = coding.encode(
                encoding,
                row,
                global_multiplier,
                global_dequant_scale,
                &mut codes,
            );
            quantized_data.extend_from_slice(codes.as_slice());
            inv_norms.push(factor);
            proof {
                layout::row_fits(i as int, n as int, dim as int);
                assert forall|j: int| 0 <= j < i + 1 implies coding.encodes(
                    encoding,
                    layout::row(data, dim as int, j),
                    global_multiplier,
                    global_dequant_scale,
                    #[trigger] layout::row(quantized_data@, dim as int, j),
                    inv_norms@[j],
                ) by {
                    if j < i {
                        layout::row_fits(j, i as int, dim as int);
                        assert(layout::row(quantized_data@, dim as int, j) =~= layout::row(
                            before.0,
                            dim as int,
                            j,
                        ));
                    } else {
                        assert(layout::row(quantized_data@, dim as int, j) =~= codes@);
                    }
                }
            }
            i = i + 1;
        }
        let mut index = index;
        let mut quantized_trees: Vec<QuantizedFlatTree> = Vec::new();
        let mut released_fp32_tree_bytes: usize = 0;
        if quantize_trees {
            released_fp32_tree_bytes = storage::tree_bytes(&index.search_trees);
            let mut rest: Vec<FlatTree> = Vec::new();
            std::mem::swap(&mut rest, &mut index.search_trees);
            let ghost all = rest@;
            let count: usize = rest.len();
            let mut t: usize = 0;
            while t < count
                invariant
                    t <= count,
                    count == all.len(),
                    coding.wf(),
                    dim > 0,
                    greedy::trees_serve(all, dim as int, n as int),
                    rest@ == all.skip(t as int),
                    quantized_trees@.len() == t,
                    greedy::quantized_trees_serve(quantized_trees@, dim as int, n as int),
                    forall|u: int|
                        0 <= u < t ==> (#[trigger] quantized_trees@[u]).quantizes(
                            all[u],
                            coding.scale,
                            coding.plane_code,
                        ),
                decreases count - t,
            {
                assert(all[t as int].wf());
                let tree = rest.remove(0);
                assert(tree == all[t as int]);
                let ghost had = quantized_trees@;
                let quantized_tree = QuantizedFlatTree::from_owned_flat_tree(
                    tree,
                    &coding.scale,
                    &coding.plane_code,
                );
                quantized_trees.push(quantized_tree);
                proof {
                    assert(rest@ =~= all.skip(t + 1));
                    assert forall|u: int| 0 <= u < t + 1 implies {
                        &&& (#[trigger] quantized_trees@[u]).wf()
                        &&& quantized_trees@[u].dim == dim
                        &&& forall|i: int|
                            0 <= i < quantized_trees@[u].indices@.len()
                                ==> #[trigger] quantized_trees@[u].indices@[i] < n
                    } by {
                        if u < t {
                            assert(quantized_trees@[u] == had[u]);
                        }
                    }
                }
                t = t + 1;
            }
        }
        let mut released_fp32_data_bytes: usize = 0;
        if quantize_trees && rerank_width == 0 {
            released_fp32_data_bytes = index.data.len() * 4;
            index.data = Vec::new();
        }
        let r = QuantizedI8Index {
            index,
            quantized_data,
            inv_norms,
            candidate_width,
            rerank_width,
            encoding,
            global_multiplier,
            global_dequant_scale,
            quantized_trees,
            released_fp32_tree_bytes,
            released_fp32_data_bytes,
        };
        proof {
            assert(r.index.wf());
        }
        r
    }

    /// Whether a query ranks candidates again by their exact distances.
    pub fn exact_rerank_requested(
        k: usize,
        candidate_width: usize,
        rerank_width: usize,
    ) -> (r: bool)
        ensures
            r == widths::reranks(k, candidate_width, rerank_width),
    {
        should_rerank_quantized(k, candidate_width, rerank_width)
    }

    /// Check that what a query asks for can be had: no reranking where the data was given up.
    pub fn ensure_rerank_available(
        &self,
        k: usize,
        candidate_width: usize,
        rerank_width: usize,
    ) -> (r: Result<(), RerankUnavailable>)
        ensures
            r is Err <==> self.rerank_unavailable(k, candidate_width, rerank_width),
    {
        if self.released_fp32_data_bytes > 0 && Self::exact_rerank_requested(
            k,
            candidate_width,
            rerank_width,
        ) {
            return Err(RerankUnavailable);
        }
        Ok(())
    }

    /// The scale of a query's codes at quantized trees.
    pub open spec fn query_scale<
        U: Fn(Single) -> Single,
        R: Fn(Single) -> Single,
        E: Fn(Single, Single) -> i8,
        N: Fn(i32) -> Single,
        P: Fn(Single) -> Single,
        H: Fn(Single, Single) -> i8,
    >(&self, query: Seq<Single>, coding: Coding<U, R, E, N, P, H>) -> Single {
        match self.encoding {
            QuantizedI8Encoding::GlobalSymmetric => self.global_dequant_scale,
            _ => where_positive(coding.scale, single::peak(query)),
        }
    }

    /// The scale of a query's codes at quantized trees.
    pub fn tree_query_scale<
        U: Fn(Single) -> Single,
        R: Fn(Single) -> Single,
        E: Fn(Single, Single) -> i8,
        N: Fn(i32) -> Single,
        P: Fn(Single) -> Single,
        H: Fn(Single, Single) -> i8,
    >(&self, query: &[Single], coding: &Coding<U, R, E, N, P, H>) -> (r: Single)
        requires
            coding.wf(),
        ensures
            r == self.query_scale(query@, *coding),
    {
        match self.encoding {
            QuantizedI8Encoding::GlobalSymmetric => self.global_dequant_scale,
            _ => if_positive(&coding.scale, max_abs(query)),
        }
    }

    /// The quantized trees, if there are any.
    pub open spec fn routed(&self) -> Option<Seq<QuantizedFlatTree>> {
        if self.quantized_trees@.len() == 0 {
            None
        } else {
            Some(self.quantized_trees@)
        }
    }

    /// The quantized trees, if there are any.
    pub fn routed_trees(&self) -> (r: Option<&[QuantizedFlatTree]>)
        ensures
            greedy::contents(r) == self.routed(),
    {
        if self.quantized_trees.len() == 0 {
            None
        } else {
            Some(self.quantized_trees.as_slice())
        }
    }

    /// Code a query; returns the factor that belongs to its codes.
    pub fn quantize_query<
        U: Fn(Single) -> Single,
        R: Fn(Single) -> Single,
        E: Fn(Single, Single) -> i8,
        N: Fn(i32) -> Single,
        P: Fn(Single) -> Single,
        H: Fn(Single, Single) -> i8,
    >(
        &self,
        query: &[Single],
        quantized_query: &mut Vec<i8>,
        coding: &Coding<U, R, E, N, P, H>,
    ) -> (query_inv_norm: Single)
        requires
            coding.wf(),
        ensures
            coding.encodes(
                self.encoding,
                query@,
                self.global_multiplier,
                self.global_dequant_scale,
                final(quantized_query)@,
                query_inv_norm,
            ),
    {
        coding.encode(
            self.encoding,
            query,
            self.global_multiplier,
            self.global_dequant_scale,
            quantized_query,
        )
    }

    /// The codes of a query.
    pub open spec fn codes_of<
        U: Fn(Single) -> Single,
        R: Fn(Single) -> Single,
        E: Fn(Single, Single) -> i8,
        N: Fn(i32) -> Single,
        P: Fn(Single) -> Single,
        H: Fn(Single, Single) -> i8,
    >(&self, query: Seq<Single>, coding: Coding<U, R, E, N, P, H>) -> Seq<i8> {
        coding.codes(
            query,
            coding.multiplier_for(self.encoding, query, self.global_multiplier),
        )
    }

    /// The points and distances that answer a query.
    pub open spec fn answer<
        U: Fn(Single) -> Single,
        R: Fn(Single) -> Single,
        E: Fn(Single, Single) -> i8,
        N: Fn(i32) -> Single,
        P: Fn(Single) -> Single,
        H: Fn(Single, Single) -> i8,
        M: Fn(&[Single], &[Single], Single) -> Single,
        Q: Fn(i32, Single, Single, Single) -> Single,
        B: Fn(Single, Single, Single) -> Single,
        S: Fn(i32, Single, Single) -> Single,
        C: Fn(Single) -> Single,
    >(
        &self,
        query: Seq<Single>,
        k: usize,
        epsilon: Single,
        candidate_width: usize,
        rerank_width: usize,
        coding: Coding<U, R, E, N, P, H>,
        arithmetic: Arithmetic<M, Q, B, S, C>,
    ) -> (Seq<i32>, Seq<Single>) {
        let m = coding.multiplier_for(self.encoding, query, self.global_multiplier);
        let codes = coding.codes(query, m);
        self.index.quantized_answer(
            query,
            self.index.coded_search(
                query,
                codes,
                coding.factor_for(self.encoding, codes, m, self.global_dequant_scale),
                self.quantized_data@,
                self.inv_norms@,
                self.routed(),
                self.query_scale(query, coding),
                widths::resolved(k, candidate_width, rerank_width) as nat,
                epsilon,
                arithmetic,
            ),
            k,
            candidate_width,
            rerank_width,
        )
    }

    /// What is to be ranked again cannot be, because the data was given up.
    pub open spec fn rerank_unavailable(
        &self,
        k: usize,
        candidate_width: usize,
        rerank_width: usize,
    ) -> bool {
        self.released_fp32_data_bytes > 0 && widths::reranks(k, candidate_width, rerank_width)
    }

    /// The widths of an index itself never ask for reranking that is unavailable.
    pub proof fn own_widths_are_available(&self, k: usize)
        requires
            self.wf(),
        ensures
            !self.rerank_unavailable(k, self.candidate_width, self.rerank_width),
    {
    }

    /// The widths can be used together, and there are points for them.
    pub open spec fn widths_serve(
        &self,
        k: usize,
        candidate_width: usize,
        rerank_width: usize,
    ) -> bool {
        &&& widths::widths_fit(k, candidate_width, rerank_width)
        &&& widths::resolved(k, candidate_width, rerank_width) == 0 || self.index.n_points > 0
    }

    /// Query one vector with given widths.
    ///
    /// `scratch` is for the query's codes; it and the workspace are reusable across queries.
    pub fn query_one_quantized_widths<
        U: Fn(Single) -> Single,
        R: Fn(Single) -> Single,
        E: Fn(Single, Single) -> i8,
        N: Fn(i32) -> Single,
        P: Fn(Single) -> Single,
        H: Fn(Single, Single) -> i8,
        M: Fn(&[Single], &[Single], Single) -> Single,
        Q: Fn(i32, Single, Single, Single) -> Single,
        B: Fn(Single, Single, Single) -> Single,
        S: Fn(i32, Single, Single) -> Single,
        C: Fn(Single) -> Single,
    >(
        &self,
        query: &[Single],
        k: usize,
        epsilon: Single,
        candidate_width: usize,
        rerank_width: usize,
        scratch: &mut Vec<i8>,
        workspace: &mut SearchWorkspace,
        coding: &Coding<U, R, E, N, P, H>,
        arithmetic: &Arithmetic<M, Q, B, S, C>,
    ) -> (r: (Vec<i32>, Vec<Single>))
        requires
            self.wf(),
            old(workspace).wf(),
            query@.len() == self.index.dim,
            self.widths_serve(k, candidate_width, rerank_width),
            !self.rerank_unavailable(k, candidate_width, rerank_width),
            coding.wf(),
            arithmetic.serves_codes(),
        ensures
            final(workspace).wf(),
            final(workspace).points() == self.index.n_points,
            final(workspace).results() == widths::resolved(k, candidate_width, rerank_width),
            final(scratch)@ == self.codes_of(query@, *coding),
            (r.0@, r.1@) == self.answer(
                query@,
                k,
                epsilon,
                candidate_width,
                rerank_width,
                *coding,
                *arithmetic,
            ),
            r.0@.len() == k,
            r.1@.len() == k,
    {
        let query_inv_norm: Single = self.quantize_query(query, scratch, coding);
        let trees = self.routed_trees();
        let scale: Single = self.tree_query_scale(query, coding);
        self.index.query_one_quantized_i8_with_workspace(
            query,
            scratch.as_slice(),
            query_inv_norm,
            self.quantized_data.as_slice(),
            self.inv_norms.as_slice(),
            trees,
            scale,
            k,
            candidate_width,
            rerank_width,
            epsilon,
            workspace,
            arithmetic,
        )
    }

    /// Query one vector with the index's own widths.
    pub fn query_one_quantized<
        U: Fn(Single) -> Single,
        R: Fn(Single) -> Single,
        E: Fn(Single, Single) -> i8,
        N: Fn(i32) -> Single,
        P: Fn(Single) -> Single,
        H: Fn(Single, Single) -> i8,
        M: Fn(&[Single], &[Single], Single) -> Single,
        Q: Fn(i32, Single, Single, Single) -> Single,
        B: Fn(Single, Single, Single) -> Single,
        S: Fn(i32, Single, Single) -> Single,
        C: Fn(Single) -> Single,
    >(
        &self,
        query: &[Single],
        k: usize,
        epsilon: Single,
        scratch: &mut Vec<i8>,
        workspace: &mut SearchWorkspace,
        coding: &Coding<U, R, E, N, P, H>,
        arithmetic: &Arithmetic<M, Q, B, S, C>,
    ) -> (r: (Vec<i32>, Vec<Single>))
        requires
            self.wf(),
            old(workspace).wf(),
            query@.len() == self.index.dim,
            self.widths_serve(k, self.candidate_width, self.rerank_width),
            coding.wf(),
            arithmetic.serves_codes(),
        ensures
            final(workspace).wf(),
            final(workspace).points() == self.index.n_points,
            final(workspace).results() == widths::resolved(
                k,
                self.candidate_width,
                self.rerank_width,
            ),
            final(scratch)@ == self.codes_of(query@, *coding),
            (r.0@, r.1@) == self.answer(
                query@,
                k,
                epsilon,
                self.candidate_width,
                self.rerank_width,
                *coding,
                *arithmetic,
            ),
            r.0@.len() == k,
            r.1@.len() == k,
    {
        self.query_one_quantized_widths(
            query,
            k,
            epsilon,
            self.candidate_width,
            self.rerank_width,
            scratch,
            workspace,
            coding,
            arithmetic,
        )
    }

    /// The number of queries that are answered: those asked for, as far as there are so many.
    pub open spec fn answered(&self, queries: Seq<Single>, n_queries: usize) -> int {
        let there = queries.len() as int / self.index.dim as int;
        if n_queries < there {
            n_queries as int
        } else {
            there
        }
    }

    /// Query several vectors, one after the other, with the index's own widths.
    pub fn query<
        U: Fn(Single) -> Single,
        R: Fn(Single) -> Single,
        E: Fn(Single, Single) -> i8,
        N: Fn(i32) -> Single,
        P: Fn(Single) -> Single,
        H: Fn(Single, Single) -> i8,
        M: Fn(&[Single], &[Single], Single) -> Single,
        Q: Fn(i32, Single, Single, Single) -> Single,
        B: Fn(Single, Single, Single) -> Single,
        S: Fn(i32, Single, Single) -> Single,
        C: Fn(Single) -> Single,
    >(
        &self,
        queries: &[Single],
        n_queries: usize,
        k: usize,
        epsilon: Single,
        scratch: &mut Vec<i8>,
        workspace: &mut SearchWorkspace,
        coding: &Coding<U, R, E, N, P, H>,
        arithmetic: &Arithmetic<M, Q, B, S, C>,
    ) -> (r: (Vec<i32>, Vec<Single>))
        requires
            self.wf(),
            self.index.dim > 0,
            old(workspace).wf(),
            self.answered(queries@, n_queries) > 0 ==> self.widths_serve(
                k,
                self.candidate_width,
                self.rerank_width,
            ),
            coding.wf(),
            arithmetic.serves_codes(),
        ensures
            final(workspace).wf(),
            self.answered(queries@, n_queries) == 0 ==> *final(workspace) == *old(workspace)
                && *final(scratch) == *old(scratch),
            self.answered(queries@, n_queries) > 0 ==> {
                &&& final(workspace).points() == self.index.n_points
                &&& final(workspace).results() == widths::resolved(
                    k,
                    self.candidate_width,
                    self.rerank_width,
                )
                &&& final(scratch)@ == self.codes_of(
                    layout::row(
                        queries@,
                        self.index.dim as int,
                        self.answered(queries@, n_queries) - 1,
                    ),
                    *coding,
                )
            },
            r.0@.len() == self.answered(queries@, n_queries) * k,
            r.1@.len() == self.answered(queries@, n_queries) * k,
            forall|i: int|
                0 <= i < self.answered(queries@, n_queries) ==> (
                    #[trigger] layout::row(r.0@, k as int, i),
                    layout::row(r.1@, k as int, i),
                ) == self.answer(
                    layout::row(queries@, self.index.dim as int, i),
                    k,
                    epsilon,
                    self.candidate_width,
                    self.rerank_width,
                    *coding,
                    *arithmetic,
                ),
    {
        let there: usize = queries.len() / self.index.dim;
        let count: usize = if n_queries < there {
            n_queries
        } else {
            there
        };
        proof {
            vstd::arithmetic::div_mod::lemma_fundamental_div_mod(
                queries@.len() as int,
                self.index.dim as int,
            );
            assert(count * self.index.dim <= queries@.len()) by (nonlinear_arith)
                requires
                    count <= there,
                    self.index.dim * there <= queries@.len(),
            ;
        }
        let mut all_indices: Vec<i32> = Vec::new();
        let mut all_distances: Vec<Single> = Vec::new();
        let mut i: usize = 0;
        while i < count
            invariant
                i <= count,
                self.wf(),
                workspace.wf(),
                i == 0 ==> *workspace == *old(workspace) && *scratch == *old(scratch),
                i > 0 ==> {
                    &&& workspace.points() == self.index.n_points
                    &&& workspace.results() == widths::resolved(
                        k,
                        self.candidate_width,
                        self.rerank_width,
                    )
                    &&& scratch@ == self.codes_of(
                        layout::row(queries@, self.index.dim as int, i - 1),
                        *coding,
                    )
                },
                count * self.index.dim <= queries@.len(),
                count > 0 ==> self.widths_serve(k, self.candidate_width, self.rerank_width),
                coding.wf(),
                arithmetic.serves_codes(),
                all_indices@.len() == i * k,
                all_distances@.len() == i * k,
                forall|j: int|
                    0 <= j < i ==> (
                        #[trigger] layout::row(all_indices@, k as int, j),
                        layout::row(all_distances@, k as int, j),
                    ) == self.answer(
                        layout::row(queries@, self.index.dim as int, j),
                        k,
                        epsilon,
                        self.candidate_width,
                        self.rerank_width,
                        *coding,
                        *arithmetic,
                    ),
            decreases count - i,
        {
            let ghost before = (all_indices@, all_distances@);
            let (indices, distances) = self.query_one_quantized(
                row_of(queries, count, self.index.dim, i),
                k,
                epsilon,
                scratch,
                workspace,
                coding,
                arithmetic,
            );
            all_indices.extend_from_slice(indices.as_slice());
            all_distances.extend_from_slice(distances.as_slice());
            proof {
                layout::row_fits(i as int, count as int, k as int);
                assert(all_indices@ =~= before.0 + indices@);
                assert(all_distances@ =~= before.1 + distances@);
                assert forall|j: int| 0 <= j < i + 1 implies (
                    #[trigger] layout::row(all_indices@, k as int, j),
                    layout::row(all_distances@, k as int, j),
                ) == self.answer(
                    layout::row(queries@, self.index.dim as int, j),
                    k,
                    epsilon,
                    self.candidate_width,
                    self.rerank_width,
                    *coding,
                    *arithmetic,
                ) by {
                    if j < i {
                        layout::row_fits(j, i as int, k as int);
                        assert(layout::row(all_indices@, k as int, j) =~= layout::row(
                            before.0,
                            k as int,
                            j,
                        ));
                        assert(layout::row(all_distances@, k as int, j) =~= layout::row(
                            before.1,
                            k as int,
                            j,
                        ));
                    } else {
                        assert(layout::row(all_indices@, k as int, j) =~= indices@);
                        assert(layout::row(all_distances@, k as int, j) =~= distances@);
                    }
                }
            }
            i = i + 1;
        }
        (all_indices, all_distances)
    }

    /// Query one vector with the index's own widths.
    pub fn query_one<
        U: Fn(Single) -> Single,
        R: Fn(Single) -> Single,
        E: Fn(Single, Single) -> i8,
        N: Fn(i32) -> Single,
        P: Fn(Single) -> Single,
        H: Fn(Single, Single) -> i8,
        M: Fn(&[Single], &[Single], Single) -> Single,
        Q: Fn(i32, Single, Single, Single) -> Single,
        B: Fn(Single, Single, Single) -> Single,
        S: Fn(i32, Single, Single) -> Single,
        C: Fn(Single) -> Single,
    >(
        &self,
        query: &[Single],
        k: usize,
        epsilon: Single,
        scratch: &mut Vec<i8>,
        workspace: &mut SearchWorkspace,
        coding: &Coding<U, R, E, N, P, H>,
        arithmetic: &Arithmetic<M, Q, B, S, C>,
    ) -> (r: (Vec<i32>, Vec<Single>))
        requires
            self.wf(),
            old(workspace).wf(),
            query@.len() == self.index.dim,
            self.widths_serve(k, self.candidate_width, self.rerank_width),
            coding.wf(),
            arithmetic.serves_codes(),
        ensures
            final(workspace).wf(),
            final(workspace).points() == self.index.n_points,
            final(workspace).results() == widths::resolved(
                k,
                self.candidate_width,
                self.rerank_width,
            ),
            final(scratch)@ == self.codes_of(query@, *coding),
            (r.0@, r.1@) == self.answer(
                query@,
                k,
                epsilon,
                self.candidate_width,
                self.rerank_width,
                *coding,
                *arithmetic,
            ),
            r.0@.len() == k,
            r.1@.len() == k,
    {
        self.query_one_quantized(query, k, epsilon, scratch, workspace, coding, arithmetic)
    }

    /// Query one vector with the index's own widths, for points only.
    pub fn query_one_indices<
        U: Fn(Single) -> Single,
        R: Fn(Single) -> Single,
        E: Fn(Single, Single) -> i8,
        N: Fn(i32) -> Single,
        P: Fn(Single) -> Single,
        H: Fn(Single, Single) -> i8,
        M: Fn(&[Single], &[Single], Single) -> Single,
        Q: Fn(i32, Single, Single, Single) -> Single,
        B: Fn(Single, Single, Single) -> Single,
        S: Fn(i32, Single, Single) -> Single,
        C: Fn(Single) -> Single,
    >(
        &self,
        query: &[Single],
        k: usize,
        epsilon: Single,
        scratch: &mut Vec<i8>,
        workspace: &mut SearchWorkspace,
        coding: &Coding<U, R, E, N, P, H>,
        arithmetic: &Arithmetic<M, Q, B, S, C>,
    ) -> (r: Vec<i32>)
        requires
            self.wf(),
            old(workspace).wf(),
            query@.len() == self.index.dim,
            self.widths_serve(k, self.candidate_width, self.rerank_width),
            coding.wf(),
            arithmetic.serves_codes(),
        ensures
            final(workspace).wf(),
            final(workspace).points() == self.index.n_points,
            final(workspace).results() == widths::resolved(
                k,
                self.candidate_width,
                self.rerank_width,
            ),
            final(scratch)@ == self.codes_of(query@, *coding),
            r@ == self.answer(
                query@,
                k,
                epsilon,
                self.candidate_width,
                self.rerank_width,
                *coding,
                *arithmetic,
            ).0,
            r@.len() == k,
    {
        self.query_one_quantized(query, k, epsilon, scratch, workspace, coding, arithmetic).0
    }

    /// The first thing that is wrong with a query.
    pub open spec fn query_fault(
        &self,
        query: Seq<Single>,
        k: usize,
        candidate_width: usize,
        rerank_width: usize,
    ) -> Option<QueryError> {
        match widths::width_fault(k, candidate_width, rerank_width) {
            Some(fault) => Some(QueryError::Widths(fault)),
            None => if query.len() != self.index.dim {
                Some(QueryError::Dimension { query: query.len() as usize, data: self.index.dim })
            } else if self.rerank_unavailable(k, candidate_width, rerank_width) {
                Some(QueryError::RerankUnavailable)
            } else {
                None
            },
        }
    }

    /// Query one vector, for points only, with candidate and rerank widths of the query's own. The
    /// index and graph are not rebuilt.
    ///
    /// A candidate width of zero stands for the larger of `k` and `rerank_width`. An explicit one
    /// must be at least `k`; the rerank width must be zero or between the two.
    pub fn query_one_indices_quantized<
        U: Fn(Single) -> Single,
        R: Fn(Single) -> Single,
        E: Fn(Single, Single) -> i8,
        N: Fn(i32) -> Single,
        P: Fn(Single) -> Single,
        H: Fn(Single, Single) -> i8,
        M: Fn(&[Single], &[Single], Single) -> Single,
        Q: Fn(i32, Single, Single, Single) -> Single,
        B: Fn(Single, Single, Single) -> Single,
        S: Fn(i32, Single, Single) -> Single,
        C: Fn(Single) -> Single,
    >(
        &self,
        query: &[Single],
        k: usize,
        epsilon: Single,
        candidate_width: usize,
        rerank_width: usize,
        scratch: &mut Vec<i8>,
        workspace: &mut SearchWorkspace,
        coding: &Coding<U, R, E, N, P, H>,
        arithmetic: &Arithmetic<M, Q, B, S, C>,
    ) -> (r: Result<Vec<i32>, QueryError>)
        requires
            self.wf(),
            self.query_fault(query@, k, candidate_width, rerank_width) is None ==> widths::resolved(
                k,
                candidate_width,
                rerank_width,
            ) == 0 || self.index.n_points > 0,
            old(workspace).wf(),
            coding.wf(),
            arithmetic.serves_codes(),
        ensures
            final(workspace).wf(),
            match self.query_fault(query@, k, candidate_width, rerank_width) {
                Some(fault) => {
                    &&& r == Err::<Vec<i32>, QueryError>(fault)
                    &&& *final(workspace) == *old(workspace)
                    &&& *final(scratch) == *old(scratch)
                },
                None => {
                    &&& final(workspace).points() == self.index.n_points
                    &&& final(workspace).results() == widths::resolved(
                        k,
                        candidate_width,
                        rerank_width,
                    )
                    &&& final(scratch)@ == self.codes_of(query@, *coding)
                    &&& r is Ok
                    &&& r->Ok_0@ == self.answer(
                        query@,
                        k,
                        epsilon,
                        candidate_width,
                        rerank_width,
                        *coding,
                        *arithmetic,
                    ).0
                    &&& r->Ok_0@.len() == k
                },
            },
    {
        proof {
            widths::faultless_widths_fit(k, candidate_width, rerank_width);
        }
        match validate_quantized_widths(k, candidate_width, rerank_width) {
            Err(fault) => return Err(QueryError::Widths(fault)),
            Ok(()) => {},
        }
        if query.len() != self.index.dim {
            return Err(QueryError::Dimension { query: query.len(), data: self.index.dim });
        }
        match self.ensure_rerank_available(k, candidate_width, rerank_width) {
            Err(RerankUnavailable) => return Err(QueryError::RerankUnavailable),
            Ok(()) => {},
        }
        let (indices, _) = self.query_one_quantized_widths(
            query,
            k,
            epsilon,
            candidate_width,
            rerank_width,
            scratch,
            workspace,
            coding,
            arithmetic,
        );
        Ok(indices)
    }
}

impl<D: Distance, K: Fn(Single) -> Single> QuantizedI8Index<D, K> {
    /// The distances of the coded points from a query.
    pub open spec fn coded_distances<
        U: Fn(Single) -> Single,
        R: Fn(Single) -> Single,
        E: Fn(Single, Single) -> i8,
        N: Fn(i32) -> Single,
        P: Fn(Single) -> Single,
        H: Fn(Single, Single) -> i8,
        M: Fn(&[Single], &[Single], Single) -> Single,
        Q: Fn(i32, Single, Single, Single) -> Single,
        B: Fn(Single, Single, Single) -> Single,
        S: Fn(i32, Single, Single) -> Single,
        C: Fn(Single) -> Single,
    >(
        &self,
        query: Seq<Single>,
        coding: Coding<U, R, E, N, P, H>,
        arithmetic: Arithmetic<M, Q, B, S, C>,
    ) -> spec_fn(int) -> Single {
        let m = coding.multiplier_for(self.encoding, query, self.global_multiplier);
        let codes = coding.codes(query, m);
        greedy::code_distances(
            arithmetic.similarity,
            arithmetic.one_minus,
            codes,
            coding.factor_for(self.encoding, codes, m, self.global_dequant_scale),
            self.quantized_data@,
            self.inv_norms@,
            self.index.dim as int,
        )
    }

    /// Point `i` has its codes in row `i`, and its factor at place `i`.
    pub proof fn points_are_coded_in_order<
        U: Fn(Single) -> Single,
        R: Fn(Single) -> Single,
        E: Fn(Single, Single) -> i8,
        N: Fn(i32) -> Single,
        P: Fn(Single) -> Single,
        H: Fn(Single, Single) -> i8,
    >(self, data: Seq<Single>, coding: Coding<U, R, E, N, P, H>, i: int)
        requires
            self.codes_data(data, coding),
            0 <= i < self.index.n_points,
        ensures
            ({
                let from = i * self.index.dim;
                let to = i * self.index.dim + self.index.dim;
                coding.encodes(
                    self.encoding,
                    data.subrange(from, to),
                    self.global_multiplier,
                    self.global_dequant_scale,
                    self.quantized_data@.subrange(from, to),
                    self.inv_norms@[i],
                )
            }),
    {
        let row = layout::row(self.quantized_data@, self.index.dim as int, i);
        assert(row == self.quantized_data@.subrange(
            i * self.index.dim,
            i * self.index.dim + self.index.dim,
        ));
    }

    /// A query is refused where its widths cannot be used together, where its dimension is not that
    /// of the data, which is then reported with it, and where it asks for candidates to be ranked
    /// again although the data was given up; and nowhere else.
    pub proof fn only_unanswerable_queries_are_refused(
        self,
        query: Seq<Single>,
        k: usize,
        candidate_width: usize,
        rerank_width: usize,
    )
        requires
            query.len() <= usize::MAX,
        ensures
            ({
                let fault = self.query_fault(query, k, candidate_width, rerank_width);
                let fit = widths::widths_fit(k, candidate_width, rerank_width);
                let again = rerank_width > 0 && (candidate_width > 0 || rerank_width > k);
                let given_up = self.released_fp32_data_bytes > 0;
                &&& fault is None <==> fit && query.len() == self.index.dim && !(again && given_up)
                &&& !fit <==> fault is Some && fault->0 is Widths
                &&& fit && query.len() != self.index.dim ==> fault == Some(
                    QueryError::Dimension {
                        query: query.len() as usize,
                        data: self.index.dim,
                    },
                )
                &&& fit && query.len() == self.index.dim && again && given_up ==> fault == Some(
                    QueryError::RerankUnavailable,
                )
            }),
    {
        widths::faultless_widths_fit(k, candidate_width, rerank_width);
    }

    /// As many queries are answered as are asked for, or as there are whole ones where these are
    /// fewer.
    pub proof fn all_whole_queries_are_answered(self, queries: Seq<Single>, n_queries: usize)
        requires
            self.index.dim > 0,
        ensures
            ({
                let m = self.answered(queries, n_queries);
                &&& 0 <= m <= n_queries
                &&& m * self.index.dim <= queries.len()
                &&& m < n_queries ==> queries.len() < (m + 1) * self.index.dim
            }),
    {
        let dim = self.index.dim as int;
        let n = queries.len() as int;
        let there = n / dim;
        vstd::arithmetic::div_mod::lemma_fundamental_div_mod(n, dim);
        let m = self.answered(queries, n_queries);
        assert(0 <= there && m * dim <= n && n < (there + 1) * dim) by (nonlinear_arith)
            requires
                n == dim * there + n % dim,
                0 <= n % dim < dim,
                n >= 0,
                dim > 0,
                m <= there,
        ;
    }

    /// The multiplier of all data belongs to the largest magnitude anywhere in it, and the
    /// dequantization scale is its reciprocal. The scale of a query's codes at quantized trees is
    /// the latter under the global encoding, and elsewhere belongs to the query's own largest
    /// magnitude.
    pub proof fn scales_belong_to_largest_magnitudes<
        U: Fn(Single) -> Single,
        R: Fn(Single) -> Single,
        E: Fn(Single, Single) -> i8,
        N: Fn(i32) -> Single,
        P: Fn(Single) -> Single,
        H: Fn(Single, Single) -> i8,
    >(
        self,
        data: Seq<Single>,
        query: Seq<Single>,
        coding: Coding<U, R, E, N, P, H>,
        data_top: Single,
        query_top: Single,
    )
        requires
            self.codes_data(data, coding),
            single::tops(data_top, data),
            single::tops(query_top, query),
        ensures
            self.global_multiplier == if data_top.bits == 0 {
                Single::spec_zero()
            } else {
                calls::image1(coding.multiplier, data_top)
            },
            self.global_dequant_scale == if Single::spec_zero().below(self.global_multiplier) {
                calls::image1(coding.reciprocal, self.global_multiplier)
            } else {
                Single::spec_zero()
            },
            self.query_scale(query, coding) == if self.encoding is GlobalSymmetric {
                self.global_dequant_scale
            } else if query_top.bits == 0 {
                Single::spec_zero()
            } else {
                calls::image1(coding.scale, query_top)
            },
    {
        single::peak_is_the_top(data, data_top);
        single::peak_is_the_top(query, query_top);
    }

    /// The distance of a coded point from a query is one minus their similarity, moved into
    /// `[-1, 1]`, which is made of the sum of the products of their codes in all dimensions and of
    /// the factors of both.
    pub proof fn coded_distances_take_every_dimension<
        U: Fn(Single) -> Single,
        R: Fn(Single) -> Single,
        E: Fn(Single, Single) -> i8,
        N: Fn(i32) -> Single,
        P: Fn(Single) -> Single,
        H: Fn(Single, Single) -> i8,
        M: Fn(&[Single], &[Single], Single) -> Single,
        Q: Fn(i32, Single, Single, Single) -> Single,
        B: Fn(Single, Single, Single) -> Single,
        S: Fn(i32, Single, Single) -> Single,
        C: Fn(Single) -> Single,
    >(
        self,
        query: Seq<Single>,
        codes: Seq<i8>,
        factor: Single,
        coding: Coding<U, R, E, N, P, H>,
        arithmetic: Arithmetic<M, Q, B, S, C>,
        i: int,
        product: i32,
    )
        requires
            self.wf(),
            query.len() == self.index.dim,
            0 <= i < self.index.n_points,
            coding.encodes(
                self.encoding,
                query,
                self.global_multiplier,
                self.global_dequant_scale,
                codes,
                factor,
            ),
            (Seq::new(
                self.index.dim as nat,
                |j: int| codes[j] * self.quantized_data@[i * self.index.dim + j],
            ).fold_left(0int, |sum: int, product: int| sum + product) - product) % 0x1_0000_0000
                == 0,
        ensures
            self.coded_distances(query, coding, arithmetic)(i) == calls::image1(
                arithmetic.one_minus,
                alternatives::clamped(
                    calls::image3(arithmetic.similarity, product, factor, self.inv_norms@[i]),
                ),
            ),
    {
        let dim = self.index.dim as int;
        layout::row_fits(i, self.index.n_points as int, dim);
        let row = layout::row(self.quantized_data@, dim, i);
        assert(Seq::new(codes.len(), |j: int| codes[j] * row[j]) =~= Seq::new(
            self.index.dim as nat,
            |j: int| codes[j] * self.quantized_data@[i * self.index.dim + j],
        ));
        quantized::code_products_are_residues(codes, row, product);
    }

    /// A query is answered from a search that goes through the index's graph as far as it should,
    /// by the distances between the query's codes and those of the data, and that starts at all
    /// points of the leaves that the query is routed to: in the quantized trees, with the query's
    /// codes, where there are any, and in the index's own trees, with the query itself, elsewhere.
    /// And it visits no more than it has to.
    pub proof fn coded_queries_are_thorough<
        U: Fn(Single) -> Single,
        R: Fn(Single) -> Single,
        E: Fn(Single, Single) -> i8,
        N: Fn(i32) -> Single,
        P: Fn(Single) -> Single,
        H: Fn(Single, Single) -> i8,
        M: Fn(&[Single], &[Single], Single) -> Single,
        Q: Fn(i32, Single, Single, Single) -> Single,
        B: Fn(Single, Single, Single) -> Single,
        S: Fn(i32, Single, Single) -> Single,
        C: Fn(Single) -> Single,
    >(
        self,
        query: Seq<Single>,
        codes: Seq<i8>,
        factor: Single,
        k: usize,
        epsilon: Single,
        candidate_width: usize,
        rerank_width: usize,
        coding: Coding<U, R, E, N, P, H>,
        arithmetic: Arithmetic<M, Q, B, S, C>,
    ) -> (p: model::Progress)
        requires
            self.wf(),
            query.len() == self.index.dim,
            self.widths_serve(k, candidate_width, rerank_width),
            coding.encodes(
                self.encoding,
                query,
                self.global_multiplier,
                self.global_dequant_scale,
                codes,
                factor,
            ),
        ensures
            ({
                let width = if candidate_width > 0 {
                    candidate_width as nat
                } else if rerank_width > k {
                    rerank_width as nat
                } else {
                    k as nat
                };
                let distance = self.coded_distances(query, coding, arithmetic);
                let bound = |furthest: Single|
                    calls::image3(arithmetic.bound, furthest, epsilon, self.index.min_distance);
                let scale = self.query_scale(query, coding);
                let budget = self.index.search_tree_leaf_budget as nat;
                &&& self.answer(
                    query,
                    k,
                    epsilon,
                    candidate_width,
                    rerank_width,
                    coding,
                    arithmetic,
                ) == self.index.quantized_answer(query, p, k, candidate_width, rerank_width)
                &&& model::are_results(
                    distance,
                    self.index.n_points as int,
                    width,
                    model::indices_of(p),
                    model::distances_of(p),
                )
                &&& coverage::thorough(
                    self.index.search_graph,
                    distance,
                    bound,
                    width,
                    true,
                    coverage::entry(
                        model::Quest { distance, bound, k: width, fills: true },
                        self.index.search_graph,
                        greedy::chosen_routes(
                            query,
                            self.index.search_trees@,
                            arithmetic.margin,
                            self.routed(),
                            codes,
                            scale,
                            arithmetic.rescale,
                            budget,
                        ),
                        FastRng { state: self.index.rng_seed },
                    ).found.len() == width,
                    p.visited,
                    model::indices_of(p),
                    model::distances_of(p),
                )
                &&& economy::economical(
                    model::Quest { distance, bound, k: width, fills: true },
                    self.index.search_graph,
                    greedy::chosen_routes(
                        query,
                        self.index.search_trees@,
                        arithmetic.margin,
                        self.routed(),
                        codes,
                        scale,
                        arithmetic.rescale,
                        budget,
                    ),
                    FastRng { state: self.index.rng_seed },
                    p.visited,
                )
                &&& width > 0 ==> model::indices_of(p).len() > 0
                &&& self.quantized_trees@.len() == 0 ==> forall|t: int|
                    0 <= t < self.index.search_trees@.len() ==> coverage::leaves_taken_in(
                        (#[trigger] self.index.search_trees@[t]).children@,
                        self.index.search_trees@[t].margins(arithmetic.margin, query),
                        budget,
                        self.index.search_trees@[t].indices@,
                        p.visited,
                    )
                &&& forall|t: int|
                    0 <= t < self.quantized_trees@.len() ==> coverage::leaves_taken_in(
                        (#[trigger] self.quantized_trees@[t]).children@,
                        self.quantized_trees@[t].margins(arithmetic.rescale, codes, scale),
                        budget,
                        self.quantized_trees@[t].indices@,
                        p.visited,
                    )
            }),
    {
        let n = self.index.n_points as int;
        let distance = self.coded_distances(query, coding, arithmetic);
        let width = widths::resolved(k, candidate_width, rerank_width) as nat;
        let scale = self.query_scale(query, coding);
        let budget = self.index.search_tree_leaf_budget as nat;
        let rng = FastRng { state: self.index.rng_seed };
        let q = greedy::quest(
            distance,
            arithmetic.bound,
            epsilon,
            self.index.min_distance,
            width,
            true,
        );
        let routes = greedy::chosen_routes(
            query,
            self.index.search_trees@,
            arithmetic.margin,
            self.routed(),
            codes,
            scale,
            arithmetic.rescale,
            budget,
        );
        greedy::chosen_routes_lead_within(
            query,
            self.index.search_trees@,
            arithmetic.margin,
            self.routed(),
            codes,
            scale,
            arithmetic.rescale,
            budget,
            n,
        );
        model::finishing_keeps(q, self.index.search_graph, routes, rng);
        let p = model::finished(q, self.index.search_graph, routes, rng).0;
        model::consistent_gives_results(q, n, p);
        greedy::code_searches_are_thorough(
            query,
            codes,
            factor,
            self.quantized_data@,
            self.inv_norms@,
            self.index.dim as int,
            self.index.search_graph,
            self.index.search_trees@,
            budget,
            width,
            epsilon,
            self.index.min_distance,
            rng,
            self.routed(),
            scale,
            arithmetic,
        );
        assert(q.bound =~= (|furthest: Single|
            calls::image3(arithmetic.bound, furthest, epsilon, self.index.min_distance)));
        economy::searches_are_economical(q, self.index.search_graph, routes, rng);
        p
    }

    /// A query is answered with different points, each with its distance, nearest first by the
    /// distances that are shown, and then with placeholders; under every encoding, and whether or
    /// not candidates are ranked again.
    pub proof fn answers_are_ranked<
        U: Fn(Single) -> Single,
        R: Fn(Single) -> Single,
        E: Fn(Single, Single) -> i8,
        N: Fn(i32) -> Single,
        P: Fn(Single) -> Single,
        H: Fn(Single, Single) -> i8,
        M: Fn(&[Single], &[Single], Single) -> Single,
        Q: Fn(i32, Single, Single, Single) -> Single,
        B: Fn(Single, Single, Single) -> Single,
        S: Fn(i32, Single, Single) -> Single,
        C: Fn(Single) -> Single,
    >(
        self,
        query: Seq<Single>,
        k: usize,
        epsilon: Single,
        candidate_width: usize,
        rerank_width: usize,
        coding: Coding<U, R, E, N, P, H>,
        arithmetic: Arithmetic<M, Q, B, S, C>,
    )
        requires
            self.wf(),
            query.len() == self.index.dim,
            self.widths_serve(k, candidate_width, rerank_width),
        ensures
            ({
                let (indices, distances) = self.answer(
                    query,
                    k,
                    epsilon,
                    candidate_width,
                    rerank_width,
                    coding,
                    arithmetic,
                );
                &&& indices.len() == k
                &&& exists|found: int| #[trigger]
                    query::presents(
                        indices,
                        distances,
                        found,
                        self.index.vertex_order@,
                        self.index.shown_distances(
                            query,
                            self.coded_distances(query, coding, arithmetic),
                            k,
                            candidate_width,
                            rerank_width,
                        ),
                    )
            }),
    {
        let m = coding.multiplier_for(self.encoding, query, self.global_multiplier);
        let codes = coding.codes(query, m);
        let n = self.index.n_points as int;
        let distance = self.coded_distances(query, coding, arithmetic);
        let search_k = widths::resolved(k, candidate_width, rerank_width) as nat;
        let q = greedy::quest(
            distance,
            arithmetic.bound,
            epsilon,
            self.index.min_distance,
            search_k,
            true,
        );
        let routes = greedy::chosen_routes(
            query,
            self.index.search_trees@,
            arithmetic.margin,
            self.routed(),
            codes,
            self.query_scale(query, coding),
            arithmetic.rescale,
            self.index.search_tree_leaf_budget as nat,
        );
        greedy::chosen_routes_lead_within(
            query,
            self.index.search_trees@,
            arithmetic.margin,
            self.routed(),
            codes,
            self.query_scale(query, coding),
            arithmetic.rescale,
            self.index.search_tree_leaf_budget as nat,
            n,
        );
        let rng = FastRng { state: self.index.rng_seed };
        model::finishing_keeps(q, self.index.search_graph, routes, rng);
        let p = model::finished(q, self.index.search_graph, routes, rng).0;
        model::consistent_gives_results(q, n, p);
        self.index.quantized_answers_are_ranked(
            query,
            distance,
            p,
            k,
            candidate_width,
            rerank_width,
        );
        let (indices, distances) = self.answer(
            query,
            k,
            epsilon,
            candidate_width,
            rerank_width,
            coding,
            arithmetic,
        );
        let found = NNDescentIndex::<D, K>::presented(p, k, candidate_width, rerank_width);
        let shown = self.index.shown_distances(query, distance, k, candidate_width, rerank_width);
        assert(query::presents(indices, distances, found, self.index.vertex_order@, shown));
    }
}

} // verus!
