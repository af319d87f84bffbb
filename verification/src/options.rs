//! The options of an index as they are named by callers, and what follows from them.

use crate::distance::metric;
use crate::distance::Metric;
use crate::index::builder::DEFAULT_TREES;
use crate::text::same;
use vstd::prelude::*;

verus! {

/// How vectors are coded in signed bytes.
#[derive(Clone, Copy, PartialEq, Eq, Structural, Debug)]
pub enum QuantizedI8Encoding {
    /// A scale per vector; distances use the norms of the codes.
    PerVectorCosine,
    /// One scale for all vectors.
    GlobalSymmetric,
    /// A scale per vector; distances use the scales.
    PerVectorSymmetric,
}

/// Why options are refused.
#[derive(Clone, Copy, PartialEq, Eq, Structural, Debug)]
pub enum OptionError {
    /// The rerank width exceeds an explicit candidate width.
    RerankWidthAboveCandidateWidth,
    /// There is no metric of this name.
    UnknownMetric,
    /// There is no cosine distance mode of this name.
    UnknownCosineDistanceMode,
    /// There is no tree quantization of this name.
    UnknownTreeQuantization,
    /// Quantized trees are available only with a quantized cosine distance mode.
    TreeQuantizationNeedsQuantizedMode,
    /// Quantized trees are incompatible with one scale for all vectors.
    TreeQuantizationNeedsVectorScales,
    /// Direct and quantized cosine modes require the cosine metric and normalization.
    DirectModeNeedsNormalizedCosine,
}

/// Options that go together.
#[derive(Clone, Copy, PartialEq, Eq, Structural, Debug)]
pub struct Options {
    /// The metric.
    pub metric: Metric,
    /// Whether vectors are normalized.
    pub normalize_cosine: bool,
    /// Whether cosine distances are direct rather than logarithmic.
    pub direct_cosine: bool,
    /// How vectors are coded, if they are.
    pub quantized_encoding: Option<QuantizedI8Encoding>,
    /// Whether trees are quantized.
    pub quantize_trees: bool,
}

/// Whether a cosine distance mode is direct, and its encoding; none where there is no such mode.
pub open spec fn cosine_mode(name: Seq<char>) -> Option<(bool, Option<QuantizedI8Encoding>)> {
    if name == "log"@ {
        Some((false, None))
    } else if name == "direct"@ {
        Some((true, None))
    } else if name == "int8"@ {
        Some((true, Some(QuantizedI8Encoding::PerVectorCosine)))
    } else if name == "sq8u"@ {
        Some((true, Some(QuantizedI8Encoding::GlobalSymmetric)))
    } else if name == "sq8p"@ {
        Some((true, Some(QuantizedI8Encoding::PerVectorSymmetric)))
    } else {
        None
    }
}

/// Whether a tree quantization quantizes trees; none where there is no such quantization.
pub open spec fn tree_quantization_mode(name: Seq<char>) -> Option<bool> {
    if name == "none"@ {
        Some(false)
    } else if name == "int8"@ {
        Some(true)
    } else {
        None
    }
}

/// The first thing that is wrong with some options.
pub open spec fn option_fault(
    metric: Seq<char>,
    normalize: bool,
    cosine_distance_mode: Seq<char>,
    tree_quantization: Seq<char>,
    candidate_width: usize,
    rerank_width: usize,
) -> Option<OptionError> {
    if 0 < candidate_width < rerank_width {
        Some(OptionError::RerankWidthAboveCandidateWidth)
    } else if forall|m: Metric| #[trigger] metric::name_of(m) != metric {
        Some(OptionError::UnknownMetric)
    } else {
        match cosine_mode(cosine_distance_mode) {
            None => Some(OptionError::UnknownCosineDistanceMode),
            Some((direct, encoding)) => match tree_quantization_mode(tree_quantization) {
                None => Some(OptionError::UnknownTreeQuantization),
                Some(quantize_trees) => if quantize_trees && encoding is None {
                    Some(OptionError::TreeQuantizationNeedsQuantizedMode)
                } else if quantize_trees && encoding == Some(
                    QuantizedI8Encoding::GlobalSymmetric,
                ) {
                    Some(OptionError::TreeQuantizationNeedsVectorScales)
                } else if direct && !(normalize && metric == metric::name_of(Metric::Cosine)) {
                    Some(OptionError::DirectModeNeedsNormalizedCosine)
                } else {
                    None
                },
            },
        }
    }
}

fn parse_cosine_mode(name: &str) -> (r: Option<(bool, Option<QuantizedI8Encoding>)>)
    ensures
        r == cosine_mode(name@),
{
    if same(name, "log") {
        Some((false, None))
    } else if same(name, "direct") {
        Some((true, None))
    } else if same(name, "int8") {
        Some((true, Some(QuantizedI8Encoding::PerVectorCosine)))
    } else if same(name, "sq8u") {
        Some((true, Some(QuantizedI8Encoding::GlobalSymmetric)))
    } else if same(name, "sq8p") {
        Some((true, Some(QuantizedI8Encoding::PerVectorSymmetric)))
    } else {
        None
    }
}

fn parse_tree_quantization(name: &str) -> (r: Option<bool>)
    ensures
        r == tree_quantization_mode(name@),
{
    if same(name, "none") {
        Some(false)
    } else if same(name, "int8") {
        Some(true)
    } else {
        None
    }
}

/// Check options by name, and return what they stand for.
pub fn parse_options(
    metric: &str,
    normalize: bool,
    cosine_distance_mode: &str,
    tree_quantization: &str,
    candidate_width: usize,
    rerank_width: usize,
) -> (r: Result<Options, OptionError>)
    ensures
        r is Ok <==> option_fault(
            metric@,
            normalize,
            cosine_distance_mode@,
            tree_quantization@,
            candidate_width,
            rerank_width,
        ) is None,
        r matches Err(e) ==> option_fault(
            metric@,
            normalize,
            cosine_distance_mode@,
            tree_quantization@,
            candidate_width,
            rerank_width,
        ) == Some(e),
        r matches Ok(options) ==> {
            &&& metric::name_of(options.metric) == metric@
            &&& options.normalize_cosine == (normalize && options.metric is Cosine)
            &&& cosine_mode(cosine_distance_mode@) == Some(
                (options.direct_cosine, options.quantized_encoding),
            )
            &&& tree_quantization_mode(tree_quantization@) == Some(options.quantize_trees)
        },
{
    if candidate_width > 0 && rerank_width > candidate_width {
        return Err(OptionError::RerankWidthAboveCandidateWidth);
    }
    let parsed: Metric = match Metric::from_str(metric) {
        Some(m) => m,
        None => {
            return Err(OptionError::UnknownMetric);
        },
    };
    let normalize_cosine: bool = normalize && matches!(parsed, Metric::Cosine);
    proof {
        if metric@ == metric::name_of(Metric::Cosine) {
            Metric::names_are_distinct(parsed, Metric::Cosine);
        }
    }
    let (direct_cosine, quantized_encoding) = match parse_cosine_mode(cosine_distance_mode) {
        Some(mode) => mode,
        None => {
            return Err(OptionError::UnknownCosineDistanceMode);
        },
    };
    let quantize_trees: bool = match parse_tree_quantization(tree_quantization) {
        Some(b) => b,
        None => {
            return Err(OptionError::UnknownTreeQuantization);
        },
    };
    if quantize_trees && quantized_encoding.is_none() {
        return Err(OptionError::TreeQuantizationNeedsQuantizedMode);
    }
    if quantize_trees && matches!(quantized_encoding, Some(QuantizedI8Encoding::GlobalSymmetric)) {
        return Err(OptionError::TreeQuantizationNeedsVectorScales);
    }
    if direct_cosine && !normalize_cosine {
        return Err(OptionError::DirectModeNeedsNormalizedCosine);
    }
    Ok(
        Options {
            metric: parsed,
            normalize_cosine,
            direct_cosine,
            quantized_encoding,
            quantize_trees,
        },
    )
}

/// Options that are accepted quantize only normalized cosine data, and trees only together with
/// vectors that have scales of their own.
pub proof fn accepted_options_go_together(
    metric: Seq<char>,
    normalize: bool,
    cosine_distance_mode: Seq<char>,
    tree_quantization: Seq<char>,
    candidate_width: usize,
    rerank_width: usize,
    options: Options,
)
    requires
        option_fault(
            metric,
            normalize,
            cosine_distance_mode,
            tree_quantization,
            candidate_width,
            rerank_width,
        ) is None,
        metric::name_of(options.metric) == metric,
        options.normalize_cosine == (normalize && options.metric is Cosine),
        cosine_mode(cosine_distance_mode) == Some(
            (options.direct_cosine, options.quantized_encoding),
        ),
        tree_quantization_mode(tree_quantization) == Some(options.quantize_trees),
    ensures
        options.quantized_encoding is Some ==> options.direct_cosine,
        options.direct_cosine ==> options.normalize_cosine && options.metric is Cosine,
        options.quantize_trees ==> options.quantized_encoding is Some
            && options.quantized_encoding != Some(QuantizedI8Encoding::GlobalSymmetric),
        candidate_width == 0 || rerank_width <= candidate_width,
{
    if options.direct_cosine {
        Metric::names_are_distinct(options.metric, Metric::Cosine);
    }
}

/// The distance that is computed during construction and search.
#[derive(Clone, Copy, PartialEq, Eq, Structural, Debug)]
pub enum Kernel {
    /// The metric itself.
    Direct(Metric),
    /// The squared Euclidean distance.
    SquaredEuclidean,
    /// The logarithm of a dot product.
    AlternativeDot,
    /// The logarithm of a cosine.
    AlternativeCosine,
    /// The reciprocal of an inner product.
    AlternativeInnerProduct,
    /// One minus the dot product of normalized vectors.
    DirectNormalizedCosine,
}

/// How computed distances are turned into those that are shown.
#[derive(Clone, Copy, PartialEq, Eq, Structural, Debug)]
pub enum Correction {
    /// They are shown as they are.
    Identity,
    /// By the square root.
    Root,
    /// By undoing the logarithm of a cosine.
    AlternativeCosine,
    /// By undoing the reciprocal of an inner product.
    AlternativeInnerProduct,
}

/// What an index computes with.
#[derive(Clone, Copy, PartialEq, Eq, Structural, Debug)]
pub struct Plan {
    /// The distance that is computed.
    pub kernel: Kernel,
    /// How it is shown.
    pub correction: Correction,
    /// How vectors are coded, if they are.
    pub encoding: Option<QuantizedI8Encoding>,
}

/// What options compute with: metrics with a fast alternative use it and are corrected, the others
/// are computed directly.
pub open spec fn planned(options: Options) -> Plan {
    match options.metric {
        Metric::Euclidean | Metric::L2 => Plan {
            kernel: Kernel::SquaredEuclidean,
            correction: Correction::Root,
            encoding: None,
        },
        Metric::SquaredEuclidean => Plan {
            kernel: Kernel::SquaredEuclidean,
            correction: Correction::Identity,
            encoding: None,
        },
        Metric::Cosine => if !options.normalize_cosine {
            Plan {
                kernel: Kernel::AlternativeCosine,
                correction: Correction::AlternativeCosine,
                encoding: None,
            }
        } else if options.quantized_encoding is Some {
            Plan {
                kernel: Kernel::DirectNormalizedCosine,
                correction: Correction::Identity,
                encoding: options.quantized_encoding,
            }
        } else if options.direct_cosine {
            Plan {
                kernel: Kernel::DirectNormalizedCosine,
                correction: Correction::Identity,
                encoding: None,
            }
        } else {
            Plan {
                kernel: Kernel::AlternativeDot,
                correction: Correction::AlternativeCosine,
                encoding: None,
            }
        },
        Metric::Dot => Plan {
            kernel: Kernel::AlternativeDot,
            correction: Correction::AlternativeCosine,
            encoding: None,
        },
        Metric::InnerProduct => Plan {
            kernel: Kernel::AlternativeInnerProduct,
            correction: Correction::AlternativeInnerProduct,
            encoding: None,
        },
        m => Plan { kernel: Kernel::Direct(m), correction: Correction::Identity, encoding: None },
    }
}

/// What is computed and how it is shown belong together, whatever the options: a distance that is
/// computed as it is shown needs no correction, and every other has the correction that undoes it.
/// Only normalized cosine vectors are coded, and their coding is the one asked for.
pub proof fn corrections_belong_to_their_kernels(options: Options)
    ensures
        ({
            let p = planned(options);
            &&& p.correction == match p.kernel {
                Kernel::Direct(_) => Correction::Identity,
                Kernel::DirectNormalizedCosine => Correction::Identity,
                Kernel::SquaredEuclidean => if options.metric is SquaredEuclidean {
                    Correction::Identity
                } else {
                    Correction::Root
                },
                Kernel::AlternativeDot => Correction::AlternativeCosine,
                Kernel::AlternativeCosine => Correction::AlternativeCosine,
                Kernel::AlternativeInnerProduct => Correction::AlternativeInnerProduct,
            }
            &&& p.kernel is SquaredEuclidean <==> options.metric is Euclidean || options.metric
                is L2 || options.metric is SquaredEuclidean
            &&& p.kernel is AlternativeInnerProduct <==> options.metric is InnerProduct
            &&& p.kernel is AlternativeCosine <==> options.metric is Cosine
                && !options.normalize_cosine
            &&& p.kernel is DirectNormalizedCosine <==> options.metric is Cosine
                && options.normalize_cosine && (options.direct_cosine
                || options.quantized_encoding is Some)
            &&& p.kernel is AlternativeDot <==> options.metric is Dot || (options.metric is Cosine
                && options.normalize_cosine && !options.direct_cosine
                && options.quantized_encoding is None)
            &&& p.kernel matches Kernel::Direct(m) ==> m == options.metric
            &&& p.encoding == if options.metric is Cosine && options.normalize_cosine {
                options.quantized_encoding
            } else {
                None
            }
        }),
{
}

/// Trees split by direction where the distance computed is one between directions, and by position
/// where it is the Euclidean one; and of the metrics that are computed directly, by direction for
/// correlation, the true angle, and triangle and sector areas.
pub proof fn trees_split_as_kernels_measure(options: Options)
    ensures
        match planned(options).kernel {
            Kernel::SquaredEuclidean => !options.metric.angular(),
            Kernel::AlternativeDot
            | Kernel::AlternativeCosine
            | Kernel::AlternativeInnerProduct
            | Kernel::DirectNormalizedCosine => options.metric.angular(),
            Kernel::Direct(m) => m.angular() == (m is Correlation || m is TrueAngular || m
                is TSSS),
        },
{
}

/// Decide what to compute with.
pub fn plan(options: Options) -> (r: Plan)
    ensures
        r == planned(options),
{
    match options.metric {
        Metric::Euclidean | Metric::L2 => Plan {
            kernel: Kernel::SquaredEuclidean,
            correction: Correction::Root,
            encoding: None,
        },
        Metric::SquaredEuclidean => Plan {
            kernel: Kernel::SquaredEuclidean,
            correction: Correction::Identity,
            encoding: None,
        },
        Metric::Cosine => if options.normalize_cosine {
            if options.quantized_encoding.is_some() {
                Plan {
                    kernel: Kernel::DirectNormalizedCosine,
                    correction: Correction::Identity,
                    encoding: options.quantized_encoding,
                }
            } else if options.direct_cosine {
                Plan {
                    kernel: Kernel::DirectNormalizedCosine,
                    correction: Correction::Identity,
                    encoding: None,
                }
            } else {
                Plan {
                    kernel: Kernel::AlternativeDot,
                    correction: Correction::AlternativeCosine,
                    encoding: None,
                }
            }
        } else {
            Plan {
                kernel: Kernel::AlternativeCosine,
                correction: Correction::AlternativeCosine,
                encoding: None,
            }
        },
        Metric::Dot => Plan {
            kernel: Kernel::AlternativeDot,
            correction: Correction::AlternativeCosine,
            encoding: None,
        },
        Metric::InnerProduct => Plan {
            kernel: Kernel::AlternativeInnerProduct,
            correction: Correction::AlternativeInnerProduct,
            encoding: None,
        },
        m => Plan { kernel: Kernel::Direct(m), correction: Correction::Identity, encoding: None },
    }
}

/// Which threads work for an index.
#[derive(Clone, Copy, PartialEq, Eq, Structural, Debug)]
pub enum Workers {
    /// Those of the pool that all indexes share.
    Shared,
    /// A pool of its own, with a thread for every core that is available.
    AllCores,
    /// A pool of its own, with so many threads.
    Exactly(usize),
}

/// A number of jobs that means nothing: zero, or a negative number other than minus one.
#[derive(Clone, Copy, PartialEq, Eq, Structural, Debug)]
pub struct JobsError;

/// The threads that a number of jobs asks for: the shared ones where none is given, all cores for
/// minus one, and exactly so many for a positive number.
pub fn parse_jobs(n_jobs: Option<i32>) -> (r: Result<Workers, JobsError>)
    ensures
        r is Err <==> (n_jobs matches Some(n) && (n == 0 || n < -1)),
        n_jobs is None ==> r == Ok::<Workers, JobsError>(Workers::Shared),
        n_jobs matches Some(n) ==> n == -1 ==> r == Ok::<Workers, JobsError>(Workers::AllCores),
        n_jobs matches Some(n) ==> n > 0 ==> r == Ok::<Workers, JobsError>(
            Workers::Exactly(n as usize),
        ),
{
    match n_jobs {
        None => Ok(Workers::Shared),
        Some(n) => if n == -1 {
            Ok(Workers::AllCores)
        } else if n > 0 {
            Ok(Workers::Exactly(n as usize))
        } else {
            Err(JobsError)
        },
    }
}

/// The number of trees to build: what is given, or else [`DEFAULT_TREES`].
pub fn tree_count(n_trees: Option<usize>) -> (r: usize)
    ensures
        r == (match n_trees {
            Some(n) => n,
            None => DEFAULT_TREES,
        }),
{
    match n_trees {
        Some(n) => n,
        None => DEFAULT_TREES,
    }
}

} // verus!
