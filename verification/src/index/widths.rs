//! How many candidates a quantized search keeps, and how many of them are ranked again.

use vstd::prelude::*;

verus! {

/// Why two widths cannot be used together.
#[derive(Clone, Copy, PartialEq, Eq, Structural, Debug)]
pub enum WidthError {
    /// Fewer candidates than results.
    CandidatesBelowK {
        /// The candidate width.
        candidate_width: usize,
        /// The number of results.
        k: usize,
    },
    /// More candidates to be ranked again than there are.
    RerankAboveCandidates {
        /// The rerank width.
        rerank_width: usize,
        /// The candidate width.
        candidate_width: usize,
    },
    /// Some candidates to be ranked again, but fewer than results.
    RerankBelowK {
        /// The rerank width.
        rerank_width: usize,
        /// The number of results.
        k: usize,
    },
}

/// The number of candidates that a quantized search keeps; a width of zero stands for as many as
/// are needed.
pub open spec fn resolved(k: usize, candidate_width: usize, rerank_width: usize) -> usize {
    if candidate_width != 0 {
        candidate_width
    } else if k < rerank_width {
        rerank_width
    } else {
        k
    }
}

/// The widths can be used together: the candidates suffice for the results and for what is ranked
/// again, and under an explicit width either nothing is ranked again or enough for the results.
pub open spec fn widths_fit(k: usize, candidate_width: usize, rerank_width: usize) -> bool {
    &&& resolved(k, candidate_width, rerank_width) >= k
    &&& rerank_width <= resolved(k, candidate_width, rerank_width)
    &&& candidate_width == 0 || rerank_width == 0 || rerank_width >= k
}

/// The first thing that is wrong with two widths.
pub open spec fn width_fault(k: usize, candidate_width: usize, rerank_width: usize) -> Option<
    WidthError,
> {
    if candidate_width == 0 {
        None
    } else if candidate_width < k {
        Some(WidthError::CandidatesBelowK { candidate_width, k })
    } else if rerank_width > candidate_width {
        Some(WidthError::RerankAboveCandidates { rerank_width, candidate_width })
    } else if 0 < rerank_width < k {
        Some(WidthError::RerankBelowK { rerank_width, k })
    } else {
        None
    }
}

/// Widths without a fault can be used together, and only such widths.
pub proof fn faultless_widths_fit(k: usize, candidate_width: usize, rerank_width: usize)
    ensures
        width_fault(k, candidate_width, rerank_width) is None <==> widths_fit(
            k,
            candidate_width,
            rerank_width,
        ),
{
}

/// An explicit candidate width is kept to. Without one there are as many candidates as results, or
/// as are to be ranked again where these are more, and nothing is ever wrong. Under an explicit
/// width what is wrong is reported with the widths that are at odds.
pub proof fn widths_are_kept_to(k: usize, candidate_width: usize, rerank_width: usize)
    ensures
        candidate_width > 0 ==> resolved(k, candidate_width, rerank_width) == candidate_width,
        candidate_width == 0 && rerank_width <= k ==> resolved(k, candidate_width, rerank_width)
            == k,
        candidate_width == 0 && k <= rerank_width ==> resolved(k, candidate_width, rerank_width)
            == rerank_width,
        candidate_width == 0 ==> widths_fit(k, candidate_width, rerank_width),
        widths_fit(k, candidate_width, rerank_width) && candidate_width > 0 ==> k
            <= candidate_width && rerank_width <= candidate_width && (rerank_width == 0 || k
            <= rerank_width),
        width_fault(k, candidate_width, rerank_width) matches Some(fault) ==> match fault {
            WidthError::CandidatesBelowK { candidate_width: c, k: n } => c == candidate_width && n
                == k && 0 < c < n,
            WidthError::RerankAboveCandidates { rerank_width: w, candidate_width: c } => w
                == rerank_width && c == candidate_width && k <= c < w,
            WidthError::RerankBelowK { rerank_width: w, k: n } => w == rerank_width && n == k && 0
                < w < n,
        },
        reranks(k, candidate_width, rerank_width) <==> rerank_width > 0 && (candidate_width > 0
            || rerank_width > k),
{
}

/// Check that two widths can be used together.
pub fn validate_quantized_widths(k: usize, candidate_width: usize, rerank_width: usize) -> (r:
    Result<(), WidthError>)
    ensures
        r is Ok <==> widths_fit(k, candidate_width, rerank_width),
        r matches Err(e) ==> width_fault(k, candidate_width, rerank_width) == Some(e),
{
    if candidate_width == 0 {
        return Ok(());
    }
    if candidate_width < k {
        return Err(WidthError::CandidatesBelowK { candidate_width, k });
    }
    if rerank_width > candidate_width {
        return Err(WidthError::RerankAboveCandidates { rerank_width, candidate_width });
    }
    if rerank_width > 0 && rerank_width < k {
        return Err(WidthError::RerankBelowK { rerank_width, k });
    }
    Ok(())
}

/// The number of candidates that a quantized search keeps.
pub fn resolve_quantized_candidate_width(
    k: usize,
    candidate_width: usize,
    rerank_width: usize,
) -> (r: usize)
    requires
        widths_fit(k, candidate_width, rerank_width),
    ensures
        r == resolved(k, candidate_width, rerank_width),
        r >= k,
        r >= rerank_width,
{
    if candidate_width != 0 {
        candidate_width
    } else if k < rerank_width {
        rerank_width
    } else {
        k
    }
}

/// Whether candidates are ranked again: under an explicit candidate width where a rerank width is
/// given, and under none where that exceeds the number of results.
pub open spec fn reranks(k: usize, candidate_width: usize, rerank_width: usize) -> bool {
    if candidate_width == 0 {
        rerank_width > k
    } else {
        rerank_width > 0
    }
}

/// Whether candidates are ranked again by their exact distances.
///
/// Without an explicit candidate width, a rerank width at or below `k` ranks nothing again.
pub fn should_rerank_quantized(k: usize, candidate_width: usize, rerank_width: usize) -> (r: bool)
    ensures
        r == reranks(k, candidate_width, rerank_width),
{
    if candidate_width == 0 {
        rerank_width > k
    } else {
        rerank_width > 0
    }
}

} // verus!
