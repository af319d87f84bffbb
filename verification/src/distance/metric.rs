//! The named metrics.

use crate::text::same;
use vstd::prelude::*;

verus! {

/// A named metric.
#[derive(Clone, Copy, PartialEq, Eq, Structural, Debug)]
pub enum Metric {
    Euclidean,
    L2,
    SquaredEuclidean,
    Manhattan,
    Chebyshev,
    Canberra,
    BrayCurtis,
    Cosine,
    Dot,
    InnerProduct,
    Correlation,
    TrueAngular,
    TSSS,
    Hamming,
    Jaccard,
    Dice,
    Matching,
    Kulsinski,
    RogersTanimoto,
    RussellRao,
    SokalMichener,
    SokalSneath,
    Yule,
    Hellinger,
    JensenShannon,
    SymmetricKL,
}

/// The name of a metric.
pub open spec fn name_of(m: Metric) -> Seq<char> {
    match m {
        Metric::Euclidean => "euclidean"@,
        Metric::L2 => "l2"@,
        Metric::SquaredEuclidean => "sqeuclidean"@,
        Metric::Manhattan => "manhattan"@,
        Metric::Chebyshev => "chebyshev"@,
        Metric::Canberra => "canberra"@,
        Metric::BrayCurtis => "braycurtis"@,
        Metric::Cosine => "cosine"@,
        Metric::Dot => "dot"@,
        Metric::InnerProduct => "inner_product"@,
        Metric::Correlation => "correlation"@,
        Metric::TrueAngular => "true_angular"@,
        Metric::TSSS => "tsss"@,
        Metric::Hamming => "hamming"@,
        Metric::Jaccard => "jaccard"@,
        Metric::Dice => "dice"@,
        Metric::Matching => "matching"@,
        Metric::Kulsinski => "kulsinski"@,
        Metric::RogersTanimoto => "rogerstanimoto"@,
        Metric::RussellRao => "russellrao"@,
        Metric::SokalMichener => "sokalmichener"@,
        Metric::SokalSneath => "sokalsneath"@,
        Metric::Yule => "yule"@,
        Metric::Hellinger => "hellinger"@,
        Metric::JensenShannon => "jensen_shannon"@,
        Metric::SymmetricKL => "symmetric_kl"@,
    }
}

impl Metric {
    /// Trees split by direction rather than by position under these metrics.
    pub open spec fn angular(self) -> bool {
        self is Cosine || self is InnerProduct || self is Dot || self is Correlation
            || self is TrueAngular || self is TSSS
    }

    /// Whether trees split by direction rather than by position.
    pub fn is_angular(self) -> (r: bool)
        ensures
            r == self.angular(),
    {
        matches!(
            self,
            Metric::Cosine
                | Metric::InnerProduct
                | Metric::Dot
                | Metric::Correlation
                | Metric::TrueAngular
                | Metric::TSSS
        )
    }

    /// The metric of a given name.
    pub fn from_str(name: &str) -> (r: Option<Metric>)
        ensures
            r matches Some(m) ==> name_of(m) == name@,
            r is None ==> forall|m: Metric| #[trigger] name_of(m) != name@,
    {
        if same(name, "euclidean") {
            Some(Metric::Euclidean)
        } else if same(name, "l2") {
            Some(Metric::L2)
        } else if same(name, "sqeuclidean") {
            Some(Metric::SquaredEuclidean)
        } else if same(name, "manhattan") {
            Some(Metric::Manhattan)
        } else if same(name, "chebyshev") {
            Some(Metric::Chebyshev)
        } else if same(name, "canberra") {
            Some(Metric::Canberra)
        } else if same(name, "braycurtis") {
            Some(Metric::BrayCurtis)
        } else if same(name, "cosine") {
            Some(Metric::Cosine)
        } else if same(name, "dot") {
            Some(Metric::Dot)
        } else if same(name, "inner_product") {
            Some(Metric::InnerProduct)
        } else if same(name, "correlation") {
            Some(Metric::Correlation)
        } else if same(name, "true_angular") {
            Some(Metric::TrueAngular)
        } else if same(name, "tsss") {
            Some(Metric::TSSS)
        } else if same(name, "hamming") {
            Some(Metric::Hamming)
        } else if same(name, "jaccard") {
            Some(Metric::Jaccard)
        } else if same(name, "dice") {
            Some(Metric::Dice)
        } else if same(name, "matching") {
            Some(Metric::Matching)
        } else if same(name, "kulsinski") {
            Some(Metric::Kulsinski)
        } else if same(name, "rogerstanimoto") {
            Some(Metric::RogersTanimoto)
        } else if same(name, "russellrao") {
            Some(Metric::RussellRao)
        } else if same(name, "sokalmichener") {
            Some(Metric::SokalMichener)
        } else if same(name, "sokalsneath") {
            Some(Metric::SokalSneath)
        } else if same(name, "yule") {
            Some(Metric::Yule)
        } else if same(name, "hellinger") {
            Some(Metric::Hellinger)
        } else if same(name, "jensen_shannon") {
            Some(Metric::JensenShannon)
        } else if same(name, "symmetric_kl") {
            Some(Metric::SymmetricKL)
        } else {
            None
        }
    }

    /// No two metrics have the same name, so a name finds its metric.
    pub proof fn names_are_distinct(a: Metric, b: Metric)
        requires
            name_of(a) == name_of(b),
        ensures
            a == b,
    {
        reveal_strlit("euclidean");
        reveal_strlit("l2");
        reveal_strlit("sqeuclidean");
        reveal_strlit("manhattan");
        reveal_strlit("chebyshev");
        reveal_strlit("canberra");
        reveal_strlit("braycurtis");
        reveal_strlit("cosine");
        reveal_strlit("dot");
        reveal_strlit("inner_product");
        reveal_strlit("correlation");
        reveal_strlit("true_angular");
        reveal_strlit("tsss");
        reveal_strlit("hamming");
        reveal_strlit("jaccard");
        reveal_strlit("dice");
        reveal_strlit("matching");
        reveal_strlit("kulsinski");
        reveal_strlit("rogerstanimoto");
        reveal_strlit("russellrao");
        reveal_strlit("sokalmichener");
        reveal_strlit("sokalsneath");
        reveal_strlit("yule");
        reveal_strlit("hellinger");
        reveal_strlit("jensen_shannon");
        reveal_strlit("symmetric_kl");
        let x = name_of(a);
        let y = name_of(b);
        assert(x.len() == y.len() && x[0] == y[0] && x[1] == y[1] && x[2] == y[2]);
    }
}

} // verus!
