//! The five trust stages and the mapping from raw scores to stages.

use vstd::prelude::*;

verus! {

/// Trust stages, from hostile to deeply bonded.
///
/// | Stage         | Trust range |
/// |---------------|-------------|
/// | Stranger      | below -20   |
/// | Wary          | -20 … -1    |
/// | Acquaintance  |   0 … 19    |
/// | Friend        |  20 … 49    |
/// | Companion     | 50 and above|
#[derive(Debug, Clone, Copy, PartialEq, Eq, Structural, Hash)]
pub enum TrustStage {
    /// Hostile or unknown — trust below -20.
    Stranger,
    /// Cautious — trust from -20 up to, not including, 0.
    Wary,
    /// Known but not close — trust from 0 up to, not including, 20.
    Acquaintance,
    /// Positive regard — trust from 20 up to, not including, 50.
    Friend,
    /// Deep bond — trust of 50 and above.
    Companion,
}

/// The stage that a raw score falls in.
pub open spec fn stage_of(score: int) -> TrustStage {
    if score < -20 {
        TrustStage::Stranger
    } else if score < 0 {
        TrustStage::Wary
    } else if score < 20 {
        TrustStage::Acquaintance
    } else if score < 50 {
        TrustStage::Friend
    } else {
        TrustStage::Companion
    }
}

/// Position of a stage on the scale, 0 for `Stranger` up to 4 for `Companion`.
pub open spec fn rank(stage: TrustStage) -> nat {
    match stage {
        TrustStage::Stranger => 0,
        TrustStage::Wary => 1,
        TrustStage::Acquaintance => 2,
        TrustStage::Friend => 3,
        TrustStage::Companion => 4,
    }
}

/// The human-readable name of a stage.
pub open spec fn name_of(stage: TrustStage) -> Seq<char> {
    match stage {
        TrustStage::Stranger => "Stranger"@,
        TrustStage::Wary => "Wary"@,
        TrustStage::Acquaintance => "Acquaintance"@,
        TrustStage::Friend => "Friend"@,
        TrustStage::Companion => "Companion"@,
    }
}

impl TrustStage {
    /// Determine the trust stage from a raw trust score.
    pub fn from_trust(score: i32) -> (stage: Self)
        ensures
            stage == stage_of(score as int),
    {
        if score < -20 {
            TrustStage::Stranger
        } else if score < 0 {
            TrustStage::Wary
        } else if score < 20 {
            TrustStage::Acquaintance
        } else if score < 50 {
            TrustStage::Friend
        } else {
            TrustStage::Companion
        }
    }

    /// Human-readable display name.
    pub fn display_name(&self) -> (name: &'static str)
        ensures
            name@ == name_of(*self),
    {
        match self {
            TrustStage::Stranger => "Stranger",
            TrustStage::Wary => "Wary",
            TrustStage::Acquaintance => "Acquaintance",
            TrustStage::Friend => "Friend",
            TrustStage::Companion => "Companion",
        }
    }

    /// The display name as an owned string.
    pub fn to_string(&self) -> (text: String)
        ensures
            text@ == name_of(*self),
    {
        self.display_name().to_owned()
    }

    /// Ordinal value (0 = Stranger … 4 = Companion).
    pub fn ordinal(&self) -> (n: u8)
        ensures
            n == rank(*self),
    {
        match self {
            TrustStage::Stranger => 0,
            TrustStage::Wary => 1,
            TrustStage::Acquaintance => 2,
            TrustStage::Friend => 3,
            TrustStage::Companion => 4,
        }
    }
}

/// A higher score never gives a lower stage.
pub proof fn lemma_stage_monotone(low: int, high: int)
    requires
        low <= high,
    ensures
        rank(stage_of(low)) <= rank(stage_of(high)),
{
}

/// Distinct stages have distinct ordinals.
pub proof fn lemma_rank_injective(s: TrustStage, t: TrustStage)
    ensures
        rank(s) == rank(t) ==> s == t,
{
}

} // verus!
