//! Bidirectional trust between two agents.

use vstd::prelude::*;
use crate::event::{TrustEvent, impact_of};
use crate::score::{clamp, clamp_wide, clamped, in_bounds};
use crate::stage::{TrustStage, stage_of, rank};

verus! {

/// Bidirectional trust scores between two agents (A and B).
#[derive(Debug, Clone, PartialEq, Eq, Structural)]
pub struct TrustRelation {
    /// How much A trusts B.
    pub a_trusts_b: i32,
    /// How much B trusts A.
    pub b_trusts_a: i32,
}

/// A score after an event's impact, clamped to the trust bounds.
pub open spec fn after_event(score: int, event: TrustEvent) -> int {
    clamped(score + impact_of(event))
}

/// Both directions are at least at the `Acquaintance` stage.
pub open spec fn mutual_acquaintance(r: TrustRelation) -> bool {
    rank(stage_of(r.a_trusts_b as int)) >= rank(TrustStage::Acquaintance)
        && rank(stage_of(r.b_trusts_a as int)) >= rank(TrustStage::Acquaintance)
}

impl TrustRelation {
    /// Create a new relation starting at neutral trust (0, 0).
    pub fn new() -> (r: Self)
        ensures
            r.a_trusts_b == 0,
            r.b_trusts_a == 0,
    {
        Self { a_trusts_b: 0, b_trusts_a: 0 }
    }

    /// Create from explicit scores, each clamped to the trust bounds.
    pub fn from_scores(a: i32, b: i32) -> (r: Self)
        ensures
            r.a_trusts_b == clamped(a as int),
            r.b_trusts_a == clamped(b as int),
            in_bounds(r.a_trusts_b as int),
            in_bounds(r.b_trusts_a as int),
    {
        Self { a_trusts_b: clamp(a), b_trusts_a: clamp(b) }
    }

    /// Apply an event from A toward B (affects `a_trusts_b`).
    pub fn apply_event_a_to_b(&mut self, event: TrustEvent)
        ensures
            final(self).a_trusts_b == after_event(old(self).a_trusts_b as int, event),
            final(self).b_trusts_a == old(self).b_trusts_a,
            in_bounds(final(self).a_trusts_b as int),
    {
        self.a_trusts_b = clamp_wide(self.a_trusts_b as i64 + event.impact() as i64);
    }

    /// Apply an event from B toward A (affects `b_trusts_a`).
    pub fn apply_event_b_to_a(&mut self, event: TrustEvent)
        ensures
            final(self).b_trusts_a == after_event(old(self).b_trusts_a as int, event),
            final(self).a_trusts_b == old(self).a_trusts_b,
            in_bounds(final(self).b_trusts_a as int),
    {
        self.b_trusts_a = clamp_wide(self.b_trusts_a as i64 + event.impact() as i64);
    }

    /// Trust stage of A toward B.
    pub fn stage_a_to_b(&self) -> (s: TrustStage)
        ensures
            s == stage_of(self.a_trusts_b as int),
    {
        TrustStage::from_trust(self.a_trusts_b)
    }

    /// Trust stage of B toward A.
    pub fn stage_b_to_a(&self) -> (s: TrustStage)
        ensures
            s == stage_of(self.b_trusts_a as int),
    {
        TrustStage::from_trust(self.b_trusts_a)
    }

    /// Are both directions at least Acquaintance?
    pub fn is_mutual_acquaintance(&self) -> (b: bool)
        ensures
            b == mutual_acquaintance(*self),
            b == (self.a_trusts_b >= 0 && self.b_trusts_a >= 0),
    {
        self.stage_a_to_b().ordinal() >= TrustStage::Acquaintance.ordinal()
            && self.stage_b_to_a().ordinal() >= TrustStage::Acquaintance.ordinal()
    }
}

impl Default for TrustRelation {
    fn default() -> (r: Self)
        ensures
            r.a_trusts_b == 0,
            r.b_trusts_a == 0,
    {
        Self::new()
    }
}

/// An event moves a score by the value it carries, clamped to the trust
/// bounds; the kind of the event plays no part.
pub proof fn lemma_event_adds_carried_value(score: int, v: i32)
    ensures
        after_event(score, TrustEvent::Cooperate(v)) == clamped(score + v),
        after_event(score, TrustEvent::Defect(v)) == clamped(score + v),
        after_event(score, TrustEvent::Ignore(v)) == clamped(score + v),
        after_event(score, TrustEvent::Forgive(v)) == clamped(score + v),
        after_event(score, TrustEvent::Betray(v)) == clamped(score + v),
{
}

} // verus!
