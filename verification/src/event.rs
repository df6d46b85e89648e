//! Actions that affect trust.

use vstd::prelude::*;

verus! {

/// Actions that affect trust, each with a ternary impact magnitude.
#[derive(Debug, Clone, Copy, PartialEq, Eq, Structural)]
pub enum TrustEvent {
    /// Positive cooperation. Default impact: +10.
    Cooperate(i32),
    /// Defection / non-cooperation. Default impact: -15.
    Defect(i32),
    /// Ignoring an agent. Default impact: -5.
    Ignore(i32),
    /// Forgiveness gesture. Default impact: +8.
    Forgive(i32),
    /// Serious betrayal. Default impact: -30.
    Betray(i32),
}

/// The impact an event carries.
pub open spec fn impact_of(event: TrustEvent) -> int {
    match event {
        TrustEvent::Cooperate(v) => v as int,
        TrustEvent::Defect(v) => v as int,
        TrustEvent::Ignore(v) => v as int,
        TrustEvent::Forgive(v) => v as int,
        TrustEvent::Betray(v) => v as int,
    }
}

/// The customary impact of an event's kind, whatever it carries.
pub open spec fn default_impact_of(event: TrustEvent) -> int {
    match event {
        TrustEvent::Cooperate(_) => 10,
        TrustEvent::Defect(_) => -15,
        TrustEvent::Ignore(_) => -5,
        TrustEvent::Forgive(_) => 8,
        TrustEvent::Betray(_) => -30,
    }
}

impl TrustEvent {
    /// The customary impact of this kind of event.
    pub fn default_impact(&self) -> (v: i32)
        ensures
            v == default_impact_of(*self),
    {
        match self {
            TrustEvent::Cooperate(_) => 10,
            TrustEvent::Defect(_) => -15,
            TrustEvent::Ignore(_) => -5,
            TrustEvent::Forgive(_) => 8,
            TrustEvent::Betray(_) => -30,
        }
    }

    /// Get the effective impact value.
    pub fn impact(&self) -> (v: i32)
        ensures
            v == impact_of(*self),
            self matches TrustEvent::Cooperate(x) ==> v == x,
            self matches TrustEvent::Defect(x) ==> v == x,
            self matches TrustEvent::Ignore(x) ==> v == x,
            self matches TrustEvent::Forgive(x) ==> v == x,
            self matches TrustEvent::Betray(x) ==> v == x,
    {
        match self {
            TrustEvent::Cooperate(v) => *v,
            TrustEvent::Defect(v) => *v,
            TrustEvent::Ignore(v) => *v,
            TrustEvent::Forgive(v) => *v,
            TrustEvent::Betray(v) => *v,
        }
    }

    /// Is this a positive (trust-increasing) event?
    pub fn is_positive(&self) -> (b: bool)
        ensures
            b == (impact_of(*self) > 0),
    {
        self.impact() > 0
    }

    /// Is this a negative (trust-decreasing) event?
    pub fn is_negative(&self) -> (b: bool)
        ensures
            b == (impact_of(*self) < 0),
    {
        self.impact() < 0
    }
}

impl Default for TrustEvent {
    fn default() -> (e: Self)
        ensures
            e == TrustEvent::Cooperate(10),
    {
        TrustEvent::Cooperate(10)
    }
}

/// No event is both positive and negative, and an event is neither exactly
/// when its impact is zero.
pub proof fn lemma_event_sign(event: TrustEvent)
    ensures
        !(impact_of(event) > 0 && impact_of(event) < 0),
        !(impact_of(event) > 0) && !(impact_of(event) < 0) <==> impact_of(event) == 0,
{
}

/// The impact of every event is the value it carries, whatever its kind:
/// events of different kinds carrying the same value have the same impact.
pub proof fn lemma_impact_is_carried_value(v: i32)
    ensures
        impact_of(TrustEvent::Cooperate(v)) == v,
        impact_of(TrustEvent::Defect(v)) == v,
        impact_of(TrustEvent::Ignore(v)) == v,
        impact_of(TrustEvent::Forgive(v)) == v,
        impact_of(TrustEvent::Betray(v)) == v,
{
}

} // verus!
