//! A graph of trust relations between named agents.

use vstd::prelude::*;
use crate::average::{
    average_below, average_less, lemma_average_not_below_transitive, lemma_average_below_asymmetric,
    lemma_average_below_then_not_below,
};
use crate::event::TrustEvent;
use crate::names::{
    Precedence, canonical, lex_le, name_precedence, lemma_lex_total,
    lemma_lex_antisymmetric, lemma_canonical_symmetric,
};
use crate::relation::{TrustRelation, after_event};
use crate::score::in_bounds;

verus! {

/// What a network holds: its agents in the order they joined, and one
/// relation for each pair of distinct agents, under the pair's canonical key.
pub struct NetworkView {
    /// The agents' names, in order of registration.
    pub agents: Seq<Seq<char>>,
    /// The relation of each pair, keyed by `canonical(a, b)`; its `a_trusts_b`
    /// is how much the lexicographically smaller name trusts the other.
    pub relations: Map<(Seq<char>, Seq<char>), TrustRelation>,
}

/// `k` is the canonical key of two distinct registered agents.
pub open spec fn is_pair_key(agents: Seq<Seq<char>>, k: (Seq<char>, Seq<char>)) -> bool {
    &&& agents.contains(k.0)
    &&& agents.contains(k.1)
    &&& k.0 != k.1
    &&& lex_le(k.0, k.1)
}

/// A relation at neutral trust in both directions.
pub open spec fn neutral(r: TrustRelation) -> bool {
    r.a_trusts_b == 0 && r.b_trusts_a == 0
}

/// A relation after an event from one side toward the other: `forward`
/// means from the lexicographically smaller name (side A) toward B.
pub open spec fn relation_after(r: TrustRelation, forward: bool, event: TrustEvent) -> TrustRelation {
    if forward {
        TrustRelation { a_trusts_b: after_event(r.a_trusts_b as int, event) as i32, b_trusts_a: r.b_trusts_a }
    } else {
        TrustRelation { a_trusts_b: r.a_trusts_b, b_trusts_a: after_event(r.b_trusts_a as int, event) as i32 }
    }
}

/// The names of a sequence, first occurrences only, in order.
pub open spec fn first_occurrences(s: Seq<Seq<char>>) -> Seq<Seq<char>>
    decreases s.len(),
{
    if s.len() == 0 {
        s
    } else {
        let rest = first_occurrences(s.drop_last());
        if rest.contains(s.last()) {
            rest
        } else {
            rest.push(s.last())
        }
    }
}

impl NetworkView {
    /// Names are distinct and there is a relation for exactly the pairs of
    /// distinct agents.
    pub open spec fn consistent(self) -> bool {
        &&& self.agents.no_duplicates()
        &&& forall|k: (Seq<char>, Seq<char>)| #[trigger]
            self.relations.contains_key(k) <==> is_pair_key(self.agents, k)
    }

    /// The relation between `a` and `b`, if both are distinct registered agents.
    pub open spec fn relation(self, a: Seq<char>, b: Seq<char>) -> Option<TrustRelation> {
        if self.relations.contains_key(canonical(a, b)) {
            Some(self.relations[canonical(a, b)])
        } else {
            None
        }
    }

    /// How much `from` trusts `to`, read from their relation.
    pub open spec fn trust(self, from: Seq<char>, to: Seq<char>) -> int {
        let r = self.relations[canonical(from, to)];
        if lex_le(from, to) {
            r.a_trusts_b as int
        } else {
            r.b_trusts_a as int
        }
    }

    /// The sum of the trust that the first `n` agents other than `x` have in `x`.
    pub open spec fn incoming_total(self, x: Seq<char>, n: int) -> int
        decreases n,
    {
        if n <= 0 {
            0
        } else {
            self.incoming_total(x, n - 1) + if self.agents[n - 1] != x {
                self.trust(self.agents[n - 1], x)
            } else {
                0
            }
        }
    }

    /// How many of the first `n` agents are other than `x`.
    pub open spec fn incoming_count(self, x: Seq<char>, n: int) -> nat
        decreases n,
    {
        if n <= 0 {
            0
        } else {
            self.incoming_count(x, n - 1) + if self.agents[n - 1] != x {
                1nat
            } else {
                0nat
            }
        }
    }

    /// The sum of the trust that all others have in `x` (zero for an unknown agent).
    pub open spec fn reputation_total(self, x: Seq<char>) -> int {
        if self.agents.contains(x) {
            self.incoming_total(x, self.agents.len() as int)
        } else {
            0
        }
    }

    /// How many others have a relation with `x` (zero for an unknown agent).
    pub open spec fn reputation_count(self, x: Seq<char>) -> nat {
        if self.agents.contains(x) {
            self.incoming_count(x, self.agents.len() as int)
        } else {
            0
        }
    }

    /// The average trust that others have in `x` is strictly below that in `y`.
    pub open spec fn reputation_below(self, x: Seq<char>, y: Seq<char>) -> bool {
        average_below(self.reputation_total(x), self.reputation_count(x), self.reputation_total(y), self.reputation_count(y))
    }

    /// Agent `i` has the highest average trust from others, and is the last
    /// agent in registration order to have it.
    pub open spec fn is_most_trusted(self, i: int) -> bool {
        &&& 0 <= i < self.agents.len()
        &&& forall|j: int| 0 <= j < self.agents.len() ==> !self.reputation_below(self.agents[i], #[trigger] self.agents[j])
        &&& forall|j: int| i < j < self.agents.len() ==> self.reputation_below(#[trigger] self.agents[j], self.agents[i])
    }

    /// Agent `i` has the lowest average trust from others, and is the first
    /// agent in registration order to have it.
    pub open spec fn is_least_trusted(self, i: int) -> bool {
        &&& 0 <= i < self.agents.len()
        &&& forall|j: int| 0 <= j < self.agents.len() ==> !self.reputation_below(#[trigger] self.agents[j], self.agents[i])
        &&& forall|j: int| 0 <= j < i ==> self.reputation_below(self.agents[i], #[trigger] self.agents[j])
    }

    /// The sum of both directions of trust between `a` and `b`, or zero
    /// where they have no relation.
    pub open spec fn pair_sum(self, a: Seq<char>, b: Seq<char>) -> int {
        match self.relation(a, b) {
            Some(r) => r.a_trusts_b + r.b_trusts_a,
            None => 0,
        }
    }

    /// Of the first `n` agents, in order, those other than `agent` whose
    /// pair sum with `agent` is at least `min_sum`.
    pub open spec fn circle(self, agent: Seq<char>, min_sum: int, n: int) -> Seq<Seq<char>>
        decreases n,
    {
        if n <= 0 {
            Seq::empty()
        } else {
            let rest = self.circle(agent, min_sum, n - 1);
            let other = self.agents[n - 1];
            if other != agent && self.pair_sum(agent, other) >= min_sum {
                rest.push(other)
            } else {
                rest
            }
        }
    }
}

/// A graph of trust relationships between N named agents.
#[derive(Debug, Clone)]
pub struct TrustNetwork {
    agents: Vec<String>,
    links: Vec<Vec<TrustRelation>>,
}

proof fn lemma_index_of(s: Seq<Seq<char>>, i: int)
    requires
        s.no_duplicates(),
        0 <= i < s.len(),
    ensures
        s.index_of(s[i]) == i,
        s.contains(s[i]),
{
    assert(s[i] == s[i]);
    assert(exists|k: int| 0 <= k < s.len() && s[k] == s[i]);
}

/// For two distinct names in lexicographic order, either argument order
/// gives that pair as the key.
proof fn lemma_canonical_of_ordered(a: Seq<char>, b: Seq<char>)
    requires
        lex_le(a, b),
    ensures
        canonical(a, b) == (a, b),
        canonical(b, a) == (a, b),
{
    lemma_canonical_symmetric(a, b);
}

impl TrustNetwork {
    spec fn names(&self) -> Seq<Seq<char>> {
        self.agents@.map_values(|s: String| s@)
    }

    spec fn link(&self, i: int, j: int) -> TrustRelation {
        if j < i {
            self.links@[i]@[j]
        } else {
            self.links@[j]@[i]
        }
    }

    /// The internal layout is sound: names are distinct and row `i` of the
    /// relation table holds the relations of agent `i` with agents `0..i`.
    pub closed spec fn wf(&self) -> bool {
        &&& self.names().no_duplicates()
        &&& self.links@.len() == self.agents@.len()
        &&& forall|i: int| 0 <= i < self.links@.len() ==> #[trigger] self.links@[i]@.len() == i
    }
}

impl View for TrustNetwork {
    type V = NetworkView;

    closed spec fn view(&self) -> NetworkView {
        NetworkView {
            agents: self.names(),
            relations: Map::new(
                |k: (Seq<char>, Seq<char>)| is_pair_key(self.names(), k),
                |k: (Seq<char>, Seq<char>)|
                    self.link(self.names().index_of(k.0), self.names().index_of(k.1)),
            ),
        }
    }
}

impl TrustNetwork {
    /// A well-formed network has a consistent view.
    pub proof fn lemma_consistent(&self)
        requires
            self.wf(),
        ensures
            self@.consistent(),
    {
        assert forall|k: (Seq<char>, Seq<char>)| #[trigger]
            self@.relations.contains_key(k) <==> is_pair_key(self@.agents, k) by {}
    }

    /// The relation of agents `i` and `j` as the view shows it.
    proof fn lemma_view_pair(&self, i: int, j: int)
        requires
            self.wf(),
            0 <= i < self.agents@.len(),
            0 <= j < self.agents@.len(),
            i != j,
        ensures
            self@.relations.contains_key(canonical(self.names()[i], self.names()[j])),
            self@.relations[canonical(self.names()[i], self.names()[j])] == self.link(i, j),
            self@.relation(self.names()[i], self.names()[j]) == Some(self.link(i, j)),
    {
        let s = self.names();
        lemma_index_of(s, i);
        lemma_index_of(s, j);
        lemma_lex_total(s[i], s[j]);
        let k = canonical(s[i], s[j]);
        if lex_le(s[i], s[j]) {
            assert(k == (s[i], s[j]));
        } else {
            assert(k == (s[j], s[i]));
        }
        assert(is_pair_key(s, k));
    }

    /// Two networks with the same agents whose tables differ at most in the
    /// entry of agents `hi` and `lo` differ at most in that pair's relation.
    proof fn lemma_one_link_changed(pre: &Self, post: &Self, hi: int, lo: int)
        requires
            pre.wf(),
            post.wf(),
            pre.names() == post.names(),
            0 <= lo < hi < pre.agents@.len(),
            forall|a: int, b: int|
                0 <= b < a < pre.agents@.len() && !(a == hi && b == lo) ==> #[trigger] post.links@[a]@[b]
                    == pre.links@[a]@[b],
        ensures
            post@.relations == pre@.relations.insert(
                canonical(pre.names()[hi], pre.names()[lo]),
                post.links@[hi]@[lo],
            ),
    {
        let s = pre.names();
        let ck = canonical(s[hi], s[lo]);
        pre.lemma_view_pair(hi, lo);
        post.lemma_view_pair(hi, lo);
        assert forall|k: (Seq<char>, Seq<char>)| #[trigger] post@.relations.contains_key(k) implies post@.relations[k]
            == pre@.relations.insert(ck, post.links@[hi]@[lo])[k] by {
            let p = s.index_of(k.0);
            let q = s.index_of(k.1);
            if k != ck {
                assert(0 <= p < s.len() && s[p] == k.0);
                assert(0 <= q < s.len() && s[q] == k.1);
                if (p == hi && q == lo) || (p == lo && q == hi) {
                    lemma_canonical_of_ordered(k.0, k.1);
                    assert(false);
                }
                if q < p {
                    assert(post.links@[p]@[q] == pre.links@[p]@[q]);
                } else {
                    assert(post.links@[q]@[p] == pre.links@[q]@[p]);
                }
            }
        }
        assert(post@.relations =~= pre@.relations.insert(ck, post.links@[hi]@[lo]));
    }

    fn find(&self, name: &str) -> (r: Option<usize>)
        requires
            self.wf(),
        ensures
            r matches Some(i) ==> i < self.agents@.len() && self.names()[i as int] == name@,
            r is None ==> !self.names().contains(name@),
    {
        let mut i: usize = 0;
        while i < self.agents.len()
            invariant
                i <= self.agents@.len(),
                forall|m: int| 0 <= m < i ==> self.names()[m] != name@,
            decreases self.agents@.len() - i,
        {
            if name_precedence(self.agents[i].as_str(), name) == Precedence::Same {
                return Some(i);
            }
            i += 1;
        }
        None
    }

    /// Create an empty network.
    pub fn new() -> (net: Self)
        ensures
            net.wf(),
            net@.consistent(),
            net@.agents == Seq::<Seq<char>>::empty(),
            net@.relations == Map::<(Seq<char>, Seq<char>), TrustRelation>::empty(),
    {
        let net = Self { agents: Vec::new(), links: Vec::new() };
        assert(net.names() =~= Seq::<Seq<char>>::empty());
        assert(net@.relations =~= Map::<(Seq<char>, Seq<char>), TrustRelation>::empty());
        proof {
            net.lemma_consistent();
        }
        net
    }

    /// Register an agent in the network; its relations with every agent
    /// already there start at neutral trust. A name already registered
    /// changes nothing.
    pub fn add_agent(&mut self, name: &str)
        requires
            old(self).wf(),
        ensures
            final(self).wf(),
            final(self)@.consistent(),
            old(self)@.agents.contains(name@) ==> final(self)@ == old(self)@,
            !old(self)@.agents.contains(name@) ==> final(self)@.agents == old(self)@.agents.push(name@),
            forall|k: (Seq<char>, Seq<char>)| #[trigger] old(self)@.relations.contains_key(k)
                ==> final(self)@.relations.contains_key(k) && final(self)@.relations[k] == old(self)@.relations[k],
            forall|k: (Seq<char>, Seq<char>)| #[trigger] final(self)@.relations.contains_key(k)
                && !old(self)@.relations.contains_key(k) ==> neutral(final(self)@.relations[k]),
    {
        proof {
            old(self).lemma_consistent();
        }
        if self.find(name).is_some() {
            return;
        }
        let ghost pre = *self;
        let n = self.agents.len();
        let mut row: Vec<TrustRelation> = Vec::new();
        let mut k: usize = 0;
        while k < n
            invariant
                k <= n,
                row@.len() == k,
                forall|m: int| 0 <= m < k ==> neutral(#[trigger] row@[m]),
            decreases n - k,
        {
            row.push(TrustRelation::new());
            k += 1;
        }
        self.links.push(row);
        self.agents.push(String::from_str(name));
        proof {
            let s0 = pre.names();
            let s1 = self.names();
            assert(s1 =~= s0.push(name@));
            assert forall|a: int, b: int| 0 <= a < s1.len() && 0 <= b < s1.len() && a != b implies s1[a] != s1[b] by {
                if a == n as int {
                    assert(s0.contains(s0[b]));
                } else if b == n as int {
                    assert(s0.contains(s0[a]));
                }
            }
            assert forall|i: int| 0 <= i < self.links@.len() implies #[trigger] self.links@[i]@.len() == i by {
                if i < n {
                    assert(self.links@[i] == pre.links@[i]);
                }
            }
            assert forall|k: (Seq<char>, Seq<char>)| #[trigger] pre@.relations.contains_key(k) implies
                self@.relations.contains_key(k) && self@.relations[k] == pre@.relations[k] by {
                let p = s0.index_of(k.0);
                let q = s0.index_of(k.1);
                lemma_index_of(s0, p);
                lemma_index_of(s0, q);
                lemma_index_of(s1, p);
                lemma_index_of(s1, q);
                assert(s1[p] == s0[p] && s1[q] == s0[q]);
                assert(self.links@[p] == pre.links@[p]);
                assert(self.links@[q] == pre.links@[q]);
                assert(s1.contains(k.0));
                assert(s1.contains(k.1));
            }
            assert forall|k: (Seq<char>, Seq<char>)| #[trigger] self@.relations.contains_key(k)
                && !pre@.relations.contains_key(k) implies neutral(self@.relations[k]) by {
                let p = s1.index_of(k.0);
                let q = s1.index_of(k.1);
                assert(0 <= p < s1.len() && s1[p] == k.0);
                assert(0 <= q < s1.len() && s1[q] == k.1);
                if p < n && q < n {
                    assert(s0[p] == k.0 && s0[q] == k.1);
                    assert(s0.contains(k.0) && s0.contains(k.1));
                    assert(false);
                }
                assert(p != q);
                if p == n {
                    assert(self.links@[p]@[q] == row@[q]);
                } else {
                    assert(self.links@[q]@[p] == row@[p]);
                }
            }
            self.lemma_consistent();
        }
    }

    /// Number of agents in the network.
    pub fn agent_count(&self) -> (n: usize)
        requires
            self.wf(),
        ensures
            n == self@.agents.len(),
    {
        self.agents.len()
    }

    fn pair_indices(&self, a: &str, b: &str) -> (r: Option<(usize, usize)>)
        requires
            self.wf(),
        ensures
            r is Some <==> self@.relations.contains_key(canonical(a@, b@)),
            r matches Some((hi, lo)) ==> {
                &&& lo < hi < self.agents@.len()
                &&& (self.names()[hi as int] == a@ && self.names()[lo as int] == b@)
                    || (self.names()[hi as int] == b@ && self.names()[lo as int] == a@)
                &&& self@.relations[canonical(a@, b@)] == self.links@[hi as int]@[lo as int]
            },
    {
        proof {
            self.lemma_consistent();
            lemma_canonical_symmetric(a@, b@);
            lemma_lex_total(a@, b@);
        }
        let ia = self.find(a);
        let ib = self.find(b);
        match (ia, ib) {
            (Some(i), Some(j)) => {
                if i == j {
                    None
                } else {
                    proof {
                        self.lemma_view_pair(i as int, j as int);
                    }
                    if i > j {
                        Some((i, j))
                    } else {
                        Some((j, i))
                    }
                }
            },
            _ => None,
        }
    }

    /// Get the trust relation between two agents, in either order.
    pub fn trust_between(&self, a: &str, b: &str) -> (r: Option<&TrustRelation>)
        requires
            self.wf(),
        ensures
            r is Some <==> self@.relations.contains_key(canonical(a@, b@)),
            r matches Some(rel) ==> *rel == self@.relations[canonical(a@, b@)],
    {
        match self.pair_indices(a, b) {
            Some((hi, lo)) => Some(&self.links[hi][lo]),
            None => None,
        }
    }

    /// Get the trust relation between two agents, in either order, for change.
    pub fn trust_between_mut(&mut self, a: &str, b: &str) -> (r: Option<&mut TrustRelation>)
        requires
            old(self).wf(),
        ensures
            r is Some <==> old(self)@.relations.contains_key(canonical(a@, b@)),
            match r {
                Some(rel) => {
                    &&& *rel == old(self)@.relations[canonical(a@, b@)]
                    &&& final(self).wf()
                    &&& final(self)@.agents == old(self)@.agents
                    &&& final(self)@.relations == old(self)@.relations.insert(canonical(a@, b@), *final(rel))
                },
                None => *final(self) == *old(self),
            },
    {
        match self.pair_indices(a, b) {
            Some((hi, lo)) => {
                proof {
                    let pre = *self;
                    let ck = canonical(a@, b@);
                    assert(ck == canonical(pre.names()[hi as int], pre.names()[lo as int])) by {
                        lemma_canonical_symmetric(a@, b@);
                    }
                    assert forall|post: TrustNetwork|
                        post.agents == pre.agents && post.links@.len() == pre.links@.len()
                            && (forall|m: int| 0 <= m < pre.links@.len() && m != hi ==> post.links@[m] == pre.links@[m])
                            && #[trigger] post.links@[hi as int]@ == pre.links@[hi as int]@.update(lo as int, post.links@[hi as int]@[lo as int])
                        implies post.wf() && post@.agents == pre@.agents
                            && post@.relations == pre@.relations.insert(ck, post.links@[hi as int]@[lo as int]) by {
                        assert(post.names() =~= pre.names());
                        assert forall|i: int| 0 <= i < post.links@.len() implies #[trigger] post.links@[i]@.len() == i by {
                            if i != hi {
                                assert(post.links@[i] == pre.links@[i]);
                            }
                        }
                        assert forall|x: int, y: int|
                            0 <= y < x < pre.agents@.len() && !(x == hi && y == lo) implies #[trigger] post.links@[x]@[y]
                                == pre.links@[x]@[y] by {
                            if x != hi {
                                assert(post.links@[x] == pre.links@[x]);
                            }
                        }
                        TrustNetwork::lemma_one_link_changed(&pre, &post, hi as int, lo as int);
                    }
                }
                Some(&mut self.links[hi][lo])
            },
            None => None,
        }
    }

    /// Create a network with the given agents (all at neutral trust); a
    /// repeated name is registered once, at its first occurrence.
    pub fn with_agents(names: &[&str]) -> (net: Self)
        ensures
            net.wf(),
            net@.consistent(),
            net@.agents == first_occurrences(names@.map_values(|s: &str| s@)),
            forall|k: (Seq<char>, Seq<char>)| #[trigger] net@.relations.contains_key(k) ==> neutral(net@.relations[k]),
    {
        let mut net = Self::new();
        let ghost all = names@.map_values(|s: &str| s@);
        let mut i: usize = 0;
        while i < names.len()
            invariant
                i <= names@.len(),
                all == names@.map_values(|s: &str| s@),
                net.wf(),
                net@.agents == first_occurrences(all.take(i as int)),
                forall|k: (Seq<char>, Seq<char>)| #[trigger] net@.relations.contains_key(k) ==> neutral(net@.relations[k]),
            decreases names@.len() - i,
        {
            net.add_agent(names[i]);
            proof {
                assert(all.take(i + 1).drop_last() =~= all.take(i as int));
                assert(all.take(i + 1).last() == names@[i as int]@);
            }
            i += 1;
        }
        proof {
            assert(all.take(names@.len() as int) =~= all);
            net.lemma_consistent();
        }
        net
    }

    /// Apply an event from `source` toward `target`: the trust that `source`
    /// has in `target` moves by the event's impact, clamped. Unknown agents,
    /// or an agent and itself, leave the network unchanged.
    pub fn apply_event(&mut self, source: &str, target: &str, event: TrustEvent)
        requires
            old(self).wf(),
        ensures
            final(self).wf(),
            final(self)@.consistent(),
            final(self)@.agents == old(self)@.agents,
            final(self)@.relations == if old(self)@.relations.contains_key(canonical(source@, target@)) {
                old(self)@.relations.insert(
                    canonical(source@, target@),
                    relation_after(old(self)@.relations[canonical(source@, target@)], lex_le(source@, target@), event),
                )
            } else {
                old(self)@.relations
            },
    {
        let forward = name_precedence(source, target) != Precedence::After;
        match self.trust_between_mut(source, target) {
            Some(rel) => {
                proof {
                    old(self).lemma_consistent();
                    assert(source@ != target@);
                }
                if forward {
                    rel.apply_event_a_to_b(event);
                } else {
                    rel.apply_event_b_to_a(event);
                }
            },
            None => {},
        }
        proof {
            self.lemma_consistent();
        }
    }

    /// The sum and count of the trust that all other agents have in `agent`
    /// (both zero for an unknown agent); the average reputation is their quotient.
    pub fn reputation_totals(&self, agent: &str) -> (r: (i128, usize))
        requires
            self.wf(),
        ensures
            r.0 == self@.reputation_total(agent@),
            r.1 == self@.reputation_count(agent@),
            -(r.1 as int) * 0x8000_0000 <= r.0 <= (r.1 as int) * 0x7fff_ffff,
    {
        proof {
            self.lemma_consistent();
        }
        match self.find(agent) {
            None => (0, 0),
            Some(ix) => {
                let n = self.agents.len();
                let mut total: i128 = 0;
                let mut count: usize = 0;
                let mut j: usize = 0;
                while j < n
                    invariant
                        self.wf(),
                        self@.consistent(),
                        n == self.agents@.len(),
                        ix < n,
                        self.names()[ix as int] == agent@,
                        j <= n,
                        count <= j,
                        total == self@.incoming_total(agent@, j as int),
                        count == self@.incoming_count(agent@, j as int),
                        -(count as int) * 0x8000_0000 <= total <= (count as int) * 0x7fff_ffff,
                    decreases n - j,
                {
                    if j != ix {
                        let rel = if ix > j {
                            &self.links[ix][j]
                        } else {
                            &self.links[j][ix]
                        };
                        let forward = name_precedence(self.agents[j].as_str(), agent) != Precedence::After;
                        let v = if forward {
                            rel.a_trusts_b
                        } else {
                            rel.b_trusts_a
                        };
                        proof {
                            self.lemma_view_pair(j as int, ix as int);
                            assert(self.names()[j as int] != agent@);
                            assert(self@.agents[j as int] == self.names()[j as int]);
                            assert(v == self@.trust(self@.agents[j as int], agent@));
                        }
                        total = total + v as i128;
                        count = count + 1;
                    } else {
                        assert(self@.agents[j as int] == agent@);
                    }
                    j += 1;
                }
                proof {
                    assert(self@.agents.contains(agent@));
                }
                (total, count)
            },
        }
    }

    /// Agent with highest average trust from others; of several, the last
    /// registered.
    pub fn most_trusted(&self) -> (r: Option<&str>)
        requires
            self.wf(),
        ensures
            r is None <==> self@.agents.len() == 0,
            r matches Some(name) ==> exists|i: int| #[trigger] self@.is_most_trusted(i) && name@ == self@.agents[i],
    {
        let n = self.agents.len();
        if n == 0 {
            return None;
        }
        let mut best: usize = 0;
        let (mut best_total, mut best_count) = self.reputation_totals(self.agents[0].as_str());
        let mut j: usize = 1;
        while j < n
            invariant
                self.wf(),
                n == self@.agents.len(),
                best < j <= n,
                best_total == self@.reputation_total(self@.agents[best as int]),
                best_count == self@.reputation_count(self@.agents[best as int]),
                -(best_count as int) * 0x8000_0000 <= best_total,
                forall|k: int| 0 <= k < j ==> !self@.reputation_below(self@.agents[best as int], #[trigger] self@.agents[k]),
                forall|k: int| best < k < j ==> self@.reputation_below(#[trigger] self@.agents[k], self@.agents[best as int]),
            decreases n - j,
        {
            let (t, c) = self.reputation_totals(self.agents[j].as_str());
            let ghost xb = self@.agents[best as int];
            let ghost xj = self@.agents[j as int];
            if !average_less(t, c, best_total, best_count) {
                proof {
                    assert forall|k: int| 0 <= k < j + 1 implies !self@.reputation_below(xj, #[trigger] self@.agents[k]) by {
                        let xk = self@.agents[k];
                        if k < j {
                            lemma_average_not_below_transitive(
                                self@.reputation_total(xk), self@.reputation_count(xk),
                                self@.reputation_total(xb), self@.reputation_count(xb),
                                self@.reputation_total(xj), self@.reputation_count(xj),
                            );
                        }
                    }
                }
                best = j;
                best_total = t;
                best_count = c;
            } else {
                proof {
                    lemma_average_below_asymmetric(
                        self@.reputation_total(xj), self@.reputation_count(xj),
                        self@.reputation_total(xb), self@.reputation_count(xb),
                    );
                }
            }
            j += 1;
        }
        assert(self@.is_most_trusted(best as int));
        Some(self.agents[best].as_str())
    }

    /// Agent with lowest average trust from others; of several, the first
    /// registered.
    pub fn least_trusted(&self) -> (r: Option<&str>)
        requires
            self.wf(),
        ensures
            r is None <==> self@.agents.len() == 0,
            r matches Some(name) ==> exists|i: int| #[trigger] self@.is_least_trusted(i) && name@ == self@.agents[i],
    {
        let n = self.agents.len();
        if n == 0 {
            return None;
        }
        let mut best: usize = 0;
        let (mut best_total, mut best_count) = self.reputation_totals(self.agents[0].as_str());
        let mut j: usize = 1;
        while j < n
            invariant
                self.wf(),
                n == self@.agents.len(),
                best < j <= n,
                best_total == self@.reputation_total(self@.agents[best as int]),
                best_count == self@.reputation_count(self@.agents[best as int]),
                -(best_count as int) * 0x8000_0000 <= best_total,
                forall|k: int| 0 <= k < j ==> !self@.reputation_below(#[trigger] self@.agents[k], self@.agents[best as int]),
                forall|k: int| 0 <= k < best ==> self@.reputation_below(self@.agents[best as int], #[trigger] self@.agents[k]),
            decreases n - j,
        {
            let (t, c) = self.reputation_totals(self.agents[j].as_str());
            let ghost xb = self@.agents[best as int];
            let ghost xj = self@.agents[j as int];
            if average_less(t, c, best_total, best_count) {
                proof {
                    lemma_average_below_asymmetric(
                        self@.reputation_total(xj), self@.reputation_count(xj),
                        self@.reputation_total(xb), self@.reputation_count(xb),
                    );
                    assert forall|k: int| 0 <= k < j + 1 implies !self@.reputation_below(#[trigger] self@.agents[k], xj) by {
                        let xk = self@.agents[k];
                        if k < j {
                            lemma_average_not_below_transitive(
                                self@.reputation_total(xj), self@.reputation_count(xj),
                                self@.reputation_total(xb), self@.reputation_count(xb),
                                self@.reputation_total(xk), self@.reputation_count(xk),
                            );
                        }
                    }
                    assert forall|k: int| 0 <= k < j implies self@.reputation_below(xj, #[trigger] self@.agents[k]) by {
                        let xk = self@.agents[k];
                        lemma_average_below_then_not_below(
                            self@.reputation_total(xj), self@.reputation_count(xj),
                            self@.reputation_total(xb), self@.reputation_count(xb),
                            self@.reputation_total(xk), self@.reputation_count(xk),
                        );
                    }
                }
                best = j;
                best_total = t;
                best_count = c;
            }
            j += 1;
        }
        assert(self@.is_least_trusted(best as int));
        Some(self.agents[best].as_str())
    }

    /// The names of all agents, in order of registration.
    pub fn agent_names(&self) -> (names: Vec<&str>)
        requires
            self.wf(),
        ensures
            names@.len() == self@.agents.len(),
            forall|i: int| 0 <= i < names@.len() ==> #[trigger] names@[i]@ == self@.agents[i],
    {
        let mut names: Vec<&str> = Vec::new();
        let mut j: usize = 0;
        while j < self.agents.len()
            invariant
                j <= self.agents@.len(),
                names@.len() == j,
                forall|i: int| 0 <= i < j ==> #[trigger] names@[i]@ == self.names()[i],
            decreases self.agents@.len() - j,
        {
            names.push(self.agents[j].as_str());
            j += 1;
        }
        names
    }

    /// All agents other than `agent`, in order of registration, whose two
    /// directions of trust with `agent` add up to at least `min_pair_sum`
    /// (a pair without a relation counts as zero). Mutual trust is half this sum.
    pub fn trust_circle_by_sum(&self, agent: &str, min_pair_sum: i64) -> (circle: Vec<&str>)
        requires
            self.wf(),
        ensures
            circle@.map_values(|s: &str| s@) == self@.circle(agent@, min_pair_sum as int, self@.agents.len() as int),
    {
        let mut circle: Vec<&str> = Vec::new();
        let n = self.agents.len();
        let mut j: usize = 0;
        while j < n
            invariant
                self.wf(),
                n == self@.agents.len(),
                j <= n,
                circle@.map_values(|s: &str| s@) == self@.circle(agent@, min_pair_sum as int, j as int),
            decreases n - j,
        {
            let other = self.agents[j].as_str();
            if name_precedence(other, agent) != Precedence::Same {
                let sum: i64 = match self.trust_between(agent, other) {
                    Some(r) => r.a_trusts_b as i64 + r.b_trusts_a as i64,
                    None => 0,
                };
                if sum >= min_pair_sum {
                    circle.push(other);
                    proof {
                        assert(circle@.map_values(|s: &str| s@) =~= self@.circle(agent@, min_pair_sum as int, j as int).push(other@));
                    }
                }
            }
            j += 1;
        }
        circle
    }
}

impl Default for TrustNetwork {
    fn default() -> (net: Self)
        ensures
            net.wf(),
            net@.consistent(),
            net@.agents == Seq::<Seq<char>>::empty(),
            net@.relations == Map::<(Seq<char>, Seq<char>), TrustRelation>::empty(),
    {
        Self::new()
    }
}

/// The relation between two agents is the same whichever of them is named
/// first.
pub proof fn lemma_relation_symmetric(v: NetworkView, a: Seq<char>, b: Seq<char>)
    ensures
        v.relation(a, b) == v.relation(b, a),
        v.pair_sum(a, b) == v.pair_sum(b, a),
{
    lemma_canonical_symmetric(a, b);
}

/// An event from `source` toward `target` changes how much `source` trusts
/// `target` by the event's impact, clamped to the trust bounds, and leaves
/// how much `target` trusts `source` unchanged.
pub proof fn lemma_event_moves_one_direction(
    pre: NetworkView,
    post: NetworkView,
    source: Seq<char>,
    target: Seq<char>,
    event: TrustEvent,
)
    requires
        pre.consistent(),
        pre.relations.contains_key(canonical(source, target)),
        post.relations == pre.relations.insert(
            canonical(source, target),
            relation_after(pre.relations[canonical(source, target)], lex_le(source, target), event),
        ),
    ensures
        post.trust(source, target) == after_event(pre.trust(source, target), event),
        in_bounds(post.trust(source, target)),
        post.trust(target, source) == pre.trust(target, source),
{
    lemma_canonical_symmetric(source, target);
    lemma_lex_total(source, target);
    assert(source != target);
    if lex_le(source, target) && lex_le(target, source) {
        lemma_lex_antisymmetric(source, target);
    }
}

/// The pair sum of two related agents adds both directions of trust between
/// them; unrelated names have a pair sum of zero.
pub proof fn lemma_pair_sum_both_directions(v: NetworkView, a: Seq<char>, b: Seq<char>)
    requires
        v.consistent(),
    ensures
        v.relation(a, b) is Some ==> v.pair_sum(a, b) == v.trust(a, b) + v.trust(b, a),
        v.relation(a, b) is None ==> v.pair_sum(a, b) == 0,
{
    lemma_canonical_symmetric(a, b);
    lemma_lex_total(a, b);
    if v.relation(a, b) is Some {
        assert(is_pair_key(v.agents, canonical(a, b)));
        assert(a != b);
        if lex_le(a, b) && lex_le(b, a) {
            lemma_lex_antisymmetric(a, b);
        }
    }
}

proof fn lemma_circle_prefix(v: NetworkView, agent: Seq<char>, min_sum: int, n: int, x: Seq<char>)
    requires
        v.consistent(),
        0 <= n <= v.agents.len(),
    ensures
        v.circle(agent, min_sum, n).contains(x) <==> exists|j: int|
            0 <= j < n && #[trigger] v.agents[j] == x && x != agent && v.pair_sum(agent, x) >= min_sum,
    decreases n,
{
    if n > 0 {
        lemma_circle_prefix(v, agent, min_sum, n - 1, x);
        let rest = v.circle(agent, min_sum, n - 1);
        let other = v.agents[n - 1];
        if other != agent && v.pair_sum(agent, other) >= min_sum {
            assert(v.circle(agent, min_sum, n) == rest.push(other));
            if rest.push(other).contains(x) && !rest.contains(x) {
                let i = choose|i: int| 0 <= i < rest.push(other).len() && rest.push(other)[i] == x;
                assert(i == rest.len());
                assert(v.agents[n - 1] == x);
            }
            if exists|j: int| 0 <= j < n && #[trigger] v.agents[j] == x && x != agent && v.pair_sum(agent, x) >= min_sum {
                let j = choose|j: int| 0 <= j < n && #[trigger] v.agents[j] == x && x != agent && v.pair_sum(agent, x) >= min_sum;
                if j == n - 1 {
                    assert(rest.push(other)[rest.len() as int] == x);
                } else {
                    let i = choose|i: int| 0 <= i < rest.len() && rest[i] == x;
                    assert(rest.push(other)[i] == x);
                }
            } else if rest.contains(x) {
                let i = choose|i: int| 0 <= i < rest.len() && rest[i] == x;
                assert(rest.push(other)[i] == x);
            }
        } else {
            if exists|j: int| 0 <= j < n && #[trigger] v.agents[j] == x && x != agent && v.pair_sum(agent, x) >= min_sum {
                let j = choose|j: int| 0 <= j < n && #[trigger] v.agents[j] == x && x != agent && v.pair_sum(agent, x) >= min_sum;
                assert(j != n - 1);
            }
        }
    }
}

/// An agent is in the trust circle of `agent` exactly when it is another
/// registered agent whose trust in `agent`, added to `agent`'s trust in it,
/// reaches the bound (a pair without a relation counts as zero).
pub proof fn lemma_circle_members(v: NetworkView, agent: Seq<char>, min_sum: int, x: Seq<char>)
    requires
        v.consistent(),
    ensures
        v.circle(agent, min_sum, v.agents.len() as int).contains(x) <==> {
            &&& v.agents.contains(x)
            &&& x != agent
            &&& (if v.relation(agent, x) is Some {
                v.trust(agent, x) + v.trust(x, agent)
            } else {
                0
            }) >= min_sum
        },
{
    lemma_circle_prefix(v, agent, min_sum, v.agents.len() as int, x);
    lemma_pair_sum_both_directions(v, agent, x);
    if v.agents.contains(x) {
        let j = choose|j: int| 0 <= j < v.agents.len() && v.agents[j] == x;
        assert(v.agents[j] == x);
    }
}

} // verus!
