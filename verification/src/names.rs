//! Agent names and their lexicographic order.

use vstd::prelude::*;

verus! {

/// Lexicographic order on names, character by character (by code point);
/// a proper prefix comes first.
pub open spec fn lex_le(a: Seq<char>, b: Seq<char>) -> bool
    decreases a.len(),
{
    if a.len() == 0 {
        true
    } else if b.len() == 0 {
        false
    } else if a[0] != b[0] {
        (a[0] as int) < (b[0] as int)
    } else {
        lex_le(a.drop_first(), b.drop_first())
    }
}

/// The key under which the relation between two names is kept: the pair
/// in lexicographic order.
pub open spec fn canonical(a: Seq<char>, b: Seq<char>) -> (Seq<char>, Seq<char>) {
    if lex_le(a, b) {
        (a, b)
    } else {
        (b, a)
    }
}

/// Any two names are ordered one way or the other.
pub proof fn lemma_lex_total(a: Seq<char>, b: Seq<char>)
    ensures
        lex_le(a, b) || lex_le(b, a),
    decreases a.len(),
{
    if a.len() > 0 && b.len() > 0 && a[0] == b[0] {
        lemma_lex_total(a.drop_first(), b.drop_first());
    }
}

/// Names ordered both ways are equal.
pub proof fn lemma_lex_antisymmetric(a: Seq<char>, b: Seq<char>)
    requires
        lex_le(a, b),
        lex_le(b, a),
    ensures
        a == b,
    decreases a.len(),
{
    if a.len() == 0 {
        assert(b.len() == 0);
        assert(a =~= b);
    } else {
        lemma_lex_antisymmetric(a.drop_first(), b.drop_first());
        lemma_lex_le_drop(a, b);
    }
}

/// The key of a pair does not depend on the order in which the two names
/// are given.
pub proof fn lemma_canonical_symmetric(a: Seq<char>, b: Seq<char>)
    ensures
        canonical(a, b) == canonical(b, a),
{
    lemma_lex_total(a, b);
    if lex_le(a, b) && lex_le(b, a) {
        lemma_lex_antisymmetric(a, b);
    }
}

/// `a` comes before `b` as Rust orders strings: `a` is a prefix of `b`
/// (a proper prefix comes first), or at the first position where they
/// differ, `a` has the smaller character.
pub open spec fn ordered_as_strings(a: Seq<char>, b: Seq<char>) -> bool {
    ||| (a.len() <= b.len() && a == b.take(a.len() as int))
    ||| exists|k: int|
        0 <= k < a.len() && k < b.len() && a.take(k) == b.take(k) && (a[k] as int) < (b[k] as int)
}

/// The order on names is the string order: by prefix, else by the first
/// differing character.
pub proof fn lemma_lex_le_is_string_order(a: Seq<char>, b: Seq<char>)
    ensures
        lex_le(a, b) <==> ordered_as_strings(a, b),
    decreases a.len(),
{
    if a.len() == 0 {
        assert(a == b.take(0));
    } else if b.len() == 0 {
        if ordered_as_strings(a, b) {
            assert(false);
        }
    } else if a[0] != b[0] {
        if (a[0] as int) < (b[0] as int) {
            assert(a.take(0) =~= b.take(0));
        } else {
            if a.len() <= b.len() && a == b.take(a.len() as int) {
                assert(a[0] == b.take(a.len() as int)[0]);
            }
            if exists|k: int| 0 <= k < a.len() && k < b.len() && a.take(k) == b.take(k) && (a[k] as int) < (b[k] as int) {
                let k = choose|k: int| 0 <= k < a.len() && k < b.len() && a.take(k) == b.take(k) && (a[k] as int) < (b[k] as int);
                if k > 0 {
                    assert(a.take(k)[0] == b.take(k)[0]);
                }
            }
        }
    } else {
        let a1 = a.drop_first();
        let b1 = b.drop_first();
        lemma_lex_le_is_string_order(a1, b1);
        lemma_lex_le_drop(a, b);
        if ordered_as_strings(a1, b1) {
            if a1.len() <= b1.len() && a1 == b1.take(a1.len() as int) {
                assert(a =~= b.take(a.len() as int)) by {
                    assert forall|i: int| 0 <= i < a.len() implies #[trigger] a[i] == b.take(a.len() as int)[i] by {
                        if i > 0 {
                            assert(a[i] == a1[i - 1]);
                            assert(b1.take(a1.len() as int)[i - 1] == b[i]);
                        }
                    }
                }
            } else {
                let k = choose|k: int| 0 <= k < a1.len() && k < b1.len() && a1.take(k) == b1.take(k) && (a1[k] as int) < (b1[k] as int);
                assert(a.take(k + 1) =~= b.take(k + 1)) by {
                    assert forall|i: int| 0 <= i < k + 1 implies #[trigger] a.take(k + 1)[i] == b.take(k + 1)[i] by {
                        if i > 0 {
                            assert(a1.take(k)[i - 1] == b1.take(k)[i - 1]);
                        }
                    }
                }
                assert(a[k + 1] == a1[k] && b[k + 1] == b1[k]);
            }
        }
        if ordered_as_strings(a, b) {
            if a.len() <= b.len() && a == b.take(a.len() as int) {
                assert(a1 =~= b1.take(a1.len() as int)) by {
                    assert forall|i: int| 0 <= i < a1.len() implies #[trigger] a1[i] == b1.take(a1.len() as int)[i] by {
                        assert(a[i + 1] == b.take(a.len() as int)[i + 1]);
                    }
                }
            } else {
                let k = choose|k: int| 0 <= k < a.len() && k < b.len() && a.take(k) == b.take(k) && (a[k] as int) < (b[k] as int);
                if k == 0 {
                    assert(false);
                }
                assert(a1.take(k - 1) =~= b1.take(k - 1)) by {
                    assert forall|i: int| 0 <= i < k - 1 implies #[trigger] a1.take(k - 1)[i] == b1.take(k - 1)[i] by {
                        assert(a.take(k)[i + 1] == b.take(k)[i + 1]);
                    }
                }
                assert(a1[k - 1] == a[k] && b1[k - 1] == b[k]);
            }
        }
    }
}

/// A proper prefix comes strictly before the longer name.
pub proof fn lemma_prefix_first(a: Seq<char>, b: Seq<char>)
    requires
        a.len() < b.len(),
        a == b.take(a.len() as int),
    ensures
        lex_le(a, b),
        !lex_le(b, a),
        precedence(a, b) == Precedence::Before,
{
    lemma_lex_le_is_string_order(a, b);
    assert(a != b) by {
        assert(a.len() != b.len());
    }
    if lex_le(b, a) {
        lemma_lex_antisymmetric(a, b);
    }
}

/// Where one name stands relative to another.
#[derive(Debug, Clone, Copy, PartialEq, Eq, Structural)]
pub enum Precedence {
    /// The first name comes strictly before the second.
    Before,
    /// The names are equal.
    Same,
    /// The first name comes strictly after the second.
    After,
}

/// The precedence of `a` relative to `b` in the lexicographic order.
pub open spec fn precedence(a: Seq<char>, b: Seq<char>) -> Precedence {
    if a == b {
        Precedence::Same
    } else if lex_le(a, b) {
        Precedence::Before
    } else {
        Precedence::After
    }
}

proof fn lemma_lex_le_drop(a: Seq<char>, b: Seq<char>)
    requires
        a.len() > 0,
        b.len() > 0,
        a[0] == b[0],
    ensures
        lex_le(a, b) == lex_le(a.drop_first(), b.drop_first()),
        (a == b) == (a.drop_first() == b.drop_first()),
{
    if a.drop_first() == b.drop_first() {
        assert(a.drop_first().len() == b.drop_first().len());
        assert(a.len() == b.len());
        assert forall|i: int| 0 <= i < a.len() implies a[i] == b[i] by {
            if i > 0 {
                assert(a[i] == a.drop_first()[i - 1]);
                assert(b[i] == b.drop_first()[i - 1]);
            }
        }
        assert(a =~= b);
    }
}

/// Compare two names lexicographically.
pub fn name_precedence(a: &str, b: &str) -> (p: Precedence)
    ensures
        p == precedence(a@, b@),
{
    let mut ia = a.chars();
    let mut ib = b.chars();
    loop
        invariant
            precedence(a@, b@) == precedence(
                vstd::std_specs::iter::IteratorSpec::remaining(&ia),
                vstd::std_specs::iter::IteratorSpec::remaining(&ib),
            ),
            vstd::std_specs::iter::IteratorSpec::decrease(&ia) is Some,
        decreases vstd::std_specs::iter::IteratorSpec::decrease(&ia)->0,
    {
        let ghost ra = vstd::std_specs::iter::IteratorSpec::remaining(&ia);
        let ghost rb = vstd::std_specs::iter::IteratorSpec::remaining(&ib);
        match ia.next() {
            None => {
                match ib.next() {
                    None => {
                        assert(ra =~= rb);
                        return Precedence::Same;
                    },
                    Some(_) => {
                        return Precedence::Before;
                    },
                }
            },
            Some(ca) => {
                match ib.next() {
                    None => {
                        return Precedence::After;
                    },
                    Some(cb) => {
                        if ca != cb {
                            assert(ra[0] != rb[0]);
                            assert(ra != rb);
                            if ca < cb {
                                return Precedence::Before;
                            } else {
                                return Precedence::After;
                            }
                        }
                        proof {
                            lemma_lex_le_drop(ra, rb);
                        }
                    },
                }
            },
        }
    }
}

} // verus!
