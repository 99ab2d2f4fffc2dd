use vstd::prelude::*;

verus! {

/// Lexicographic order on character sequences, by code point. Timestamps are
/// stored in RFC 3339 form with a fixed offset, so this order is also their
/// chronological order; parent keys are ordered by it as well.
pub open spec fn lex_le(a: Seq<char>, b: Seq<char>) -> bool
    decreases a.len(),
{
    if a.len() == 0 {
        true
    } else if b.len() == 0 {
        false
    } else if a[0] == b[0] {
        lex_le(a.skip(1), b.skip(1))
    } else {
        (a[0] as int) < (b[0] as int)
    }
}

/// Strict part of [`lex_le`].
pub open spec fn lex_lt(a: Seq<char>, b: Seq<char>) -> bool {
    lex_le(a, b) && a != b
}

/// The order is total: of any two sequences one is below the other.
pub proof fn lemma_lex_total(a: Seq<char>, b: Seq<char>)
    ensures
        lex_le(a, b) || lex_le(b, a),
    decreases a.len(),
{
    if a.len() == 0 || b.len() == 0 {
    } else if a[0] == b[0] {
        lemma_lex_total(a.skip(1), b.skip(1));
    } else {
        assert(a[0] as int != b[0] as int);
    }
}

/// The order is reflexive.
pub proof fn lemma_lex_refl(a: Seq<char>)
    ensures
        lex_le(a, a),
    decreases a.len(),
{
    if a.len() > 0 {
        lemma_lex_refl(a.skip(1));
    }
}

/// The order is antisymmetric: below each other means equal.
pub proof fn lemma_lex_antisymmetric(a: Seq<char>, b: Seq<char>)
    requires
        lex_le(a, b),
        lex_le(b, a),
    ensures
        a == b,
    decreases a.len(),
{
    if a.len() == 0 {
        assert(b.len() == 0);
        assert(a =~= b);
    } else {
        assert(b.len() > 0);
        assert(a[0] == b[0]);
        lemma_lex_antisymmetric(a.skip(1), b.skip(1));
        assert(a =~= seq![a[0]] + a.skip(1));
        assert(b =~= seq![b[0]] + b.skip(1));
    }
}

/// The order is transitive.
pub proof fn lemma_lex_transitive(a: Seq<char>, b: Seq<char>, c: Seq<char>)
    requires
        lex_le(a, b),
        lex_le(b, c),
    ensures
        lex_le(a, c),
    decreases a.len(),
{
    if a.len() == 0 || b.len() == 0 || c.len() == 0 {
    } else if a[0] == b[0] && b[0] == c[0] {
        lemma_lex_transitive(a.skip(1), b.skip(1), c.skip(1));
    }
}

/// How a failed comparison reads: not being below means being strictly above.
pub proof fn lemma_lex_comparison(a: Seq<char>, b: Seq<char>)
    ensures
        !lex_le(a, b) ==> lex_lt(b, a),
        lex_le(a, b) ==> !lex_lt(b, a),
{
    lemma_lex_total(a, b);
    lemma_lex_refl(a);
    if lex_le(a, b) && lex_lt(b, a) {
        lemma_lex_antisymmetric(a, b);
    }
}

/// Relies on `str`'s `PartialOrd::le`: the standard library documents the
/// order on `str` as lexicographic over bytes, which for UTF-8 encoded text
/// coincides with lexicographic order over code points.
#[verifier::external_body]
pub fn str_le(a: &str, b: &str) -> (r: bool)
    ensures
        r == lex_le(a@, b@),
{
    a <= b
}

} // verus!
