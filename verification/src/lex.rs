//! Lexicographic order on sequences, over any strict total order of the items.

use vstd::prelude::*;

verus! {

/// `lt` is irreflexive, transitive, and any two distinct items are ordered by it.
pub open spec fn strict_total<T>(lt: spec_fn(T, T) -> bool) -> bool {
    &&& forall|x: T| !#[trigger] lt(x, x)
    &&& forall|x: T, y: T, z: T| #[trigger] lt(x, y) && #[trigger] lt(y, z) ==> lt(x, z)
    &&& forall|x: T, y: T| x != y ==> #[trigger] lt(x, y) || lt(y, x)
}

/// `a` comes before `b` in the lexicographic order that `lt` induces: at the
/// first position where they differ `a` holds the smaller item, or `a` is a
/// proper prefix of `b`.
pub open spec fn lex_lt<T>(lt: spec_fn(T, T) -> bool, a: Seq<T>, b: Seq<T>) -> bool
    decreases a.len(),
{
    if b.len() == 0 {
        false
    } else if a.len() == 0 {
        true
    } else if lt(a[0], b[0]) {
        true
    } else if lt(b[0], a[0]) {
        false
    } else {
        lex_lt(lt, a.drop_first(), b.drop_first())
    }
}

/// No sequence comes before itself.
pub proof fn lemma_lex_irreflexive<T>(lt: spec_fn(T, T) -> bool, a: Seq<T>)
    requires
        strict_total(lt),
    ensures
        !lex_lt(lt, a, a),
    decreases a.len(),
{
    if a.len() > 0 {
        lemma_lex_irreflexive(lt, a.drop_first());
    }
}

/// The lexicographic order is transitive.
pub proof fn lemma_lex_transitive<T>(lt: spec_fn(T, T) -> bool, a: Seq<T>, b: Seq<T>, c: Seq<T>)
    requires
        strict_total(lt),
        lex_lt(lt, a, b),
        lex_lt(lt, b, c),
    ensures
        lex_lt(lt, a, c),
    decreases a.len(),
{
    if a.len() > 0 {
        if !lt(a[0], b[0]) && !lt(b[0], c[0]) {
            assert(!lt(b[0], a[0]) && !lt(c[0], b[0]));
            assert(a[0] == b[0] && b[0] == c[0]);
            lemma_lex_transitive(lt, a.drop_first(), b.drop_first(), c.drop_first());
        } else if !lt(a[0], b[0]) {
            assert(a[0] == b[0]);
        } else if !lt(b[0], c[0]) {
            assert(b[0] == c[0]);
        }
    }
}

/// Two different sequences are ordered one way or the other.
pub proof fn lemma_lex_connected<T>(lt: spec_fn(T, T) -> bool, a: Seq<T>, b: Seq<T>)
    requires
        strict_total(lt),
        a != b,
    ensures
        lex_lt(lt, a, b) || lex_lt(lt, b, a),
    decreases a.len(),
{
    if a.len() > 0 && b.len() > 0 {
        if !lt(a[0], b[0]) && !lt(b[0], a[0]) {
            assert(a[0] == b[0]);
            if a.drop_first() == b.drop_first() {
                assert(a =~= seq![a[0]] + a.drop_first());
                assert(b =~= seq![b[0]] + b.drop_first());
            }
            lemma_lex_connected(lt, a.drop_first(), b.drop_first());
        }
    } else if a.len() == 0 && b.len() == 0 {
        assert(a =~= b);
    }
}

/// Of two sequences at most one comes before the other.
pub proof fn lemma_lex_asymmetric<T>(lt: spec_fn(T, T) -> bool, a: Seq<T>, b: Seq<T>)
    requires
        strict_total(lt),
        lex_lt(lt, a, b),
    ensures
        !lex_lt(lt, b, a),
{
    if lex_lt(lt, b, a) {
        lemma_lex_transitive(lt, a, b, a);
        lemma_lex_irreflexive(lt, a);
    }
}

/// The lexicographic order over a strict total order is itself one.
pub proof fn lemma_lex_strict_total<T>(lt: spec_fn(T, T) -> bool)
    requires
        strict_total(lt),
    ensures
        strict_total(|a: Seq<T>, b: Seq<T>| lex_lt(lt, a, b)),
{
    let order = |a: Seq<T>, b: Seq<T>| lex_lt(lt, a, b);
    assert forall|a: Seq<T>| !#[trigger] order(a, a) by {
        lemma_lex_irreflexive(lt, a);
    }
    assert forall|a: Seq<T>, b: Seq<T>, c: Seq<T>| #[trigger]
        order(a, b) && #[trigger] order(b, c) implies order(a, c) by {
        lemma_lex_transitive(lt, a, b, c);
    }
    assert forall|a: Seq<T>, b: Seq<T>| a != b implies #[trigger] order(a, b) || order(b, a) by {
        lemma_lex_connected(lt, a, b);
    }
}

/// Skipping a common prefix does not change how two sequences compare.
pub proof fn lemma_lex_skip_common<T>(lt: spec_fn(T, T) -> bool, a: Seq<T>, b: Seq<T>, n: int)
    requires
        strict_total(lt),
        0 <= n <= a.len(),
        n <= b.len(),
        a.take(n) == b.take(n),
    ensures
        lex_lt(lt, a, b) == lex_lt(lt, a.skip(n), b.skip(n)),
    decreases n,
{
    if n > 0 {
        assert(a[0] == a.take(n)[0]);
        assert(b[0] == b.take(n)[0]);
        assert(a.drop_first().take(n - 1) =~= a.take(n).drop_first());
        assert(b.drop_first().take(n - 1) =~= b.take(n).drop_first());
        lemma_lex_skip_common(lt, a.drop_first(), b.drop_first(), n - 1);
        assert(a.drop_first().skip(n - 1) =~= a.skip(n));
        assert(b.drop_first().skip(n - 1) =~= b.skip(n));
    } else {
        assert(a.skip(0) =~= a);
        assert(b.skip(0) =~= b);
    }
}

} // verus!
