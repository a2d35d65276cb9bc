//! The lexicographic order of byte sequences.

use vstd::prelude::*;
use vstd::relations::total_ordering;

verus! {

/// `a` comes before `b`, or is `b`, in the order of a dictionary: at the
/// first place where they differ `a` has the smaller byte, or `a` ends
/// there.
pub open spec fn lex_le(a: Seq<u8>, b: Seq<u8>) -> bool
    decreases a.len(),
{
    if a.len() == 0 {
        true
    } else if b.len() == 0 {
        false
    } else if a[0] != b[0] {
        a[0] < b[0]
    } else {
        lex_le(a.drop_first(), b.drop_first())
    }
}

/// The order as a relation, for the lemmas on sorted sequences.
pub open spec fn lex_order() -> spec_fn(Seq<u8>, Seq<u8>) -> bool {
    |a: Seq<u8>, b: Seq<u8>| lex_le(a, b)
}

/// Every sequence comes before itself or is itself.
pub proof fn lemma_lex_refl(a: Seq<u8>)
    ensures
        lex_le(a, a),
    decreases a.len(),
{
    if a.len() > 0 {
        lemma_lex_refl(a.drop_first());
    }
}

/// Two sequences of which each comes before the other, or is it, are one
/// sequence.
pub proof fn lemma_lex_antisym(a: Seq<u8>, b: Seq<u8>)
    requires
        lex_le(a, b),
        lex_le(b, a),
    ensures
        a == b,
    decreases a.len(),
{
    if a.len() == 0 {
        assert(a =~= b);
    } else {
        lemma_lex_antisym(a.drop_first(), b.drop_first());
        assert(a =~= seq![a[0]] + a.drop_first());
        assert(b =~= seq![b[0]] + b.drop_first());
    }
}

/// What comes before a sequence comes before all that this sequence comes
/// before.
pub proof fn lemma_lex_trans(a: Seq<u8>, b: Seq<u8>, c: Seq<u8>)
    requires
        lex_le(a, b),
        lex_le(b, c),
    ensures
        lex_le(a, c),
    decreases a.len(),
{
    if a.len() > 0 && a[0] == b[0] && b[0] == c[0] {
        lemma_lex_trans(a.drop_first(), b.drop_first(), c.drop_first());
    }
}

/// Of two sequences one comes before the other, or is it.
pub proof fn lemma_lex_total(a: Seq<u8>, b: Seq<u8>)
    ensures
        lex_le(a, b) || lex_le(b, a),
    decreases a.len(),
{
    if a.len() > 0 && b.len() > 0 && a[0] == b[0] {
        lemma_lex_total(a.drop_first(), b.drop_first());
    }
}

/// The lexicographic order is a total order.
pub proof fn lemma_lex_total_ordering()
    ensures
        total_ordering(lex_order()),
{
    let r = lex_order();
    assert forall|a: Seq<u8>| #[trigger] r(a, a) by {
        lemma_lex_refl(a);
    }
    assert forall|a: Seq<u8>, b: Seq<u8>| #[trigger] r(a, b) && #[trigger] r(b, a) implies a
        == b by {
        lemma_lex_antisym(a, b);
    }
    assert forall|a: Seq<u8>, b: Seq<u8>, c: Seq<u8>| #[trigger] r(a, b) && #[trigger] r(
        b,
        c,
    ) implies r(a, c) by {
        lemma_lex_trans(a, b, c);
    }
    assert forall|a: Seq<u8>, b: Seq<u8>| #[trigger] r(a, b) || #[trigger] r(b, a) by {
        lemma_lex_total(a, b);
    }
}

/// Two sequences with a common head compare as their tails do.
pub proof fn lemma_lex_common_head(head: Seq<u8>, a: Seq<u8>, b: Seq<u8>)
    ensures
        lex_le(head + a, head + b) == lex_le(a, b),
    decreases head.len(),
{
    if head.len() == 0 {
        assert(head + a =~= a);
        assert(head + b =~= b);
    } else {
        let rest = head.drop_first();
        assert((head + a).drop_first() =~= rest + a);
        assert((head + b).drop_first() =~= rest + b);
        lemma_lex_common_head(rest, a, b);
    }
}

/// Two sequences whose heads have the same length and differ compare as the
/// heads do.
pub proof fn lemma_lex_heads_differ(x1: Seq<u8>, x2: Seq<u8>, y1: Seq<u8>, y2: Seq<u8>)
    requires
        x1.len() == y1.len(),
        x1 != y1,
    ensures
        lex_le(x1 + x2, y1 + y2) == lex_le(x1, y1),
    decreases x1.len(),
{
    if x1.len() == 0 {
        assert(x1 =~= y1);
    } else {
        assert((x1 + x2)[0] == x1[0]);
        assert((y1 + y2)[0] == y1[0]);
        if x1[0] == y1[0] {
            assert((x1 + x2).drop_first() =~= x1.drop_first() + x2);
            assert((y1 + y2).drop_first() =~= y1.drop_first() + y2);
            if x1.drop_first() == y1.drop_first() {
                assert(x1 =~= seq![x1[0]] + x1.drop_first());
                assert(y1 =~= seq![y1[0]] + y1.drop_first());
            }
            lemma_lex_heads_differ(x1.drop_first(), x2, y1.drop_first(), y2);
        }
    }
}

/// A sequence that is shorter than the head of another compares with the
/// other as it does with the head.
pub proof fn lemma_lex_short_left(x: Seq<u8>, y1: Seq<u8>, y2: Seq<u8>)
    requires
        x.len() < y1.len(),
    ensures
        lex_le(x, y1 + y2) == lex_le(x, y1),
    decreases x.len(),
{
    if x.len() > 0 {
        assert((y1 + y2)[0] == y1[0]);
        if x[0] == y1[0] {
            assert((y1 + y2).drop_first() =~= y1.drop_first() + y2);
            lemma_lex_short_left(x.drop_first(), y1.drop_first(), y2);
        }
    }
}

/// A sequence compares with one that is shorter than its head as the head
/// does.
pub proof fn lemma_lex_short_right(x1: Seq<u8>, x2: Seq<u8>, y: Seq<u8>)
    requires
        y.len() < x1.len(),
    ensures
        lex_le(x1 + x2, y) == lex_le(x1, y),
    decreases y.len(),
{
    assert((x1 + x2)[0] == x1[0]);
    if y.len() > 0 {
        if x1[0] == y[0] {
            assert((x1 + x2).drop_first() =~= x1.drop_first() + x2);
            lemma_lex_short_right(x1.drop_first(), x2, y.drop_first());
        }
    }
}

/// The order of two sequences is that of their heads of `n` bytes, where
/// the heads differ.
pub proof fn lemma_lex_take(a: Seq<u8>, b: Seq<u8>, n: int)
    requires
        0 <= n,
        lex_le(a, b),
    ensures
        lex_le(
            a.take(if n <= a.len() { n } else { a.len() as int }),
            b.take(if n <= b.len() { n } else { b.len() as int }),
        ),
    decreases a.len(),
{
    let ta = a.take(if n <= a.len() { n } else { a.len() as int });
    let tb = b.take(if n <= b.len() { n } else { b.len() as int });
    if a.len() == 0 || n == 0 {
    } else {
        assert(ta[0] == a[0] && tb[0] == b[0]);
        if a[0] == b[0] {
            lemma_lex_take(a.drop_first(), b.drop_first(), n - 1);
            assert(ta.drop_first() =~= a.drop_first().take(
                if n - 1 <= a.drop_first().len() { n - 1 } else { a.drop_first().len() as int },
            ));
            assert(tb.drop_first() =~= b.drop_first().take(
                if n - 1 <= b.drop_first().len() { n - 1 } else { b.drop_first().len() as int },
            ));
        }
    }
}

/// A sequence comes before every sequence that it starts.
pub proof fn lemma_lex_prefix(a: Seq<u8>, b: Seq<u8>)
    requires
        a.len() <= b.len(),
        b.take(a.len() as int) == a,
    ensures
        lex_le(a, b),
    decreases a.len(),
{
    if a.len() > 0 {
        assert(a[0] == b.take(a.len() as int)[0]);
        assert(b.drop_first().take(a.len() - 1) =~= a.drop_first());
        lemma_lex_prefix(a.drop_first(), b.drop_first());
    }
}

} // verus!
