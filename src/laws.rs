//! Facts about canonical forms and about what building one yields.

use vstd::prelude::*;

use crate::interval::{in_span, valid_span, TimeInterval};
use crate::interval_set::{builds, canonical, covers, lemma_permutation_covers, spans};

verus! {

/// Dropping the first range of a canonical sequence leaves exactly the
/// instants it covered after the end of that first range.
proof fn lemma_covers_tail(s: Seq<(int, int)>, t: int)
    requires
        canonical(s),
        s.len() > 0,
    ensures
        covers(s.drop_first(), t) == (covers(s, t) && t > s[0].1),
{
    if covers(s.drop_first(), t) {
        let k = choose|k: int| 0 <= k < s.len() - 1 && in_span(#[trigger] s.drop_first()[k], t);
        assert(in_span(s[k + 1], t));
        assert(s[0].1 + 1 < s[k + 1].0);
    }
    if covers(s, t) && t > s[0].1 {
        let k = choose|k: int| 0 <= k < s.len() && in_span(#[trigger] s[k], t);
        assert(k > 0);
        assert(in_span(s.drop_first()[k - 1], t));
    }
}

/// Two canonical sequences that cover the same instants are the same
/// sequence: a set of instants has one canonical form.
pub proof fn lemma_canonical_unique(a: Seq<(int, int)>, b: Seq<(int, int)>)
    requires
        canonical(a),
        canonical(b),
        forall|t: int| #[trigger] covers(a, t) == covers(b, t),
    ensures
        a == b,
    decreases a.len(),
{
    if a.len() == 0 {
        if b.len() > 0 {
            assert(in_span(b[0], b[0].0));
            assert(covers(b, b[0].0));
            assert(!covers(a, b[0].0));
        }
        assert(a =~= b);
    } else if b.len() == 0 {
        assert(in_span(a[0], a[0].0));
        assert(covers(a, a[0].0));
        assert(!covers(b, a[0].0));
    } else {
        assert(in_span(a[0], a[0].0));
        assert(covers(a, a[0].0));
        assert(covers(b, a[0].0));
        let k = choose|k: int| 0 <= k < b.len() && in_span(#[trigger] b[k], a[0].0);
        assert(in_span(b[0], b[0].0));
        assert(covers(b, b[0].0));
        assert(covers(a, b[0].0));
        let j = choose|j: int| 0 <= j < a.len() && in_span(#[trigger] a[j], b[0].0);
        if j > 0 {
            assert(a[0].1 + 1 < a[j].0);
        }
        if k > 0 {
            assert(b[0].1 + 1 < b[k].0);
        }
        assert(a[0].0 == b[0].0);
        if a[0].1 < b[0].1 {
            let t = a[0].1 + 1;
            assert(in_span(b[0], t));
            assert(covers(b, t));
            assert(covers(a, t));
            let m = choose|m: int| 0 <= m < a.len() && in_span(#[trigger] a[m], t);
            if m > 0 {
                assert(a[0].1 + 1 < a[m].0);
            }
        }
        if b[0].1 < a[0].1 {
            let t = b[0].1 + 1;
            assert(in_span(a[0], t));
            assert(covers(a, t));
            assert(covers(b, t));
            let m = choose|m: int| 0 <= m < b.len() && in_span(#[trigger] b[m], t);
            if m > 0 {
                assert(b[0].1 + 1 < b[m].0);
            }
        }
        assert(a[0] == b[0]);
        assert forall|t: int| #[trigger]
            covers(a.drop_first(), t) == covers(b.drop_first(), t) by {
            lemma_covers_tail(a, t);
            lemma_covers_tail(b, t);
        }
        assert(canonical(a.drop_first()));
        assert(canonical(b.drop_first()));
        lemma_canonical_unique(a.drop_first(), b.drop_first());
        assert(a =~= seq![a[0]] + a.drop_first());
        assert(b =~= seq![b[0]] + b.drop_first());
    }
}

/// Building from a sequence that is already canonical gives that sequence
/// back: the canonical form is a fixed point of building.
pub proof fn lemma_build_fixed_point(s: Seq<(int, int)>, r: Seq<(int, int)>)
    requires
        canonical(s),
        builds(s, r),
    ensures
        r == s,
{
    lemma_canonical_unique(r, s);
}

/// The order in which intervals are given does not matter: two orderings of
/// the same intervals build the same canonical form.
pub proof fn lemma_build_order_independent(
    a: Seq<TimeInterval>,
    b: Seq<TimeInterval>,
    ra: Seq<(int, int)>,
    rb: Seq<(int, int)>,
)
    requires
        a.to_multiset() == b.to_multiset(),
        builds(spans(a), ra),
        builds(spans(b), rb),
    ensures
        ra == rb,
{
    assert forall|t: int| #[trigger] covers(ra, t) == covers(rb, t) by {
        lemma_permutation_covers(a, b, t);
    }
    lemma_canonical_unique(ra, rb);
}

/// Building from no intervals gives an empty set, which holds no instant.
pub proof fn lemma_build_empty(r: Seq<(int, int)>)
    requires
        builds(Seq::empty(), r),
    ensures
        r.len() == 0,
        forall|t: int| !covers(r, t),
{
    assert forall|t: int| !covers(r, t) by {
        assert(covers(r, t) == covers(Seq::<(int, int)>::empty(), t));
    }
    if r.len() > 0 {
        assert(in_span(r[0], r[0].0));
        assert(covers(r, r[0].0));
    }
}

/// A set built from one interval is that interval: it holds every instant
/// from its start to its end and none other, in particular neither the
/// instant just before its start nor the one just after its end.
pub proof fn lemma_build_single(i: (int, int), r: Seq<(int, int)>)
    requires
        valid_span(i),
        builds(seq![i], r),
    ensures
        r == seq![i],
        forall|t: int| #[trigger] covers(r, t) == in_span(i, t),
        !covers(r, i.0 - 1),
        !covers(r, i.1 + 1),
{
    assert forall|t: int| #[trigger] covers(r, t) == in_span(i, t) by {
        assert(covers(r, t) == covers(seq![i], t));
        if in_span(i, t) {
            assert(in_span(seq![i][0], t));
        }
    }
    lemma_build_fixed_point(seq![i], r);
    assert(covers(r, i.0 - 1) == in_span(i, i.0 - 1));
    assert(covers(r, i.1 + 1) == in_span(i, i.1 + 1));
}

} // verus!
