//! Sequences: what their items denote, and facts about filtering them.
use vstd::prelude::*;

verus! {

/// What the items of a sequence denote.
pub open spec fn views<T: View>(items: Seq<T>) -> Seq<T::V> {
    items.map_values(|item: T| item@)
}

/// Filtering one item more.
pub(crate) proof fn filter_step<A>(s: Seq<A>, p: spec_fn(A) -> bool, i: int)
    requires
        0 <= i < s.len(),
    ensures
        s.take(i + 1).filter(p) == if p(s[i]) {
            s.take(i).filter(p).push(s[i])
        } else {
            s.take(i).filter(p)
        },
{
    reveal(Seq::filter);
    assert(s.take(i + 1).drop_last() == s.take(i));
    assert(s.take(i + 1).last() == s[i]);
}

/// What a filter lets through is in the sequence and meets the condition, and
/// nothing else that meets the condition is in the sequence.
pub(crate) proof fn filter_members<A>(s: Seq<A>, p: spec_fn(A) -> bool)
    ensures
        forall|i: int|
            0 <= i < s.filter(p).len() ==> p(#[trigger] s.filter(p)[i]) && s.contains(
                s.filter(p)[i],
            ),
        forall|i: int| 0 <= i < s.len() && p(#[trigger] s[i]) ==> s.filter(p).contains(s[i]),
        s.filter(p).len() <= s.len(),
    decreases s.len(),
{
    reveal(Seq::filter);
    if s.len() > 0 {
        let rest = s.drop_last();
        filter_members(rest, p);
        let f = s.filter(p);
        let g = rest.filter(p);
        assert forall|i: int| 0 <= i < f.len() implies p(#[trigger] f[i]) && s.contains(f[i]) by {
            if i < g.len() {
                assert(f[i] == g[i]);
                let k = choose|k: int| 0 <= k < rest.len() && rest[k] == g[i];
                assert(s[k] == f[i]);
            } else {
                assert(s[s.len() - 1] == f[i]);
            }
        }
        assert forall|i: int| 0 <= i < s.len() && p(#[trigger] s[i]) implies f.contains(s[i]) by {
            if i < rest.len() {
                assert(rest[i] == s[i]);
                let k = choose|k: int| 0 <= k < g.len() && g[k] == s[i];
                assert(f[k] == s[i]);
            } else {
                assert(f[g.len() as int] == s[i]);
            }
        }
    }
}

/// A condition that every item meets filters nothing out.
pub(crate) proof fn filter_keeps_all<A>(s: Seq<A>, p: spec_fn(A) -> bool)
    requires
        forall|i: int| 0 <= i < s.len() ==> p(#[trigger] s[i]),
    ensures
        s.filter(p) == s,
    decreases s.len(),
{
    reveal(Seq::filter);
    if s.len() > 0 {
        let rest = s.drop_last();
        assert forall|i: int| 0 <= i < rest.len() implies p(#[trigger] rest[i]) by {
            assert(rest[i] == s[i]);
        }
        filter_keeps_all(rest, p);
        assert(p(s[s.len() - 1]));
        assert(rest.push(s.last()) == s);
    }
}

/// Filtering keeps what is different different.
pub(crate) proof fn filter_keeps_distinct<A, B>(
    s: Seq<A>,
    p: spec_fn(A) -> bool,
    f: spec_fn(A) -> B,
)
    requires
        forall|i: int, j: int| 0 <= i < j < s.len() ==> f(#[trigger] s[i]) != f(#[trigger] s[j]),
    ensures
        forall|i: int, j: int|
            0 <= i < j < s.filter(p).len() ==> f(#[trigger] s.filter(p)[i]) != f(
                #[trigger] s.filter(p)[j],
            ),
    decreases s.len(),
{
    reveal(Seq::filter);
    if s.len() > 0 {
        let rest = s.drop_last();
        assert forall|i: int, j: int| 0 <= i < j < rest.len() implies f(#[trigger] rest[i]) != f(
            #[trigger] rest[j],
        ) by {
            assert(rest[i] == s[i] && rest[j] == s[j]);
        }
        filter_keeps_distinct(rest, p, f);
        filter_members(rest, p);
        let g = rest.filter(p);
        assert forall|i: int, j: int| 0 <= i < j < s.filter(p).len() implies f(
            #[trigger] s.filter(p)[i],
        ) != f(#[trigger] s.filter(p)[j]) by {
            assert(s.filter(p)[i] == g[i]);
            if j < g.len() {
                assert(s.filter(p)[j] == g[j]);
            } else {
                let k = choose|k: int| 0 <= k < rest.len() && rest[k] == g[i];
                assert(s[k] == g[i]);
                assert(s[s.len() - 1] == s.filter(p)[j]);
            }
        }
    }
}

/// Conditions that agree on a sequence's items filter it alike.
pub(crate) proof fn filter_agrees<A>(s: Seq<A>, p: spec_fn(A) -> bool, q: spec_fn(A) -> bool)
    requires
        forall|i: int| 0 <= i < s.len() ==> p(#[trigger] s[i]) == q(s[i]),
    ensures
        s.filter(p) == s.filter(q),
    decreases s.len(),
{
    reveal(Seq::filter);
    if s.len() > 0 {
        let rest = s.drop_last();
        assert forall|i: int| 0 <= i < rest.len() implies p(#[trigger] rest[i]) == q(rest[i]) by {
            assert(rest[i] == s[i]);
        }
        filter_agrees(rest, p, q);
        assert(p(s[s.len() - 1]) == q(s[s.len() - 1]));
    }
}

/// A condition that no item meets filters everything out.
pub(crate) proof fn filter_drops_all<A>(s: Seq<A>, p: spec_fn(A) -> bool)
    requires
        forall|i: int| 0 <= i < s.len() ==> !p(#[trigger] s[i]),
    ensures
        s.filter(p) == Seq::<A>::empty(),
{
    filter_members(s, p);
    if s.filter(p).len() > 0 {
        assert(p(s.filter(p)[0]));
        let k = choose|k: int| 0 <= k < s.len() && s[k] == s.filter(p)[0];
        assert(!p(s[k]));
    }
}

/// How many items meet a condition.
pub open spec fn tally<A>(s: Seq<A>, p: spec_fn(A) -> bool) -> nat
    decreases s.len(),
{
    if s.len() == 0 {
        0
    } else {
        tally(s.drop_last(), p) + if p(s.last()) {
            1nat
        } else {
            0nat
        }
    }
}

/// Being that very item.
pub open spec fn is<A>(a: A) -> spec_fn(A) -> bool {
    |x: A| x == a
}

/// One item more.
pub(crate) proof fn tally_push<A>(s: Seq<A>, a: A, p: spec_fn(A) -> bool)
    ensures
        tally(s.push(a), p) == tally(s, p) + if p(a) {
            1nat
        } else {
            0nat
        },
{
    assert(s.push(a).drop_last() == s);
}

/// What two sequences have, they have together.
pub(crate) proof fn tally_add<A>(a: Seq<A>, b: Seq<A>, p: spec_fn(A) -> bool)
    ensures
        tally(a + b, p) == tally(a, p) + tally(b, p),
    decreases b.len(),
{
    if b.len() == 0 {
        assert(a + b == a);
    } else {
        tally_add(a, b.drop_last(), p);
        assert((a + b).drop_last() == a + b.drop_last());
        assert((a + b).last() == b.last());
    }
}

/// Items that are changed count as they did, where the conditions say so.
pub(crate) proof fn tally_map<A, B>(
    s: Seq<A>,
    f: spec_fn(A) -> B,
    p: spec_fn(A) -> bool,
    q: spec_fn(B) -> bool,
)
    requires
        forall|a: A| q(#[trigger] f(a)) == p(a),
    ensures
        tally(s.map_values(f), q) == tally(s, p),
    decreases s.len(),
{
    if s.len() > 0 {
        tally_map(s.drop_last(), f, p, q);
        assert(s.map_values(f).drop_last() == s.drop_last().map_values(f));
        assert(s.map_values(f).last() == f(s.last()));
    }
}

/// What a filter lets through and what it does not are together what there was.
pub(crate) proof fn tally_divided<A>(
    s: Seq<A>,
    p: spec_fn(A) -> bool,
    other: spec_fn(A) -> bool,
    q: spec_fn(A) -> bool,
)
    requires
        forall|a: A| #[trigger] p(a) == !other(a),
    ensures
        tally(s.filter(p), q) + tally(s.filter(other), q) == tally(s, q),
    decreases s.len(),
{
    reveal(Seq::filter);
    if s.len() > 0 {
        let rest = s.drop_last();
        tally_divided(rest, p, other, q);
        assert(p(s.last()) == !other(s.last()));
        tally_push(rest.filter(p), s.last(), q);
        tally_push(rest.filter(other), s.last(), q);
    }
}

/// A filter lets through all of an item or nothing of it.
pub(crate) proof fn tally_filtered<A>(s: Seq<A>, p: spec_fn(A) -> bool, a: A)
    ensures
        tally(s.filter(p), is(a)) == if p(a) {
            tally(s, is(a))
        } else {
            0
        },
    decreases s.len(),
{
    reveal(Seq::filter);
    if s.len() > 0 {
        let rest = s.drop_last();
        tally_filtered(rest, p, a);
        tally_push(rest.filter(p), s.last(), is(a));
    }
}

/// Nothing counts exactly where no item meets the condition.
pub(crate) proof fn tally_none<A>(s: Seq<A>, p: spec_fn(A) -> bool)
    ensures
        tally(s, p) == 0 <==> forall|i: int| 0 <= i < s.len() ==> !p(#[trigger] s[i]),
    decreases s.len(),
{
    if s.len() > 0 {
        let rest = s.drop_last();
        tally_none(rest, p);
        if tally(s, p) == 0 {
            assert forall|i: int| 0 <= i < s.len() implies !p(#[trigger] s[i]) by {
                if i < rest.len() {
                    assert(rest[i] == s[i]);
                }
            }
        } else if forall|i: int| 0 <= i < s.len() ==> !p(#[trigger] s[i]) {
            assert forall|i: int| 0 <= i < rest.len() implies !p(#[trigger] rest[i]) by {
                assert(rest[i] == s[i]);
            }
            assert(!p(s[s.len() - 1]));
        }
    }
}

/// How often an item occurs.
pub(crate) proof fn tally_is_count<A>(s: Seq<A>, a: A)
    ensures
        tally(s, is(a)) == s.to_multiset().count(a),
    decreases s.len(),
{
    broadcast use vstd::seq_lib::group_to_multiset_ensures;

    if s.len() > 0 {
        tally_is_count(s.drop_last(), a);
        assert(s.drop_last().push(s.last()) == s);
    } else {
        assert(s == Seq::<A>::empty());
    }
}

/// What a measure comes to over a sequence.
pub open spec fn total<A>(s: Seq<A>, f: spec_fn(A) -> nat) -> nat
    decreases s.len(),
{
    if s.len() == 0 {
        0
    } else {
        total(s.drop_last(), f) + f(s.last())
    }
}

/// Whether a measure is one at that place, and nothing anywhere else.
pub open spec fn only_at<A>(s: Seq<A>, k: int, f: spec_fn(A) -> nat) -> bool {
    &&& 0 <= k < s.len()
    &&& f(s[k]) == 1
    &&& forall|i: int| 0 <= i < s.len() && i != k ==> f(#[trigger] s[i]) == 0
}

/// A measure comes to nothing exactly where it is nothing everywhere.
pub(crate) proof fn total_none<A>(s: Seq<A>, f: spec_fn(A) -> nat)
    ensures
        total(s, f) == 0 <==> forall|i: int| 0 <= i < s.len() ==> f(#[trigger] s[i]) == 0,
    decreases s.len(),
{
    if s.len() > 0 {
        let rest = s.drop_last();
        total_none(rest, f);
        if total(s, f) == 0 {
            assert forall|i: int| 0 <= i < s.len() implies f(#[trigger] s[i]) == 0 by {
                if i < rest.len() {
                    assert(rest[i] == s[i]);
                }
            }
        } else if forall|i: int| 0 <= i < s.len() ==> f(#[trigger] s[i]) == 0 {
            assert forall|i: int| 0 <= i < rest.len() implies f(#[trigger] rest[i]) == 0 by {
                assert(rest[i] == s[i]);
            }
            assert(f(s[s.len() - 1]) == 0);
        }
    }
}

/// A measure that comes to one is one at a single place.
pub(crate) proof fn total_one<A>(s: Seq<A>, f: spec_fn(A) -> nat)
    requires
        total(s, f) == 1,
    ensures
        exists|k: int| only_at(s, k, f),
    decreases s.len(),
{
    let rest = s.drop_last();
    let n = s.len() - 1;
    let k = if f(s.last()) == 1 {
        total_none(rest, f);
        n
    } else {
        total_one(rest, f);
        choose|k: int| only_at(rest, k, f)
    };
    assert forall|i: int| 0 <= i < s.len() && i != k implies f(#[trigger] s[i]) == 0 by {
        if i < n {
            assert(rest[i] == s[i]);
        }
    }
    if k < n {
        assert(rest[k] == s[k]);
    }
    assert(only_at(s, k, f));
}

/// A sequence denotes what its items do, all of them and in order.
pub proof fn items_denote_one_by_one<T: View>(items: Seq<T>, i: int)
    ensures
        views(items).len() == items.len(),
        0 <= i < items.len() ==> views(items)[i] == items[i]@,
{
}

} // verus!
