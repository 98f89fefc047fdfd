//! The timers an engine has set and that have not fired yet.
use crate::engine::{ExpiredTimer, TimerModel, TimerRequest};
use crate::seqs;
use crate::text;
use crate::text::has_text;
use vstd::prelude::*;

verus! {

/// Whether a timer has expired.
pub open spec fn due(now_ms: int) -> spec_fn(TimerModel) -> bool {
    |t: TimerModel| t.expiry_ms <= now_ms
}

/// Whether a timer has still to expire.
pub open spec fn pending(now_ms: int) -> spec_fn(TimerModel) -> bool {
    |t: TimerModel| t.expiry_ms > now_ms
}

/// Whether a timer's name is none of these.
pub open spec fn not_named(ids: Seq<Seq<char>>) -> spec_fn(TimerModel) -> bool {
    |t: TimerModel| !ids.contains(t.timer_id)
}

/// A timer put in its place among timers in order of expiry: behind those
/// that expire no later.
pub open spec fn placed(sorted: Seq<TimerModel>, t: TimerModel) -> Seq<TimerModel>
    decreases sorted.len(),
{
    if sorted.len() == 0 || sorted.last().expiry_ms <= t.expiry_ms {
        sorted.push(t)
    } else {
        placed(sorted.drop_last(), t).push(sorted.last())
    }
}

/// Timers in order of expiry; those that expire together stay in the order
/// they were set.
pub open spec fn by_expiry(timers: Seq<TimerModel>) -> Seq<TimerModel>
    decreases timers.len(),
{
    if timers.len() == 0 {
        seq![]
    } else {
        placed(by_expiry(timers.drop_last()), timers.last())
    }
}

/// The timers that fire at `now_ms`, in the order they are reported.
pub open spec fn fired(timers: Seq<TimerModel>, now_ms: int) -> Seq<TimerModel> {
    by_expiry(timers.filter(due(now_ms)))
}

/// The timers after some were cancelled and, after that, some were set.
pub open spec fn rescheduled(
    timers: Seq<TimerModel>,
    cancelled: Seq<Seq<char>>,
    set: Seq<TimerModel>,
) -> Seq<TimerModel> {
    timers.filter(not_named(cancelled)) + set
}

/// The timers that have not fired yet, in the order they were set.
pub struct Timers {
    timers: Vec<TimerRequest>,
}

impl View for Timers {
    type V = Seq<TimerModel>;

    closed spec fn view(&self) -> Seq<TimerModel> {
        seqs::views(self.timers@)
    }
}

/// Where a timer is placed: before everything that expires later.
proof fn placed_is_insert(sorted: Seq<TimerModel>, t: TimerModel, k: int)
    requires
        0 <= k <= sorted.len(),
        k > 0 ==> sorted[k - 1].expiry_ms <= t.expiry_ms,
        forall|j: int| k <= j < sorted.len() ==> (#[trigger] sorted[j]).expiry_ms > t.expiry_ms,
    ensures
        placed(sorted, t) == sorted.insert(k, t),
    decreases sorted.len(),
{
    if k == sorted.len() {
        assert(sorted.insert(k, t) == sorted.push(t));
    } else {
        let rest = sorted.drop_last();
        assert(sorted[sorted.len() - 1].expiry_ms > t.expiry_ms);
        assert forall|j: int| k <= j < rest.len() implies (#[trigger] rest[j]).expiry_ms
            > t.expiry_ms by {
            assert(rest[j] == sorted[j]);
        }
        placed_is_insert(rest, t, k);
        assert(rest.insert(k, t).push(sorted.last()) == sorted.insert(k, t));
    }
}

impl Timers {
    /// No timers.
    pub fn new() -> (r: Timers)
        ensures
            r@ == Seq::<TimerModel>::empty(),
    {
        let r = Timers { timers: Vec::new() };
        assert(r@ =~= Seq::<TimerModel>::empty());
        r
    }

    /// Takes out the timers that have expired, in order of expiry.
    pub fn take_expired(&mut self, now_ms: i64) -> (r: Vec<ExpiredTimer>)
        ensures
            seqs::views(r@) == fired(old(self)@, now_ms as int),
            final(self)@ == old(self)@.filter(pending(now_ms as int)),
    {
        let mut all: Vec<TimerRequest> = Vec::new();
        std::mem::swap(&mut all, &mut self.timers);
        let ghost before = all@;
        let ghost model = seqs::views(before);
        let mut kept: Vec<TimerRequest> = Vec::new();
        let mut expired: Vec<ExpiredTimer> = Vec::new();
        assert(model.take(0) == Seq::<TimerModel>::empty());
        assert(seqs::views(kept@) == Seq::<TimerModel>::empty());
        assert(seqs::views(expired@) == Seq::<TimerModel>::empty());
        for t in it: all
            invariant
                it.seq() == before,
                model == seqs::views(before),
                seqs::views(kept@) == model.take(it.index() as int).filter(
                    pending(now_ms as int),
                ),
                seqs::views(expired@) == fired(model.take(it.index() as int), now_ms as int),
        {
            let ghost i = it.index() as int;
            proof {
                seqs::filter_step(model, due(now_ms as int), i);
                seqs::filter_step(model, pending(now_ms as int), i);
                assert(model[i] == t@);
            }
            if t.expiry_ms > now_ms {
                assert(seqs::views(kept@.push(t)) == seqs::views(kept@).push(t@));
                kept.push(t);
            } else {
                let ghost due_before = model.take(i).filter(due(now_ms as int));
                let ghost so_far = seqs::views(expired@);
                assert(model.take(i + 1).filter(due(now_ms as int)) == due_before.push(t@));
                assert(due_before.push(t@).drop_last() == due_before);
                let mut k: usize = expired.len();
                while k > 0 && expired[k - 1].expiry_ms > t.expiry_ms
                    invariant
                        k <= expired.len(),
                        forall|j: int|
                            k <= j < expired@.len() ==> (#[trigger] expired@[j]).expiry_ms
                                > t.expiry_ms,
                    decreases k,
                {
                    k = k - 1;
                }
                let fires = ExpiredTimer {
                    timer_id: t.timer_id,
                    expiry_ms: t.expiry_ms,
                    payload: t.payload,
                };
                proof {
                    assert forall|j: int| k <= j < so_far.len() implies (
                    #[trigger] so_far[j]).expiry_ms > t.expiry_ms by {
                        assert(expired@[j].expiry_ms > t.expiry_ms);
                    }
                    placed_is_insert(so_far, fires@, k as int);
                    assert(seqs::views(expired@.insert(k as int, fires)) == so_far.insert(
                        k as int,
                        fires@,
                    ));
                }
                expired.insert(k, fires);
            }
        }
        assert(model.take(model.len() as int) == model);
        self.timers = kept;
        expired
    }

    /// Cancels the timers named in `cancelled`, then sets those in `set`.
    pub fn reschedule(&mut self, cancelled: &[String], set: Vec<TimerRequest>)
        ensures
            final(self)@ == rescheduled(
                old(self)@,
                text::texts(cancelled@),
                seqs::views(set@),
            ),
    {
        let mut all: Vec<TimerRequest> = Vec::new();
        std::mem::swap(&mut all, &mut self.timers);
        let ghost before = all@;
        let ghost model = seqs::views(before);
        let ghost ids = text::texts(cancelled@);
        let mut kept: Vec<TimerRequest> = Vec::new();
        assert(model.take(0) == Seq::<TimerModel>::empty());
        assert(seqs::views(kept@) == Seq::<TimerModel>::empty());
        for t in it: all
            invariant
                it.seq() == before,
                model == seqs::views(before),
                ids == text::texts(cancelled@),
                seqs::views(kept@) == model.take(it.index() as int).filter(not_named(ids)),
        {
            let ghost i = it.index() as int;
            proof {
                seqs::filter_step(model, not_named(ids), i);
                assert(model[i] == t@);
            }
            if !has_text(cancelled, t.timer_id.as_str()) {
                assert(seqs::views(kept@.push(t)) == seqs::views(kept@).push(t@));
                kept.push(t);
            }
        }
        assert(model.take(model.len() as int) == model);
        let ghost old_ones = kept@;
        let ghost new_ones = set@;
        let mut set = set;
        kept.append(&mut set);
        assert(seqs::views(kept@) == seqs::views(old_ones) + seqs::views(new_ones));
        self.timers = kept;
    }
}

// ---------------------------------------------------------------------------
// What holds of timers
// ---------------------------------------------------------------------------

/// Whether timers are in order of expiry.
pub open spec fn in_order(timers: Seq<TimerModel>) -> bool {
    forall|i: int, j: int|
        0 <= i <= j < timers.len() ==> (#[trigger] timers[i]).expiry_ms <= (
        #[trigger] timers[j]).expiry_ms
}

/// Placing keeps the order, adds the timer and nothing else.
proof fn placing_keeps_order(sorted: Seq<TimerModel>, t: TimerModel)
    requires
        in_order(sorted),
    ensures
        in_order(placed(sorted, t)),
        placed(sorted, t).to_multiset() == sorted.to_multiset().insert(t),
    decreases sorted.len(),
{
    broadcast use vstd::seq_lib::group_to_multiset_ensures;

    if sorted.len() == 0 || sorted.last().expiry_ms <= t.expiry_ms {
        assert forall|i: int, j: int| 0 <= i <= j < sorted.push(t).len() implies (
        #[trigger] sorted.push(t)[i]).expiry_ms <= (#[trigger] sorted.push(t)[j]).expiry_ms by {
            if i < sorted.len() {
                assert(sorted[i].expiry_ms <= sorted[sorted.len() - 1].expiry_ms);
            }
        }
    } else {
        let rest = sorted.drop_last();
        assert forall|i: int, j: int| 0 <= i <= j < rest.len() implies (
        #[trigger] rest[i]).expiry_ms <= (#[trigger] rest[j]).expiry_ms by {
            assert(sorted[i].expiry_ms <= sorted[j].expiry_ms);
        }
        placing_keeps_order(rest, t);
        let p = placed(rest, t);
        let last = sorted.last();
        assert forall|i: int| 0 <= i < p.len() implies (#[trigger] p[i]).expiry_ms
            <= last.expiry_ms by {
            assert(p.to_multiset().contains(p[i]));
            if p[i] != t {
                assert(rest.to_multiset().contains(p[i]));
                let k = choose|k: int| 0 <= k < rest.len() && rest[k] == p[i];
                assert(sorted[k].expiry_ms <= sorted[sorted.len() - 1].expiry_ms);
            }
        }
        assert(rest.push(last) == sorted);
        assert(p.push(last).to_multiset() =~= sorted.to_multiset().insert(t));
    }
}

/// Fired timers are reported in order of expiry, and they are exactly those
/// that have expired.
pub proof fn fired_in_order(timers: Seq<TimerModel>, now_ms: int)
    ensures
        in_order(fired(timers, now_ms)),
        fired(timers, now_ms).to_multiset() == timers.filter(due(now_ms)).to_multiset(),
        forall|i: int|
            0 <= i < fired(timers, now_ms).len() ==> (#[trigger] fired(
                timers,
                now_ms,
            )[i]).expiry_ms <= now_ms,
{
    let expired = timers.filter(due(now_ms));
    sorting_keeps_everything(expired);
    seqs::filter_members(timers, due(now_ms));
    assert forall|i: int| 0 <= i < by_expiry(expired).len() implies (#[trigger] by_expiry(
        expired,
    )[i]).expiry_ms <= now_ms by {
        broadcast use vstd::seq_lib::group_to_multiset_ensures;

        let t = by_expiry(expired)[i];
        assert(by_expiry(expired).to_multiset().contains(t));
        let k = choose|k: int| 0 <= k < expired.len() && expired[k] == t;
        assert(due(now_ms)(expired[k]));
    }
}

/// Sorting loses and invents nothing.
proof fn sorting_keeps_everything(timers: Seq<TimerModel>)
    ensures
        in_order(by_expiry(timers)),
        by_expiry(timers).to_multiset() == timers.to_multiset(),
    decreases timers.len(),
{
    broadcast use vstd::seq_lib::group_to_multiset_ensures;

    if timers.len() > 0 {
        sorting_keeps_everything(timers.drop_last());
        placing_keeps_order(by_expiry(timers.drop_last()), timers.last());
        assert(timers.drop_last().push(timers.last()) == timers);
    } else {
        assert(timers == Seq::<TimerModel>::empty());
    }
}

/// Whether a timer expires at that very time.
pub open spec fn expires_at(expiry_ms: int) -> spec_fn(TimerModel) -> bool {
    |t: TimerModel| t.expiry_ms == expiry_ms
}

/// Placing puts a timer behind those that expire with it.
proof fn placing_keeps_turns(sorted: Seq<TimerModel>, t: TimerModel, expiry_ms: int)
    ensures
        placed(sorted, t).filter(expires_at(expiry_ms)) == sorted.push(t).filter(
            expires_at(expiry_ms),
        ),
    decreases sorted.len(),
{
    let p = expires_at(expiry_ms);
    if sorted.len() == 0 || sorted.last().expiry_ms <= t.expiry_ms {
    } else {
        let rest = sorted.drop_last();
        placing_keeps_turns(rest, t, expiry_ms);
        placed(rest, t).lemma_filter_push(sorted.last(), p);
        rest.lemma_filter_push(t, p);
        rest.lemma_filter_push(sorted.last(), p);
        sorted.lemma_filter_push(t, p);
        assert(rest.push(sorted.last()) == sorted);
    }
}

/// Timers that expire together fire in the order they were set.
pub proof fn fired_in_turn(timers: Seq<TimerModel>, now_ms: int, expiry_ms: int)
    ensures
        fired(timers, now_ms).filter(expires_at(expiry_ms)) == timers.filter(due(now_ms)).filter(
            expires_at(expiry_ms),
        ),
{
    sorting_keeps_turns(timers.filter(due(now_ms)), expiry_ms);
}

/// Sorting leaves timers that expire together in their order.
proof fn sorting_keeps_turns(timers: Seq<TimerModel>, expiry_ms: int)
    ensures
        by_expiry(timers).filter(expires_at(expiry_ms)) == timers.filter(expires_at(expiry_ms)),
    decreases timers.len(),
{
    reveal(Seq::filter);
    if timers.len() > 0 {
        let rest = timers.drop_last();
        sorting_keeps_turns(rest, expiry_ms);
        placing_keeps_turns(by_expiry(rest), timers.last(), expiry_ms);
        assert(by_expiry(rest).push(timers.last()).drop_last() == by_expiry(rest));
    }
}

/// No timer is lost or fires twice: what fires and what stays are together
/// what there was, and nothing that stays has expired.
pub proof fn no_timer_is_lost(timers: Seq<TimerModel>, now_ms: int)
    ensures
        fired(timers, now_ms).to_multiset().add(timers.filter(pending(now_ms)).to_multiset())
            == timers.to_multiset(),
        fired(timers.filter(pending(now_ms)), now_ms).len() == 0,
{
    fired_in_order(timers, now_ms);
    divided(timers, now_ms);
    let rest = timers.filter(pending(now_ms));
    seqs::filter_members(timers, pending(now_ms));
    seqs::filter_members(rest, due(now_ms));
    if rest.filter(due(now_ms)).len() > 0 {
        let t = rest.filter(due(now_ms))[0];
        assert(due(now_ms)(t));
        assert(rest.contains(t));
        let k = choose|k: int| 0 <= k < rest.len() && rest[k] == t;
        assert(pending(now_ms)(rest[k]));
    }
    assert(by_expiry(rest.filter(due(now_ms))).len() == 0);
}

/// Timers are divided into those that have expired and those that have not.
proof fn divided(timers: Seq<TimerModel>, now_ms: int)
    ensures
        timers.filter(due(now_ms)).to_multiset().add(timers.filter(pending(now_ms)).to_multiset())
            == timers.to_multiset(),
    decreases timers.len(),
{
    broadcast use vstd::seq_lib::group_to_multiset_ensures;

    if timers.len() > 0 {
        let rest = timers.drop_last();
        divided(rest, now_ms);
        seqs::filter_step(timers, due(now_ms), timers.len() - 1);
        seqs::filter_step(timers, pending(now_ms), timers.len() - 1);
        assert(timers.take(timers.len() as int) == timers);
        assert(timers.take(timers.len() - 1) == rest);
        assert(rest.push(timers.last()) == timers);
        assert(timers.filter(due(now_ms)).to_multiset().add(
            timers.filter(pending(now_ms)).to_multiset(),
        ) =~= timers.to_multiset());
    } else {
        assert(timers.filter(due(now_ms)) == timers);
        assert(timers.filter(pending(now_ms)) == timers);
        assert(timers.to_multiset() =~= vstd::multiset::Multiset::empty());
    }
}

/// A cancelled timer never fires: whatever fires later under its name was set
/// in the same breath or afterwards.
pub proof fn cancelled_timer_never_fires(
    timers: Seq<TimerModel>,
    cancelled: Seq<Seq<char>>,
    set: Seq<TimerModel>,
    now_ms: int,
)
    ensures
        forall|i: int|
            0 <= i < fired(rescheduled(timers, cancelled, set), now_ms).len() ==> {
                let t = #[trigger] fired(rescheduled(timers, cancelled, set), now_ms)[i];
                cancelled.contains(t.timer_id) ==> set.contains(t)
            },
{
    let after = rescheduled(timers, cancelled, set);
    let kept = timers.filter(not_named(cancelled));
    fired_in_order(after, now_ms);
    seqs::filter_members(after, due(now_ms));
    seqs::filter_members(timers, not_named(cancelled));
    assert forall|i: int| 0 <= i < fired(after, now_ms).len() implies ({
        let t = #[trigger] fired(after, now_ms)[i];
        cancelled.contains(t.timer_id) ==> set.contains(t)
    }) by {
        broadcast use vstd::seq_lib::group_to_multiset_ensures;

        let t = fired(after, now_ms)[i];
        assert(fired(after, now_ms).to_multiset().contains(t));
        let k = choose|k: int|
            0 <= k < after.filter(due(now_ms)).len() && after.filter(due(now_ms))[k] == t;
        assert(after.contains(after.filter(due(now_ms))[k]));
        let j = choose|j: int| 0 <= j < after.len() && after[j] == t;
        if j < kept.len() {
            assert(not_named(cancelled)(kept[j]));
        } else {
            assert(set[j - kept.len()] == t);
        }
    }
}

/// Cancelling a name and setting it in one breath replaces the timer: of that
/// name there are then exactly the timers just set.
pub proof fn cancel_and_set_replaces(
    timers: Seq<TimerModel>,
    cancelled: Seq<Seq<char>>,
    set: Seq<TimerModel>,
    t: TimerModel,
)
    requires
        cancelled.contains(t.timer_id),
    ensures
        rescheduled(timers, cancelled, set).contains(t) <==> set.contains(t),
{
    let after = rescheduled(timers, cancelled, set);
    let kept = timers.filter(not_named(cancelled));
    seqs::filter_members(timers, not_named(cancelled));
    if after.contains(t) {
        let j = choose|j: int| 0 <= j < after.len() && after[j] == t;
        if j < kept.len() {
            assert(not_named(cancelled)(kept[j]));
        } else {
            assert(set[j - kept.len()] == t);
        }
    }
    if set.contains(t) {
        let j = choose|j: int| 0 <= j < set.len() && set[j] == t;
        assert(after[kept.len() + j] == t);
    }
}

/// Cancelling a name that no timer has changes nothing.
pub proof fn cancelling_nothing_is_harmless(timers: Seq<TimerModel>, cancelled: Seq<Seq<char>>)
    requires
        forall|i: int|
            0 <= i < timers.len() ==> !cancelled.contains((#[trigger] timers[i]).timer_id),
    ensures
        rescheduled(timers, cancelled, seq![]) == timers,
{
    seqs::filter_keeps_all(timers, not_named(cancelled));
    assert(timers + seq![] == timers);
}

/// A timer is due from the moment it was set for, and not before; and timers are
/// in order exactly where none comes before one that was set for earlier.
pub proof fn timers_are_due_from_their_moment(t: TimerModel, now_ms: int, timers: Seq<TimerModel>)
    ensures
        due(now_ms)(t) <==> t.expiry_ms <= now_ms,
        pending(now_ms)(t) <==> now_ms < t.expiry_ms,
        in_order(timers) <==> forall|i: int, j: int|
            0 <= i < j < timers.len() ==> (#[trigger] timers[i]).expiry_ms <= (
            #[trigger] timers[j]).expiry_ms,
{
}

/// What is set anew leaves every timer that is not cancelled, in its place, and
/// puts the new ones behind; every timer of a cancelled name is gone, however many
/// there were.
pub proof fn cancelling_takes_every_timer_of_a_name(
    timers: Seq<TimerModel>,
    cancelled: Seq<Seq<char>>,
    set: Seq<TimerModel>,
)
    ensures
        rescheduled(timers, cancelled, set) == timers.filter(
            |t: TimerModel| !cancelled.contains(t.timer_id),
        ) + set,
{
    seqs::filter_agrees(
        timers,
        not_named(cancelled),
        |t: TimerModel| !cancelled.contains(t.timer_id),
    );
}

} // verus!
