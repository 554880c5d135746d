//! Laws of the generator and of the scheduler, proved over their models.

use crate::schedule::{tick_of, Schedule, MAX_TICK};
use crate::scheduler::LCG;
use vstd::arithmetic::div_mod::lemma_div_is_ordered_by_denominator;
use vstd::prelude::*;

verus! {

/// Jump and step agree: advancing a generator by `n` in one jump leaves it
/// exactly where `n` single steps leave it.
pub proof fn lemma_jump_equals_steps(lcg: LCG, n: nat)
    requires
        lcg.wf(),
    ensures
        lcg.advanced(n) == lcg.stepped(n),
    decreases n,
{
    if n == 0 {
        lcg.lemma_advanced_zero();
    } else {
        lemma_jump_equals_steps(lcg, (n - 1) as nat);
        lcg.lemma_advanced_twice((n - 1) as nat, 1);
    }
}

/// A jump can be split anywhere: advancing by `p` and then by `q` leaves the
/// generator where one jump by `p + q` leaves it.
pub proof fn lemma_jump_splits(lcg: LCG, p: nat, q: nat)
    requires
        lcg.wf(),
    ensures
        lcg.advanced(p).advanced(q) == lcg.advanced(p + q),
        lcg.advanced(p).wf(),
{
    lcg.lemma_advanced_twice(p, q);
    lcg.lemma_advanced_wf(p);
}

/// Determinism: schedules that agree on the time, the gap and the
/// generator's three numbers produce the same pings and rest in the same
/// place after any number of them.
pub proof fn lemma_same_start_same_pings(a: Schedule, b: Schedule, n: nat)
    requires
        a.time == b.time,
        a.gap == b.gap,
        a.lcg.multiplier == b.lcg.multiplier,
        a.lcg.modulus == b.lcg.modulus,
        a.lcg.state == b.lcg.state,
    ensures
        a.pings(n) == b.pings(n),
        a.nth_ping(n) == b.nth_ping(n),
        a.after(n) == b.after(n),
{
    assert(a == b);
}

/// A schedule that has a ping left moves, with its next ping, to the
/// earliest ping after its own tick.
pub proof fn lemma_next_is_earliest_ping(s: Schedule) -> (p: int)
    requires
        s.wf(),
        !s.exhausted_at(s.time),
    ensures
        s.next_ping(s.time) == Some(p),
        s.next() == s.at_tick(p),
        s.next().time == p * 100,
        s.is_ping(p),
        forall|u: int| s.tick() < u < p ==> !s.is_ping(u),
        s.next().wf(),
        s.next().tick() == p,
{
    let p = s.next_ping(s.time).unwrap();
    s.lemma_first_ping_from(s.tick() + 1);
    s.lemma_at_tick_wf(p);
    p
}

/// Every produced ping is a ping of the schedule it was produced from: its
/// time is the start of a tick at which the generator's value is below the
/// threshold.
pub proof fn lemma_produced_is_ping(s: Schedule, n: nat)
    requires
        s.wf(),
        s.nth_ping(n) is Some,
    ensures
        s.nth_ping(n).unwrap() == tick_of(s.nth_ping(n).unwrap()) * 100,
        s.is_ping(tick_of(s.nth_ping(n).unwrap())),
    decreases n,
{
    let p = lemma_next_is_earliest_ping(s);
    let ms = s.nth_ping(n).unwrap();
    if n == 0 {
    } else {
        lemma_produced_is_ping(s.next(), (n - 1) as nat);
        s.lemma_at_tick_is_ping(p, tick_of(ms));
    }
}

/// Every ping of a schedule is produced: the result is the index at which
/// the schedule produces the ping at tick `t`.
pub proof fn lemma_ping_is_produced(s: Schedule, t: int) -> (n: nat)
    requires
        s.wf(),
        s.is_ping(t),
    ensures
        s.nth_ping(n) == Some(t * 100),
    decreases t - s.tick(),
{
    s.lemma_first_ping_from(s.tick() + 1);
    let p = lemma_next_is_earliest_ping(s);
    if p == t {
        0
    } else {
        s.lemma_at_tick_is_ping(p, t);
        let rest = lemma_ping_is_produced(s.next(), t);
        (rest + 1) as nat
    }
}

/// Monotonicity: every produced ping is strictly later than the time the
/// schedule started from.
pub proof fn lemma_ping_after_start(s: Schedule, n: nat)
    requires
        s.wf(),
        s.nth_ping(n) is Some,
    ensures
        s.nth_ping(n).unwrap() > s.time,
{
    lemma_produced_is_ping(s, n);
}

/// Monotonicity: of two produced pings the one with the greater index is
/// strictly later.
pub proof fn lemma_pings_increase(s: Schedule, n: nat, m: nat)
    requires
        s.wf(),
        n < m,
        s.nth_ping(m) is Some,
    ensures
        s.nth_ping(n) is Some,
        s.nth_ping(n).unwrap() < s.nth_ping(m).unwrap(),
    decreases n,
{
    let p = lemma_next_is_earliest_ping(s);
    if n == 0 {
        lemma_ping_after_start(s.next(), (m - 1) as nat);
    } else {
        lemma_pings_increase(s.next(), (n - 1) as nat, (m - 1) as nat);
    }
}

/// A shorter gap never has the smaller threshold.
pub proof fn lemma_threshold_by_gap(dense: Schedule, sparse: Schedule)
    requires
        dense.lcg.modulus == sparse.lcg.modulus,
        0 < dense.gap <= sparse.gap,
    ensures
        sparse.threshold() <= dense.threshold(),
{
    lemma_div_is_ordered_by_denominator(
        dense.lcg.modulus as int,
        dense.gap as int * 10,
        sparse.gap as int * 10,
    );
}

/// Nesting: of two schedules that share the time and the generator, the one
/// with the shorter gap has every ping of the other.
pub proof fn lemma_nested_pings(dense: Schedule, sparse: Schedule, t: int)
    requires
        dense.time == sparse.time,
        dense.lcg == sparse.lcg,
        0 < dense.gap <= sparse.gap,
        sparse.is_ping(t),
    ensures
        dense.is_ping(t),
{
    lemma_threshold_by_gap(dense, sparse);
}

/// Nesting, of what is produced: whatever the schedule with the longer gap
/// produces, the schedule with the shorter gap produces too. The result is
/// the index at which it does.
pub proof fn lemma_nested_production(dense: Schedule, sparse: Schedule, n: nat) -> (m: nat)
    requires
        dense.wf(),
        sparse.wf(),
        dense.time == sparse.time,
        dense.lcg == sparse.lcg,
        dense.gap <= sparse.gap,
        sparse.nth_ping(n) is Some,
    ensures
        dense.nth_ping(m) == sparse.nth_ping(n),
{
    let ms = sparse.nth_ping(n).unwrap();
    lemma_produced_is_ping(sparse, n);
    lemma_nested_pings(dense, sparse, tick_of(ms));
    lemma_ping_is_produced(dense, tick_of(ms))
}

/// The sequence of the first `n` pings holds, at each index, the ping of
/// that index.
pub proof fn lemma_pings_index(s: Schedule, n: nat, i: int)
    requires
        s.wf(),
        0 <= i < s.pings(n).len(),
    ensures
        s.pings(n).len() <= n,
        s.nth_ping(i as nat) == Some(s.pings(n)[i]),
    decreases n,
{
    lemma_pings_len(s, n);
    let p = lemma_next_is_earliest_ping(s);
    if i > 0 {
        lemma_pings_index(s.next(), (n - 1) as nat, i - 1);
    }
}

/// The sequence of the first `n` pings has `n` entries, or as many as there
/// are pings where those are fewer.
pub proof fn lemma_pings_len(s: Schedule, n: nat)
    requires
        s.wf(),
    ensures
        s.pings(n).len() <= n,
        s.pings(n).len() < n ==> s.nth_ping(s.pings(n).len()) is None,
        n > 0 && s.nth_ping((n - 1) as nat) is Some ==> s.pings(n).len() == n,
    decreases n,
{
    if n > 0 && !s.exhausted_at(s.time) {
        let p = lemma_next_is_earliest_ping(s);
        lemma_pings_len(s.next(), (n - 1) as nat);
        if n > 1 && s.nth_ping((n - 1) as nat) is Some {
            assert(s.next().nth_ping((n - 2) as nat) is Some);
        }
    }
}

/// The ping with index `n` is where the schedule rests after `n + 1` pings.
pub proof fn lemma_nth_ping_is_time_after(s: Schedule, n: nat)
    requires
        s.wf(),
        s.nth_ping(n) is Some,
    ensures
        s.after(n + 1).time == s.nth_ping(n).unwrap(),
    decreases n,
{
    reveal_with_fuel(Schedule::after, 2);
    let p = lemma_next_is_earliest_ping(s);
    if n > 0 {
        lemma_nth_ping_is_time_after(s.next(), (n - 1) as nat);
    }
}

/// After any number of pings a schedule is where it started or has moved
/// to a later tick; the result is that tick.
pub proof fn lemma_after_is_at_tick(s: Schedule, n: nat) -> (q: int)
    requires
        s.wf(),
    ensures
        s.after(n).wf(),
        s.after(n) == s || (s.tick() < q <= MAX_TICK && s.after(n) == s.at_tick(q)),
    decreases n,
{
    if n == 0 {
        s.tick()
    } else if s.exhausted_at(s.time) {
        lemma_after_is_at_tick(s, (n - 1) as nat)
    } else {
        let p = lemma_next_is_earliest_ping(s);
        let q = lemma_after_is_at_tick(s.next(), (n - 1) as nat);
        if s.next().after((n - 1) as nat) == s.next() {
            p
        } else {
            s.lemma_at_tick_twice(p, q);
            q
        }
    }
}

/// Skipping ahead: a request at `cur` is answered the same whether it is
/// put to the schedule as it started or to the schedule after it has
/// produced `n` pings, none of them later than `cur`.
pub proof fn lemma_skip_ahead(s: Schedule, n: nat, cur: int)
    requires
        s.wf(),
        i64::MIN <= cur <= i64::MAX,
        s.time <= cur,
        s.after(n).time <= cur,
    ensures
        s.after(n).next_ping(cur) == s.next_ping(cur),
        s.after(n).exhausted_at(cur) == s.exhausted_at(cur),
        !s.exhausted_at(cur) ==> s.after(n).advance_to_next(cur) == s.advance_to_next(cur),
{
    let q = lemma_after_is_at_tick(s, n);
    if s.after(n) != s {
        s.lemma_at_tick_first_ping(q, tick_of(cur) + 1);
        s.lemma_first_ping_from(tick_of(cur) + 1);
        if let Some(t) = s.next_ping(cur) {
            s.lemma_at_tick_twice(q, t);
        }
    }
}

/// A request that falls before the next ping is answered with that ping:
/// asking at any time from the schedule's own up to the tick before the
/// next ping gives what producing the next ping gives.
pub proof fn lemma_request_before_next_ping(s: Schedule, cur: int)
    requires
        s.wf(),
        s.time <= cur,
        s.next_ping(s.time) is Some,
        tick_of(cur) < s.next_ping(s.time).unwrap(),
    ensures
        s.advance_to_next(cur) == s.next(),
{
    let p = lemma_next_is_earliest_ping(s);
    s.lemma_first_ping_from_unique(tick_of(cur) + 1, p);
}

} // verus!
