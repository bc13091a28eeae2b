//! The tempo changes of a file: the tempo in force at tick 0 and the later changes in tick
//! order, one per tick. Converting ticks to seconds from them is done by the caller.

use vstd::prelude::*;
use crate::order::{insert_by_key, sort_by_key, sorted_by_key, lemma_insert_at, lemma_sort_push, lemma_sort_by_key};
use crate::smf::SmfEvent;

verus! {

/// Microseconds per quarter note when a file sets no tempo (120 beats per minute).
pub const DEFAULT_US_PER_QN: u32 = 500_000;

/// The tempo at tick 0: the last tempo event at tick 0, or the default.
pub open spec fn base_tempo(evs: Seq<SmfEvent>) -> u32
    decreases evs.len(),
{
    if evs.len() == 0 {
        DEFAULT_US_PER_QN
    } else {
        match evs.last() {
            SmfEvent::Tempo { tick, us_per_qn } => if tick == 0 { us_per_qn } else { base_tempo(evs.drop_last()) },
            _ => base_tempo(evs.drop_last()),
        }
    }
}

/// The tempo events after tick 0 as (tick, microseconds per quarter note), in order.
pub open spec fn later_tempos(evs: Seq<SmfEvent>) -> Seq<(u64, u32)>
    decreases evs.len(),
{
    if evs.len() == 0 {
        Seq::empty()
    } else {
        let rest = later_tempos(evs.drop_last());
        match evs.last() {
            SmfEvent::Tempo { tick, us_per_qn } => if tick != 0 { rest.push((tick, us_per_qn)) } else { rest },
            _ => rest,
        }
    }
}

/// Orders tempo changes by tick.
pub open spec fn change_key() -> spec_fn((u64, u32)) -> u64 {
    |c: (u64, u32)| c.0
}

/// Drops every element whose tick equals that of the element just before it.
pub open spec fn dedup_ticks(s: Seq<(u64, u32)>) -> Seq<(u64, u32)>
    decreases s.len(),
{
    if s.len() <= 1 {
        s
    } else if s.last().0 == s[s.len() - 2].0 {
        dedup_ticks(s.drop_last())
    } else {
        dedup_ticks(s.drop_last()).push(s.last())
    }
}

/// The tempo at tick 0 and the later changes, ordered by tick (equal ticks keep their
/// order) with only the first change of each tick kept.
pub fn tempo_changes(events: &[SmfEvent]) -> (r: (u32, Vec<(u64, u32)>))
    ensures
        r.0 == base_tempo(events@),
        r.1@ == dedup_ticks(sort_by_key(later_tempos(events@), change_key())),
{
    let mut base: u32 = DEFAULT_US_PER_QN;
    let mut changes: Vec<(u64, u32)> = Vec::new();
    let mut i: usize = 0;
    assert(events@.take(0) =~= Seq::<SmfEvent>::empty());
    while i < events.len()
        invariant
            0 <= i <= events@.len(),
            base == base_tempo(events@.take(i as int)),
            changes@ == sort_by_key(later_tempos(events@.take(i as int)), change_key()),
        decreases events@.len() - i,
    {
        let ghost pre = events@.take(i as int);
        assert(events@.take(i + 1).drop_last() =~= pre);
        assert(events@.take(i + 1).last() == events@[i as int]);
        match &events[i] {
            SmfEvent::Tempo { tick, us_per_qn } => {
                if *tick == 0 {
                    base = *us_per_qn;
                } else {
                    let c = (*tick, *us_per_qn);
                    let mut k = changes.len();
                    while k > 0 && changes[k - 1].0 > c.0
                        invariant
                            0 <= k <= changes@.len(),
                            forall|j: int| k <= j < changes@.len() ==> (change_key())(#[trigger] changes@[j]) > (change_key())(c),
                        decreases k,
                    {
                        k = k - 1;
                    }
                    proof {
                        lemma_insert_at(changes@, c, change_key(), k as int);
                        lemma_sort_push(later_tempos(pre), c, change_key());
                    }
                    let ghost before = changes@;
                    changes.insert(k, c);
                    assert(changes@ =~= before.take(k as int).push(c) + before.skip(k as int));
                }
            },
            _ => {},
        }
        i = i + 1;
    }
    assert(events@.take(events@.len() as int) =~= events@);
    // drop later changes at a tick already listed
    let ghost sorted = changes@;
    let mut out: Vec<(u64, u32)> = Vec::new();
    let mut j: usize = 0;
    assert(sorted.take(0) =~= Seq::<(u64, u32)>::empty());
    while j < changes.len()
        invariant
            0 <= j <= changes@.len(),
            sorted == changes@,
            out@ == dedup_ticks(sorted.take(j as int)),
        decreases changes@.len() - j,
    {
        let ghost t = sorted.take(j + 1);
        assert(t.drop_last() =~= sorted.take(j as int));
        assert(t.last() == sorted[j as int]);
        if j == 0 || changes[j].0 != changes[j - 1].0 {
            out.push(changes[j]);
            proof {
                if j > 0 {
                    assert(t[t.len() - 2] == sorted[j - 1]);
                }
            }
        } else {
            assert(t[t.len() - 2] == sorted[j - 1]);
        }
        j = j + 1;
    }
    assert(sorted.take(sorted.len() as int) =~= sorted);
    (base, out)
}


// ---------- the later changes ----------

/// Microseconds of the first change at tick `t` in `s`, if any.
pub open spec fn first_at(s: Seq<(u64, u32)>, t: u64) -> Option<u32>
    decreases s.len(),
{
    if s.len() == 0 {
        None
    } else {
        match first_at(s.drop_last(), t) {
            Some(u) => Some(u),
            None => if s.last().0 == t { Some(s.last().1) } else { None },
        }
    }
}

/// Whether an event is a tempo event at tick `t`.
pub open spec fn is_tempo_at(e: SmfEvent, t: u64) -> bool {
    e matches SmfEvent::Tempo { tick, .. } && tick == t
}

/// Microseconds of the first tempo event at tick `t`, in file order.
pub open spec fn first_tempo_at(evs: Seq<SmfEvent>, t: u64) -> Option<u32>
    decreases evs.len(),
{
    if evs.len() == 0 {
        None
    } else {
        match first_tempo_at(evs.drop_last(), t) {
            Some(u) => Some(u),
            None => match evs.last() {
                SmfEvent::Tempo { tick, us_per_qn } => if tick == t { Some(us_per_qn) } else { None },
                _ => None,
            },
        }
    }
}

proof fn lemma_first_at(s: Seq<(u64, u32)>, t: u64)
    ensures
        first_at(s, t) matches Some(u) ==> exists|q: int| 0 <= q < s.len() && s[q] == (t, u)
            && forall|r: int| 0 <= r < q ==> (#[trigger] s[r]).0 != t,
        first_at(s, t) is None ==> forall|q: int| 0 <= q < s.len() ==> (#[trigger] s[q]).0 != t,
    decreases s.len(),
{
    if s.len() > 0 {
        let p = s.drop_last();
        lemma_first_at(p, t);
        assert forall|q: int| 0 <= q < p.len() implies #[trigger] p[q] == s[q] by {}
        match first_at(p, t) {
            Some(u) => {
                let q = choose|q: int| 0 <= q < p.len() && p[q] == (t, u) && forall|r: int| 0 <= r < q ==> (#[trigger] p[r]).0 != t;
                assert(s[q] == (t, u));
                assert forall|r: int| 0 <= r < q implies (#[trigger] s[r]).0 != t by {
                    assert(s[r] == p[r]);
                }
            },
            None => {
                if s.last().0 == t {
                    let q = s.len() - 1;
                    assert(s[q] == (t, s.last().1));
                    assert forall|r: int| 0 <= r < q implies (#[trigger] s[r]).0 != t by {
                        assert(s[r] == p[r]);
                    }
                } else {
                    assert forall|q: int| 0 <= q < s.len() implies (#[trigger] s[q]).0 != t by {
                        if q < p.len() {
                            assert(s[q] == p[q]);
                        }
                    }
                }
            },
        }
    }
}

/// Inserting after every element of a tick not larger keeps the first change of each tick.
proof fn lemma_first_at_insert(u: Seq<(u64, u32)>, x: (u64, u32), t: u64)
    ensures
        first_at(insert_by_key(u, x, change_key()), t) == first_at(u.push(x), t),
    decreases u.len(),
{
    assert(u.push(x).drop_last() =~= u);
    if u.len() == 0 || (change_key())(u.last()) <= (change_key())(x) {
    } else {
        let p = u.drop_last();
        let l = u.last();
        lemma_first_at_insert(p, x, t);
        let ins = insert_by_key(p, x, change_key());
        assert(insert_by_key(u, x, change_key()) == ins.push(l));
        assert(ins.push(l).drop_last() =~= ins);
        assert(p.push(x).drop_last() =~= p);
        assert(p.push(l) =~= u);
        assert(p.push(l).drop_last() =~= p);
        assert(l.0 > x.0);
        let a = first_at(ins.push(l), t);
        assert(a == match first_at(ins, t) {
            Some(v) => Some(v),
            None => if l.0 == t { Some(l.1) } else { None },
        });
        assert(first_at(p.push(x), t) == match first_at(p, t) {
            Some(v) => Some(v),
            None => if x.0 == t { Some(x.1) } else { None },
        });
        assert(first_at(u, t) == match first_at(p, t) {
            Some(v) => Some(v),
            None => if l.0 == t { Some(l.1) } else { None },
        });
        assert(first_at(u.push(x), t) == match first_at(u, t) {
            Some(v) => Some(v),
            None => if x.0 == t { Some(x.1) } else { None },
        });
    }
}

/// A stable sort by tick keeps the first change of each tick.
proof fn lemma_first_at_sort(s: Seq<(u64, u32)>, t: u64)
    ensures
        first_at(sort_by_key(s, change_key()), t) == first_at(s, t),
    decreases s.len(),
{
    if s.len() > 0 {
        let p = s.drop_last();
        lemma_first_at_sort(p, t);
        lemma_first_at_insert(sort_by_key(p, change_key()), s.last(), t);
        lemma_first_at_push_eq(sort_by_key(p, change_key()), p, s.last(), t);
        assert(p.push(s.last()) =~= s);
    }
}

proof fn lemma_first_at_push_eq(a: Seq<(u64, u32)>, b: Seq<(u64, u32)>, x: (u64, u32), t: u64)
    requires
        first_at(a, t) == first_at(b, t),
    ensures
        first_at(a.push(x), t) == first_at(b.push(x), t),
{
    assert(a.push(x).drop_last() =~= a);
    assert(b.push(x).drop_last() =~= b);
}

/// Dropping repeated ticks from a tick-ordered list leaves one change per tick, ticks strictly
/// ascending, each the first change of its tick.
proof fn lemma_dedup_sorted(s: Seq<(u64, u32)>)
    requires
        sorted_by_key(s, change_key()),
    ensures
        forall|a: int, b: int| 0 <= a < b < dedup_ticks(s).len() ==> dedup_ticks(s)[a].0 < dedup_ticks(s)[b].0,
        forall|k: int| 0 <= k < dedup_ticks(s).len() ==> first_at(s, (#[trigger] dedup_ticks(s)[k]).0) == Some(dedup_ticks(s)[k].1),
        forall|t: u64| #[trigger] first_at(s, t) is Some ==> exists|k: int| 0 <= k < dedup_ticks(s).len() && dedup_ticks(s)[k].0 == t,
    decreases s.len(),
{
    if s.len() <= 1 {
        if s.len() == 1 {
            assert(s.drop_last() =~= Seq::<(u64, u32)>::empty());
            assert(first_at(s.drop_last(), s[0].0) is None);
            assert(first_at(s, s[0].0) == Some(s[0].1));
            assert(dedup_ticks(s) == s);
        }
        assert forall|t: u64| #[trigger] first_at(s, t) is Some implies exists|k: int| 0 <= k < dedup_ticks(s).len() && dedup_ticks(s)[k].0 == t by {
            lemma_first_at(s, t);
        }
    } else {
        let p = s.drop_last();
        assert(sorted_by_key(p, change_key())) by {
            assert forall|i: int, j: int| 0 <= i <= j < p.len() implies (change_key())(p[i]) <= (change_key())(p[j]) by {
                assert(p[i] == s[i] && p[j] == s[j]);
            }
        }
        lemma_dedup_sorted(p);
        let dp = dedup_ticks(p);
        let last = s.last();
        let prev = s[s.len() - 2];
        assert(prev == p.last());
        // a change found in p stays the first in s
        assert forall|t: u64| #[trigger] first_at(p, t) is Some implies first_at(s, t) == first_at(p, t) by {}
        if last.0 == prev.0 {
            assert(dedup_ticks(s) == dp);
            assert(first_at(p, last.0) is Some) by {
                lemma_first_at(p, last.0);
                if first_at(p, last.0) is None {
                    assert(p[p.len() - 1].0 != last.0);
                }
            }
            assert forall|t: u64| #[trigger] first_at(s, t) is Some implies exists|k: int| 0 <= k < dp.len() && dp[k].0 == t by {
                if first_at(p, t) is None {
                    assert(t == last.0);
                }
            }
        } else {
            let d = dp.push(last);
            assert(dedup_ticks(s) == d);
            assert((change_key())(prev) <= (change_key())(last));
            // every tick of p is at most prev's, below last's
            assert forall|q: int| 0 <= q < p.len() implies (#[trigger] p[q]).0 < last.0 by {
                assert(s[q] == p[q]);
                assert((change_key())(s[q]) <= (change_key())(s[s.len() - 2]));
            }
            lemma_first_at(p, last.0);
            assert(first_at(p, last.0) is None);
            assert(first_at(s, last.0) == Some(last.1));
            assert forall|a: int, b: int| 0 <= a < b < d.len() implies d[a].0 < d[b].0 by {
                if b == d.len() - 1 {
                    assert(d[a] == dp[a]);
                    assert(first_at(p, dp[a].0) == Some(dp[a].1));
                    lemma_first_at(p, dp[a].0);
                } else {
                    assert(d[a] == dp[a] && d[b] == dp[b]);
                }
            }
            assert forall|k: int| 0 <= k < d.len() implies first_at(s, (#[trigger] d[k]).0) == Some(d[k].1) by {
                if k < dp.len() {
                    assert(d[k] == dp[k]);
                    assert(first_at(p, dp[k].0) == Some(dp[k].1));
                }
            }
            assert forall|t: u64| #[trigger] first_at(s, t) is Some implies exists|k: int| 0 <= k < d.len() && d[k].0 == t by {
                if first_at(p, t) is Some {
                    let k = choose|k: int| 0 <= k < dp.len() && dp[k].0 == t;
                    assert(d[k] == dp[k]);
                } else {
                    assert(t == last.0);
                    assert(d[d.len() - 1] == last);
                }
            }
        }
    }
}

/// The later tempo changes are the tempo events after tick 0, first tempo event of each tick.
proof fn lemma_first_later(evs: Seq<SmfEvent>, t: u64)
    ensures
        first_at(later_tempos(evs), t) == (if t == 0 { None } else { first_tempo_at(evs, t) }),
    decreases evs.len(),
{
    if evs.len() > 0 {
        lemma_first_later(evs.drop_last(), t);
        let rest = later_tempos(evs.drop_last());
        match evs.last() {
            SmfEvent::Tempo { tick, us_per_qn } => {
                if tick != 0 {
                    assert(rest.push((tick, us_per_qn)).drop_last() =~= rest);
                }
            },
            _ => {},
        }
    }
}

proof fn lemma_first_tempo_at(evs: Seq<SmfEvent>, t: u64)
    ensures
        first_tempo_at(evs, t) matches Some(u) ==> exists|i: int| 0 <= i < evs.len()
            && evs[i] == (SmfEvent::Tempo { tick: t, us_per_qn: u })
            && forall|j: int| 0 <= j < i ==> !is_tempo_at(#[trigger] evs[j], t),
        first_tempo_at(evs, t) is None ==> forall|j: int| 0 <= j < evs.len() ==> !is_tempo_at(#[trigger] evs[j], t),
    decreases evs.len(),
{
    if evs.len() > 0 {
        let p = evs.drop_last();
        lemma_first_tempo_at(p, t);
        assert forall|q: int| 0 <= q < p.len() implies #[trigger] p[q] == evs[q] by {}
        match first_tempo_at(p, t) {
            Some(u) => {
                let i = choose|i: int| 0 <= i < p.len() && p[i] == (SmfEvent::Tempo { tick: t, us_per_qn: u })
                    && forall|j: int| 0 <= j < i ==> !is_tempo_at(#[trigger] p[j], t);
                assert(evs[i] == p[i]);
                assert forall|j: int| 0 <= j < i implies !is_tempo_at(#[trigger] evs[j], t) by {
                    assert(evs[j] == p[j]);
                }
            },
            None => {
                let i = evs.len() - 1;
                assert forall|j: int| 0 <= j < i implies !is_tempo_at(#[trigger] evs[j], t) by {
                    assert(evs[j] == p[j]);
                }
                if first_tempo_at(evs, t) is None {
                    assert forall|j: int| 0 <= j < evs.len() implies !is_tempo_at(#[trigger] evs[j], t) by {
                        if j < i {
                            assert(evs[j] == p[j]);
                        }
                    }
                }
            },
        }
    }
}

/// The later tempo changes (as `tempo_changes` lists them) have strictly ascending ticks, none
/// at tick 0; every tempo event after tick 0 has its tick listed; and each listed change is the
/// first tempo event of its tick in file order, with its microseconds.
pub proof fn tempo_changes_list_each_later_tick(events: Seq<SmfEvent>)
    ensures
        ({
            let ch = dedup_ticks(sort_by_key(later_tempos(events), change_key()));
            &&& forall|a: int, b: int| 0 <= a < b < ch.len() ==> ch[a].0 < ch[b].0
            &&& forall|i: int| #![trigger events[i]] 0 <= i < events.len() && (events[i] matches SmfEvent::Tempo { tick, .. } && tick != 0)
                ==> exists|k: int| 0 <= k < ch.len() && is_tempo_at(events[i], ch[k].0)
            &&& forall|k: int| 0 <= k < ch.len() ==> {
                &&& ch[k].0 != 0
                &&& exists|i: int| 0 <= i < events.len()
                    && events[i] == (SmfEvent::Tempo { tick: ch[k].0, us_per_qn: ch[k].1 })
                    && forall|j: int| 0 <= j < i ==> !is_tempo_at(#[trigger] events[j], ch[k].0)
            }
        }),
{
    let l = later_tempos(events);
    let s = sort_by_key(l, change_key());
    lemma_sort_by_key(l, change_key());
    lemma_dedup_sorted(s);
    let ch = dedup_ticks(s);
    assert forall|i: int| #![trigger events[i]] 0 <= i < events.len() && (events[i] matches SmfEvent::Tempo { tick, .. } && tick != 0)
        implies exists|k: int| 0 <= k < ch.len() && is_tempo_at(events[i], ch[k].0) by {
        if let SmfEvent::Tempo { tick, .. } = events[i] {
            lemma_first_tempo_at(events, tick);
            assert(is_tempo_at(events[i], tick));
            lemma_first_later(events, tick);
            lemma_first_at_sort(l, tick);
            assert(first_at(s, tick) is Some);
            let k = choose|k: int| 0 <= k < ch.len() && ch[k].0 == tick;
            assert(is_tempo_at(events[i], ch[k].0));
        }
    }
    assert forall|k: int| 0 <= k < ch.len() implies {
        &&& ch[k].0 != 0
        &&& exists|i: int| 0 <= i < events.len()
            && events[i] == (SmfEvent::Tempo { tick: ch[k].0, us_per_qn: ch[k].1 })
            && forall|j: int| 0 <= j < i ==> !is_tempo_at(#[trigger] events[j], ch[k].0)
    } by {
        let t = ch[k].0;
        assert(first_at(s, t) == Some(ch[k].1));
        lemma_first_at_sort(l, t);
        lemma_first_later(events, t);
        lemma_first_tempo_at(events, t);
    }
}

} // verus!
