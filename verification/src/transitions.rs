//! Rebuilding the intervals an issue spent in each status from its status
//! transitions.
use crate::time::{is_at_or_before, lemma_ns_order, moment_le, moment_lt, Moment};
use vstd::prelude::*;

verus! {

/// The issue moved into status `status_id` at `transitioned_at`.
pub struct Transition {
    pub status_id: i32,
    pub status_name: String,
    pub transitioned_at: Moment,
}

/// The issue was in status `status_id` from `started_at` until `ended_at`
/// (`None` while it still is).
pub struct StatusInterval {
    pub status_id: i32,
    pub status_name: String,
    pub started_at: Moment,
    pub ended_at: Option<Moment>,
}

/// Number of leading transitions of `s` that happen no later than `t`.
pub open spec fn insert_pos(s: Seq<Transition>, t: Moment) -> int
    decreases s.len(),
{
    if s.len() == 0 {
        0
    } else if moment_le(s[0].transitioned_at, t) {
        1 + insert_pos(s.drop_first(), t)
    } else {
        0
    }
}

/// `s` with `x` placed after every leading transition that is not later than it.
pub open spec fn insert_by_time(s: Seq<Transition>, x: Transition) -> Seq<Transition> {
    s.insert(insert_pos(s, x.transitioned_at), x)
}

/// The transitions in chronological order; transitions at the same moment
/// keep their relative order (a stable sort by time).
pub open spec fn sort_by_time(s: Seq<Transition>) -> Seq<Transition>
    decreases s.len(),
{
    if s.len() == 0 {
        s
    } else {
        insert_by_time(sort_by_time(s.drop_last()), s.last())
    }
}

pub open spec fn is_time_sorted(s: Seq<Transition>) -> bool {
    forall|i: int, j: int|
        0 <= i < j < s.len() ==> moment_le(#[trigger] s[i].transitioned_at, #[trigger] s[j].transitioned_at)
}

pub open spec fn all_valid(s: Seq<Transition>) -> bool {
    forall|i: int| 0 <= i < s.len() ==> (#[trigger] s[i]).transitioned_at.valid()
}

proof fn lemma_insert_pos_bounds(s: Seq<Transition>, t: Moment)
    ensures
        0 <= insert_pos(s, t) <= s.len(),
        forall|i: int| 0 <= i < insert_pos(s, t) ==> moment_le(#[trigger] s[i].transitioned_at, t),
        insert_pos(s, t) < s.len() ==> !moment_le(s[insert_pos(s, t)].transitioned_at, t),
    decreases s.len(),
{
    if s.len() > 0 && moment_le(s[0].transitioned_at, t) {
        lemma_insert_pos_bounds(s.drop_first(), t);
        assert forall|i: int| 0 <= i < insert_pos(s, t) implies moment_le(#[trigger] s[i].transitioned_at, t) by {
            if i > 0 {
                assert(s[i] == s.drop_first()[i - 1]);
            }
        }
    }
}

proof fn lemma_sort_sorted(s: Seq<Transition>)
    ensures
        sort_by_time(s).len() == s.len(),
        is_time_sorted(sort_by_time(s)),
    decreases s.len(),
{
    if s.len() > 0 {
        let prev = sort_by_time(s.drop_last());
        lemma_sort_sorted(s.drop_last());
        let x = s.last();
        let p = insert_pos(prev, x.transitioned_at);
        lemma_insert_pos_bounds(prev, x.transitioned_at);
        let r = prev.insert(p, x);
        assert forall|i: int, j: int| 0 <= i < j < r.len() implies moment_le(
            #[trigger] r[i].transitioned_at,
            #[trigger] r[j].transitioned_at,
        ) by {
            if j < p {
                assert(r[i] == prev[i] && r[j] == prev[j]);
            } else if j == p {
                assert(r[i] == prev[i]);
            } else if i < p {
                assert(r[i] == prev[i] && r[j] == prev[j - 1]);
            } else if i == p {
                assert(r[j] == prev[j - 1]);
                assert(moment_le(prev[p].transitioned_at, prev[j - 1].transitioned_at));
            } else {
                assert(r[i] == prev[i - 1] && r[j] == prev[j - 1]);
            }
        }
    }
}

proof fn lemma_sort_permutes(s: Seq<Transition>)
    ensures
        sort_by_time(s).to_multiset() == s.to_multiset(),
    decreases s.len(),
{
    if s.len() > 0 {
        let prev = sort_by_time(s.drop_last());
        lemma_sort_permutes(s.drop_last());
        lemma_sort_sorted(s.drop_last());
        let x = s.last();
        let p = insert_pos(prev, x.transitioned_at);
        lemma_insert_pos_bounds(prev, x.transitioned_at);
        vstd::seq_lib::to_multiset_insert(prev, p, x);
        assert(s =~= s.drop_last().push(x));
        vstd::seq_lib::to_multiset_build(s.drop_last(), x);
    }
}

proof fn lemma_sort_all_valid(s: Seq<Transition>)
    requires
        all_valid(s),
    ensures
        all_valid(sort_by_time(s)),
    decreases s.len(),
{
    if s.len() > 0 {
        assert(all_valid(s.drop_last())) by {
            assert forall|i: int| 0 <= i < s.drop_last().len() implies (#[trigger] s.drop_last()[i]).transitioned_at.valid() by {
                assert(s.drop_last()[i] == s[i]);
            }
        }
        lemma_sort_all_valid(s.drop_last());
        let prev = sort_by_time(s.drop_last());
        let x = s.last();
        let p = insert_pos(prev, x.transitioned_at);
        lemma_insert_pos_bounds(prev, x.transitioned_at);
        let r = prev.insert(p, x);
        assert forall|i: int| 0 <= i < r.len() implies (#[trigger] r[i]).transitioned_at.valid() by {
            if i < p {
                assert(r[i] == prev[i]);
            } else if i > p {
                assert(r[i] == prev[i - 1]);
            }
        }
    }
}

/// Law: sorting yields the same transitions, in chronological order.
pub proof fn law_sort_by_time(s: Seq<Transition>)
    ensures
        sort_by_time(s).len() == s.len(),
        sort_by_time(s).to_multiset() == s.to_multiset(),
        is_time_sorted(sort_by_time(s)),
{
    lemma_sort_sorted(s);
    lemma_sort_permutes(s);
}

/// The chronologically sorted copy of the transitions.
fn sorted_by_time(transitions: &Vec<Transition>) -> (r: Vec<Transition>)
    requires
        all_valid(transitions@),
    ensures
        r@ == sort_by_time(transitions@),
{
    let mut sorted: Vec<Transition> = Vec::new();
    let mut i: usize = 0;
    while i < transitions.len()
        invariant
            i <= transitions@.len(),
            all_valid(transitions@),
            sorted@ == sort_by_time(transitions@.take(i as int)),
            all_valid(sorted@),
        decreases transitions@.len() - i,
    {
        let t = &transitions[i];
        proof {
            assert(transitions@.take(i + 1).drop_last() =~= transitions@.take(i as int));
            law_sort_by_time(transitions@.take(i as int));
            assert(t.transitioned_at.valid());
        }
        let mut p: usize = 0;
        proof {
            assert(sorted@.skip(0) =~= sorted@);
        }
        while p < sorted.len() && is_at_or_before(sorted[p].transitioned_at, t.transitioned_at)
            invariant
                p <= sorted@.len(),
                all_valid(sorted@),
                t.transitioned_at.valid(),
                insert_pos(sorted@, t.transitioned_at) == p + insert_pos(sorted@.skip(p as int), t.transitioned_at),
            decreases sorted@.len() - p,
        {
            proof {
                assert(sorted@.skip(p as int).drop_first() =~= sorted@.skip(p + 1));
                assert(sorted@.skip(p as int)[0] == sorted@[p as int]);
            }
            p = p + 1;
        }
        proof {
            if p < sorted@.len() {
                assert(sorted@.skip(p as int)[0] == sorted@[p as int]);
            }
        }
        let ghost old_sorted = sorted@;
        sorted.insert(
            p,
            Transition {
                status_id: t.status_id,
                status_name: t.status_name.clone(),
                transitioned_at: t.transitioned_at,
            },
        );
        proof {
            assert forall|k: int| 0 <= k < sorted@.len() implies (#[trigger] sorted@[k]).transitioned_at.valid() by {
                if k < p {
                    assert(sorted@[k] == old_sorted[k]);
                } else if k > p {
                    assert(sorted@[k] == old_sorted[k - 1]);
                }
            }
        }
        i = i + 1;
    }
    proof {
        assert(transitions@.take(transitions@.len() as int) =~= transitions@);
    }
    sorted
}

/// Walking the sorted transitions from the initial status: a transition that
/// is not later than the current status's start is ignored; any other one
/// closes the current interval and opens the next. The state is the current
/// status, the start of its interval, and the closed intervals so far.
pub open spec fn scan(
    initial_status_id: i32,
    initial_status_name: String,
    created_at: Moment,
    s: Seq<Transition>,
) -> (i32, String, Moment, Seq<StatusInterval>)
    decreases s.len(),
{
    if s.len() == 0 {
        (initial_status_id, initial_status_name, created_at, Seq::empty())
    } else {
        let (id, name, last, closed) = scan(initial_status_id, initial_status_name, created_at, s.drop_last());
        let t = s.last();
        if moment_le(t.transitioned_at, last) {
            (id, name, last, closed)
        } else {
            (
                t.status_id,
                t.status_name,
                t.transitioned_at,
                closed.push(
                    StatusInterval {
                        status_id: id,
                        status_name: name,
                        started_at: last,
                        ended_at: Some(t.transitioned_at),
                    },
                ),
            )
        }
    }
}

/// The intervals spent in each status: the closed intervals of the
/// chronological walk, then the still open interval of the last status.
pub open spec fn reconstruct_spec(
    created_at: Moment,
    initial_status_id: i32,
    initial_status_name: String,
    transitions: Seq<Transition>,
) -> Seq<StatusInterval> {
    let (id, name, last, closed) = scan(
        initial_status_id,
        initial_status_name,
        created_at,
        sort_by_time(transitions),
    );
    closed.push(StatusInterval { status_id: id, status_name: name, started_at: last, ended_at: None })
}

/// The intervals follow each other without gap or overlap from `created_at`,
/// each starting strictly after the one before, and only the last is open.
pub open spec fn is_timeline(v: Seq<StatusInterval>, created_at: Moment) -> bool {
    &&& v.len() >= 1
    &&& v[0].started_at == created_at
    &&& v.last().ended_at is None
    &&& forall|i: int| 0 <= i < v.len() - 1 ==> (#[trigger] v[i]).ended_at == Some(v[i + 1].started_at)
    &&& forall|i: int| 0 <= i < v.len() - 1 ==> moment_lt((#[trigger] v[i]).started_at, v[i + 1].started_at)
}

proof fn lemma_scan_shape(id0: i32, name0: String, created_at: Moment, s: Seq<Transition>)
    requires
        created_at.nanos < 1_000_000_000,
        all_valid(s),
    ensures
        ({
            let (id, name, last, closed) = scan(id0, name0, created_at, s);
            &&& last.nanos < 1_000_000_000
            &&& moment_le(created_at, last)
            &&& closed.len() == 0 ==> last == created_at
            &&& closed.len() > 0 ==> closed[0].started_at == created_at
            &&& closed.len() > 0 ==> closed.last().ended_at == Some(last)
            &&& closed.len() > 0 ==> moment_lt(closed.last().started_at, last)
            &&& forall|i: int| 0 <= i < closed.len() - 1 ==> (#[trigger] closed[i]).ended_at == Some(closed[i + 1].started_at)
            &&& forall|i: int| 0 <= i < closed.len() - 1 ==> moment_lt((#[trigger] closed[i]).started_at, closed[i + 1].started_at)
            &&& forall|i: int| 0 <= i < closed.len() ==> (#[trigger] closed[i]).ended_at is Some
        }),
    decreases s.len(),
{
    if s.len() > 0 {
        assert(all_valid(s.drop_last())) by {
            assert forall|i: int| 0 <= i < s.drop_last().len() implies (#[trigger] s.drop_last()[i]).transitioned_at.valid() by {
                assert(s.drop_last()[i] == s[i]);
            }
        }
        lemma_scan_shape(id0, name0, created_at, s.drop_last());
        let (id, name, last, closed) = scan(id0, name0, created_at, s.drop_last());
        let t = s.last();
        assert(t.transitioned_at.valid());
        lemma_ns_order(t.transitioned_at, last);
        if !moment_le(t.transitioned_at, last) {
            let c2 = scan(id0, name0, created_at, s).3;
            assert forall|i: int| 0 <= i < c2.len() - 1 implies (#[trigger] c2[i]).ended_at == Some(c2[i + 1].started_at) by {
                if i < closed.len() - 1 {
                    assert(c2[i] == closed[i] && c2[i + 1] == closed[i + 1]);
                } else {
                    assert(c2[i] == closed[i]);
                }
            }
            assert forall|i: int| 0 <= i < c2.len() - 1 implies moment_lt((#[trigger] c2[i]).started_at, c2[i + 1].started_at) by {
                if i < closed.len() - 1 {
                    assert(c2[i] == closed[i] && c2[i + 1] == closed[i + 1]);
                } else {
                    assert(c2[i] == closed[i]);
                }
            }
            assert forall|i: int| 0 <= i < c2.len() implies (#[trigger] c2[i]).ended_at is Some by {
                if i < closed.len() {
                    assert(c2[i] == closed[i]);
                }
            }
        }
    }
}

/// Law: the reconstructed intervals form one timeline starting at
/// `created_at`: consecutive intervals meet, starts strictly increase, and
/// only the last interval is still open.
pub proof fn law_reconstruct_timeline(
    created_at: Moment,
    initial_status_id: i32,
    initial_status_name: String,
    transitions: Seq<Transition>,
)
    requires
        created_at.valid(),
        all_valid(transitions),
    ensures
        is_timeline(reconstruct_spec(created_at, initial_status_id, initial_status_name, transitions), created_at),
{
    let sorted = sort_by_time(transitions);
    law_sort_by_time(transitions);
    lemma_sort_all_valid(transitions);
    lemma_scan_shape(initial_status_id, initial_status_name, created_at, sorted);
    let (id, name, last, closed) = scan(initial_status_id, initial_status_name, created_at, sorted);
    let v = reconstruct_spec(created_at, initial_status_id, initial_status_name, transitions);
    assert forall|i: int| 0 <= i < v.len() - 1 implies (#[trigger] v[i]).ended_at == Some(v[i + 1].started_at) by {
        assert(v[i] == closed[i]);
        if i < closed.len() - 1 {
            assert(v[i + 1] == closed[i + 1]);
        }
    }
    assert forall|i: int| 0 <= i < v.len() - 1 implies moment_lt((#[trigger] v[i]).started_at, v[i + 1].started_at) by {
        assert(v[i] == closed[i]);
        if i < closed.len() - 1 {
            assert(v[i + 1] == closed[i + 1]);
        }
    }
}

/// Rebuilds, from the issue's creation time, its initial status and its
/// status transitions (in any order), the intervals it spent in each status.
pub fn reconstruct_intervals(
    created_at: Moment,
    initial_status_id: i32,
    initial_status_name: String,
    transitions: Vec<Transition>,
    _current_time: Moment,
) -> (r: Vec<StatusInterval>)
    requires
        created_at.valid(),
        all_valid(transitions@),
    ensures
        r@ == reconstruct_spec(created_at, initial_status_id, initial_status_name, transitions@),
        is_timeline(r@, created_at),
{
    let sorted = sorted_by_time(&transitions);
    proof {
        law_reconstruct_timeline(created_at, initial_status_id, initial_status_name, transitions@);
        lemma_sort_all_valid(transitions@);
    }
    let mut intervals: Vec<StatusInterval> = Vec::new();
    let mut current_status_id = initial_status_id;
    let mut current_status_name = initial_status_name;
    let mut last_time = created_at;
    let mut i: usize = 0;
    while i < sorted.len()
        invariant
            i <= sorted@.len(),
            all_valid(sorted@),
            last_time.nanos < 1_000_000_000,
            (current_status_id, current_status_name, last_time, intervals@) == scan(
                initial_status_id,
                initial_status_name,
                created_at,
                sorted@.take(i as int),
            ),
        decreases sorted@.len() - i,
    {
        let t = &sorted[i];
        proof {
            assert(sorted@.take(i + 1).drop_last() =~= sorted@.take(i as int));
            assert(t.transitioned_at.valid());
        }
        if !is_at_or_before(t.transitioned_at, last_time) {
            intervals.push(
                StatusInterval {
                    status_id: current_status_id,
                    status_name: current_status_name,
                    started_at: last_time,
                    ended_at: Some(t.transitioned_at),
                },
            );
            current_status_id = t.status_id;
            current_status_name = t.status_name.clone();
            last_time = t.transitioned_at;
        }
        i = i + 1;
    }
    proof {
        assert(sorted@.take(sorted@.len() as int) =~= sorted@);
    }
    intervals.push(
        StatusInterval {
            status_id: current_status_id,
            status_name: current_status_name,
            started_at: last_time,
            ended_at: None,
        },
    );
    intervals
}

/// The transitions of `s` that happen after `c`, in their order.
pub open spec fn later_than(s: Seq<Transition>, c: Moment) -> Seq<Transition>
    decreases s.len(),
{
    if s.len() == 0 {
        s
    } else if moment_lt(c, s.last().transitioned_at) {
        later_than(s.drop_last(), c).push(s.last())
    } else {
        later_than(s.drop_last(), c)
    }
}

/// No two transitions of `s` happen at the same instant.
pub open spec fn distinct_times(s: Seq<Transition>) -> bool {
    forall|i: int, j: int|
        0 <= i < s.len() && 0 <= j < s.len() && i != j ==> #[trigger] s[i].transitioned_at.ns()
            != #[trigger] s[j].transitioned_at.ns()
}

/// `insert_pos` is the one position before which every transition is no
/// later than `t` and at which the first later one stands.
proof fn lemma_insert_pos_unique(s: Seq<Transition>, t: Moment, q: int)
    requires
        0 <= q <= s.len(),
        forall|i: int| 0 <= i < q ==> moment_le(#[trigger] s[i].transitioned_at, t),
        q < s.len() ==> !moment_le(s[q].transitioned_at, t),
    ensures
        insert_pos(s, t) == q,
    decreases s.len(),
{
    if s.len() > 0 && q > 0 {
        assert(moment_le(s[0].transitioned_at, t));
        let r = s.drop_first();
        assert forall|i: int| 0 <= i < q - 1 implies moment_le(#[trigger] r[i].transitioned_at, t) by {
            assert(r[i] == s[i + 1]);
        }
        if q - 1 < r.len() {
            assert(r[q - 1] == s[q]);
        }
        lemma_insert_pos_unique(r, t, q - 1);
    }
}

/// Of a chronologically sorted sequence, the transitions after `c` are those
/// that follow its first `insert_pos(s, c)`.
proof fn lemma_later_of_sorted(s: Seq<Transition>, c: Moment)
    requires
        is_time_sorted(s),
    ensures
        later_than(s, c) == s.skip(insert_pos(s, c)),
    decreases s.len(),
{
    lemma_insert_pos_bounds(s, c);
    if s.len() > 0 {
        let r = s.drop_last();
        let y = s.last();
        let n = s.len() - 1;
        assert(is_time_sorted(r)) by {
            assert forall|i: int, j: int| 0 <= i < j < r.len() implies moment_le(
                #[trigger] r[i].transitioned_at,
                #[trigger] r[j].transitioned_at,
            ) by {
                assert(r[i] == s[i] && r[j] == s[j]);
            }
        }
        lemma_later_of_sorted(r, c);
        let k = insert_pos(s, c);
        assert(later_than(s, c) == if moment_lt(c, y.transitioned_at) {
            later_than(r, c).push(y)
        } else {
            later_than(r, c)
        });
        if moment_lt(c, y.transitioned_at) {
            assert(k < s.len()) by {
                if k == s.len() {
                    assert(moment_le(s[n].transitioned_at, c));
                }
            }
            assert forall|i: int| 0 <= i < k implies moment_le(#[trigger] r[i].transitioned_at, c) by {
                assert(r[i] == s[i]);
                assert(moment_le(s[i].transitioned_at, c));
            }
            if k < r.len() {
                assert(r[k] == s[k]);
            }
            lemma_insert_pos_unique(r, c, k);
            assert(r.skip(k).push(y) =~= s.skip(k));
        } else {
            assert forall|i: int| 0 <= i < s.len() implies moment_le(#[trigger] s[i].transitioned_at, c) by {
                if i < n {
                    assert(moment_le(s[i].transitioned_at, s[n].transitioned_at));
                }
            }
            lemma_insert_pos_unique(s, c, s.len() as int);
            assert forall|i: int| 0 <= i < r.len() implies moment_le(#[trigger] r[i].transitioned_at, c) by {
                assert(r[i] == s[i]);
                assert(moment_le(s[i].transitioned_at, c));
            }
            lemma_insert_pos_unique(r, c, r.len() as int);
            assert(r.skip(r.len() as int) =~= s.skip(s.len() as int));
        }
    }
}

/// Taking the transitions after `c` commutes with placing one more
/// transition by time into a sorted sequence.
proof fn lemma_later_of_insert(s: Seq<Transition>, x: Transition, c: Moment)
    requires
        is_time_sorted(s),
        is_time_sorted(insert_by_time(s, x)),
    ensures
        later_than(insert_by_time(s, x), c) == if moment_lt(c, x.transitioned_at) {
            insert_by_time(later_than(s, c), x)
        } else {
            later_than(s, c)
        },
{
    let r = insert_by_time(s, x);
    let j = insert_pos(s, x.transitioned_at);
    let k = insert_pos(s, c);
    lemma_insert_pos_bounds(s, x.transitioned_at);
    lemma_insert_pos_bounds(s, c);
    lemma_later_of_sorted(s, c);
    lemma_later_of_sorted(r, c);
    assert(r.len() == s.len() + 1);
    if moment_lt(c, x.transitioned_at) {
        // the transitions up to `c` all come before `x`
        assert(k <= j) by {
            if j < k {
                assert(moment_le(s[j].transitioned_at, c));
            }
        }
        assert forall|i: int| 0 <= i < k implies moment_le(#[trigger] r[i].transitioned_at, c) by {
            assert(r[i] == s[i]);
        }
        if k == j {
            assert(r[k] == x);
        } else {
            assert(r[k] == s[k]);
        }
        lemma_insert_pos_unique(r, c, k);
        let t = s.skip(k);
        assert forall|i: int| 0 <= i < j - k implies moment_le(#[trigger] t[i].transitioned_at, x.transitioned_at) by {
            assert(t[i] == s[k + i]);
        }
        if j - k < t.len() {
            assert(t[j - k] == s[j]);
        }
        lemma_insert_pos_unique(t, x.transitioned_at, j - k);
        assert(r.skip(k) =~= t.insert(j - k, x));
    } else {
        // `x` lands among the transitions up to `c`
        assert(j <= k) by {
            if k < j {
                assert(moment_le(s[k].transitioned_at, x.transitioned_at));
            }
        }
        assert forall|i: int| 0 <= i < k + 1 implies moment_le(#[trigger] r[i].transitioned_at, c) by {
            if i < j {
                assert(r[i] == s[i]);
            } else if i > j {
                assert(r[i] == s[i - 1]);
            }
        }
        if k + 1 < r.len() {
            assert(r[k + 1] == s[k]);
        }
        lemma_insert_pos_unique(r, c, k + 1);
        assert(r.skip(k + 1) =~= s.skip(k));
    }
}

/// Sorting the transitions after `c` gives the transitions after `c` of the sorted sequence.
proof fn lemma_sort_later(s: Seq<Transition>, c: Moment)
    ensures
        sort_by_time(later_than(s, c)) == later_than(sort_by_time(s), c),
    decreases s.len(),
{
    if s.len() > 0 {
        let r = s.drop_last();
        let x = s.last();
        lemma_sort_later(r, c);
        lemma_sort_sorted(r);
        lemma_sort_sorted(s);
        lemma_later_of_insert(sort_by_time(r), x, c);
        assert(later_than(s, c) == if moment_lt(c, x.transitioned_at) {
            later_than(r, c).push(x)
        } else {
            later_than(r, c)
        });
        if moment_lt(c, x.transitioned_at) {
            let f = later_than(r, c).push(x);
            assert(f.drop_last() =~= later_than(r, c));
            assert(f.last() == x);
        }
    }
}

/// The walk never starts an interval before `created_at`.
proof fn lemma_scan_start(id0: i32, name0: String, created_at: Moment, s: Seq<Transition>)
    ensures
        moment_le(created_at, scan(id0, name0, created_at, s).2),
    decreases s.len(),
{
    if s.len() > 0 {
        lemma_scan_start(id0, name0, created_at, s.drop_last());
    }
}

/// The walk ignores every transition not later than `created_at`, wherever it stands.
proof fn lemma_scan_later(id0: i32, name0: String, created_at: Moment, s: Seq<Transition>)
    ensures
        scan(id0, name0, created_at, s) == scan(id0, name0, created_at, later_than(s, created_at)),
    decreases s.len(),
{
    if s.len() > 0 {
        let r = s.drop_last();
        let x = s.last();
        lemma_scan_later(id0, name0, created_at, r);
        lemma_scan_start(id0, name0, created_at, r);
        assert(later_than(s, created_at) == if moment_lt(created_at, x.transitioned_at) {
            later_than(r, created_at).push(x)
        } else {
            later_than(r, created_at)
        });
        if moment_lt(created_at, x.transitioned_at) {
            let f = later_than(r, created_at).push(x);
            assert(f.drop_last() =~= later_than(r, created_at));
            assert(f.last() == x);
        }
    }
}

/// Law: transitions at or before `created_at` change nothing: dropping them
/// gives the same intervals.
pub proof fn law_reconstruct_ignores_early(
    created_at: Moment,
    initial_status_id: i32,
    initial_status_name: String,
    transitions: Seq<Transition>,
)
    ensures
        reconstruct_spec(created_at, initial_status_id, initial_status_name, transitions)
            == reconstruct_spec(
            created_at,
            initial_status_id,
            initial_status_name,
            later_than(transitions, created_at),
        ),
{
    lemma_sort_later(transitions, created_at);
    lemma_scan_later(initial_status_id, initial_status_name, created_at, sort_by_time(transitions));
}

proof fn lemma_sorted_prefix(s: Seq<Transition>)
    requires
        s.len() > 0,
        is_time_sorted(s),
        distinct_times(s),
    ensures
        is_time_sorted(s.drop_last()),
        distinct_times(s.drop_last()),
{
    let r = s.drop_last();
    assert forall|i: int, j: int| 0 <= i < j < r.len() implies moment_le(
        #[trigger] r[i].transitioned_at,
        #[trigger] r[j].transitioned_at,
    ) by {
        assert(r[i] == s[i] && r[j] == s[j]);
    }
    assert forall|i: int, j: int| 0 <= i < r.len() && 0 <= j < r.len() && i != j implies #[trigger] r[i].transitioned_at.ns()
        != #[trigger] r[j].transitioned_at.ns() by {
        assert(r[i] == s[i] && r[j] == s[j]);
    }
}

/// Sorting keeps the instants of the transitions apart.
proof fn lemma_sort_distinct(s: Seq<Transition>)
    requires
        distinct_times(s),
    ensures
        distinct_times(sort_by_time(s)),
    decreases s.len(),
{
    if s.len() > 0 {
        let r = s.drop_last();
        let x = s.last();
        let n = s.len() - 1;
        assert(distinct_times(r)) by {
            assert forall|i: int, j: int| 0 <= i < r.len() && 0 <= j < r.len() && i != j implies #[trigger] r[i].transitioned_at.ns()
                != #[trigger] r[j].transitioned_at.ns() by {
                assert(r[i] == s[i] && r[j] == s[j]);
            }
        }
        lemma_sort_distinct(r);
        lemma_sort_permutes(r);
        lemma_sort_sorted(r);
        let prev = sort_by_time(r);
        prev.to_multiset_ensures();
        r.to_multiset_ensures();
        // every transition already sorted is one of `r`, so its instant differs from `x`'s
        assert forall|k: int| 0 <= k < prev.len() implies #[trigger] prev[k].transitioned_at.ns()
            != x.transitioned_at.ns() by {
            assert(prev.contains(prev[k]));
            assert(prev.to_multiset().count(prev[k]) > 0);
            assert(r.to_multiset().count(prev[k]) > 0);
            assert(r.contains(prev[k]));
            let q = choose|q: int| 0 <= q < r.len() && r[q] == prev[k];
            assert(s[q] == prev[k] && s[n] == x);
        }
        let p = insert_pos(prev, x.transitioned_at);
        lemma_insert_pos_bounds(prev, x.transitioned_at);
        let t = prev.insert(p, x);
        assert forall|i: int, j: int| 0 <= i < t.len() && 0 <= j < t.len() && i != j implies #[trigger] t[i].transitioned_at.ns()
            != #[trigger] t[j].transitioned_at.ns() by {
            if i != p {
                let a = if i < p { i } else { i - 1 };
                assert(t[i] == prev[a]);
                if j != p {
                    let b = if j < p { j } else { j - 1 };
                    assert(t[j] == prev[b]);
                }
            } else {
                let b = if j < p { j } else { j - 1 };
                assert(t[j] == prev[b]);
            }
        }
    }
}

/// Two chronologically sorted sequences holding the same transitions, no two
/// at the same instant, are the same sequence.
proof fn lemma_sorted_unique(a: Seq<Transition>, b: Seq<Transition>)
    requires
        is_time_sorted(a),
        is_time_sorted(b),
        distinct_times(a),
        a.to_multiset() == b.to_multiset(),
    ensures
        a == b,
    decreases a.len(),
{
    broadcast use vstd::multiset::group_multiset_axioms;

    a.to_multiset_ensures();
    b.to_multiset_ensures();
    if a.len() == 0 {
        assert(a =~= b);
    } else {
        let n = a.len() - 1;
        let m = b.len() - 1;
        let x = a[n];
        let y = b[m];
        assert(a.contains(x));
        assert(a.to_multiset().count(x) > 0);
        assert(b.to_multiset().count(x) > 0);
        assert(b.contains(x));
        let j = choose|j: int| 0 <= j < b.len() && b[j] == x;
        assert(b.contains(y));
        assert(b.to_multiset().count(y) > 0);
        assert(a.to_multiset().count(y) > 0);
        assert(a.contains(y));
        let i = choose|i: int| 0 <= i < a.len() && a[i] == y;
        if j < m {
            assert(moment_le(b[j].transitioned_at, b[m].transitioned_at));
        }
        if i < n {
            assert(moment_le(a[i].transitioned_at, a[n].transitioned_at));
        }
        assert(i == n);
        assert(x == y);
        let a2 = a.drop_last();
        let b2 = b.drop_last();
        assert(a =~= a2.push(x));
        assert(b =~= b2.push(x));
        vstd::seq_lib::to_multiset_build(a2, x);
        vstd::seq_lib::to_multiset_build(b2, x);
        assert(a2.to_multiset() =~= b2.to_multiset()) by {
            assert(a2.to_multiset() =~= a2.to_multiset().insert(x).remove(x));
            assert(b2.to_multiset() =~= b2.to_multiset().insert(x).remove(x));
        }
        lemma_sorted_prefix(a);
        assert(is_time_sorted(b2)) by {
            assert forall|i: int, j: int| 0 <= i < j < b2.len() implies moment_le(
                #[trigger] b2[i].transitioned_at,
                #[trigger] b2[j].transitioned_at,
            ) by {
                assert(b2[i] == b[i] && b2[j] == b[j]);
            }
        }
        lemma_sorted_unique(a2, b2);
    }
}

/// Law: when no two transitions happen at the same instant, the order in
/// which they are given does not matter: any reordering of them gives the
/// same intervals.
pub proof fn law_reconstruct_order_free(
    created_at: Moment,
    initial_status_id: i32,
    initial_status_name: String,
    transitions: Seq<Transition>,
    reordered: Seq<Transition>,
)
    requires
        distinct_times(transitions),
        reordered.to_multiset() == transitions.to_multiset(),
    ensures
        reconstruct_spec(created_at, initial_status_id, initial_status_name, reordered)
            == reconstruct_spec(created_at, initial_status_id, initial_status_name, transitions),
{
    law_sort_by_time(transitions);
    law_sort_by_time(reordered);
    lemma_sort_distinct(transitions);
    lemma_sorted_unique(sort_by_time(transitions), sort_by_time(reordered));
}

proof fn lemma_scan_first_status(id0: i32, name0: String, created_at: Moment, s: Seq<Transition>)
    ensures
        ({
            let (id, name, last, closed) = scan(id0, name0, created_at, s);
            &&& closed.len() == 0 ==> id == id0
            &&& closed.len() > 0 ==> closed[0].status_id == id0
        }),
    decreases s.len(),
{
    if s.len() > 0 {
        lemma_scan_first_status(id0, name0, created_at, s.drop_last());
        let (id, name, last, closed) = scan(id0, name0, created_at, s.drop_last());
        if closed.len() > 0 {
            assert(closed.push(StatusInterval { status_id: id, status_name: name, started_at: last, ended_at: Some(s.last().transitioned_at) })[0] == closed[0]);
        }
    }
}

/// The first reconstructed interval is in the initial status.
pub(crate) proof fn lemma_first_status(
    created_at: Moment,
    initial_status_id: i32,
    initial_status_name: String,
    transitions: Seq<Transition>,
)
    ensures
        reconstruct_spec(created_at, initial_status_id, initial_status_name, transitions)[0].status_id
            == initial_status_id,
{
    let sorted = sort_by_time(transitions);
    lemma_scan_first_status(initial_status_id, initial_status_name, created_at, sorted);
    let (id, name, last, closed) = scan(initial_status_id, initial_status_name, created_at, sorted);
    let v = closed.push(StatusInterval { status_id: id, status_name: name, started_at: last, ended_at: None });
    if closed.len() > 0 {
        assert(v[0] == closed[0]);
    }
}

} // verus!
