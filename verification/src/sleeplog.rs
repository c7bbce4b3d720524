//! Guard sleep-log event reducer. A chronologically sorted sequence of
//! events (shift start, falls asleep, wakes up), each stamped with a
//! minute, is folded into an `EventHistory`: total minutes slept per
//! guard and, per guard and minute of the hour, how many recorded sleep
//! intervals covered that minute. Sleep intervals are half-open: a
//! guard asleep from minute `b` until waking at minute `e` is recorded
//! as asleep during minutes `b, b+1, ..., e-1`, for `e - b` minutes in
//! total.

use crate::text::{
    digit_run_end, digit_val, digits_val, is_digit, is_digit_char, lemma_digit_run_end_at,
    lines_of, parse_decimal, prefix_eq_at, sort_lines, sort_lines_vec, split_lines, tail_eq, trim,
    trim_spec, views_of, all_digits,
};
use vstd::prelude::*;

verus! {

/// A guard identifier: an opaque non-negative integer.
#[derive(Debug, Clone, Copy, PartialEq, Eq, Structural)]
pub struct Guard(pub u32);

/// A number of minutes, or a minute-of-hour timestamp.
#[derive(Debug, Clone, Copy, PartialEq, Eq, Structural)]
pub struct Minutes(pub u32);

impl Minutes {
    /// Adds two durations, detecting overflow.
    pub fn checked_add(&self, n: Minutes) -> (r: Option<Minutes>)
        ensures
            r == (if self.0 + n.0 <= u32::MAX {
                Some(Minutes((self.0 + n.0) as u32))
            } else {
                None::<Minutes>
            }),
    {
        match self.0.checked_add(n.0) {
            Some(v) => Some(Minutes(v)),
            None => None,
        }
    }

    /// Subtracts a duration, detecting underflow.
    pub fn checked_sub(&self, n: Minutes) -> (r: Option<Minutes>)
        ensures
            r == (if self.0 >= n.0 {
                Some(Minutes((self.0 - n.0) as u32))
            } else {
                None::<Minutes>
            }),
    {
        match self.0.checked_sub(n.0) {
            Some(v) => Some(Minutes(v)),
            None => None,
        }
    }
}

/// The three kinds of log event.
#[derive(Debug, Clone, Copy, PartialEq, Eq, Structural)]
pub enum EventType {
    ShiftStart(Guard),
    FallsAsleep,
    Wakes,
}

/// One log event: its kind and the minute field of its timestamp.
#[derive(Debug, Clone, Copy, PartialEq, Eq, Structural)]
pub struct Event {
    pub kind: EventType,
    pub minute: Minutes,
}

/// How replaying a log can fail.
#[derive(Debug, Clone, Copy, PartialEq, Eq, Structural)]
pub enum HistoryError {
    /// A line does not match the log grammar, or a numeric field does
    /// not fit its type.
    FormatError,
    /// An event arrived in a state that does not permit it.
    OutOfOrderError,
    /// Minute subtraction underflowed or a total overflowed.
    ArithmeticError,
    /// A query was made against a history in which nobody ever slept.
    EmptyHistoryError,
}

/// The accumulated sleep statistics, threaded through the fold.
///
/// `sleeps` and `asleep_during_minute` are association lists with
/// unique keys: guard, and (guard, minute) respectively.
#[derive(Debug, Clone, PartialEq)]
pub struct EventHistory {
    pub current_guard: Option<Guard>,
    pub asleep_since: Option<Minutes>,
    pub sleeps: Vec<(Guard, Minutes)>,
    pub asleep_during_minute: Vec<(Guard, Minutes, usize)>,
}

/// The mathematical model of an `EventHistory`.
pub ghost struct HistoryModel {
    pub current_guard: Option<Guard>,
    pub asleep_since: Option<Minutes>,
    pub sleeps: Seq<(Guard, Minutes)>,
    pub asleep_during_minute: Seq<(Guard, Minutes, usize)>,
}

impl View for EventHistory {
    type V = HistoryModel;

    open spec fn view(&self) -> HistoryModel {
        HistoryModel {
            current_guard: self.current_guard,
            asleep_since: self.asleep_since,
            sleeps: self.sleeps@,
            asleep_during_minute: self.asleep_during_minute@,
        }
    }
}

/// The model of a history result: errors unchanged, histories by view.
pub open spec fn result_model(r: Result<EventHistory, HistoryError>) -> Result<
    HistoryModel,
    HistoryError,
> {
    match r {
        Ok(h) => Ok(h@),
        Err(e) => Err(e),
    }
}

/// The total recorded for a guard: the value at the first entry with
/// that guard, if any.
pub open spec fn totals_lookup(s: Seq<(Guard, Minutes)>, g: Guard) -> Option<Minutes>
    decreases s.len(),
{
    if s.len() == 0 {
        None
    } else if s[0].0 == g {
        Some(s[0].1)
    } else {
        totals_lookup(s.drop_first(), g)
    }
}

/// The association list with the guard's total replaced (or appended).
pub open spec fn set_total(s: Seq<(Guard, Minutes)>, g: Guard, v: Minutes) -> Seq<
    (Guard, Minutes),
>
    decreases s.len(),
{
    if s.len() == 0 {
        seq![(g, v)]
    } else if s[0].0 == g {
        seq![(g, v)] + s.drop_first()
    } else {
        seq![s[0]] + set_total(s.drop_first(), g, v)
    }
}

/// The count recorded for a guard and minute, if any.
pub open spec fn counts_lookup(s: Seq<(Guard, Minutes, usize)>, g: Guard, m: Minutes) -> Option<
    usize,
>
    decreases s.len(),
{
    if s.len() == 0 {
        None
    } else if s[0].0 == g && s[0].1 == m {
        Some(s[0].2)
    } else {
        counts_lookup(s.drop_first(), g, m)
    }
}

/// The count recorded for a guard and minute, zero if absent.
pub open spec fn count_at(s: Seq<(Guard, Minutes, usize)>, g: Guard, m: Minutes) -> int {
    match counts_lookup(s, g, m) {
        Some(c) => c as int,
        None => 0,
    }
}

/// One minute of one sleep interval charged to a guard: the entry for
/// (guard, minute) is incremented, or created with count one. Fails if
/// the count would overflow.
pub open spec fn bump_minute(s: Seq<(Guard, Minutes, usize)>, g: Guard, m: Minutes) -> Result<
    Seq<(Guard, Minutes, usize)>,
    HistoryError,
>
    decreases s.len(),
{
    if s.len() == 0 {
        Ok(seq![(g, m, 1usize)])
    } else if s[0].0 == g && s[0].1 == m {
        if s[0].2 == usize::MAX {
            Err(HistoryError::ArithmeticError)
        } else {
            Ok(seq![(g, m, (s[0].2 + 1) as usize)] + s.drop_first())
        }
    } else {
        match bump_minute(s.drop_first(), g, m) {
            Ok(t) => Ok(seq![s[0]] + t),
            Err(e) => Err(e),
        }
    }
}

/// Every minute of the half-open range `[from, to)` charged to the
/// guard, in ascending order.
pub open spec fn bump_range(
    s: Seq<(Guard, Minutes, usize)>,
    g: Guard,
    from: u32,
    to: u32,
) -> Result<Seq<(Guard, Minutes, usize)>, HistoryError>
    decreases to - from,
{
    if from >= to {
        Ok(s)
    } else {
        match bump_minute(s, g, Minutes(from)) {
            Ok(t) => bump_range(t, g, (from + 1) as u32, to),
            Err(e) => Err(e),
        }
    }
}

/// The transition relation of the reducer, applied once per event.
///
/// - `ShiftStart(g)` requires that nobody is recorded asleep; the new
///   guard comes on duty awake.
/// - `FallsAsleep` requires a guard on duty and awake; the minute the
///   sleep began is recorded.
/// - `Wakes` requires a guard on duty and asleep; the elapsed time
///   (wake minute minus sleep minute, failing on underflow) is added to
///   the guard's total (failing on overflow), and every minute of the
///   half-open interval is charged to the guard.
pub open spec fn step_spec(h: HistoryModel, event: Event) -> Result<
    HistoryModel,
    HistoryError,
> {
    match event.kind {
        EventType::ShiftStart(g) => match h.asleep_since {
            Some(_) => Err(HistoryError::OutOfOrderError),
            None => Ok(
                HistoryModel {
                    current_guard: Some(g),
                    asleep_since: None,
                    sleeps: h.sleeps,
                    asleep_during_minute: h.asleep_during_minute,
                },
            ),
        },
        EventType::FallsAsleep => match (h.current_guard, h.asleep_since) {
            (Some(_), None) => Ok(
                HistoryModel {
                    current_guard: h.current_guard,
                    asleep_since: Some(event.minute),
                    sleeps: h.sleeps,
                    asleep_during_minute: h.asleep_during_minute,
                },
            ),
            _ => Err(HistoryError::OutOfOrderError),
        },
        EventType::Wakes => match (h.current_guard, h.asleep_since) {
            (Some(g), Some(begin)) => if event.minute.0 < begin.0 {
                Err(HistoryError::ArithmeticError)
            } else {
                match bump_range(h.asleep_during_minute, g, begin.0, event.minute.0) {
                    Ok(counts2) => {
                        let tot = match totals_lookup(h.sleeps, g) {
                            Some(t) => t,
                            None => Minutes(0),
                        };
                        if tot.0 + (event.minute.0 - begin.0) > u32::MAX {
                            Err(HistoryError::ArithmeticError)
                        } else {
                            Ok(
                                HistoryModel {
                                    current_guard: Some(g),
                                    asleep_since: None,
                                    sleeps: set_total(
                                        h.sleeps,
                                        g,
                                        Minutes((tot.0 + (event.minute.0 - begin.0)) as u32),
                                    ),
                                    asleep_during_minute: counts2,
                                },
                            )
                        }
                    },
                    Err(e) => Err(e),
                }
            },
            _ => Err(HistoryError::OutOfOrderError),
        },
    }
}

/// The empty history: nobody on duty, nobody asleep, nothing recorded.
pub open spec fn initial_model() -> HistoryModel {
    HistoryModel {
        current_guard: None,
        asleep_since: None,
        sleeps: Seq::empty(),
        asleep_during_minute: Seq::empty(),
    }
}

/// A full replay from a given state: events applied in order, stopping
/// at the first failing transition.
pub open spec fn run_from(h: HistoryModel, events: Seq<Event>) -> Result<
    HistoryModel,
    HistoryError,
>
    decreases events.len(),
{
    if events.len() == 0 {
        Ok(h)
    } else {
        match step_spec(h, events[0]) {
            Ok(h2) => run_from(h2, events.drop_first()),
            Err(e) => Err(e),
        }
    }
}

/// A full replay from the empty history.
pub open spec fn run_spec(events: Seq<Event>) -> Result<HistoryModel, HistoryError> {
    run_from(initial_model(), events)
}

/// `bump_minute` at the first matching index `i` either fails on a
/// saturated count or updates exactly that entry.
proof fn lemma_bump_minute_at(s: Seq<(Guard, Minutes, usize)>, g: Guard, m: Minutes, i: int)
    requires
        0 <= i < s.len(),
        s[i].0 == g && s[i].1 == m,
        forall|k: int| 0 <= k < i ==> !(s[k].0 == g && s[k].1 == m),
    ensures
        bump_minute(s, g, m) == (if s[i].2 == usize::MAX {
            Err::<Seq<(Guard, Minutes, usize)>, HistoryError>(HistoryError::ArithmeticError)
        } else {
            Ok::<Seq<(Guard, Minutes, usize)>, HistoryError>(
                s.update(i, (g, m, (s[i].2 + 1) as usize)),
            )
        }),
    decreases i,
{
    if i == 0 {
        if s[0].2 != usize::MAX {
            assert(seq![(g, m, (s[0].2 + 1) as usize)] + s.drop_first() =~= s.update(
                0,
                (g, m, (s[0].2 + 1) as usize),
            ));
        }
    } else {
        let t = s.drop_first();
        assert(forall|k: int| 0 <= k < i - 1 ==> t[k] == s[k + 1]);
        lemma_bump_minute_at(t, g, m, i - 1);
        if s[i].2 != usize::MAX {
            assert(seq![s[0]] + t.update(i - 1, (g, m, (s[i].2 + 1) as usize)) =~= s.update(
                i,
                (g, m, (s[i].2 + 1) as usize),
            ));
        }
    }
}

/// `bump_minute` with no matching entry appends a fresh entry of count
/// one.
proof fn lemma_bump_minute_absent(s: Seq<(Guard, Minutes, usize)>, g: Guard, m: Minutes)
    requires
        forall|k: int| 0 <= k < s.len() ==> !(s[k].0 == g && s[k].1 == m),
    ensures
        bump_minute(s, g, m) == Ok::<Seq<(Guard, Minutes, usize)>, HistoryError>(
            s.push((g, m, 1usize)),
        ),
    decreases s.len(),
{
    if s.len() == 0 {
        assert(seq![(g, m, 1usize)] =~= s.push((g, m, 1usize)));
    } else {
        let t = s.drop_first();
        assert(forall|k: int| 0 <= k < t.len() ==> t[k] == s[k + 1]);
        lemma_bump_minute_absent(t, g, m);
        assert(seq![s[0]] + t.push((g, m, 1usize)) =~= s.push((g, m, 1usize)));
    }
}

/// `set_total` at the first matching index updates exactly that entry.
proof fn lemma_set_total_at(s: Seq<(Guard, Minutes)>, g: Guard, v: Minutes, i: int)
    requires
        0 <= i < s.len(),
        s[i].0 == g,
        forall|k: int| 0 <= k < i ==> s[k].0 != g,
    ensures
        set_total(s, g, v) == s.update(i, (g, v)),
    decreases i,
{
    if i == 0 {
        assert(seq![(g, v)] + s.drop_first() =~= s.update(0, (g, v)));
    } else {
        let t = s.drop_first();
        assert(forall|k: int| 0 <= k < i - 1 ==> t[k] == s[k + 1]);
        lemma_set_total_at(t, g, v, i - 1);
        assert(seq![s[0]] + t.update(i - 1, (g, v)) =~= s.update(i, (g, v)));
    }
}

/// `set_total` with no matching entry appends.
proof fn lemma_set_total_absent(s: Seq<(Guard, Minutes)>, g: Guard, v: Minutes)
    requires
        forall|k: int| 0 <= k < s.len() ==> s[k].0 != g,
    ensures
        set_total(s, g, v) == s.push((g, v)),
    decreases s.len(),
{
    if s.len() == 0 {
        assert(seq![(g, v)] =~= s.push((g, v)));
    } else {
        let t = s.drop_first();
        assert(forall|k: int| 0 <= k < t.len() ==> t[k] == s[k + 1]);
        lemma_set_total_absent(t, g, v);
        assert(seq![s[0]] + t.push((g, v)) =~= s.push((g, v)));
    }
}

/// `totals_lookup` returns the value at the first matching index.
proof fn lemma_totals_lookup_at(s: Seq<(Guard, Minutes)>, g: Guard, i: int)
    requires
        0 <= i < s.len(),
        s[i].0 == g,
        forall|k: int| 0 <= k < i ==> s[k].0 != g,
    ensures
        totals_lookup(s, g) == Some(s[i].1),
    decreases i,
{
    if i > 0 {
        let t = s.drop_first();
        assert(forall|k: int| 0 <= k < i - 1 ==> t[k] == s[k + 1]);
        lemma_totals_lookup_at(t, g, i - 1);
    }
}

/// `totals_lookup` with no matching entry returns `None`.
proof fn lemma_totals_lookup_absent(s: Seq<(Guard, Minutes)>, g: Guard)
    requires
        forall|k: int| 0 <= k < s.len() ==> s[k].0 != g,
    ensures
        totals_lookup(s, g) is None,
    decreases s.len(),
{
    if s.len() > 0 {
        let t = s.drop_first();
        assert(forall|k: int| 0 <= k < t.len() ==> t[k] == s[k + 1]);
        lemma_totals_lookup_absent(t, g);
    }
}

/// Charges one minute to a guard in the concrete association list.
fn bump_minute_vec(v: Vec<(Guard, Minutes, usize)>, g: Guard, m: Minutes) -> (r: Result<
    Vec<(Guard, Minutes, usize)>,
    HistoryError,
>)
    ensures
        match r {
            Ok(v2) => bump_minute(v@, g, m) == Ok::<Seq<(Guard, Minutes, usize)>, HistoryError>(
                v2@,
            ),
            Err(e) => bump_minute(v@, g, m) == Err::<Seq<(Guard, Minutes, usize)>, HistoryError>(
                e,
            ),
        },
{
    let mut v = v;
    let ghost s = v@;
    let mut i: usize = 0;
    while i < v.len() && !(v[i].0 == g && v[i].1 == m)
        invariant
            i <= s.len(),
            v@ == s,
            forall|k: int| 0 <= k < i ==> !(s[k].0 == g && s[k].1 == m),
        decreases s.len() - i,
    {
        i = i + 1;
    }
    if i == v.len() {
        proof {
            lemma_bump_minute_absent(s, g, m);
        }
        v.push((g, m, 1));
        Ok(v)
    } else {
        let (_, _, c) = v[i];
        proof {
            lemma_bump_minute_at(s, g, m, i as int);
        }
        if c == usize::MAX {
            Err(HistoryError::ArithmeticError)
        } else {
            v.remove(i);
            v.insert(i, (g, m, c + 1));
            proof {
                assert(s.remove(i as int).insert(i as int, (g, m, (c + 1) as usize)) =~= s.update(
                    i as int,
                    (g, m, (c + 1) as usize),
                ));
            }
            Ok(v)
        }
    }
}

/// Replaces (or appends) a guard's total in the concrete association
/// list.
fn set_total_vec(v: Vec<(Guard, Minutes)>, g: Guard, val: Minutes) -> (r: Vec<(Guard, Minutes)>)
    ensures
        r@ == set_total(v@, g, val),
{
    let mut v = v;
    let ghost s = v@;
    let mut i: usize = 0;
    while i < v.len() && v[i].0 != g
        invariant
            i <= s.len(),
            v@ == s,
            forall|k: int| 0 <= k < i ==> s[k].0 != g,
        decreases s.len() - i,
    {
        i = i + 1;
    }
    if i == v.len() {
        proof {
            lemma_set_total_absent(s, g, val);
        }
        v.push((g, val));
        v
    } else {
        proof {
            lemma_set_total_at(s, g, val, i as int);
        }
        v.remove(i);
        v.insert(i, (g, val));
        proof {
            assert(s.remove(i as int).insert(i as int, (g, val)) =~= s.update(i as int, (g, val)));
        }
        v
    }
}

/// Looks up a guard's recorded total.
fn totals_lookup_vec(v: &Vec<(Guard, Minutes)>, g: Guard) -> (r: Option<Minutes>)
    ensures
        r == totals_lookup(v@, g),
{
    let mut i: usize = 0;
    while i < v.len() && v[i].0 != g
        invariant
            i <= v@.len(),
            forall|k: int| 0 <= k < i ==> v@[k].0 != g,
        decreases v@.len() - i,
    {
        i = i + 1;
    }
    if i == v.len() {
        proof {
            lemma_totals_lookup_absent(v@, g);
        }
        None
    } else {
        proof {
            lemma_totals_lookup_at(v@, g, i as int);
        }
        Some(v[i].1)
    }
}

impl EventHistory {
    /// The empty history.
    pub fn new() -> (r: EventHistory)
        ensures
            r@ == initial_model(),
    {
        let r = EventHistory {
            current_guard: None,
            asleep_since: None,
            sleeps: Vec::new(),
            asleep_during_minute: Vec::new(),
        };
        proof {
            assert(r@.sleeps =~= initial_model().sleeps);
            assert(r@.asleep_during_minute =~= initial_model().asleep_during_minute);
        }
        r
    }

    /// Replays a sorted event sequence from the empty history,
    /// stopping at the first invariant violation. The result is a
    /// function of the event sequence alone, so replaying the same
    /// sequence twice yields identical histories.
    pub fn try_from(events: &[Event]) -> (r: Result<EventHistory, HistoryError>)
        ensures
            result_model(r) == run_spec(events@),
    {
        let mut h = EventHistory::new();
        let mut i: usize = 0;
        proof {
            assert(events@.skip(0) =~= events@);
        }
        while i < events.len()
            invariant
                i <= events@.len(),
                run_spec(events@) == run_from(h@, events@.skip(i as int)),
            decreases events@.len() - i,
        {
            let ghost tail = events@.skip(i as int);
            proof {
                assert(tail[0] == events@[i as int]);
                assert(tail.drop_first() =~= events@.skip(i + 1));
            }
            match update_history(h, &events[i]) {
                Ok(h2) => {
                    h = h2;
                },
                Err(e) => {
                    return Err(e);
                },
            }
            i = i + 1;
        }
        proof {
            assert(events@.skip(events@.len() as int) =~= Seq::<Event>::empty());
        }
        Ok(h)
    }
}

/// Whether the totals list records total `t` for guard `g`.
pub open spec fn has_total(s: Seq<(Guard, Minutes)>, g: Guard, t: Minutes) -> bool {
    exists|i: int| 0 <= i < s.len() && s[i] == (g, t)
}

/// Whether the per-minute list records count `c` for guard `g` at
/// minute `m`.
pub open spec fn has_count(s: Seq<(Guard, Minutes, usize)>, g: Guard, m: Minutes, c: usize) -> bool {
    exists|i: int| 0 <= i < s.len() && s[i] == (g, m, c)
}

/// Whether some inverted entry carries total `t`.
pub open spec fn total_present(r: Seq<(Minutes, Guard)>, t: Minutes) -> bool {
    exists|j: int| 0 <= j < r.len() && r[j].0 == t
}

/// Whether the per-minute list has any entry for guard `g`.
pub open spec fn guard_present(s: Seq<(Guard, Minutes, usize)>, g: Guard) -> bool {
    exists|i: int| 0 <= i < s.len() && s[i].0 == g
}

/// Guard `g` slept the most minutes in total; among guards tied for
/// the maximum, `g` has the smallest identifier.
pub open spec fn is_best_sleeper(s: Seq<(Guard, Minutes)>, g: Guard) -> bool {
    exists|t: Minutes|
        #![auto]
        {
            &&& has_total(s, g, t)
            &&& forall|g2: Guard, t2: Minutes| has_total(s, g2, t2) ==> t2.0 <= t.0
            &&& forall|g2: Guard, t2: Minutes| has_total(s, g2, t2) && t2.0 == t.0 ==> g.0 <= g2.0
        }
}

/// Minute `m` (with count `c`) is one during which guard `g` was
/// recorded asleep the most often; among minutes tied for the maximum
/// count, `m` is the smallest.
pub open spec fn is_best_minute(
    s: Seq<(Guard, Minutes, usize)>,
    g: Guard,
    m: Minutes,
    c: usize,
) -> bool {
    &&& has_count(s, g, m, c)
    &&& forall|m2: Minutes, c2: usize| has_count(s, g, m2, c2) ==> c2 <= c
    &&& forall|m2: Minutes, c2: usize| has_count(s, g, m2, c2) && c2 == c ==> m.0 <= m2.0
}

/// Inverts a guard-to-total association into a total-to-guard one,
/// sorted by strictly increasing total. A total that several guards
/// share maps to the smallest of their identifiers.
#[verifier::loop_isolation(false)]
pub fn invert_map(input: &Vec<(Guard, Minutes)>) -> (r: Vec<(Minutes, Guard)>)
    ensures
        forall|a: int, b: int| 0 <= a < b < r@.len() ==> r@[a].0.0 < r@[b].0.0,
        forall|j: int| 0 <= j < r@.len() ==> #[trigger] has_total(input@, r@[j].1, r@[j].0),
        forall|j: int, g2: Guard|
            0 <= j < r@.len() && has_total(input@, g2, r@[j].0) ==> r@[j].1.0 <= g2.0,
        forall|i: int| 0 <= i < input@.len() ==> #[trigger] total_present(r@, input@[i].1),
{
    let mut r: Vec<(Minutes, Guard)> = Vec::new();
    let mut i: usize = 0;
    while i < input.len()
        invariant
            i <= input@.len(),
            forall|a: int, b: int| 0 <= a < b < r@.len() ==> r@[a].0.0 < r@[b].0.0,
            forall|j: int| 0 <= j < r@.len() ==> #[trigger] has_total(
                input@.take(i as int),
                r@[j].1,
                r@[j].0,
            ),
            forall|j: int, g2: Guard|
                0 <= j < r@.len() && has_total(input@.take(i as int), g2, r@[j].0) ==> r@[j].1.0
                    <= g2.0,
            forall|k: int| 0 <= k < i ==> #[trigger] total_present(r@, input@[k].1),
        decreases input@.len() - i,
    {
        let (g, t) = input[i];
        let ghost prefix = input@.take(i as int);
        let ghost prefix2 = input@.take(i + 1);
        proof {
            assert(prefix2.drop_last() =~= prefix);
            assert(prefix2.last() == input@[i as int]);
            assert(has_total(prefix2, g, t)) by {
                assert(prefix2[i as int] == (g, t));
            }
            assert forall|g2: Guard, t2: Minutes| has_total(prefix, g2, t2) implies has_total(
                prefix2,
                g2,
                t2,
            ) by {
                let w = choose|w: int| 0 <= w < prefix.len() && prefix[w] == (g2, t2);
                assert(prefix2[w] == (g2, t2));
            }
            assert forall|g2: Guard, t2: Minutes|
                has_total(prefix2, g2, t2) && (g2, t2) != (g, t) implies has_total(
                prefix,
                g2,
                t2,
            ) by {
                let w = choose|w: int| 0 <= w < prefix2.len() && prefix2[w] == (g2, t2);
                assert(w < i);
                assert(prefix[w] == (g2, t2));
            }
        }
        let ghost r_before = r@;
        let mut j: usize = 0;
        while j < r.len() && r[j].0.0 < t.0
            invariant
                j <= r@.len(),
                r@ == r_before,
                forall|a: int| 0 <= a < j ==> r@[a].0.0 < t.0,
            decreases r@.len() - j,
        {
            j = j + 1;
        }
        if j < r.len() && r[j].0.0 == t.0 {
            let (t0, g0) = r[j];
            proof {
                assert(t0 == t);
            }
            if g.0 < g0.0 {
                r.remove(j);
                r.insert(j, (t, g));
                proof {
                    assert(r@ =~= r_before.update(j as int, (t, g)));
                }
            }
            proof {
                assert forall|jj: int| 0 <= jj < r@.len() implies #[trigger] has_total(
                    prefix2,
                    r@[jj].1,
                    r@[jj].0,
                ) by {
                    if jj == j && g.0 < g0.0 {
                        assert(r@[jj] == (t, g));
                        assert(has_total(prefix2, g, t));
                    } else {
                        assert(r@[jj] == r_before[jj]);
                        assert(has_total(prefix, r@[jj].1, r@[jj].0));
                    }
                }
                assert forall|jj: int, g2: Guard|
                    0 <= jj < r@.len() && has_total(prefix2, g2, r@[jj].0) implies r@[jj].1.0
                    <= g2.0 by {
                    if (g2, r@[jj].0) == (g, t) {
                        if jj == j {
                            assert(r@[jj].1.0 <= g.0);
                        } else {
                            assert(r@[jj] == r_before[jj]);
                            assert(r@[jj].0.0 != t.0);
                        }
                    } else {
                        assert(has_total(prefix, g2, r@[jj].0));
                        if jj == j && g.0 < g0.0 {
                            assert(has_total(prefix, g2, t0));
                            assert(g0.0 <= g2.0);
                        } else {
                            assert(r@[jj] == r_before[jj]);
                        }
                    }
                }
                assert forall|k: int| 0 <= k < i + 1 implies #[trigger] total_present(
                    r@,
                    input@[k].1,
                ) by {
                    if k < i {
                        assert(total_present(r_before, input@[k].1));
                        let w = choose|w: int| 0 <= w < r_before.len() && r_before[w].0
                            == input@[k].1;
                        assert(r@[w].0 == r_before[w].0);
                    } else {
                        assert(r@[j as int].0 == t);
                    }
                }
            }
        } else {
            r.insert(j, (t, g));
            proof {
                assert forall|a: int, b: int| 0 <= a < b < r@.len() implies r@[a].0.0
                    < r@[b].0.0 by {
                    if b < j {
                    } else if a < j && b == j {
                        assert(r@[a] == r_before[a]);
                    } else if a < j && b > j {
                        assert(r@[a] == r_before[a] && r@[b] == r_before[b - 1]);
                    } else if a == j && b > j {
                        assert(r@[b] == r_before[b - 1]);
                    } else if a > j {
                        assert(r@[a] == r_before[a - 1] && r@[b] == r_before[b - 1]);
                    }
                }
                assert forall|jj: int| 0 <= jj < r@.len() implies #[trigger] has_total(
                    prefix2,
                    r@[jj].1,
                    r@[jj].0,
                ) by {
                    if jj == j {
                        assert(r@[jj] == (t, g));
                    } else if jj < j {
                        assert(r@[jj] == r_before[jj]);
                        assert(has_total(prefix, r@[jj].1, r@[jj].0));
                    } else {
                        assert(r@[jj] == r_before[jj - 1]);
                        assert(has_total(prefix, r@[jj].1, r@[jj].0));
                    }
                }
                assert forall|jj: int, g2: Guard|
                    0 <= jj < r@.len() && has_total(prefix2, g2, r@[jj].0) implies r@[jj].1.0
                    <= g2.0 by {
                    let ghost old_entry = if jj < j {
                        r_before[jj]
                    } else if jj > j {
                        r_before[jj - 1]
                    } else {
                        (t, g)
                    };
                    assert(r@[jj] == old_entry);
                    if (g2, r@[jj].0) == (g, t) {
                        if jj == j {
                        } else {
                            assert(has_total(prefix, r@[jj].1, r@[jj].0));
                            assert(r@[jj].0.0 != t.0) by {
                                if jj < j {
                                    assert(r_before[jj].0.0 < t.0);
                                } else {
                                    assert(r@[j as int].0.0 == t.0 && jj > j);
                                }
                            }
                        }
                    } else {
                        assert(has_total(prefix, g2, r@[jj].0));
                        if jj != j {
                            assert(r@[jj].1.0 <= g2.0);
                        } else {
                            assert(r@[jj].0 == t);
                            assert(!has_total(prefix, g, t) ==> true);
                            assert(forall|a: int|
                                0 <= a < r_before.len() ==> r_before[a].0.0 != t.0);
                            assert(g.0 <= g2.0) by {
                                if g2.0 < g.0 {
                                    assert(has_total(prefix, g2, t));
                                    let w = choose|w: int|
                                        0 <= w < prefix.len() && prefix[w] == (g2, t);
                                    assert(total_present(r_before, input@[w].1));
                                    let jj2 = choose|jj2: int|
                                        0 <= jj2 < r_before.len() && r_before[jj2].0
                                            == input@[w].1;
                                    assert(r_before[jj2].0.0 == t.0);
                                    assert(false);
                                }
                            }
                        }
                    }
                }
                assert forall|k: int| 0 <= k < i + 1 implies #[trigger] total_present(
                    r@,
                    input@[k].1,
                ) by {
                    if k < i {
                        assert(total_present(r_before, input@[k].1));
                        let w = choose|w: int| 0 <= w < r_before.len() && r_before[w].0
                            == input@[k].1;
                        if w < j {
                            assert(r@[w].0 == input@[k].1);
                        } else {
                            assert(r@[w + 1].0 == input@[k].1);
                        }
                    } else {
                        assert(r@[j as int].0 == t);
                    }
                }
            }
        }
        i = i + 1;
    }
    proof {
        assert(input@.take(input@.len() as int) =~= input@);
    }
    r
}

impl EventHistory {
    /// The guard who slept the most minutes in total; on a tie the
    /// smallest guard identifier wins. Fails only when nobody ever
    /// slept.
    pub fn biggest_sleeper(&self) -> (r: Result<Guard, HistoryError>)
        ensures
            r is Err <==> self@.sleeps.len() == 0,
            r matches Err(e) ==> e == HistoryError::EmptyHistoryError,
            r matches Ok(g) ==> is_best_sleeper(self@.sleeps, g),
    {
        let inverted = invert_map(&self.sleeps);
        if inverted.len() == 0 {
            proof {
                if self@.sleeps.len() > 0 {
                    assert(total_present(inverted@, self@.sleeps[0].1));
                    assert(false);
                }
            }
            Err(HistoryError::EmptyHistoryError)
        } else {
            let (t, g) = inverted[inverted.len() - 1];
            proof {
                let ghost last = inverted@.len() - 1;
                assert(has_total(self@.sleeps, g, t));
                assert forall|g2: Guard, t2: Minutes| has_total(self@.sleeps, g2, t2) implies t2.0
                    <= t.0 by {
                    let w = choose|w: int| 0 <= w < self@.sleeps.len() && self@.sleeps[w] == (
                        g2,
                        t2,
                    );
                    assert(total_present(inverted@, self@.sleeps[w].1));
                    let jj = choose|jj: int|
                        0 <= jj < inverted@.len() && inverted@[jj].0 == self@.sleeps[w].1;
                    assert(inverted@[jj].0.0 <= inverted@[last].0.0);
                }
                assert forall|g2: Guard, t2: Minutes|
                    has_total(self@.sleeps, g2, t2) && t2.0 == t.0 implies g.0 <= g2.0 by {
                    assert(t2 == t);
                    assert(has_total(self@.sleeps, g2, inverted@[last].0));
                }
                assert(is_best_sleeper(self@.sleeps, g));
            }
            Ok(g)
        }
    }

    /// The minute during which the given guard was recorded asleep the
    /// most often, with that count; on a tie the smallest minute wins.
    /// `None` when nothing at all is recorded for the guard.
    #[verifier::loop_isolation(false)]
    pub fn minute_during_which_sleeps_most(&self, g: &Guard) -> (r: Option<(Minutes, usize)>)
        ensures
            r is Some <==> guard_present(self@.asleep_during_minute, *g),
            r matches Some((m, c)) ==> is_best_minute(self@.asleep_during_minute, *g, m, c),
    {
        let counts = &self.asleep_during_minute;
        let mut best: Option<(Minutes, usize)> = None;
        let mut i: usize = 0;
        while i < counts.len()
            invariant
                i <= counts@.len(),
                best is Some <==> guard_present(counts@.take(i as int), *g),
                best matches Some((m, c)) ==> {
                    &&& exists|k: int| 0 <= k < i && counts@[k] == (*g, m, c)
                    &&& forall|k: int| 0 <= k < i && counts@[k].0 == *g ==> counts@[k].2 <= c
                    &&& forall|k: int|
                        0 <= k < i && counts@[k].0 == *g && counts@[k].2 == c ==> m.0
                            <= counts@[k].1.0
                },
            decreases counts@.len() - i,
        {
            let (eg, em, ec) = counts[i];
            proof {
                assert(counts@.take(i + 1).drop_last() =~= counts@.take(i as int));
                assert(counts@.take(i + 1)[i as int] == counts@[i as int]);
                if eg.0 == g.0 {
                    assert(guard_present(counts@.take(i + 1), *g));
                } else {
                    assert(!guard_present(counts@.take(i + 1), *g)
                        || guard_present(counts@.take(i as int), *g)) by {
                        if guard_present(counts@.take(i + 1), *g) {
                            let w = choose|w: int|
                                0 <= w < counts@.take(i + 1).len() && #[trigger] counts@.take(
                                    i + 1,
                                )[w].0 == *g;
                            if w < i {
                                assert(counts@.take(i as int)[w].0 == *g);
                            } else {
                                assert(counts@[i as int].0 == *g);
                                assert(false);
                            }
                        }
                    }
                }
            }
            if eg.0 == g.0 {
                proof {
                    assert(eg == *g);
                }
                match best {
                    Some((bm, bc)) => {
                        if ec > bc || (ec == bc && em.0 < bm.0) {
                            best = Some((em, ec));
                        }
                    },
                    None => {
                        proof {
                            assert forall|k: int| 0 <= k < i implies counts@[k].0 != *g by {
                                assert(counts@.take(i as int)[k] == counts@[k]);
                            }
                        }
                        best = Some((em, ec));
                    },
                }
            }
            i = i + 1;
        }
        proof {
            assert(counts@.take(counts@.len() as int) =~= counts@);
            match best {
                Some((m, c)) => {
                    assert forall|m2: Minutes, c2: usize|
                        has_count(counts@, *g, m2, c2) implies c2 <= c by {
                        let w = choose|w: int| 0 <= w < counts@.len() && counts@[w] == (*g, m2, c2);
                        assert(counts@[w].2 <= c);
                    }
                    assert forall|m2: Minutes, c2: usize|
                        has_count(counts@, *g, m2, c2) && c2 == c implies m.0 <= m2.0 by {
                        let w = choose|w: int| 0 <= w < counts@.len() && counts@[w] == (*g, m2, c2);
                        assert(m.0 <= counts@[w].1.0);
                    }
                },
                None => {},
            }
        }
        best
    }
}

/// The product of the busiest guard's identifier and the minute that
/// guard most often spent asleep: the puzzle's first answer.
pub fn solve_part1(history: &EventHistory) -> (r: u32)
    requires
        history@.sleeps.len() > 0,
        forall|g: Guard| is_best_sleeper(history@.sleeps, g) ==> exists|i: int|
            0 <= i < history@.asleep_during_minute.len() && history@.asleep_during_minute[i].0 == g,
        forall|g: Guard, m: Minutes, c: usize|
            is_best_sleeper(history@.sleeps, g) && is_best_minute(
                history@.asleep_during_minute,
                g,
                m,
                c,
            ) ==> m.0 * g.0 <= u32::MAX,
    ensures
        exists|g: Guard, m: Minutes, c: usize|
            #![auto]
            is_best_sleeper(history@.sleeps, g) && is_best_minute(
                history@.asleep_during_minute,
                g,
                m,
                c,
            ) && r == m.0 * g.0,
{
    match history.biggest_sleeper() {
        Ok(guard) => {
            match history.minute_during_which_sleeps_most(&guard) {
                Some((when, count)) => {
                    proof {
                        assert(when.0 * guard.0 <= u32::MAX);
                    }
                    when.0 * guard.0
                },
                None => {
                    proof {
                        assert(false);
                    }
                    0
                },
            }
        },
        Err(_) => {
            proof {
                assert(false);
            }
            0
        },
    }
}

/// Applies one event to the history, as `step_spec` describes.
#[verifier::loop_isolation(false)]
pub fn update_history(history: EventHistory, event: &Event) -> (r: Result<
    EventHistory,
    HistoryError,
>)
    ensures
        result_model(r) == step_spec(history@, *event),
{
    let ghost h0 = history@;
    match event.kind {
        EventType::ShiftStart(guard) => {
            if history.asleep_since.is_some() {
                Err(HistoryError::OutOfOrderError)
            } else {
                Ok(
                    EventHistory {
                        current_guard: Some(guard),
                        asleep_since: None,
                        sleeps: history.sleeps,
                        asleep_during_minute: history.asleep_during_minute,
                    },
                )
            }
        },
        EventType::FallsAsleep => {
            match (history.current_guard, history.asleep_since) {
                (Some(_), None) => Ok(
                    EventHistory {
                        current_guard: history.current_guard,
                        asleep_since: Some(event.minute),
                        sleeps: history.sleeps,
                        asleep_during_minute: history.asleep_during_minute,
                    },
                ),
                _ => Err(HistoryError::OutOfOrderError),
            }
        },
        EventType::Wakes => {
            match (history.current_guard, history.asleep_since) {
                (Some(guard), Some(begin)) => {
                    match event.minute.checked_sub(begin) {
                        None => Err(HistoryError::ArithmeticError),
                        Some(elapsed) => {
                            let end: u32 = event.minute.0;
                            let mut counts = history.asleep_during_minute;
                            let mut m: u32 = begin.0;
                            while m < end
                                invariant
                                    begin.0 <= m <= end,
                                    bump_range(h0.asleep_during_minute, guard, begin.0, end)
                                        == bump_range(counts@, guard, m, end),
                                decreases end - m,
                            {
                                let ghost cs = counts@;
                                match bump_minute_vec(counts, guard, Minutes(m)) {
                                    Ok(c2) => {
                                        counts = c2;
                                    },
                                    Err(e) => {
                                        proof {
                                            assert(bump_minute(cs, guard, Minutes(m)) == Err::<
                                                Seq<(Guard, Minutes, usize)>,
                                                HistoryError,
                                            >(e));
                                            assert(bump_range(cs, guard, m, end) == Err::<
                                                Seq<(Guard, Minutes, usize)>,
                                                HistoryError,
                                            >(e));
                                            assert(bump_range(
                                                h0.asleep_during_minute,
                                                guard,
                                                begin.0,
                                                end,
                                            ) == Err::<Seq<(Guard, Minutes, usize)>, HistoryError>(
                                                e,
                                            ));
                                        }
                                        return Err(e);
                                    },
                                }
                                m = m + 1;
                            }
                            let tot = match totals_lookup_vec(&history.sleeps, guard) {
                                Some(t) => t,
                                None => Minutes(0),
                            };
                            match tot.checked_add(elapsed) {
                                Some(newtot) => {
                                    let sleeps2 = set_total_vec(history.sleeps, guard, newtot);
                                    Ok(
                                        EventHistory {
                                            current_guard: Some(guard),
                                            asleep_since: None,
                                            sleeps: sleeps2,
                                            asleep_during_minute: counts,
                                        },
                                    )
                                },
                                None => Err(HistoryError::ArithmeticError),
                            }
                        },
                    }
                },
                _ => Err(HistoryError::OutOfOrderError),
            }
        },
    }
}


/// The fixed-width timestamp prefix `[yyyy-mm-dd hh:mm] ` of a log
/// line: nineteen characters, zero-padded, so that plain lexicographic
/// order of lines is chronological order.
pub open spec fn timestamp_ok(s: Seq<char>) -> bool {
    &&& s.len() >= 19
    &&& s[0] == '['
    &&& is_digit(s[1]) && is_digit(s[2]) && is_digit(s[3]) && is_digit(s[4])
    &&& s[5] == '-'
    &&& is_digit(s[6]) && is_digit(s[7])
    &&& s[8] == '-'
    &&& is_digit(s[9]) && is_digit(s[10])
    &&& s[11] == ' '
    &&& is_digit(s[12]) && is_digit(s[13])
    &&& s[14] == ':'
    &&& is_digit(s[15]) && is_digit(s[16])
    &&& s[17] == ']'
    &&& s[18] == ' '
}

/// The minute field of a well-formed timestamp.
pub open spec fn line_minute(s: Seq<char>) -> int {
    digit_val(s[15]) * 10 + digit_val(s[16])
}

/// A shift-start message: `Guard #<id> begins shift` with at least one
/// digit in the identifier.
pub open spec fn guard_msg_ok(m: Seq<char>) -> bool {
    &&& m.len() >= 7
    &&& m.subrange(0, 7) == "Guard #"@
    &&& digit_run_end(m, 7) > 7
    &&& m.skip(digit_run_end(m, 7)) == " begins shift"@
}

/// The numeric value of the identifier in a shift-start message.
pub open spec fn guard_msg_id(m: Seq<char>) -> int {
    digits_val(m.subrange(7, digit_run_end(m, 7)))
}

/// What parsing one (already trimmed) log line yields: the event, or
/// `FormatError` when the line does not match the grammar or a numeric
/// field does not fit.
pub open spec fn parse_event_spec(s: Seq<char>) -> Result<Event, HistoryError> {
    if !timestamp_ok(s) {
        Err(HistoryError::FormatError)
    } else {
        let m = s.skip(19);
        let minute = Minutes(line_minute(s) as u32);
        if m == "falls asleep"@ {
            Ok(Event { kind: EventType::FallsAsleep, minute })
        } else if m == "wakes up"@ {
            Ok(Event { kind: EventType::Wakes, minute })
        } else if guard_msg_ok(m) {
            if guard_msg_id(m) <= u32::MAX {
                Ok(Event { kind: EventType::ShiftStart(Guard(guard_msg_id(m) as u32)), minute })
            } else {
                Err(HistoryError::FormatError)
            }
        } else {
            Err(HistoryError::FormatError)
        }
    }
}

/// Parses one log line of the form `[yyyy-mm-dd hh:mm] <message>`,
/// keeping only the minute of the timestamp.
#[verifier::loop_isolation(false)]
pub fn parse_event(line: &str) -> (r: Result<Event, HistoryError>)
    ensures
        r == parse_event_spec(line@),
{
    let len: usize = line.unicode_len();
    if len < 19 {
        return Err(HistoryError::FormatError);
    }
    let ok = line.get_char(0) == '[' && is_digit_char(line.get_char(1)) && is_digit_char(
        line.get_char(2),
    ) && is_digit_char(line.get_char(3)) && is_digit_char(line.get_char(4)) && line.get_char(5)
        == '-' && is_digit_char(line.get_char(6)) && is_digit_char(line.get_char(7))
        && line.get_char(8) == '-' && is_digit_char(line.get_char(9)) && is_digit_char(
        line.get_char(10),
    ) && line.get_char(11) == ' ' && is_digit_char(line.get_char(12)) && is_digit_char(
        line.get_char(13),
    ) && line.get_char(14) == ':' && is_digit_char(line.get_char(15)) && is_digit_char(
        line.get_char(16),
    ) && line.get_char(17) == ']' && line.get_char(18) == ' ';
    if !ok {
        return Err(HistoryError::FormatError);
    }
    let d_hi: u32 = (line.get_char(15) as u32) - 48;
    let d_lo: u32 = (line.get_char(16) as u32) - 48;
    let minute = Minutes(d_hi * 10 + d_lo);
    proof {
        assert(minute == Minutes(line_minute(line@) as u32));
    }
    let ghost m = line@.skip(19);
    if tail_eq(line, 19, "falls asleep") {
        return Ok(Event { kind: EventType::FallsAsleep, minute });
    }
    if tail_eq(line, 19, "wakes up") {
        return Ok(Event { kind: EventType::Wakes, minute });
    }
    if !prefix_eq_at(line, 19, "Guard #") {
        proof {
            reveal_strlit("Guard #");
            if m.len() >= 7 {
                assert(m.subrange(0, 7) =~= line@.subrange(19int, 26int));
            }
            assert(!guard_msg_ok(m));
        }
        return Err(HistoryError::FormatError);
    }
    proof {
        reveal_strlit("Guard #");
        assert(m.subrange(0, 7) =~= line@.subrange(19int, 26int));
    }
    let mut e: usize = 26;
    while e < len && is_digit_char(line.get_char(e))
        invariant
            26 <= e <= len,
            forall|j: int| 26 <= j < e ==> is_digit(#[trigger] line@[j]),
        decreases len - e,
    {
        e = e + 1;
    }
    proof {
        assert(forall|j: int| 7 <= j < e - 19 ==> m[j] == line@[j + 19]);
        lemma_digit_run_end_at(m, 7, e - 19);
    }
    if e == 26 {
        proof {
            assert(digit_run_end(m, 7) == 7);
            assert(!guard_msg_ok(m));
        }
        return Err(HistoryError::FormatError);
    }
    if !tail_eq(line, e, " begins shift") {
        proof {
            assert(m.skip(digit_run_end(m, 7)) =~= line@.skip(e as int));
            assert(!guard_msg_ok(m));
        }
        return Err(HistoryError::FormatError);
    }
    proof {
        assert(m.skip(digit_run_end(m, 7)) =~= line@.skip(e as int));
        assert(guard_msg_ok(m));
        assert(all_digits(line@.subrange(26, e as int)));
        assert(m.subrange(7, digit_run_end(m, 7)) =~= line@.subrange(26, e as int));
    }
    match parse_decimal(line, 26, e, 0xffff_ffff) {
        Some(v) => {
            proof {
                assert(guard_msg_id(m) == v as int);
            }
            Ok(Event { kind: EventType::ShiftStart(Guard(v as u32)), minute })
        },
        None => {
            proof {
                assert(guard_msg_id(m) > u32::MAX);
            }
            Err(HistoryError::FormatError)
        },
    }
}

/// What parsing a sequence of trimmed, sorted lines yields: the events
/// in order, or the error of the first line that fails.
pub open spec fn parse_all(ls: Seq<Seq<char>>) -> Result<Seq<Event>, HistoryError>
    decreases ls.len(),
{
    if ls.len() == 0 {
        Ok(Seq::empty())
    } else {
        match parse_event_spec(trim_spec(ls[0])) {
            Ok(e) => match parse_all(ls.drop_first()) {
                Ok(rest) => Ok(seq![e] + rest),
                Err(er) => Err(er),
            },
            Err(er) => Err(er),
        }
    }
}

/// What `parse_events` yields on a whole input text: its lines are
/// sorted lexicographically (chronologically, given the fixed-width
/// timestamps), trimmed, and parsed in order.
pub open spec fn parse_events_spec(s: Seq<char>) -> Result<Seq<Event>, HistoryError> {
    parse_all(sort_lines(lines_of(s)))
}

/// The model of a parse result: errors unchanged, vectors by view.
pub open spec fn events_model(r: Result<Vec<Event>, HistoryError>) -> Result<
    Seq<Event>,
    HistoryError,
> {
    match r {
        Ok(v) => Ok(v@),
        Err(e) => Err(e),
    }
}

/// Appends a parsed prefix in front of a parse result.
pub open spec fn parse_prepend(pre: Seq<Event>, r: Result<Seq<Event>, HistoryError>) -> Result<
    Seq<Event>,
    HistoryError,
> {
    match r {
        Ok(t) => Ok(pre + t),
        Err(e) => Err(e),
    }
}

/// Splits the input into lines, sorts them chronologically, trims
/// each, and parses them all, stopping at the first malformed line.
#[verifier::loop_isolation(false)]
pub fn parse_events(s: &str) -> (r: Result<Vec<Event>, HistoryError>)
    ensures
        events_model(r) == parse_events_spec(s@),
{
    let lines = split_lines(s);
    let sorted = sort_lines_vec(&lines);
    let ghost sv = sort_lines(lines_of(s@));
    proof {
        assert(views_of(sorted@) == sv);
    }
    let mut events: Vec<Event> = Vec::new();
    let mut i: usize = 0;
    proof {
        assert(sv.skip(0) =~~= sv);
    }
    while i < sorted.len()
        invariant
            i <= sorted@.len(),
            views_of(sorted@) == sv,
            parse_all(sv) == parse_prepend(events@, parse_all(sv.skip(i as int))),
        decreases sorted@.len() - i,
    {
        let ghost tail = sv.skip(i as int);
        proof {
            assert(tail[0] == sv[i as int]);
            assert(sv[i as int] == sorted@[i as int]@);
            assert(tail.drop_first() =~~= sv.skip(i + 1));
        }
        let line = trim(sorted[i]);
        match parse_event(line) {
            Ok(e) => {
                let ghost old_events = events@;
                events.push(e);
                proof {
                    assert(events@ =~= old_events.push(e));
                    assert(parse_event_spec(trim_spec(tail[0])) == Ok::<Event, HistoryError>(e));
                    assert(parse_all(tail.drop_first()) == parse_all(sv.skip(i + 1)));
                    match parse_all(sv.skip(i + 1)) {
                        Ok(rest) => {
                            assert(parse_all(tail) == Ok::<Seq<Event>, HistoryError>(
                                seq![e] + rest,
                            ));
                            assert(old_events + (seq![e] + rest) =~= old_events.push(e) + rest);
                        },
                        Err(er) => {
                            assert(parse_all(tail) == Err::<Seq<Event>, HistoryError>(er));
                        },
                    }
                }
            },
            Err(er) => {
                return Err(er);
            },
        }
        i = i + 1;
    }
    proof {
        assert(sv.skip(sv.len() as int) =~~= Seq::<Seq<char>>::empty());
        assert(events@ + Seq::<Event>::empty() =~= events@);
    }
    Ok(events)
}



/// A well-formed history: someone can be recorded asleep only while a
/// guard is on duty.
pub open spec fn wf_history(h: HistoryModel) -> bool {
    h.asleep_since is Some ==> h.current_guard is Some
}

proof fn lemma_run_wf(h: HistoryModel, events: Seq<Event>)
    requires
        wf_history(h),
    ensures
        run_from(h, events) matches Ok(m) ==> wf_history(m),
    decreases events.len(),
{
    if events.len() > 0 {
        match step_spec(h, events[0]) {
            Ok(h2) => {
                lemma_run_wf(h2, events.drop_first());
            },
            Err(_) => {},
        }
    }
}

/// Every state reached by a successful replay is well-formed: a guard
/// is on duty whenever someone is recorded asleep.
pub proof fn lemma_replay_well_formed(events: Seq<Event>)
    ensures
        run_spec(events) matches Ok(h) ==> wf_history(h),
{
    lemma_run_wf(initial_model(), events);
}

/// The sum of all recorded totals, in minutes.
pub open spec fn sum_totals(s: Seq<(Guard, Minutes)>) -> int
    decreases s.len(),
{
    if s.len() == 0 {
        0
    } else {
        sum_totals(s.drop_first()) + s[0].1.0
    }
}

/// The minutes a successful transition adds: the length of the sleep
/// interval closed by a wake, zero for every other event.
pub open spec fn step_elapsed(h: HistoryModel, e: Event) -> int {
    if e.kind is Wakes && step_spec(h, e) is Ok {
        match h.asleep_since {
            Some(b) => e.minute.0 - b.0,
            None => 0,
        }
    } else {
        0
    }
}

/// The sum of `(wake minute - sleep start)` over all wake transitions
/// of a successful replay prefix.
pub open spec fn wake_sum(h: HistoryModel, events: Seq<Event>) -> int
    decreases events.len(),
{
    if events.len() == 0 {
        0
    } else {
        match step_spec(h, events[0]) {
            Ok(h2) => step_elapsed(h, events[0]) + wake_sum(h2, events.drop_first()),
            Err(_) => 0,
        }
    }
}

/// The recorded total for `g`, zero if absent.
pub open spec fn total_at(s: Seq<(Guard, Minutes)>, g: Guard) -> int {
    match totals_lookup(s, g) {
        Some(t) => t.0 as int,
        None => 0,
    }
}

proof fn lemma_sum_set_total(s: Seq<(Guard, Minutes)>, g: Guard, v: Minutes)
    ensures
        sum_totals(set_total(s, g, v)) == sum_totals(s) + v.0 - total_at(s, g),
    decreases s.len(),
{
    if s.len() == 0 {
        assert(set_total(s, g, v) == seq![(g, v)]);
        assert(sum_totals(seq![(g, v)].drop_first()) == 0) by {
            assert(seq![(g, v)].drop_first() =~= Seq::<(Guard, Minutes)>::empty());
        }
    } else if s[0].0 == g {
        let u = seq![(g, v)] + s.drop_first();
        assert(u.drop_first() =~= s.drop_first());
        assert(u[0] == (g, v));
    } else {
        let u = seq![s[0]] + set_total(s.drop_first(), g, v);
        assert(u.drop_first() =~= set_total(s.drop_first(), g, v));
        assert(u[0] == s[0]);
        lemma_sum_set_total(s.drop_first(), g, v);
    }
}

proof fn lemma_step_sum(h: HistoryModel, e: Event)
    ensures
        step_spec(h, e) matches Ok(h2) ==> sum_totals(h2.sleeps) == sum_totals(h.sleeps)
            + step_elapsed(h, e),
{
    match step_spec(h, e) {
        Ok(h2) => {
            match e.kind {
                EventType::Wakes => {
                    let g = h.current_guard->0;
                    let v = Minutes(
                        (total_at(h.sleeps, g) + step_elapsed(h, e)) as u32,
                    );
                    lemma_sum_set_total(h.sleeps, g, v);
                },
                _ => {},
            }
        },
        Err(_) => {},
    }
}

proof fn lemma_run_sum(h: HistoryModel, events: Seq<Event>)
    ensures
        run_from(h, events) matches Ok(m) ==> sum_totals(m.sleeps) == sum_totals(h.sleeps)
            + wake_sum(h, events),
    decreases events.len(),
{
    if events.len() > 0 {
        match step_spec(h, events[0]) {
            Ok(h2) => {
                lemma_step_sum(h, events[0]);
                lemma_run_sum(h2, events.drop_first());
            },
            Err(_) => {},
        }
    }
}

/// Total sleep accounting: after a successful replay, the sum over all
/// guards of their recorded sleep totals equals the sum, over all wake
/// transitions, of the wake minute minus the minute the sleep began.
pub proof fn lemma_sleep_totals_accounting(events: Seq<Event>)
    ensures
        run_spec(events) matches Ok(m) ==> sum_totals(m.sleeps) == wake_sum(
            initial_model(),
            events,
        ),
{
    lemma_run_sum(initial_model(), events);
}

/// Whether this transition is a wake of guard `g` whose closed sleep
/// interval covers minute `m` (half-open: start inclusive, wake minute
/// exclusive).
pub open spec fn step_covers(h: HistoryModel, e: Event, g: Guard, m: Minutes) -> bool {
    &&& e.kind is Wakes
    &&& step_spec(h, e) is Ok
    &&& h.current_guard == Some(g)
    &&& match h.asleep_since {
        Some(b) => b.0 <= m.0 < e.minute.0,
        None => false,
    }
}

/// Whether some recorded sleep interval of guard `g` during the replay
/// covers minute `m`.
pub open spec fn covered(h: HistoryModel, events: Seq<Event>, g: Guard, m: Minutes) -> bool
    decreases events.len(),
{
    if events.len() == 0 {
        false
    } else {
        match step_spec(h, events[0]) {
            Ok(h2) => step_covers(h, events[0], g, m) || covered(h2, events.drop_first(), g, m),
            Err(_) => false,
        }
    }
}

proof fn lemma_bump_minute_count(
    s: Seq<(Guard, Minutes, usize)>,
    g0: Guard,
    m0: Minutes,
    g: Guard,
    m: Minutes,
)
    ensures
        match bump_minute(s, g0, m0) {
            Ok(t) => count_at(t, g, m) == count_at(s, g, m) + (if g == g0 && m == m0 {
                1int
            } else {
                0int
            }),
            Err(_) => true,
        },
    decreases s.len(),
{
    if s.len() == 0 {
        match bump_minute(s, g0, m0) {
            Ok(t) => {
                assert(t == seq![(g0, m0, 1usize)]);
                assert(t.drop_first() =~= Seq::<(Guard, Minutes, usize)>::empty());
                assert(counts_lookup(Seq::<(Guard, Minutes, usize)>::empty(), g, m) is None);
                assert(count_at(s, g, m) == 0);
                if g == g0 && m == m0 {
                    assert(count_at(t, g, m) == 1);
                } else {
                    assert(count_at(t, g, m) == 0);
                }
            },
            Err(_) => {},
        }
    } else if s[0].0 == g0 && s[0].1 == m0 {
        if s[0].2 != usize::MAX {
            let t = seq![(g0, m0, (s[0].2 + 1) as usize)] + s.drop_first();
            assert(t.drop_first() =~= s.drop_first());
            assert(t[0] == (g0, m0, (s[0].2 + 1) as usize));
            if g == g0 && m == m0 {
                assert(count_at(t, g, m) == s[0].2 + 1);
                assert(count_at(s, g, m) == s[0].2 as int);
            } else {
                assert(counts_lookup(t, g, m) == counts_lookup(s.drop_first(), g, m));
                assert(counts_lookup(s, g, m) == counts_lookup(s.drop_first(), g, m));
            }
        }
    } else {
        lemma_bump_minute_count(s.drop_first(), g0, m0, g, m);
        match bump_minute(s.drop_first(), g0, m0) {
            Ok(t2) => {
                let t = seq![s[0]] + t2;
                assert(t.drop_first() =~= t2);
                assert(t[0] == s[0]);
                assert(bump_minute(s, g0, m0) == Ok::<Seq<(Guard, Minutes, usize)>, HistoryError>(
                    t,
                ));
                if s[0].0 == g && s[0].1 == m {
                    assert(count_at(t, g, m) == s[0].2 as int);
                    assert(count_at(s, g, m) == s[0].2 as int);
                    assert(!(g == g0 && m == m0));
                } else {
                    assert(count_at(t, g, m) == count_at(t2, g, m));
                    assert(count_at(s, g, m) == count_at(s.drop_first(), g, m));
                }
            },
            Err(_) => {},
        }
    }
}

proof fn lemma_bump_range_count(
    s: Seq<(Guard, Minutes, usize)>,
    g0: Guard,
    from: u32,
    to: u32,
    g: Guard,
    m: Minutes,
)
    ensures
        match bump_range(s, g0, from, to) {
            Ok(t) => count_at(t, g, m) == count_at(s, g, m) + (if g == g0 && from <= m.0 < to {
                1int
            } else {
                0int
            }),
            Err(_) => true,
        },
    decreases to - from,
{
    if from < to {
        lemma_bump_minute_count(s, g0, Minutes(from), g, m);
        match bump_minute(s, g0, Minutes(from)) {
            Ok(t1) => {
                lemma_bump_range_count(t1, g0, (from + 1) as u32, to, g, m);
                assert(m == Minutes(from) <==> m.0 == from);
            },
            Err(_) => {},
        }
    }
}

proof fn lemma_step_count(h: HistoryModel, e: Event, g: Guard, m: Minutes)
    ensures
        step_spec(h, e) matches Ok(h2) ==> (count_at(h2.asleep_during_minute, g, m) > 0
            <==> count_at(h.asleep_during_minute, g, m) > 0 || step_covers(h, e, g, m)),
{
    match step_spec(h, e) {
        Ok(h2) => {
            match e.kind {
                EventType::Wakes => {
                    let b = h.asleep_since->0;
                    let g0 = h.current_guard->0;
                    lemma_bump_range_count(
                        h.asleep_during_minute,
                        g0,
                        b.0,
                        e.minute.0,
                        g,
                        m,
                    );
                },
                _ => {},
            }
        },
        Err(_) => {},
    }
}

proof fn lemma_run_covered(h: HistoryModel, events: Seq<Event>, g: Guard, m: Minutes)
    ensures
        run_from(h, events) matches Ok(m2) ==> (count_at(m2.asleep_during_minute, g, m) > 0
            <==> count_at(h.asleep_during_minute, g, m) > 0 || covered(h, events, g, m)),
    decreases events.len(),
{
    if events.len() > 0 {
        match step_spec(h, events[0]) {
            Ok(h2) => {
                lemma_step_count(h, events[0], g, m);
                lemma_run_covered(h2, events.drop_first(), g, m);
            },
            Err(_) => {},
        }
    }
}

/// Per-minute accounting: after a successful replay, the count
/// recorded for guard `g` at minute `m` is positive exactly when some
/// recorded sleep interval of `g` covered minute `m`.
pub proof fn lemma_counts_iff_covered(events: Seq<Event>, g: Guard, m: Minutes)
    ensures
        run_spec(events) matches Ok(h) ==> (count_at(h.asleep_during_minute, g, m) > 0
            <==> covered(initial_model(), events, g, m)),
{
    lemma_run_covered(initial_model(), events, g, m);
}

} // verus!
