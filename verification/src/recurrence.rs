use vstd::prelude::*;
use vstd::string::StringExecFns;
use chrono::TimeZone;
use rrule::{RRule, Unvalidated};

use crate::error::{fails_with, AppError, ErrorKind};
use crate::model::Event;
use crate::order::{sorted_order, stable_order, SortKey};
use crate::text::{chars_of, concat, indexed, indexed_path, trim, trimmed};
use crate::time::{
    before, horizon_ok, is_before, moment_ok, rfc3339_reading, timezone_exists, tz_known, Moment, PlanningHorizon,
    MAX_SECONDS, MIN_SECONDS,
};
use crate::validation::{parse_timestamp, timestamp_fault, Fault, first_of, reports};

verus! {

/// The most occurrences one recurring event may expand to.
pub const RECURRENCE_LIMIT: u16 = 65535;

/// A busy span of an event, in UTC.
#[derive(Debug)]
pub struct BusyInterval {
    pub event_id: String,
    pub start: Moment,
    pub end: Moment,
}

impl Clone for BusyInterval {
    fn clone(&self) -> (r: Self)
        ensures
            r == *self,
    {
        BusyInterval { event_id: self.event_id.clone(), start: self.start, end: self.end }
    }
}

impl BusyInterval {
    /// The interval and the span from `start` to `end` share an instant.
    pub open spec fn overlaps_spec(&self, start: Moment, end: Moment) -> bool {
        before(self.start, end) && before(start, self.end)
    }

    pub fn overlaps(&self, start: Moment, end: Moment) -> (r: bool)
        ensures
            r == self.overlaps_spec(start, end),
    {
        is_before(&self.start, &end) && is_before(&start, &self.end)
    }
}

/// A length of time as chrono's `TimeDelta` shows it: whole seconds and a
/// fraction of the same sign.
pub open spec fn span_nanos(span: (i64, i32)) -> int {
    span.0 * 1_000_000_000 + span.1
}

/// Nanoseconds since the epoch of an instant (a leap second counts as the
/// second after it).
pub open spec fn instant_nanos(seconds: int, nanos: int) -> int {
    seconds * 1_000_000_000 + nanos
}

/// What `DateTime::signed_duration_since` gives for two instants, as
/// `(num_seconds, subsec_nanos)`.
pub uninterp spec fn chrono_since(a_seconds: int, a_nanos: int, b_seconds: int, b_nanos: int) -> (i64, i32);

/// `a - b` on `DateTime<Utc>` with chrono. Claims that the result is
/// `chrono_since` of the two instants, that its fraction is below a second
/// and of the sign of the whole, and, outside leap seconds, that it is the
/// exact difference of the instants.
#[verifier::external_body]
pub(crate) fn duration_since(a: &Moment, b: &Moment) -> (r: (i64, i32))
    requires
        moment_ok(*a),
        moment_ok(*b),
    ensures
        r == chrono_since(a.seconds as int, a.nanos as int, b.seconds as int, b.nanos as int),
        -1_000_000_000 < r.1 < 1_000_000_000,
        (r.0 >= 0 && r.1 >= 0) || (r.0 <= 0 && r.1 <= 0),
        -(MAX_SECONDS - MIN_SECONDS + 2) <= r.0 <= MAX_SECONDS - MIN_SECONDS + 2,
        a.nanos < 1_000_000_000 && b.nanos < 1_000_000_000 ==> span_nanos(r) == instant_nanos(
            a.seconds as int,
            a.nanos as int,
        ) - instant_nanos(b.seconds as int, b.nanos as int),
{
    match (chrono::DateTime::from_timestamp(a.seconds, a.nanos), chrono::DateTime::from_timestamp(b.seconds, b.nanos)) {
        (Some(a), Some(b)) => {
            let d = a.signed_duration_since(b);
            (d.num_seconds(), d.subsec_nanos())
        },
        _ => (0, 0),
    }
}

/// What `DateTime::checked_add_signed` gives for an instant and a
/// normalized length of time.
pub uninterp spec fn chrono_add(seconds: int, nanos: int, span_seconds: int, span_nanos: int) -> Option<(i64, u32)>;

/// What `DateTime::checked_sub_signed` gives for an instant and a
/// normalized length of time.
pub uninterp spec fn chrono_sub(seconds: int, nanos: int, span_seconds: int, span_nanos: int) -> Option<(i64, u32)>;

/// The instant `nanos` nanoseconds after the epoch, if chrono's calendar
/// holds it.
pub open spec fn instant_at(total: int) -> Option<(i64, u32)> {
    let seconds = total / 1_000_000_000;
    if MIN_SECONDS <= seconds <= MAX_SECONDS {
        Some((seconds as i64, (total % 1_000_000_000) as u32))
    } else {
        None
    }
}

/// `DateTime<Utc>::checked_add_signed` with the span `span_seconds` seconds
/// plus `span_nanos` nanoseconds (`TimeDelta::new`). Claims that the result
/// is `chrono_add` of its arguments, that an instant it gives lies in
/// chrono's range, and, outside leap seconds, that it is the exact sum, or
/// nothing where chrono's calendar ends.
#[verifier::external_body]
pub(crate) fn checked_add(m: &Moment, span_seconds: i64, span_nanos: u32) -> (r: Option<(i64, u32)>)
    requires
        moment_ok(*m),
        span_nanos < 1_000_000_000,
        -(MAX_SECONDS - MIN_SECONDS + 3) <= span_seconds <= MAX_SECONDS - MIN_SECONDS + 3,
    ensures
        r == chrono_add(m.seconds as int, m.nanos as int, span_seconds as int, span_nanos as int),
        r matches Some(t) ==> MIN_SECONDS <= t.0 <= MAX_SECONDS && t.1 < 2_000_000_000,
        m.nanos < 1_000_000_000 ==> r == instant_at(
            instant_nanos(m.seconds as int, m.nanos as int) + instant_nanos(span_seconds as int, span_nanos as int),
        ),
{
    match (chrono::DateTime::from_timestamp(m.seconds, m.nanos), chrono::TimeDelta::new(span_seconds, span_nanos)) {
        (Some(at), Some(span)) => match at.checked_add_signed(span) {
            Some(t) => Some((t.timestamp(), t.timestamp_subsec_nanos())),
            None => None,
        },
        _ => None,
    }
}

/// `DateTime<Utc>::checked_sub_signed` with the span `span_seconds` seconds
/// plus `span_nanos` nanoseconds (`TimeDelta::new`). Claims that the result
/// is `chrono_sub` of its arguments, that an instant it gives lies in
/// chrono's range, and, outside leap seconds, that it is the exact
/// difference, or nothing where chrono's calendar ends.
#[verifier::external_body]
pub(crate) fn checked_sub(m: &Moment, span_seconds: i64, span_nanos: u32) -> (r: Option<(i64, u32)>)
    requires
        moment_ok(*m),
        span_nanos < 1_000_000_000,
        -(MAX_SECONDS - MIN_SECONDS + 3) <= span_seconds <= MAX_SECONDS - MIN_SECONDS + 3,
    ensures
        r == chrono_sub(m.seconds as int, m.nanos as int, span_seconds as int, span_nanos as int),
        r matches Some(t) ==> MIN_SECONDS <= t.0 <= MAX_SECONDS && t.1 < 2_000_000_000,
        m.nanos < 1_000_000_000 ==> r == instant_at(
            instant_nanos(m.seconds as int, m.nanos as int) - instant_nanos(span_seconds as int, span_nanos as int),
        ),
{
    match (chrono::DateTime::from_timestamp(m.seconds, m.nanos), chrono::TimeDelta::new(span_seconds, span_nanos)) {
        (Some(at), Some(span)) => match at.checked_sub_signed(span) {
            Some(t) => Some((t.timestamp(), t.timestamp_subsec_nanos())),
            None => None,
        },
        _ => None,
    }
}

/// What rrule gives for a rule text whose first occurrence is the instant
/// `start` in a zone, restricted to the occurrences from `after` to `before`
/// and expanded up to `limit` of them: the occurrences as UTC instants and
/// whether the expansion was cut short, or the text of rrule's error.
pub uninterp spec fn rule_occurrences(
    text: Seq<char>,
    tz: Seq<char>,
    start_seconds: int,
    start_nanos: int,
    after_seconds: int,
    after_nanos: int,
    before_seconds: int,
    before_nanos: int,
    limit: int,
) -> Result<(Seq<(i64, u32)>, bool), Seq<char>>;

/// Expands a recurrence rule with rrule: `RRule::<Unvalidated>::from_str`,
/// `RRule::build` from the start instant shown in the zone, then
/// `RRuleSet::after`, `RRuleSet::before` and `RRuleSet::all(limit)`. Claims
/// that the result is `rule_occurrences` of its arguments and, as rrule's
/// source shows, that no more than `limit` occurrences come back, that
/// reaching the limit counts as cut short, and that each occurrence is an
/// instant in chrono's range.
#[verifier::external_body]
fn rrule_occurrences(text: &str, tz: &str, start: &Moment, after: (i64, u32), before: (i64, u32), limit: u16) -> (r:
    Result<(Vec<(i64, u32)>, bool), String>)
    requires
        tz_known(tz@),
        moment_ok(*start),
        MIN_SECONDS <= after.0 <= MAX_SECONDS,
        MIN_SECONDS <= before.0 <= MAX_SECONDS,
    ensures
        match r {
            Ok(found) => rule_occurrences(
                text@,
                tz@,
                start.seconds as int,
                start.nanos as int,
                after.0 as int,
                after.1 as int,
                before.0 as int,
                before.1 as int,
                limit as int,
            ) == Ok::<(Seq<(i64, u32)>, bool), Seq<char>>((found.0@, found.1)),
            Err(message) => rule_occurrences(
                text@,
                tz@,
                start.seconds as int,
                start.nanos as int,
                after.0 as int,
                after.1 as int,
                before.0 as int,
                before.1 as int,
                limit as int,
            ) == Err::<(Seq<(i64, u32)>, bool), Seq<char>>(message@),
        },
        r matches Ok(found) ==> found.0.len() <= limit && (found.0.len() == limit ==> found.1) && forall|i: int|
            0 <= i < found.0.len() ==> MIN_SECONDS <= #[trigger] found.0@[i].0 <= MAX_SECONDS && found.0@[i].1
                < 2_000_000_000,
{
    let zone = rrule::Tz::from(tz.parse::<chrono_tz::Tz>().unwrap_or(chrono_tz::UTC));
    let at = |s: i64, n: u32| chrono::DateTime::from_timestamp(s, n).unwrap_or_default().with_timezone(&zone);
    let rule = text.parse::<RRule<Unvalidated>>().map_err(|e| e.to_string())?;
    let set = rule.build(at(start.seconds, start.nanos)).map_err(|e| e.to_string())?;
    let found = set.after(at(after.0, after.1)).before(at(before.0, before.1)).all(limit);
    Ok((found.dates.iter().map(|d| (d.timestamp(), d.timestamp_subsec_nanos())).collect(), found.limited))
}

/// The rule text handed to rrule: trimmed, without an `RRULE:` prefix.
pub open spec fn rule_text(rule: Seq<char>) -> Seq<char> {
    let t = trimmed(rule);
    if t.len() >= 6 && t.take(6) == "RRULE:"@ {
        t.skip(6)
    } else {
        t
    }
}

fn strip_rule_prefix(rule: &str) -> (r: String)
    ensures
        r@ == rule_text(rule@),
{
    let t = trim(rule);
    let cs = chars_of(t.as_str());
    proof {
        reveal_strlit("RRULE:");
    }
    if cs.len() >= 6 && cs[0] == 'R' && cs[1] == 'R' && cs[2] == 'U' && cs[3] == 'L' && cs[4] == 'E'
        && cs[5] == ':' {
        assert(t@.take(6) =~= "RRULE:"@);
        let mut r = String::new();
        let mut i: usize = 6;
        while i < cs.len()
            invariant
                cs@ == t@,
                6 <= i <= cs.len(),
                r@ == t@.subrange(6, i as int),
            decreases cs.len() - i,
        {
            crate::text::push_char(&mut r, cs[i]);
            assert(t@.subrange(6, i + 1) == t@.subrange(6, i as int).push(t@[i as int]));
            i += 1;
        }
        assert(t@.skip(6) == t@.subrange(6, t@.len() as int));
        r
    } else {
        proof {
            if t@.len() >= 6 && t@.take(6) == "RRULE:"@ {
                assert(t@.take(6)[0] == 'R');
                assert(t@.take(6)[1] == 'R');
                assert(t@.take(6)[2] == 'U');
                assert(t@.take(6)[3] == 'L');
                assert(t@.take(6)[4] == 'E');
                assert(t@.take(6)[5] == ':');
            }
        }
        t
    }
}

/// The UTC instant of a reading.
pub open spec fn utc_moment(t: (i64, u32, i32)) -> Moment {
    Moment { seconds: t.0, nanos: t.1, offset: 0 }
}

/// The interval, in UTC, that an event without a rule occupies.
pub open spec fn single_span(event: Event) -> (Moment, Moment) {
    (utc_moment(rfc3339_reading(event.start_at@)->Some_0), utc_moment(rfc3339_reading(event.end_at@)->Some_0))
}

/// Adds the interval when it overlaps the horizon.
pub fn push_if_overlapping(
    intervals: &mut Vec<BusyInterval>,
    event: &Event,
    start: Moment,
    end: Moment,
    horizon: &PlanningHorizon,
)
    ensures
        if before(start, horizon.end) && before(horizon.start, end) {
            final(intervals)@ == old(intervals)@.push(
                BusyInterval { event_id: event.id, start, end },
            )
        } else {
            final(intervals)@ == old(intervals)@
        },
{
    if is_before(&start, &horizon.end) && is_before(&horizon.start, &end) {
        intervals.push(BusyInterval { event_id: event.id.clone(), start, end });
    }
}

/// The busy intervals that the occurrences of a recurring event give: each
/// occurrence, lasting the event's length, kept when it overlaps the
/// horizon. The occurrences are those rrule expanded.
pub fn intervals_for_occurrences(
    event: &Event,
    occurrences: &Vec<(i64, u32)>,
    span_seconds: i64,
    span_nanos: u32,
    horizon: &PlanningHorizon,
) -> (r: Result<Vec<BusyInterval>, AppError>)
    requires
        span_nanos < 1_000_000_000,
        -(MAX_SECONDS - MIN_SECONDS + 3) <= span_seconds <= MAX_SECONDS - MIN_SECONDS + 3,
        forall|i: int|
            0 <= i < occurrences.len() ==> MIN_SECONDS <= #[trigger] occurrences@[i].0 <= MAX_SECONDS
                && occurrences@[i].1 < 2_000_000_000,
    ensures
        r is Err <==> exists|i: int|
            0 <= i < occurrences.len() && #[trigger] chrono_add(
                occurrences@[i].0 as int,
                occurrences@[i].1 as int,
                span_seconds as int,
                span_nanos as int,
            ) is None,
        r is Err ==> fails_with(r, ErrorKind::Internal, Seq::empty(), Seq::empty(), "recurrence occurrence overflowed"@),
        r matches Ok(v) ==> v@ == occurrence_intervals(event, occurrences@, span_seconds as int, span_nanos as int, *horizon),
{
    let mut out: Vec<BusyInterval> = Vec::new();
    let mut i: usize = 0;
    while i < occurrences.len()
        invariant
            i <= occurrences.len(),
            span_nanos < 1_000_000_000,
            -(MAX_SECONDS - MIN_SECONDS + 3) <= span_seconds <= MAX_SECONDS - MIN_SECONDS + 3,
            forall|i: int|
                0 <= i < occurrences.len() ==> MIN_SECONDS <= #[trigger] occurrences@[i].0 <= MAX_SECONDS
                    && occurrences@[i].1 < 2_000_000_000,
            forall|j: int| 0 <= j < i ==> #[trigger] chrono_add(
                occurrences@[j].0 as int,
                occurrences@[j].1 as int,
                span_seconds as int,
                span_nanos as int,
            ) is Some,
            out@ == occurrence_intervals(event, occurrences@.take(i as int), span_seconds as int, span_nanos as int, *horizon),
        decreases occurrences.len() - i,
    {
        let (seconds, nanos) = occurrences[i];
        let start = Moment { seconds, nanos, offset: 0 };
        let end = match checked_add(&start, span_seconds, span_nanos) {
            Some((s, n)) => Moment { seconds: s, nanos: n, offset: 0 },
            None => {
                return Err(AppError::internal("recurrence occurrence overflowed"));
            },
        };
        push_if_overlapping(&mut out, event, start, end, horizon);
        proof {
            assert(occurrences@.take(i + 1).drop_last() == occurrences@.take(i as int));
        }
        i += 1;
    }
    assert(occurrences@.take(occurrences.len() as int) == occurrences@);
    Ok(out)
}

/// The intervals that a list of occurrences gives, in order.
pub open spec fn occurrence_intervals(
    event: &Event,
    occurrences: Seq<(i64, u32)>,
    span_seconds: int,
    span_nanos: int,
    horizon: PlanningHorizon,
) -> Seq<BusyInterval>
    decreases occurrences.len(),
{
    if occurrences.len() == 0 {
        Seq::empty()
    } else {
        let rest = occurrence_intervals(event, occurrences.drop_last(), span_seconds, span_nanos, horizon);
        let o = occurrences.last();
        let start = Moment { seconds: o.0, nanos: o.1, offset: 0 };
        match chrono_add(o.0 as int, o.1 as int, span_seconds, span_nanos) {
            Some(t) => {
                let end = Moment { seconds: t.0, nanos: t.1, offset: 0 };
                if before(start, horizon.end) && before(horizon.start, end) {
                    rest.push(BusyInterval { event_id: event.id, start, end })
                } else {
                    rest
                }
            },
            None => rest,
        }
    }
}


/// A length of time in chrono's `(num_seconds, subsec_nanos)` form, made
/// into whole seconds and a non-negative fraction.
pub open spec fn normalized(span: (i64, i32)) -> (int, int) {
    if span.1 < 0 {
        (span.0 - 1, span.1 + 1_000_000_000)
    } else {
        (span.0 as int, span.1 as int)
    }
}

/// How long an event lasts, as chrono measures end minus start.
pub open spec fn event_span(event: Event) -> (int, int) {
    let (start, end) = single_span(event);
    normalized(chrono_since(end.seconds as int, end.nanos as int, start.seconds as int, start.nanos as int))
}

/// The order of busy intervals: by start, then by event id.
pub open spec fn interval_lt(a: BusyInterval, b: BusyInterval) -> bool {
    ||| a.start.seconds < b.start.seconds
    ||| a.start.seconds == b.start.seconds && a.start.nanos < b.start.nanos
    ||| a.start.seconds == b.start.seconds && a.start.nanos == b.start.nanos && crate::text::text_lt(
        a.event_id@,
        b.event_id@,
    )
}

pub open spec fn interval_same_key(a: BusyInterval, b: BusyInterval) -> bool {
    a.start.seconds == b.start.seconds && a.start.nanos == b.start.nanos && a.event_id@ == b.event_id@
}

/// `v` is `c` sorted stably by start and event id.
pub open spec fn stably_sorted_from(v: Seq<BusyInterval>, c: Seq<BusyInterval>) -> bool {
    exists|order: Seq<usize>|
        {
            &&& order.len() == c.len()
            &&& v.len() == c.len()
            &&& forall|i: int| 0 <= i < order.len() ==> #[trigger] order[i] < c.len()
            &&& forall|i: int, j: int|
                0 <= i < order.len() && 0 <= j < order.len() && i != j ==> order[i] != order[j]
            &&& forall|i: int, j: int|
                0 <= i < j < order.len() ==> (interval_lt(c[#[trigger] order[i] as int], c[#[trigger] order[j] as int])
                    || (interval_same_key(c[order[i] as int], c[order[j] as int]) && order[i] < order[j]))
            &&& forall|i: int| 0 <= i < v.len() ==> #[trigger] v[i] == c[order[i] as int]
        }
}

/// The order of a stable sort of `c` by start and event id, on positions.
pub open spec fn interval_before(c: Seq<BusyInterval>) -> spec_fn(int, int) -> bool {
    |x: int, y: int|
        interval_lt(c[x], c[y]) || (interval_same_key(c[x], c[y]) && x < y)
}

/// A stable sort has one outcome: two sequences that are both `c` sorted
/// stably by start and event id are the same.
pub proof fn lemma_stable_sort_unique(v1: Seq<BusyInterval>, v2: Seq<BusyInterval>, c: Seq<BusyInterval>)
    requires
        stably_sorted_from(v1, c),
        stably_sorted_from(v2, c),
    ensures
        v1 == v2,
{
    let before = interval_before(c);
    let o1 = choose|order: Seq<usize>|
        {
            &&& order.len() == c.len()
            &&& v1.len() == c.len()
            &&& forall|i: int| 0 <= i < order.len() ==> #[trigger] order[i] < c.len()
            &&& forall|i: int, j: int|
                0 <= i < order.len() && 0 <= j < order.len() && i != j ==> order[i] != order[j]
            &&& forall|i: int, j: int|
                0 <= i < j < order.len() ==> (interval_lt(c[#[trigger] order[i] as int], c[#[trigger] order[j] as int])
                    || (interval_same_key(c[order[i] as int], c[order[j] as int]) && order[i] < order[j]))
            &&& forall|i: int| 0 <= i < v1.len() ==> #[trigger] v1[i] == c[order[i] as int]
        };
    let o2 = choose|order: Seq<usize>|
        {
            &&& order.len() == c.len()
            &&& v2.len() == c.len()
            &&& forall|i: int| 0 <= i < order.len() ==> #[trigger] order[i] < c.len()
            &&& forall|i: int, j: int|
                0 <= i < order.len() && 0 <= j < order.len() && i != j ==> order[i] != order[j]
            &&& forall|i: int, j: int|
                0 <= i < j < order.len() ==> (interval_lt(c[#[trigger] order[i] as int], c[#[trigger] order[j] as int])
                    || (interval_same_key(c[order[i] as int], c[order[j] as int]) && order[i] < order[j]))
            &&& forall|i: int| 0 <= i < v2.len() ==> #[trigger] v2[i] == c[order[i] as int]
        };
    assert forall|x: int, y: int| #[trigger] before(x, y) implies !before(y, x) by {
        crate::text::lemma_text_lt_irreflexive(c[x].event_id@);
        crate::text::lemma_text_lt_irreflexive(c[y].event_id@);
        if crate::text::text_lt(c[x].event_id@, c[y].event_id@) && crate::text::text_lt(c[y].event_id@, c[x].event_id@) {
            crate::text::lemma_text_lt_transitive(c[x].event_id@, c[y].event_id@, c[x].event_id@);
        }
    }
    assert(crate::order::ordered_by(o1, before));
    assert(crate::order::ordered_by(o2, before));
    crate::order::lemma_ordered_positions_unique(o1, o2, c.len() as int, before);
    assert(v1 =~= v2);
}

/// Expanding the same events over the same horizon gives one busy list.
pub proof fn lemma_expansion_unique(v1: Seq<BusyInterval>, v2: Seq<BusyInterval>, events: Seq<Event>, horizon: PlanningHorizon)
    requires
        expansion_of(v1, events, horizon),
        expansion_of(v2, events, horizon),
    ensures
        v1 == v2,
{
    if let Ok(c) = expand_upto(events, horizon, events.len() as int) {
        lemma_stable_sort_unique(v1, v2, c);
    }
}

/// The checks `expand_events` makes of an event before its rule: a known
/// zone, then readable start and end.
pub open spec fn event_zone_fault(event: Event, path: Seq<char>) -> Option<Fault> {
    if !tz_known(event.timezone@) {
        Some(
            Fault {
                kind: ErrorKind::Recurrence,
                code: "invalid_timezone"@,
                path: path + ".timezone"@,
                message: "event timezone must be an IANA name"@,
            },
        )
    } else {
        first_of(
            timestamp_fault(event.start_at@, path + ".startAt"@),
            timestamp_fault(event.end_at@, path + ".endAt"@),
        )
    }
}

/// Sorts busy intervals stably by start and event id.
fn sort_intervals(intervals: Vec<BusyInterval>) -> (r: Vec<BusyInterval>)
    ensures
        stably_sorted_from(r@, intervals@),
{
    let mut keys: Vec<SortKey> = Vec::new();
    let mut i: usize = 0;
    while i < intervals.len()
        invariant
            i <= intervals.len(),
            keys.len() == i,
            forall|j: int|
                0 <= j < i ==> #[trigger] keys@[j].first == intervals@[j].start.seconds && keys@[j].second
                    == intervals@[j].start.nanos && keys@[j].text_a@ == intervals@[j].event_id@
                    && keys@[j].text_b@.len() == 0,
        decreases intervals.len() - i,
    {
        let b = &intervals[i];
        keys.push(
            SortKey {
                first: b.start.seconds,
                second: b.start.nanos as i64,
                text_a: chars_of(b.event_id.as_str()),
                text_b: Vec::new(),
            },
        );
        i += 1;
    }
    let order = sorted_order(&keys);
    let mut out: Vec<BusyInterval> = Vec::new();
    let mut k: usize = 0;
    while k < order.len()
        invariant
            stable_order(keys@, order@),
            keys.len() == intervals.len(),
            k <= order.len(),
            out.len() == k,
            forall|j: int| 0 <= j < k ==> #[trigger] out@[j] == intervals@[order@[j] as int],
        decreases order.len() - k,
    {
        out.push(intervals[order[k]].clone());
        k += 1;
    }
    proof {
        let c = intervals@;
        let o = order@;
        assert forall|a: int, b: int| 0 <= a < b < o.len() implies (interval_lt(c[#[trigger] o[a] as int], c[#[trigger] o[b] as int])
            || (interval_same_key(c[o[a] as int], c[o[b] as int]) && o[a] < o[b])) by {
            let x = o[a] as int;
            let y = o[b] as int;
            assert(crate::order::sorts_before(keys@, x, y));
            assert(keys@[x].text_b@.len() == 0 && keys@[y].text_b@.len() == 0);
            assert(!crate::text::text_lt(keys@[x].text_b@, keys@[y].text_b@));
        }
        assert(stably_sorted_from(out@, intervals@));
    }
    out
}

/// Some occurrence's end, the event's length later, lies beyond chrono's
/// calendar.
pub open spec fn occurrences_overflow(dates: Seq<(i64, u32)>, span_seconds: int, span_nanos: int) -> bool {
    exists|i: int|
        0 <= i < dates.len() && #[trigger] chrono_add(dates[i].0 as int, dates[i].1 as int, span_seconds, span_nanos)
            is None
}

/// The busy intervals one event gives, or the first check it fails: a known
/// zone and readable times; then, without a rule, its own span when it
/// overlaps the horizon; with a rule, each occurrence that rrule yields
/// between the horizon's start (less the event's length) and its end,
/// lasting the event's length and overlapping the horizon.
pub open spec fn event_outcome(event: Event, path: Seq<char>, horizon: PlanningHorizon) -> Result<
    Seq<BusyInterval>,
    Fault,
> {
    match event_zone_fault(event, path) {
        Some(f) => Err(f),
        None => if event.rrule is None {
            let (start, end) = single_span(event);
            Ok(
                if before(start, horizon.end) && before(horizon.start, end) {
                    seq![BusyInterval { event_id: event.id, start, end }]
                } else {
                    Seq::empty()
                },
            )
        } else {
            let span = event_span(event);
            let start = single_span(event).0;
            match chrono_sub(horizon.start.seconds as int, horizon.start.nanos as int, span.0, span.1) {
                None => Err(
                    Fault {
                        kind: ErrorKind::Internal,
                        code: Seq::empty(),
                        path: Seq::empty(),
                        message: "recurrence range underflowed"@,
                    },
                ),
                Some(from) => match rule_occurrences(
                    rule_text(event.rrule->Some_0@),
                    event.timezone@,
                    start.seconds as int,
                    start.nanos as int,
                    from.0 as int,
                    from.1 as int,
                    horizon.end.seconds as int,
                    horizon.end.nanos as int,
                    RECURRENCE_LIMIT as int,
                ) {
                    Err(message) => Err(
                        Fault { kind: ErrorKind::Recurrence, code: "invalid_rrule"@, path: path + ".rrule"@, message },
                    ),
                    Ok(found) => if found.1 {
                        Err(
                            Fault {
                                kind: ErrorKind::Recurrence,
                                code: "recurrence_limit"@,
                                path: path + ".rrule"@,
                                message: "recurrence expansion exceeded 65535 occurrences"@,
                            },
                        )
                    } else if occurrences_overflow(found.0, span.0, span.1) {
                        Err(
                            Fault {
                                kind: ErrorKind::Internal,
                                code: Seq::empty(),
                                path: Seq::empty(),
                                message: "recurrence occurrence overflowed"@,
                            },
                        )
                    } else {
                        Ok(occurrence_intervals(&event, found.0, span.0, span.1, horizon))
                    },
                },
            }
        },
    }
}

/// The intervals of the first `n` events in turn, before sorting, or the
/// first fault.
pub open spec fn expand_upto(events: Seq<Event>, horizon: PlanningHorizon, n: int) -> Result<Seq<BusyInterval>, Fault>
    decreases n,
{
    if n <= 0 {
        Ok(Seq::empty())
    } else {
        match expand_upto(events, horizon, n - 1) {
            Err(f) => Err(f),
            Ok(prev) => match event_outcome(events[n - 1], indexed("events"@, (n - 1) as nat), horizon) {
                Err(f) => Err(f),
                Ok(v) => Ok(prev + v),
            },
        }
    }
}

proof fn lemma_expand_fault_stays(events: Seq<Event>, horizon: PlanningHorizon, a: int, b: int)
    requires
        0 <= a <= b,
        expand_upto(events, horizon, a) is Err,
    ensures
        expand_upto(events, horizon, b) == expand_upto(events, horizon, a),
    decreases b - a,
{
    if a < b {
        lemma_expand_fault_stays(events, horizon, a, b - 1);
    }
}

/// `v` is the busy time of the events: their intervals sorted stably by
/// start and event id.
pub open spec fn expansion_of(v: Seq<BusyInterval>, events: Seq<Event>, horizon: PlanningHorizon) -> bool {
    match expand_upto(events, horizon, events.len() as int) {
        Ok(c) => stably_sorted_from(v, c),
        Err(_) => false,
    }
}

/// Expands the events into busy intervals overlapping the horizon, sorted by
/// start and event id, or reports the first event that cannot be expanded.
pub fn expand_events(events: &Vec<Event>, horizon: &PlanningHorizon) -> (r: Result<Vec<BusyInterval>, AppError>)
    requires
        horizon_ok(*horizon),
    ensures
        match expand_upto(events@, *horizon, events.len() as int) {
            Err(f) => fails_with(r, f.kind, f.code, f.path, f.message),
            Ok(c) => r matches Ok(v) && stably_sorted_from(v@, c),
        },
{
    let mut intervals: Vec<BusyInterval> = Vec::new();
    let mut i: usize = 0;
    while i < events.len()
        invariant
            horizon_ok(*horizon),
            i <= events.len(),
            expand_upto(events@, *horizon, i as int) == Ok::<Seq<BusyInterval>, Fault>(intervals@),
        decreases events.len() - i,
    {
        let event = &events[i];
        let path = indexed_path("events", i);
        let ghost outcome = event_outcome(events@[i as int], path@, *horizon);
        assert(expand_upto(events@, *horizon, i + 1) == match outcome {
            Err(f) => Err(f),
            Ok(v) => Ok::<Seq<BusyInterval>, Fault>(intervals@ + v),
        });
        if !timezone_exists(event.timezone.as_str()) {
            let tz_path = concat(path.as_str(), ".timezone");
            proof {
                lemma_expand_fault_stays(events@, *horizon, i + 1, events.len() as int);
            }
            return Err(
                AppError::recurrence(
                    "invalid_timezone",
                    tz_path.as_str(),
                    "event timezone must be an IANA name",
                ),
            );
        }
        let tz = event.timezone.as_str();
        let start_path = concat(path.as_str(), ".startAt");
        let start = match parse_timestamp(event.start_at.as_str(), start_path.as_str()) {
            Ok(m) => Moment { seconds: m.seconds, nanos: m.nanos, offset: 0 },
            Err(e) => {
                proof {
                    lemma_expand_fault_stays(events@, *horizon, i + 1, events.len() as int);
                }
                return Err(e);
            },
        };
        let end_path = concat(path.as_str(), ".endAt");
        let end = match parse_timestamp(event.end_at.as_str(), end_path.as_str()) {
            Ok(m) => Moment { seconds: m.seconds, nanos: m.nanos, offset: 0 },
            Err(e) => {
                proof {
                    lemma_expand_fault_stays(events@, *horizon, i + 1, events.len() as int);
                }
                return Err(e);
            },
        };
        let (span_seconds, span_sub) = duration_since(&end, &start);
        let (span_seconds, span_nanos) = if span_sub < 0 {
            (span_seconds - 1, (span_sub + 1_000_000_000) as u32)
        } else {
            (span_seconds, span_sub as u32)
        };
        match &event.rrule {
            None => {
                let ghost before_push = intervals@;
                push_if_overlapping(&mut intervals, event, start, end, horizon);
                proof {
                    assert(single_span(*event) == (start, end));
                    if before(start, horizon.end) && before(horizon.start, end) {
                        assert(intervals@ == before_push + seq![BusyInterval { event_id: event.id, start, end }]);
                    } else {
                        assert(intervals@ == before_push + Seq::<BusyInterval>::empty());
                    }
                }
            },
            Some(rule) => {
                let text = strip_rule_prefix(rule.as_str());
                let rule_path = concat(path.as_str(), ".rrule");
                let filter_start = match checked_sub(&horizon.start, span_seconds, span_nanos) {
                    Some(t) => t,
                    None => {
                        proof {
                            lemma_expand_fault_stays(events@, *horizon, i + 1, events.len() as int);
                        }
                        return Err(AppError::internal("recurrence range underflowed"));
                    },
                };
                let (dates, limited) = match rrule_occurrences(
                    text.as_str(),
                    tz,
                    &start,
                    filter_start,
                    (horizon.end.seconds, horizon.end.nanos),
                    RECURRENCE_LIMIT,
                ) {
                    Ok(found) => found,
                    Err(message) => {
                        proof {
                            lemma_expand_fault_stays(events@, *horizon, i + 1, events.len() as int);
                        }
                        return Err(AppError::recurrence("invalid_rrule", rule_path.as_str(), message.as_str()));
                    },
                };
                if limited {
                    proof {
                        lemma_expand_fault_stays(events@, *horizon, i + 1, events.len() as int);
                    }
                    return Err(
                        AppError::recurrence(
                            "recurrence_limit",
                            rule_path.as_str(),
                            "recurrence expansion exceeded 65535 occurrences",
                        ),
                    );
                }
                let mut found = match intervals_for_occurrences(event, &dates, span_seconds, span_nanos, horizon) {
                    Ok(found) => found,
                    Err(e) => {
                        proof {
                            lemma_expand_fault_stays(events@, *horizon, i + 1, events.len() as int);
                        }
                        return Err(e);
                    },
                };
                let ghost found_view = found@;
                let ghost before_append = intervals@;
                intervals.append(&mut found);
                proof {
                    assert(text@ == rule_text(event.rrule->Some_0@));
                    assert(single_span(*event).0 == start);
                    assert(event_span(*event) == (span_seconds as int, span_nanos as int));
                    assert(!occurrences_overflow(dates@, span_seconds as int, span_nanos as int));
                    assert(intervals@ == before_append + found_view);
                }
            },
        }
        i += 1;
    }
    let result = sort_intervals(intervals);
    Ok(result)
}


/// The interval meets the horizon: it starts before the horizon ends and
/// ends after it starts.
pub open spec fn meets_horizon(b: BusyInterval, horizon: PlanningHorizon) -> bool {
    before(b.start, horizon.end) && before(horizon.start, b.end)
}

proof fn lemma_occurrences_meet(
    event: &Event,
    occurrences: Seq<(i64, u32)>,
    span_seconds: int,
    span_nanos: int,
    horizon: PlanningHorizon,
)
    ensures
        forall|i: int|
            0 <= i < occurrence_intervals(event, occurrences, span_seconds, span_nanos, horizon).len() ==> {
                let b = #[trigger] occurrence_intervals(event, occurrences, span_seconds, span_nanos, horizon)[i];
                meets_horizon(b, horizon) && b.event_id == event.id
            },
    decreases occurrences.len(),
{
    if occurrences.len() > 0 {
        lemma_occurrences_meet(event, occurrences.drop_last(), span_seconds, span_nanos, horizon);
        let rest = occurrence_intervals(event, occurrences.drop_last(), span_seconds, span_nanos, horizon);
        let all = occurrence_intervals(event, occurrences, span_seconds, span_nanos, horizon);
        assert forall|i: int| 0 <= i < all.len() implies {
            let b = #[trigger] all[i];
            meets_horizon(b, horizon) && b.event_id == event.id
        } by {
            if i < rest.len() {
                assert(all[i] == rest[i]);
            }
        }
    }
}

proof fn lemma_expansion_meets(events: Seq<Event>, horizon: PlanningHorizon, n: int)
    requires
        0 <= n <= events.len(),
    ensures
        expand_upto(events, horizon, n) matches Ok(c) ==> forall|i: int|
            0 <= i < c.len() ==> meets_horizon(#[trigger] c[i], horizon) && exists|j: int|
                0 <= j < n && c[i].event_id == events[j].id,
    decreases n,
{
    if n > 0 {
        lemma_expansion_meets(events, horizon, n - 1);
        if let Ok(prev) = expand_upto(events, horizon, n - 1) {
            let e = events[n - 1];
            if let Ok(v) = event_outcome(e, indexed("events"@, (n - 1) as nat), horizon) {
                let c = prev + v;
                if e.rrule is Some && event_zone_fault(e, indexed("events"@, (n - 1) as nat)) is None {
                    let span = event_span(e);
                    let start = single_span(e).0;
                    if let Some(from) = chrono_sub(horizon.start.seconds as int, horizon.start.nanos as int, span.0, span.1) {
                        if let Ok(found) = rule_occurrences(
                            rule_text(e.rrule->Some_0@),
                            e.timezone@,
                            start.seconds as int,
                            start.nanos as int,
                            from.0 as int,
                            from.1 as int,
                            horizon.end.seconds as int,
                            horizon.end.nanos as int,
                            RECURRENCE_LIMIT as int,
                        ) {
                            lemma_occurrences_meet(&e, found.0, span.0, span.1, horizon);
                        }
                    }
                }
                assert forall|i: int| 0 <= i < c.len() implies meets_horizon(#[trigger] c[i], horizon) && exists|j: int|
                    0 <= j < n && c[i].event_id == events[j].id by {
                    if i < prev.len() {
                        assert(c[i] == prev[i]);
                        let j = choose|j: int| 0 <= j < n - 1 && prev[i].event_id == events[j].id;
                        assert(0 <= j < n && c[i].event_id == events[j].id);
                    } else {
                        assert(c[i] == v[i - prev.len()]);
                        assert(c[i].event_id == events[n - 1].id);
                    }
                }
            }
        }
    }
}

/// The busy time a horizon gets from its events holds only intervals that
/// meet the horizon, each from one of the events, in order of start.
pub proof fn law_busy_time_meets_the_horizon_in_order(v: Seq<BusyInterval>, events: Seq<Event>, horizon: PlanningHorizon)
    requires
        expansion_of(v, events, horizon),
    ensures
        forall|i: int|
            0 <= i < v.len() ==> meets_horizon(#[trigger] v[i], horizon) && exists|j: int|
                0 <= j < events.len() && v[i].event_id == events[j].id,
        forall|i: int, j: int| 0 <= i < j < v.len() ==> (#[trigger] v[i]).start.seconds <= (#[trigger] v[j]).start.seconds,
{
    lemma_expansion_meets(events, horizon, events.len() as int);
    let c = expand_upto(events, horizon, events.len() as int)->Ok_0;
    let order = choose|order: Seq<usize>|
        {
            &&& order.len() == c.len()
            &&& v.len() == c.len()
            &&& forall|i: int| 0 <= i < order.len() ==> #[trigger] order[i] < c.len()
            &&& forall|i: int, j: int|
                0 <= i < order.len() && 0 <= j < order.len() && i != j ==> order[i] != order[j]
            &&& forall|i: int, j: int|
                0 <= i < j < order.len() ==> (interval_lt(c[#[trigger] order[i] as int], c[#[trigger] order[j] as int])
                    || (interval_same_key(c[order[i] as int], c[order[j] as int]) && order[i] < order[j]))
            &&& forall|i: int| 0 <= i < v.len() ==> #[trigger] v[i] == c[order[i] as int]
        };
    assert forall|i: int|
        0 <= i < v.len() implies meets_horizon(#[trigger] v[i], horizon) && exists|j: int|
            0 <= j < events.len() && v[i].event_id == events[j].id by {
        assert(v[i] == c[order[i] as int]);
        assert(order[i] < c.len());
    }
    assert forall|i: int, j: int| 0 <= i < j < v.len() implies (#[trigger] v[i]).start.seconds <= (#[trigger] v[j]).start.seconds by {
        assert(v[i] == c[order[i] as int]);
        assert(v[j] == c[order[j] as int]);
        assert(interval_lt(c[order[i] as int], c[order[j] as int]) || interval_same_key(c[order[i] as int], c[order[j] as int]));
    }
}

} // verus!
