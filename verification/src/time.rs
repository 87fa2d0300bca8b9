use vstd::prelude::*;
use vstd::string::StringExecFns;
use chrono::{LocalResult, Offset, TimeZone};

use crate::error::{fails_with, AppError, ErrorKind};
use crate::model::{AvailabilityWindow, DayAvailability, Settings};
use crate::validation::{clock_reading, parse_clock, parse_timestamp};

verus! {

/// First and last day, counted from 1970-01-01, that chrono's `NaiveDate` holds.
pub const MIN_DAY: i64 = -96465293;
pub const MAX_DAY: i64 = 95026236;
/// First and last second of that range.
pub const MIN_SECONDS: i64 = -8334601315200;
pub const MAX_SECONDS: i64 = 8210266876799;
/// Bounds on the instants an RFC 3339 text can name: years 0000 to 9999,
/// widened by a day for the offset.
pub const RFC3339_MIN_SECONDS: i64 = -62167305600;
pub const RFC3339_MAX_SECONDS: i64 = 253402387199;

/// A point in time, as seconds and nanoseconds since the Unix epoch (UTC),
/// together with the UTC offset in seconds under which it is shown. A
/// nanosecond count of a billion or more marks a leap second.
#[derive(Clone, Copy, Debug, PartialEq, Eq, Structural)]
pub struct Moment {
    pub seconds: i64,
    pub nanos: u32,
    pub offset: i32,
}

/// The offset of a moment is one that a `FixedOffset` can hold.
pub open spec fn offset_ok(offset: int) -> bool {
    -86400 < offset < 86400
}

/// The moment lies in chrono's range and is well formed.
pub open spec fn moment_ok(m: Moment) -> bool {
    &&& MIN_SECONDS <= m.seconds <= MAX_SECONDS
    &&& m.nanos < 2_000_000_000
    &&& offset_ok(m.offset as int)
}

/// Wall-clock seconds of the moment: its seconds shifted by its offset.
pub open spec fn local_seconds(m: Moment) -> int {
    m.seconds + m.offset
}

/// `a < b` as instants (chrono compares seconds, then the fraction).
pub open spec fn before(a: Moment, b: Moment) -> bool {
    a.seconds < b.seconds || (a.seconds == b.seconds && a.nanos < b.nanos)
}

impl Moment {
    /// The RFC 3339 text of the moment under its offset.
    pub fn to_rfc3339(&self) -> (r: String)
        requires
            moment_ok(*self),
        ensures
            r@ == rfc3339_text(self.seconds as int, self.nanos as int, self.offset as int),
    {
        format_rfc3339(self)
    }
}

pub fn is_before(a: &Moment, b: &Moment) -> (r: bool)
    ensures
        r == before(*a, *b),
{
    a.seconds < b.seconds || (a.seconds == b.seconds && a.nanos < b.nanos)
}

/// What `DateTime::parse_from_rfc3339` reads from a text: seconds, nanoseconds
/// and offset, or nothing.
pub uninterp spec fn rfc3339_reading(text: Seq<char>) -> Option<(i64, u32, i32)>;

/// Reads an RFC 3339 timestamp with `chrono::DateTime::parse_from_rfc3339`.
/// Claims that the result is `rfc3339_reading` of the text and, as chrono's
/// parser takes a four-digit year and an offset within a day, that the
/// instant lies between the years 0000 and 9999 widened by a day.
#[verifier::external_body]
pub(crate) fn parse_rfc3339(text: &str) -> (r: Option<Moment>)
    ensures
        match r {
            Some(m) => rfc3339_reading(text@) == Some((m.seconds, m.nanos, m.offset)),
            None => rfc3339_reading(text@) is None,
        },
        r matches Some(m) ==> RFC3339_MIN_SECONDS <= m.seconds <= RFC3339_MAX_SECONDS && m.nanos
            < 2_000_000_000 && offset_ok(m.offset as int),
{
    match chrono::DateTime::parse_from_rfc3339(text) {
        Ok(d) => Some(
            Moment {
                seconds: d.timestamp(),
                nanos: d.timestamp_subsec_nanos(),
                offset: d.offset().local_minus_utc(),
            },
        ),
        Err(_) => None,
    }
}

/// Whether `chrono_tz` knows a time-zone name.
pub uninterp spec fn tz_known(name: Seq<char>) -> bool;

/// `chrono_tz::Tz::from_str` succeeds on the name.
#[verifier::external_body]
pub(crate) fn timezone_exists(name: &str) -> (r: bool)
    ensures
        r == tz_known(name@),
{
    name.parse::<chrono_tz::Tz>().is_ok()
}

/// The UTC offset, in seconds, of a zone at an instant.
pub uninterp spec fn tz_offset(name: Seq<char>, seconds: int) -> int;

/// `Tz::offset_from_utc_datetime` of the named zone at the given second,
/// as seconds east of UTC. Claims that it is `tz_offset` of the name and
/// second and that, as a `FixedOffset`, it lies strictly within a day.
#[verifier::external_body]
pub(crate) fn utc_offset(name: &str, seconds: i64) -> (r: i32)
    requires
        tz_known(name@),
        MIN_SECONDS <= seconds <= MAX_SECONDS,
    ensures
        r == tz_offset(name@, seconds as int),
        offset_ok(r as int),
{
    match (name.parse::<chrono_tz::Tz>(), chrono::DateTime::from_timestamp(seconds, 0)) {
        (Ok(tz), Some(at)) => tz.offset_from_utc_datetime(&at.naive_utc()).fix().local_minus_utc(),
        _ => 0,
    }
}

/// The instants, with their offsets, that a wall-clock second of a zone names.
pub uninterp spec fn tz_local_reading(name: Seq<char>, local: int) -> Seq<(i64, i32)>;

/// `TimeZone::from_local_datetime` of the named zone at a wall-clock second:
/// no result in a gap, one, or two in a fold (earliest first). Claims that
/// the list is `tz_local_reading` of the name and second, and, as chrono
/// documents, that each entry's instant plus its offset is that wall-clock
/// second, that the two entries of a fold come in order, and that each
/// instant lies in chrono's range (the subtraction of the offset is checked).
#[verifier::external_body]
pub(crate) fn local_mappings(name: &str, local: i64) -> (r: Vec<(i64, i32)>)
    requires
        tz_known(name@),
        MIN_SECONDS <= local <= MAX_SECONDS,
    ensures
        r@ == tz_local_reading(name@, local as int),
        r.len() <= 2,
        forall|i: int|
            0 <= i < r.len() ==> #[trigger] r@[i].0 + r@[i].1 == local && offset_ok(
                r@[i].1 as int,
            ),
        r.len() == 2 ==> r@[0].0 < r@[1].0,
        forall|i: int| 0 <= i < r.len() ==> MIN_SECONDS <= #[trigger] r@[i].0 <= MAX_SECONDS,
{
    let (tz, naive) = match (name.parse::<chrono_tz::Tz>(), chrono::DateTime::from_timestamp(local, 0)) {
        (Ok(tz), Some(at)) => (tz, at.naive_utc()),
        _ => return Vec::new(),
    };
    match tz.from_local_datetime(&naive) {
        LocalResult::Single(a) => vec![(a.timestamp(), a.offset().fix().local_minus_utc())],
        LocalResult::Ambiguous(a, b) => vec![
            (a.timestamp(), a.offset().fix().local_minus_utc()),
            (b.timestamp(), b.offset().fix().local_minus_utc()),
        ],
        LocalResult::None => Vec::new(),
    }
}

/// The RFC 3339 text of a moment.
pub uninterp spec fn rfc3339_text(seconds: int, nanos: int, offset: int) -> Seq<char>;

/// `DateTime::to_rfc3339` of the moment under its offset. Claims that the
/// text is `rfc3339_text` of its seconds, nanoseconds and offset.
#[verifier::external_body]
pub(crate) fn format_rfc3339(m: &Moment) -> (r: String)
    requires
        moment_ok(*m),
    ensures
        r@ == rfc3339_text(m.seconds as int, m.nanos as int, m.offset as int),
{
    match (chrono::FixedOffset::east_opt(m.offset), chrono::DateTime::from_timestamp(m.seconds, m.nanos)) {
        (Some(offset), Some(at)) => at.with_timezone(&offset).to_rfc3339(),
        _ => String::new(),
    }
}


/// Floor division by a positive divisor, as `i64::div_euclid` gives it.
pub fn floor_div(a: i64, b: i64) -> (q: i64)
    requires
        b > 0,
        -0x4000_0000_0000_0000 <= a <= 0x4000_0000_0000_0000,
    ensures
        q == a / b,
{
    if a >= 0 {
        a / b
    } else {
        let p = (-a - 1) / b;
        proof {
            let ai = a as int;
            let bi = b as int;
            let na: int = -ai - 1;
            let pi = p as int;
            let m: int = na % bi;
            vstd::arithmetic::div_mod::lemma_fundamental_div_mod(na, bi);
            vstd::arithmetic::div_mod::lemma_mod_bound(na, bi);
            assert(pi == na / bi);
            let q: int = -pi - 1;
            let r: int = bi - 1 - m;
            assert(ai == q * bi + r) by (nonlinear_arith)
                requires
                    na == -ai - 1,
                    na == bi * pi + m,
                    q == -pi - 1,
                    r == bi - 1 - m,
            ;
            vstd::arithmetic::div_mod::lemma_fundamental_div_mod_converse(ai, bi, q, r);
        }
        -p - 1
    }
}

/// Remainder of floor division by a positive divisor, `i64::rem_euclid`.
pub fn floor_mod(a: i64, b: i64) -> (r: i64)
    requires
        b > 0,
        -0x4000_0000_0000_0000 <= a <= 0x4000_0000_0000_0000,
        b <= 0x4000_0000_0000_0000,
    ensures
        r == a % b,
        0 <= r < b,
{
    let q = floor_div(a, b);
    proof {
        vstd::arithmetic::div_mod::lemma_fundamental_div_mod(a as int, b as int);
        assert(0 <= a % b < b) by {
            vstd::arithmetic::div_mod::lemma_mod_bound(a as int, b as int);
        }
        assert(a - b * q == a % b);
    }
    a - b * q
}

/// The day of a moment's wall clock, counted from 1970-01-01.
pub open spec fn local_day(m: Moment) -> int {
    local_seconds(m) / 86400
}

/// Minutes after midnight on a moment's wall clock.
pub open spec fn minute_of_day(m: Moment) -> int {
    (local_seconds(m) % 86400) / 60
}

#[derive(Clone, Copy, Debug, PartialEq, Eq, Structural)]
pub enum Weekday {
    Mon,
    Tue,
    Wed,
    Thu,
    Fri,
    Sat,
    Sun,
}

/// The weekday of a day counted from 1970-01-01, a Thursday.
pub open spec fn weekday_of_day(day: int) -> Weekday {
    let k = (day + 3) % 7;
    if k == 0 {
        Weekday::Mon
    } else if k == 1 {
        Weekday::Tue
    } else if k == 2 {
        Weekday::Wed
    } else if k == 3 {
        Weekday::Thu
    } else if k == 4 {
        Weekday::Fri
    } else if k == 5 {
        Weekday::Sat
    } else {
        Weekday::Sun
    }
}

pub open spec fn weekday_text(w: Weekday) -> Seq<char> {
    match w {
        Weekday::Mon => "monday"@,
        Weekday::Tue => "tuesday"@,
        Weekday::Wed => "wednesday"@,
        Weekday::Thu => "thursday"@,
        Weekday::Fri => "friday"@,
        Weekday::Sat => "saturday"@,
        Weekday::Sun => "sunday"@,
    }
}

pub fn weekday_name(weekday: Weekday) -> (r: &'static str)
    ensures
        r@ == weekday_text(weekday),
{
    match weekday {
        Weekday::Mon => "monday",
        Weekday::Tue => "tuesday",
        Weekday::Wed => "wednesday",
        Weekday::Thu => "thursday",
        Weekday::Fri => "friday",
        Weekday::Sat => "saturday",
        Weekday::Sun => "sunday",
    }
}

/// The weekday of a moment's wall clock.
pub fn weekday(value: &Moment) -> (r: Weekday)
    requires
        moment_ok(*value),
    ensures
        r == weekday_of_day(local_day(*value)),
{
    let local = value.seconds + value.offset as i64;
    let day = floor_div(local, 86400);
    proof {
        assert(-0x4000_0000_0000_0000 <= day + 3 <= 0x4000_0000_0000_0000) by (nonlinear_arith)
            requires
                day == local / 86400,
                -0x4000_0000_0000 <= local <= 0x4000_0000_0000,
        ;
    }
    let k = floor_mod(day + 3, 7);
    if k == 0 {
        Weekday::Mon
    } else if k == 1 {
        Weekday::Tue
    } else if k == 2 {
        Weekday::Wed
    } else if k == 3 {
        Weekday::Thu
    } else if k == 4 {
        Weekday::Fri
    } else if k == 5 {
        Weekday::Sat
    } else {
        Weekday::Sun
    }
}

/// Minutes after midnight on the moment's wall clock.
pub fn clock_minutes(value: &Moment) -> (r: u32)
    requires
        moment_ok(*value),
    ensures
        r == minute_of_day(*value),
        r < 1440,
{
    let local = value.seconds + value.offset as i64;
    (floor_mod(local, 86400) / 60) as u32
}

/// The index of the first availability entry, at `from` or later, for a
/// weekday name.
pub open spec fn day_entry_from(settings: Settings, name: Seq<char>, from: int) -> Option<int>
    decreases settings.availability.len() - from,
{
    if from < 0 || from >= settings.availability.len() {
        None
    } else if settings.availability[from].day@ == name {
        Some(from)
    } else {
        day_entry_from(settings, name, from + 1)
    }
}

/// The index of the first availability entry for a weekday name.
pub open spec fn day_entry(settings: Settings, name: Seq<char>) -> Option<int> {
    day_entry_from(settings, name, 0)
}

proof fn lemma_day_entry_from(settings: Settings, name: Seq<char>, from: int)
    requires
        0 <= from,
    ensures
        day_entry_from(settings, name, from) matches Some(i) ==> from <= i
            < settings.availability.len() && settings.availability[i].day@ == name,
    decreases settings.availability.len() - from,
{
    if from < settings.availability.len() && settings.availability[from].day@ != name {
        lemma_day_entry_from(settings, name, from + 1);
    }
}

/// A window whose two clocks read, and whose span holds the minute.
pub open spec fn window_admits(w: AvailabilityWindow, minute: int) -> bool {
    &&& clock_reading(w.start@) is Ok
    &&& clock_reading(w.end@) is Ok
    &&& clock_reading(w.start@)->Ok_0 <= minute < clock_reading(w.end@)->Ok_0
}

/// The settings make the wall-clock minute of `m` available: the first entry
/// for its weekday has a window that holds it.
pub open spec fn available_at(settings: Settings, m: Moment) -> bool {
    match day_entry(settings, weekday_text(weekday_of_day(local_day(m)))) {
        None => false,
        Some(i) => day_admits(settings.availability[i], minute_of_day(m)),
    }
}

/// One of the day's windows holds the minute.
pub open spec fn day_admits(day: DayAvailability, minute: int) -> bool {
    exists|j: int| 0 <= j < day.windows.len() && window_admits(#[trigger] day.windows[j], minute)
}

proof fn lemma_available_witness(settings: Settings, m: Moment, i: int, j: int)
    requires
        day_entry(settings, weekday_text(weekday_of_day(local_day(m)))) == Some(i),
        0 <= j < settings.availability[i].windows.len(),
        window_admits(settings.availability[i].windows[j], minute_of_day(m)),
    ensures
        available_at(settings, m),
{
    assert(day_admits(settings.availability[i], minute_of_day(m)));
}

/// Finds the first availability entry for a weekday name.
fn find_day(settings: &Settings, name: &str) -> (r: Option<usize>)
    ensures
        match day_entry(*settings, name@) {
            None => r is None,
            Some(i) => r == Some(i as usize) && i < settings.availability.len(),
        },
{
    let wanted = String::from_str(name);
    let mut i: usize = 0;
    while i < settings.availability.len()
        invariant
            i <= settings.availability.len(),
            wanted@ == name@,
            day_entry(*settings, name@) == day_entry_from(*settings, name@, i as int),
        decreases settings.availability.len() - i,
    {
        if settings.availability[i].day == wanted {
            return Some(i);
        }
        i += 1;
    }
    None
}

/// Whether the settings make the moment's wall-clock minute available.
pub fn is_available_at(settings: &Settings, value: &Moment) -> (r: bool)
    requires
        moment_ok(*value),
    ensures
        r == available_at(*settings, *value),
{
    let day = weekday_name(weekday(value));
    let entry = find_day(settings, day);
    let index = match entry {
        None => {
            return false;
        },
        Some(index) => index,
    };
    proof {
        lemma_day_entry_from(*settings, day@, 0);
    }
    let windows = &settings.availability[index].windows;
    let minute = clock_minutes(value);
    let mut j: usize = 0;
    while j < windows.len()
        invariant
            j <= windows.len(),
            index < settings.availability.len(),
            day_entry(*settings, weekday_text(weekday_of_day(local_day(*value)))) == Some(index as int),
            *windows == settings.availability[index as int].windows,
            minute == minute_of_day(*value),
            forall|k: int| 0 <= k < j ==> !window_admits(#[trigger] windows[k], minute as int),
        decreases windows.len() - j,
    {
        let window = &windows[j];
        let start = parse_clock(window.start.as_str(), "availability.start");
        let end = parse_clock(window.end.as_str(), "availability.end");
        match (start, end) {
            (Ok(s), Ok(e)) => {
                if s <= minute && minute < e {
                    proof {
                        lemma_available_witness(*settings, *value, index as int, j as int);
                    }
                    return true;
                }
            },
            _ => {},
        }
        j += 1;
    }
    false
}

/// The moment `k` minutes after `m`, shown under the zone's offset there
/// (`m` itself when `k` is zero).
pub open spec fn shifted(tz: Seq<char>, m: Moment, k: int) -> Moment {
    if k == 0 {
        m
    } else {
        Moment {
            seconds: (m.seconds + 60 * k) as i64,
            nanos: m.nanos,
            offset: tz_offset(tz, m.seconds + 60 * k) as i32,
        }
    }
}

/// Adds whole minutes to a moment and shows it under the zone's offset, as
/// `DateTime<Tz> + TimeDelta::minutes` does outside a leap second.
pub fn add_minutes(tz: &str, m: &Moment, minutes: i64) -> (r: Moment)
    requires
        tz_known(tz@),
        MIN_SECONDS <= m.seconds <= MAX_SECONDS,
        -0x1_0000_0000_0000 <= minutes <= 0x1_0000_0000_0000,
        MIN_SECONDS <= m.seconds + 60 * minutes <= MAX_SECONDS,
    ensures
        r.seconds == m.seconds + 60 * minutes,
        r.nanos == m.nanos,
        r.offset == tz_offset(tz@, m.seconds + 60 * minutes),
        offset_ok(r.offset as int),
{
    let seconds = m.seconds + 60 * minutes;
    Moment { seconds, nanos: m.nanos, offset: utc_offset(tz, seconds) }
}

/// The instant `seconds` (with fraction `nanos`) comes before `end`.
pub open spec fn instant_before(seconds: int, nanos: int, end: Moment) -> bool {
    seconds < end.seconds || (seconds == end.seconds && nanos < end.nanos)
}

/// Every minute from `start` up to `end` is available, on the settings'
/// zone, and `start` falls on a whole minute.
pub open spec fn fits_spec(settings: Settings, start: Moment, end: Moment) -> bool {
    &&& before(start, end)
    &&& local_seconds(start) % 60 == 0
    &&& forall|k: int|
        0 <= k && #[trigger] instant_before(start.seconds + 60 * k, start.nanos as int, end)
            ==> available_at(settings, shifted(settings.timezone@, start, k))
}

proof fn lemma_fits_tail(settings: Settings, start: Moment, end: Moment, k: int)
    requires
        0 <= k,
        !instant_before(start.seconds + 60 * k, start.nanos as int, end),
        forall|j: int|
            0 <= j < k ==> available_at(settings, #[trigger] shifted(settings.timezone@, start, j)),
    ensures
        forall|j: int|
            0 <= j && #[trigger] instant_before(start.seconds + 60 * j, start.nanos as int, end)
                ==> available_at(settings, shifted(settings.timezone@, start, j)),
{
    let tz = settings.timezone@;
    assert forall|j: int|
        0 <= j && #[trigger] instant_before(start.seconds + 60 * j, start.nanos as int, end) implies available_at(
        settings,
        shifted(tz, start, j),
    ) by {
        if j >= k {
            assert(start.seconds + 60 * j >= start.seconds + 60 * k);
        }
    }
}

/// A span that fits the availability is available at every whole minute
/// from its start up to its end, not only at its ends, and starts before it
/// ends.
pub proof fn law_fitting_span_is_available_throughout(settings: Settings, start: Moment, end: Moment, k: int)
    requires
        fits_spec(settings, start, end),
        0 <= k,
        start.seconds + 60 * k < end.seconds,
    ensures
        available_at(settings, shifted(settings.timezone@, start, k)),
        before(start, end),
{
    assert(instant_before(start.seconds + 60 * k, start.nanos as int, end));
}

/// A span that is available at every whole minute from its minute-aligned
/// start up to its end fits the availability.
pub proof fn law_available_span_fits(settings: Settings, start: Moment, end: Moment)
    requires
        before(start, end),
        local_seconds(start) % 60 == 0,
        forall|k: int|
            0 <= k && instant_before(start.seconds + 60 * k, start.nanos as int, end) ==> #[trigger] available_at(
                settings,
                shifted(settings.timezone@, start, k),
            ),
    ensures
        fits_spec(settings, start, end),
{
    assert forall|k: int|
        0 <= k && #[trigger] instant_before(start.seconds + 60 * k, start.nanos as int, end) implies available_at(
        settings,
        shifted(settings.timezone@, start, k),
    ) by {}
}

/// The span from `start` to `end` lies, minute by minute, in available time.
pub fn fits_availability(settings: &Settings, start: &Moment, end: &Moment) -> (r: bool)
    requires
        tz_known(settings.timezone@),
        moment_ok(*start),
        moment_ok(*end),
        end.seconds + 60 <= MAX_SECONDS,
        start.nanos < 1_000_000_000,
    ensures
        r == fits_spec(*settings, *start, *end),
{
    if !is_before(start, end) || floor_mod(start.seconds + start.offset as i64, 60) != 0 {
        return false;
    }
    let ghost tz = settings.timezone@;
    let mut cursor = *start;
    let mut k: i64 = 0;
    while is_before(&cursor, end)
        invariant
            tz == settings.timezone@,
            tz_known(tz),
            moment_ok(*start),
            moment_ok(*end),
            end.seconds + 60 <= MAX_SECONDS,
            start.nanos < 1_000_000_000,
            0 <= k,
            cursor == shifted(tz, *start, k as int),
            cursor.seconds == start.seconds + 60 * k,
            start.seconds + 60 * k <= end.seconds + 60,
            moment_ok(cursor),
            forall|j: int| 0 <= j < k ==> available_at(*settings, #[trigger] shifted(tz, *start, j)),
        decreases end.seconds + 60 - cursor.seconds,
    {
        if !is_available_at(settings, &cursor) {
            assert(instant_before(start.seconds + 60 * k, start.nanos as int, *end));
            return false;
        }
        k = k + 1;
        cursor = add_minutes(settings.timezone.as_str(), start, k);
    }
    proof {
        lemma_fits_tail(*settings, *start, *end, k as int);
    }
    true
}

/// The planning horizon: the zone, the current moment on its clock, and
/// the local midnights that open and close the planning days.
#[derive(Debug)]
pub struct PlanningHorizon {
    pub timezone: String,
    pub now: Moment,
    pub start: Moment,
    pub end: Moment,
}

/// The earliest instant a wall-clock second names in a zone, if any.
pub open spec fn earliest_local(tz: Seq<char>, local: int) -> Option<Moment> {
    let ms = tz_local_reading(tz, local);
    if ms.len() == 0 {
        None
    } else {
        Some(Moment { seconds: ms[0].0, nanos: 0, offset: ms[0].1 })
    }
}

/// Resolves a wall-clock second in a zone: the earlier instant in a fold, an
/// error in a gap.
pub fn at_local(timezone: &str, naive: i64, path: &str) -> (r: Result<Moment, AppError>)
    requires
        tz_known(timezone@),
        MIN_SECONDS <= naive <= MAX_SECONDS,
    ensures
        match earliest_local(timezone@, naive as int) {
            Some(m) => r == Ok::<Moment, AppError>(m),
            None => r matches Err(e) && e.is(
                ErrorKind::Validation,
                "invalid_local_time"@,
                path@,
                "local time does not exist in the configured timezone"@,
            ),
        },
        r matches Ok(m) ==> moment_ok(m) && local_seconds(m) == naive && m.nanos == 0,
{
    let mappings = local_mappings(timezone, naive);
    if mappings.len() == 0 {
        return Err(
            AppError::validation(
                "invalid_local_time",
                path,
                "local time does not exist in the configured timezone",
            ),
        );
    }
    let (seconds, offset) = mappings[0];
    Ok(Moment { seconds, nanos: 0, offset })
}

/// Local midnight opening a day counted from 1970-01-01.
pub fn at_local_midnight(timezone: &str, date: i64, path: &str) -> (r: Result<Moment, AppError>)
    requires
        tz_known(timezone@),
        MIN_DAY <= date <= MAX_DAY,
    ensures
        match earliest_local(timezone@, date * 86400) {
            Some(m) => r == Ok::<Moment, AppError>(m),
            None => r matches Err(e) && e.is(
                ErrorKind::Validation,
                "invalid_local_time"@,
                path@,
                "local time does not exist in the configured timezone"@,
            ),
        },
        r matches Ok(m) ==> moment_ok(m) && local_seconds(m) == date * 86400 && m.nanos == 0,
{
    at_local(timezone, date * 86400, path)
}

/// How building a horizon ends once the zone is known and the current
/// moment is read.
pub ghost enum HorizonOutcome {
    /// The current moment, and the midnights that open and close the horizon.
    Ready(Moment, Moment, Moment),
    /// The last day lies beyond chrono's calendar.
    Overflow,
    /// The local midnight named by the path falls in a gap.
    Gap(Seq<char>),
}

/// What `build_horizon` gives for the settings and the text of the current
/// moment, once the zone is known and the text is read as `t`.
pub open spec fn horizon_days_spec(tz: Seq<char>, t: (i64, u32, i32), days: int) -> HorizonOutcome {
    let now = Moment { seconds: t.0, nanos: t.1, offset: tz_offset(tz, t.0 as int) as i32 };
    let first = local_day(now);
    let last = first + days;
    if last > MAX_DAY {
        HorizonOutcome::Overflow
    } else {
        match (earliest_local(tz, first * 86400), earliest_local(tz, last * 86400)) {
            (Some(start), Some(end)) => HorizonOutcome::Ready(now, start, end),
            (None, _) => HorizonOutcome::Gap("horizonStart"@),
            (Some(_), None) => HorizonOutcome::Gap("horizonEnd"@),
        }
    }
}

/// Builds the planning horizon: from local midnight of today, in the
/// settings' zone, to local midnight `horizon_days` days later.
pub fn build_horizon(settings: &Settings, now: &str) -> (r: Result<PlanningHorizon, AppError>)
    ensures
        !tz_known(settings.timezone@) ==> fails_with(
            r,
            ErrorKind::Validation,
            "invalid_timezone"@,
            "settings.timezone"@,
            "timezone must be an IANA name"@,
        ),
        tz_known(settings.timezone@) && rfc3339_reading(now@) is None ==> fails_with(
            r,
            ErrorKind::Validation,
            "invalid_timestamp"@,
            "now"@,
            "timestamp must be RFC 3339"@,
        ),
        tz_known(settings.timezone@) && rfc3339_reading(now@) is Some ==> match horizon_days_spec(
            settings.timezone@,
            rfc3339_reading(now@)->Some_0,
            settings.horizon_days as int,
        ) {
            HorizonOutcome::Ready(n, s, e) => r matches Ok(h) && h.timezone@ == settings.timezone@
                && h.now == n && h.start == s && h.end == e,
            HorizonOutcome::Overflow => fails_with(
                r,
                ErrorKind::Internal,
                Seq::empty(),
                Seq::empty(),
                "planning horizon overflowed"@,
            ),
            HorizonOutcome::Gap(path) => fails_with(
                r,
                ErrorKind::Validation,
                "invalid_local_time"@,
                path,
                "local time does not exist in the configured timezone"@,
            ),
        },
        r matches Ok(h) ==> horizon_ok(h) && h.timezone == settings.timezone,
        r matches Ok(h) ==> h.end.seconds < h.now.seconds + (settings.horizon_days + 2) * 86400,
        r matches Ok(h) ==> h.start.seconds > h.now.seconds - 3 * 86400,
        r matches Ok(h) ==> local_seconds(h.start) == local_day(h.now) * 86400 && local_seconds(h.end) == local_seconds(
            h.start,
        ) + settings.horizon_days * 86400,
{
    if !timezone_exists(settings.timezone.as_str()) {
        return Err(
            AppError::validation(
                "invalid_timezone",
                "settings.timezone",
                "timezone must be an IANA name",
            ),
        );
    }
    let tz = settings.timezone.as_str();
    let parsed = match parse_timestamp(now, "now") {
        Ok(parsed) => parsed,
        Err(e) => {
            return Err(e);
        },
    };
    let current = Moment { seconds: parsed.seconds, nanos: parsed.nanos, offset: utc_offset(tz, parsed.seconds) };
    let start_date = floor_div(current.seconds + current.offset as i64, 86400);
    let end_date = start_date + settings.horizon_days as i64;
    if end_date > MAX_DAY {
        return Err(AppError::internal("planning horizon overflowed"));
    }
    let ghost t = rfc3339_reading(now@)->Some_0;
    assert(start_date == local_day(current));
    proof {
        let a = current.seconds + current.offset as int;
        vstd::arithmetic::div_mod::lemma_fundamental_div_mod(a, 86400);
        vstd::arithmetic::div_mod::lemma_mod_bound(a, 86400);
        assert(start_date * 86400 <= a);
        assert(start_date * 86400 > a - 86400);
    }
    let start = match at_local_midnight(tz, start_date, "horizonStart") {
        Ok(start) => start,
        Err(e) => {
            assert(earliest_local(tz@, start_date * 86400) is None);
            return Err(e);
        },
    };
    let end = match at_local_midnight(tz, end_date, "horizonEnd") {
        Ok(end) => end,
        Err(e) => {
            return Err(e);
        },
    };
    Ok(PlanningHorizon { timezone: settings.timezone.clone(), now: current, start, end })
}

/// A horizon as `build_horizon` makes it: a known zone, moments in range,
/// midnights without a fraction, and `now` on the zone's offset.
pub open spec fn horizon_ok(h: PlanningHorizon) -> bool {
    &&& tz_known(h.timezone@)
    &&& moment_ok(h.now)
    &&& moment_ok(h.start)
    &&& moment_ok(h.end)
    &&& h.start.nanos == 0
    &&& h.end.nanos == 0
    &&& RFC3339_MIN_SECONDS <= h.now.seconds <= RFC3339_MAX_SECONDS
    &&& h.now.offset == tz_offset(h.timezone@, h.now.seconds as int)
    &&& local_seconds(h.start) % 86400 == 0
    &&& local_seconds(h.end) % 86400 == 0
    &&& local_seconds(h.start) <= local_seconds(h.end)
}

} // verus!
