use vstd::prelude::*;
use vstd::string::StringExecFns;

use crate::error::{fails_with, AppError, ErrorKind};
use crate::model::{DeadlineKind, Dependency, Event, Settings, Task, TaskState};
use crate::protocol::{Request, PROTOCOL_VERSION};
use crate::text::{
    chars_of, concat, decimal, indexed, indexed_path, is_blank, is_blank_text, push_decimal,
    utf8_len, utf8_width,
};
use crate::time::{
    is_before, offset_ok, parse_rfc3339, rfc3339_reading, timezone_exists, tz_known, Moment,
    RFC3339_MAX_SECONDS, RFC3339_MIN_SECONDS,
};

verus! {

/// Index of the first `:` in `s`, if any.
pub open spec fn first_colon(s: Seq<char>) -> Option<int> {
    if exists|i: int| 0 <= i < s.len() && s[i] == ':' {
        Some(choose|i: int| 0 <= i < s.len() && s[i] == ':' && forall|j: int| 0 <= j < i ==> s[j] != ':')
    } else {
        None
    }
}

pub open spec fn is_digit(c: char) -> bool {
    '0' <= c <= '9'
}

/// The value of a run of decimal digits.
pub open spec fn digits_value(s: Seq<char>) -> nat
    decreases s.len(),
{
    if s.len() == 0 {
        0
    } else {
        digits_value(s.drop_last()) * 10 + ((s.last() as u32 - '0' as u32) as nat)
    }
}

/// What a field of a `HH:MM` clock reads as: ASCII digits only, so that a
/// sign is refused as any other character is.
pub open spec fn clock_field(s: Seq<char>) -> Option<nat> {
    digits_reading(s)
}

/// One or more ASCII digits whose value fits in `u32`.
pub open spec fn digits_reading(body: Seq<char>) -> Option<nat> {
    if body.len() > 0 && (forall|i: int| 0 <= i < body.len() ==> is_digit(#[trigger] body[i]))
        && digits_value(body) <= u32::MAX {
        Some(digits_value(body))
    } else {
        None
    }
}

/// What `parse_clock` makes of a text: minutes after midnight of `HH:MM`,
/// or the message of the refusal.
#[verifier::opaque]
pub open spec fn clock_reading(s: Seq<char>) -> Result<nat, Seq<char>> {
    match first_colon(s) {
        None => Err("clock must be HH:MM"@),
        Some(i) => {
            let hours = s.take(i);
            let minutes = s.skip(i + 1);
            if utf8_len(hours) != 2 || utf8_len(minutes) != 2 {
                Err("clock must be normalized to HH:MM"@)
            } else {
                match (clock_field(hours), clock_field(minutes)) {
                    (Some(h), Some(m)) => if h < 24 && m < 60 {
                        Ok(h * 60 + m)
                    } else {
                        Err("clock is outside the day"@)
                    },
                    _ => Err("clock is outside the day"@),
                }
            }
        },
    }
}

proof fn lemma_utf8_len_bounds(s: Seq<char>)
    ensures
        s.len() <= utf8_len(s) <= 4 * s.len(),
    decreases s.len(),
{
    if s.len() > 0 {
        lemma_utf8_len_bounds(s.drop_last());
    }
}

proof fn lemma_utf8_len_push(s: Seq<char>, c: char)
    ensures
        utf8_len(s.push(c)) == utf8_len(s) + utf8_width(c),
{
    assert(s.push(c).drop_last() == s);
}

fn char_width(c: char) -> (r: usize)
    ensures
        r == utf8_width(c),
{
    let v = c as u32;
    if v < 0x80 {
        1
    } else if v < 0x800 {
        2
    } else if v < 0x10000 {
        3
    } else {
        4
    }
}

/// UTF-8 byte length of `cs[lo..hi]`, or 5 when it is longer than four bytes.
fn byte_len_upto4(cs: &Vec<char>, lo: usize, hi: usize) -> (r: usize)
    requires
        lo <= hi <= cs.len(),
    ensures
        r == (if utf8_len(cs@.subrange(lo as int, hi as int)) <= 4 {
            utf8_len(cs@.subrange(lo as int, hi as int))
        } else {
            5
        }),
{
    let mut total: usize = 0;
    let mut i = lo;
    while i < hi
        invariant
            lo <= i <= hi <= cs.len(),
            total == utf8_len(cs@.subrange(lo as int, i as int)),
            total <= 4,
        decreases hi - i,
    {
        proof {
            assert(cs@.subrange(lo as int, i + 1) == cs@.subrange(lo as int, i as int).push(cs@[i as int]));
            lemma_utf8_len_push(cs@.subrange(lo as int, i as int), cs@[i as int]);
        }
        let w = char_width(cs[i]);
        if total + w > 4 {
            proof {
                // the rest of the range only adds bytes
                lemma_utf8_len_prefix(cs@.subrange(lo as int, hi as int), (i + 1 - lo) as int);
                assert(cs@.subrange(lo as int, hi as int).take((i + 1 - lo) as int) == cs@.subrange(lo as int, i + 1));
            }
            return 5;
        }
        total = total + w;
        i += 1;
    }
    total
}

proof fn lemma_utf8_len_prefix(s: Seq<char>, k: int)
    requires
        0 <= k <= s.len(),
    ensures
        utf8_len(s.take(k)) <= utf8_len(s),
    decreases s.len() - k,
{
    if k < s.len() {
        lemma_utf8_len_prefix(s, k + 1);
        assert(s.take(k + 1).drop_last() == s.take(k));
    } else {
        assert(s.take(k) == s);
    }
}

/// Reads a clock field of at most two characters: digits only.
fn short_u32(cs: &Vec<char>, lo: usize, hi: usize) -> (r: Option<u32>)
    requires
        lo <= hi <= cs.len(),
        hi - lo <= 2,
    ensures
        r matches Some(v) ==> clock_field(cs@.subrange(lo as int, hi as int)) == Some(v as nat),
        r is None ==> clock_field(cs@.subrange(lo as int, hi as int)) is None,
{
    let ghost s = cs@.subrange(lo as int, hi as int);
    let start = lo;
    let ghost body = cs@.subrange(start as int, hi as int);
    if start == hi {
        return None;
    }
    let mut value: u32 = 0;
    let mut i = start;
    while i < hi
        invariant
            lo <= start <= i <= hi <= cs.len(),
            hi - lo <= 2,
            start < hi,
            s == cs@.subrange(lo as int, hi as int),
            body == cs@.subrange(start as int, hi as int),
            body == s,
            forall|j: int| start <= j < i ==> is_digit(#[trigger] cs@[j]),
            value == digits_value(cs@.subrange(start as int, i as int)),
            value <= 99,
            i - start <= 2,
            value < (if i - start == 0 { 1int } else if i - start == 1 { 10int } else { 100int }),
        decreases hi - i,
    {
        let c = cs[i];
        if !('0' <= c && c <= '9') {
            proof {
                assert(body[i - start] == c);
                assert(!is_digit(body[i - start]));
                assert(!(forall|j: int| 0 <= j < body.len() ==> is_digit(#[trigger] body[j])));
                assert(clock_field(s) is None);
            }
            return None;
        }
        proof {
            assert(cs@.subrange(start as int, i + 1).drop_last() == cs@.subrange(start as int, i as int));
        }
        value = value * 10 + (c as u32 - '0' as u32);
        i += 1;
    }
    proof {
        assert forall|j: int| 0 <= j < body.len() implies is_digit(#[trigger] body[j]) by {
            assert(body[j] == cs@[start + j]);
        }
    }
    Some(value)
}

/// Minutes after midnight of a `HH:MM` clock.
pub fn parse_clock(value: &str, path: &str) -> (r: Result<u32, AppError>)
    ensures
        match clock_reading(value@) {
            Ok(m) => r matches Ok(v) && v == m,
            Err(message) => r matches Err(e) && e.is(
                ErrorKind::Validation,
                "invalid_clock"@,
                path@,
                message,
            ),
        },
{
    reveal(clock_reading);
    let cs = chars_of(value);
    let n = cs.len();
    let mut colon: usize = 0;
    while colon < n && cs[colon] != ':'
        invariant
            cs@ == value@,
            n == cs.len(),
            colon <= n,
            forall|j: int| 0 <= j < colon ==> value@[j] != ':',
        decreases n - colon,
    {
        colon += 1;
    }
    if colon == n {
        return Err(AppError::validation("invalid_clock", path, "clock must be HH:MM"));
    }
    proof {
        let i = choose|i: int| 0 <= i < value@.len() && value@[i] == ':' && forall|j: int| 0 <= j < i ==> value@[j] != ':';
        assert(i == colon) by {
            if i < colon {
                assert(value@[i] != ':');
            }
            if i > colon {
                assert(value@[colon as int] != ':');
            }
        }
        assert(first_colon(value@) == Some(colon as int));
        assert(value@.take(colon as int) == cs@.subrange(0, colon as int));
        assert(value@.skip(colon + 1) == cs@.subrange(colon + 1, n as int));
    }
    let hours_len = byte_len_upto4(&cs, 0, colon);
    let minutes_len = byte_len_upto4(&cs, colon + 1, n);
    if hours_len != 2 || minutes_len != 2 {
        return Err(AppError::validation("invalid_clock", path, "clock must be normalized to HH:MM"));
    }
    proof {
        lemma_utf8_len_bounds(cs@.subrange(0, colon as int));
        lemma_utf8_len_bounds(cs@.subrange(colon + 1, n as int));
    }
    let hours = short_u32(&cs, 0, colon);
    let minutes = short_u32(&cs, colon + 1, n);
    match (hours, minutes) {
        (Some(h), Some(m)) => {
            if h < 24 && m < 60 {
                Ok(h * 60 + m)
            } else {
                Err(AppError::validation("invalid_clock", path, "clock is outside the day"))
            }
        },
        _ => Err(AppError::validation("invalid_clock", path, "clock is outside the day")),
    }
}

/// Reads an RFC 3339 timestamp.
pub fn parse_timestamp(value: &str, path: &str) -> (r: Result<Moment, AppError>)
    ensures
        match rfc3339_reading(value@) {
            Some(t) => r matches Ok(m) && (m.seconds, m.nanos, m.offset) == t,
            None => r matches Err(e) && e.is(
                ErrorKind::Validation,
                "invalid_timestamp"@,
                path@,
                "timestamp must be RFC 3339"@,
            ),
        },
        r matches Ok(m) ==> RFC3339_MIN_SECONDS <= m.seconds <= RFC3339_MAX_SECONDS && m.nanos
            < 2_000_000_000 && offset_ok(m.offset as int),
{
    match parse_rfc3339(value) {
        Some(m) => Ok(m),
        None => Err(AppError::validation("invalid_timestamp", path, "timestamp must be RFC 3339")),
    }
}


/// An error that a check reports, as kind, code, path and message.
pub ghost struct Fault {
    pub kind: ErrorKind,
    pub code: Seq<char>,
    pub path: Seq<char>,
    pub message: Seq<char>,
}

pub open spec fn invalid(code: Seq<char>, path: Seq<char>, message: Seq<char>) -> Option<Fault> {
    Some(Fault { kind: ErrorKind::Validation, code, path, message })
}

/// The first of two checks that fails, in order.
pub open spec fn first_of(a: Option<Fault>, b: Option<Fault>) -> Option<Fault> {
    if a is Some {
        a
    } else {
        b
    }
}

/// `r` reports `f`: success when `f` is none, else an error carrying `f`.
pub open spec fn reports<T>(r: Result<T, AppError>, f: Option<Fault>) -> bool {
    match f {
        None => r is Ok,
        Some(f) => fails_with(r, f.kind, f.code, f.path, f.message),
    }
}

pub open spec fn required_fault(value: Seq<char>, path: Seq<char>) -> Option<Fault> {
    if is_blank_text(value) {
        invalid("required"@, path, "value is required"@)
    } else {
        None
    }
}

pub open spec fn timestamp_fault(value: Seq<char>, path: Seq<char>) -> Option<Fault> {
    if rfc3339_reading(value) is None {
        invalid("invalid_timestamp"@, path, "timestamp must be RFC 3339"@)
    } else {
        None
    }
}

pub open spec fn clock_fault(value: Seq<char>, path: Seq<char>) -> Option<Fault> {
    match clock_reading(value) {
        Ok(_) => None,
        Err(message) => invalid("invalid_clock"@, path, message),
    }
}

pub open spec fn range_fault(value: int, min: nat, max: nat, path: Seq<char>) -> Option<Fault> {
    if min <= value <= max {
        None
    } else {
        invalid(
            "out_of_range"@,
            path,
            "value must be between "@ + decimal(min) + " and "@ + decimal(max),
        )
    }
}

pub open spec fn negative_fault(value: int, path: Seq<char>) -> Option<Fault> {
    if value < 0 {
        invalid("negative_value"@, path, "value must be non-negative"@)
    } else {
        None
    }
}

/// Fails with "required" when the value is nothing but white space.
fn required(value: &str, path: &str) -> (r: Result<(), AppError>)
    ensures
        reports(r, required_fault(value@, path@)),
{
    if is_blank(value) {
        Err(AppError::validation("required", path, "value is required"))
    } else {
        Ok(())
    }
}

/// Fails with "out_of_range" unless `min <= value <= max`.
fn range(value: u32, min: u32, max: u32, path: &str) -> (r: Result<(), AppError>)
    ensures
        reports(r, range_fault(value as int, min as nat, max as nat, path@)),
{
    if !(min <= value && value <= max) {
        let mut message = String::from_str("value must be between ");
        push_decimal(&mut message, min as u64);
        message.append(" and ");
        push_decimal(&mut message, max as u64);
        return Err(AppError::validation("out_of_range", path, message.as_str()));
    }
    Ok(())
}

fn non_negative(value: i64, path: &str) -> (r: Result<(), AppError>)
    ensures
        reports(r, negative_fault(value as int, path@)),
{
    if value < 0 {
        Err(AppError::validation("negative_value", path, "value must be non-negative"))
    } else {
        Ok(())
    }
}

fn check_clock(value: &str, path: &str) -> (r: Result<(), AppError>)
    ensures
        reports(r, clock_fault(value@, path@)),
{
    match parse_clock(value, path) {
        Ok(_) => Ok(()),
        Err(e) => Err(e),
    }
}

fn check_timestamp(value: &str, path: &str) -> (r: Result<(), AppError>)
    ensures
        reports(r, timestamp_fault(value@, path@)),
{
    match parse_timestamp(value, path) {
        Ok(_) => Ok(()),
        Err(e) => Err(e),
    }
}

/// The names of the seven weekdays, as availability keys.
pub open spec fn is_weekday_key(day: Seq<char>) -> bool {
    ||| day == "monday"@
    ||| day == "tuesday"@
    ||| day == "wednesday"@
    ||| day == "thursday"@
    ||| day == "friday"@
    ||| day == "saturday"@
    ||| day == "sunday"@
}

fn text_is(s: &String, literal: &str) -> (r: bool)
    ensures
        r == (s@ == literal@),
{
    *s == String::from_str(literal)
}

fn weekday_key(day: &String) -> (r: bool)
    ensures
        r == is_weekday_key(day@),
{
    text_is(day, "monday") || text_is(day, "tuesday") || text_is(day, "wednesday") || text_is(
        day,
        "thursday",
    ) || text_is(day, "friday") || text_is(day, "saturday") || text_is(day, "sunday")
}

/// `settings.availability.<day>`
pub open spec fn day_path(day: Seq<char>) -> Seq<char> {
    "settings.availability."@ + day
}

/// The check of one window of a day.
pub open spec fn window_fault(day: Seq<char>, index: nat, start: Seq<char>, end: Seq<char>) -> Option<
    Fault,
> {
    let path = indexed(day_path(day), index);
    first_of(
        clock_fault(start, path + ".start"@),
        first_of(
            clock_fault(end, path + ".end"@),
            if clock_reading(end)->Ok_0 <= clock_reading(start)->Ok_0 {
                invalid("invalid_window"@, path, "window must end after it starts"@)
            } else {
                None
            },
        ),
    )
}

/// The checks of the windows of an availability entry, from the `from`th on.
pub open spec fn windows_fault(settings: Settings, d: int, from: int) -> Option<Fault>
    decreases settings.availability[d].windows.len() - from,
{
    if from < 0 || from >= settings.availability[d].windows.len() {
        None
    } else {
        let w = settings.availability[d].windows[from];
        first_of(
            window_fault(settings.availability[d].day@, from as nat, w.start@, w.end@),
            windows_fault(settings, d, from + 1),
        )
    }
}

/// The checks of one availability entry.
pub open spec fn day_fault(settings: Settings, d: int) -> Option<Fault> {
    let day = settings.availability[d].day@;
    if !is_weekday_key(day) {
        invalid("unknown_weekday"@, day_path(day), "weekday is not recognized"@)
    } else if settings.availability[d].windows.len() == 0 {
        invalid("empty_day"@, day_path(day), "configured days need a window"@)
    } else {
        windows_fault(settings, d, 0)
    }
}

/// The checks of the availability entries, from the `from`th on.
pub open spec fn days_fault(settings: Settings, from: int) -> Option<Fault>
    decreases settings.availability.len() - from,
{
    if from < 0 || from >= settings.availability.len() {
        None
    } else {
        first_of(day_fault(settings, from), days_fault(settings, from + 1))
    }
}

/// The availability lists its days in ascending order of the day's name,
/// each once, as a map keyed by the name holds them.
pub open spec fn days_ascending(settings: Settings) -> bool {
    forall|i: int, j: int|
        0 <= i < j < settings.availability.len() ==> crate::text::text_lt(
            #[trigger] settings.availability@[i].day@,
            #[trigger] settings.availability@[j].day@,
        )
}

/// What `validate_availability` reports.
pub open spec fn availability_fault(settings: Settings) -> Option<Fault> {
    first_of(
        days_fault(settings, 0),
        if settings.availability.len() == 0 {
            invalid(
                "availability_required"@,
                "settings.availability"@,
                "at least one weekly availability window is required"@,
            )
        } else {
            None
        },
    )
}

fn validate_window(day: &String, index: usize, start: &String, end: &String) -> (r: Result<(), AppError>)
    ensures
        reports(r, window_fault(day@, index as nat, start@, end@)),
{
    let prefix = concat("settings.availability.", day.as_str());
    let path = indexed_path(prefix.as_str(), index);
    let start_path = concat(path.as_str(), ".start");
    let end_path = concat(path.as_str(), ".end");
    let s = match parse_clock(start.as_str(), start_path.as_str()) {
        Ok(s) => s,
        Err(e) => {
            return Err(e);
        },
    };
    let e = match parse_clock(end.as_str(), end_path.as_str()) {
        Ok(e) => e,
        Err(err) => {
            return Err(err);
        },
    };
    if e <= s {
        return Err(AppError::validation("invalid_window", path.as_str(), "window must end after it starts"));
    }
    Ok(())
}

/// Checks the weekly availability: known weekday names, at least one window
/// on each configured day, well-formed windows, and at least one window.
pub fn validate_availability(settings: &Settings) -> (r: Result<(), AppError>)
    requires
        days_ascending(*settings),
    ensures
        reports(r, availability_fault(*settings)),
{
    let mut d: usize = 0;
    while d < settings.availability.len()
        invariant
            d <= settings.availability.len(),
            days_fault(*settings, 0) == days_fault(*settings, d as int),
        decreases settings.availability.len() - d,
    {
        let entry = &settings.availability[d];
        if !weekday_key(&entry.day) {
            let path = concat("settings.availability.", entry.day.as_str());
            return Err(AppError::validation("unknown_weekday", path.as_str(), "weekday is not recognized"));
        }
        if entry.windows.len() == 0 {
            let path = concat("settings.availability.", entry.day.as_str());
            return Err(AppError::validation("empty_day", path.as_str(), "configured days need a window"));
        }
        let mut w: usize = 0;
        while w < entry.windows.len()
            invariant
                d < settings.availability.len(),
                *entry == settings.availability[d as int],
                w <= entry.windows.len(),
                windows_fault(*settings, d as int, 0) == windows_fault(*settings, d as int, w as int),
                days_fault(*settings, 0) == days_fault(*settings, d as int),
                day_fault(*settings, d as int) == windows_fault(*settings, d as int, 0),
            decreases entry.windows.len() - w,
        {
            let window = &entry.windows[w];
            match validate_window(&entry.day, w, &window.start, &window.end) {
                Ok(()) => {},
                Err(e) => {
                    return Err(e);
                },
            }
            w += 1;
        }
        d += 1;
    }
    if settings.availability.len() == 0 {
        return Err(
            AppError::validation(
                "availability_required",
                "settings.availability",
                "at least one weekly availability window is required",
            ),
        );
    }
    Ok(())
}

/// What `validate_settings` reports, in the order of its checks.
pub open spec fn settings_fault(settings: Settings) -> Option<Fault> {
    if !tz_known(settings.timezone@) {
        invalid("invalid_timezone"@, "settings.timezone"@, "timezone must be an IANA name"@)
    } else {
        first_of(
            range_fault(settings.horizon_days as int, 1, 90, "settings.horizonDays"@),
            first_of(
                range_fault(settings.slot_minutes as int, 5, 120, "settings.slotMinutes"@),
                first_of(
                    range_fault(settings.solve_seconds as int, 1, 120, "settings.solveSeconds"@),
                    first_of(weights_fault(settings), first_of(clocks_fault(settings), availability_fault(settings))),
                ),
            ),
        )
    }
}

/// The non-negative weights and penalties, then the streak limit.
pub open spec fn weights_fault(settings: Settings) -> Option<Fault> {
    first_of(
        negative_fault(settings.priority_low_weight as int, "settings.priorityLowWeight"@),
        first_of(
            negative_fault(settings.priority_normal_weight as int, "settings.priorityNormalWeight"@),
            first_of(
                negative_fault(settings.priority_high_weight as int, "settings.priorityHighWeight"@),
                first_of(
                    negative_fault(settings.low_outside_penalty as int, "settings.lowOutsidePenalty"@),
                    first_of(
                        negative_fault(
                            settings.medium_outside_penalty as int,
                            "settings.mediumOutsidePenalty"@,
                        ),
                        first_of(
                            negative_fault(
                                settings.high_outside_penalty as int,
                                "settings.highOutsidePenalty"@,
                            ),
                            first_of(
                                negative_fault(
                                    settings.excess_high_penalty as int,
                                    "settings.excessHighPenalty"@,
                                ),
                                if settings.high_streak_limit < 1 {
                                    Some(
                                        Fault {
                                            kind: ErrorKind::Validation,
                                            code: "out_of_range"@,
                                            path: "settings.highStreakLimit"@,
                                            message: "high streak limit must be at least one"@,
                                        },
                                    )
                                } else {
                                    None
                                },
                            ),
                        ),
                    ),
                ),
            ),
        ),
    )
}

/// The six cognitive-window clocks.
pub open spec fn clocks_fault(settings: Settings) -> Option<Fault> {
    first_of(
        clock_fault(settings.low_window_start@, "settings.lowWindowStart"@),
        first_of(
            clock_fault(settings.low_window_end@, "settings.lowWindowEnd"@),
            first_of(
                clock_fault(settings.medium_window_start@, "settings.mediumWindowStart"@),
                first_of(
                    clock_fault(settings.medium_window_end@, "settings.mediumWindowEnd"@),
                    first_of(
                        clock_fault(settings.high_window_start@, "settings.highWindowStart"@),
                        clock_fault(settings.high_window_end@, "settings.highWindowEnd"@),
                    ),
                ),
            ),
        ),
    )
}

/// Checks the settings: a known zone, ranges, non-negative weights, the
/// streak limit, the cognitive-window clocks and the availability.
pub fn validate_settings(settings: &Settings) -> (r: Result<(), AppError>)
    requires
        days_ascending(*settings),
    ensures
        reports(r, settings_fault(*settings)),
{
    if !timezone_exists(settings.timezone.as_str()) {
        return Err(
            AppError::validation(
                "invalid_timezone",
                "settings.timezone",
                "timezone must be an IANA name",
            ),
        );
    }
    if let Err(e) = range(settings.horizon_days, 1, 90, "settings.horizonDays") {
        return Err(e);
    }
    if let Err(e) = range(settings.slot_minutes, 5, 120, "settings.slotMinutes") {
        return Err(e);
    }
    if let Err(e) = range(settings.solve_seconds, 1, 120, "settings.solveSeconds") {
        return Err(e);
    }
    if let Err(e) = non_negative(settings.priority_low_weight, "settings.priorityLowWeight") {
        return Err(e);
    }
    if let Err(e) = non_negative(settings.priority_normal_weight, "settings.priorityNormalWeight") {
        return Err(e);
    }
    if let Err(e) = non_negative(settings.priority_high_weight, "settings.priorityHighWeight") {
        return Err(e);
    }
    if let Err(e) = non_negative(settings.low_outside_penalty, "settings.lowOutsidePenalty") {
        return Err(e);
    }
    if let Err(e) = non_negative(settings.medium_outside_penalty, "settings.mediumOutsidePenalty") {
        return Err(e);
    }
    if let Err(e) = non_negative(settings.high_outside_penalty, "settings.highOutsidePenalty") {
        return Err(e);
    }
    if let Err(e) = non_negative(settings.excess_high_penalty, "settings.excessHighPenalty") {
        return Err(e);
    }
    if settings.high_streak_limit < 1 {
        return Err(
            AppError::validation(
                "out_of_range",
                "settings.highStreakLimit",
                "high streak limit must be at least one",
            ),
        );
    }
    if let Err(e) = check_clock(settings.low_window_start.as_str(), "settings.lowWindowStart") {
        return Err(e);
    }
    if let Err(e) = check_clock(settings.low_window_end.as_str(), "settings.lowWindowEnd") {
        return Err(e);
    }
    if let Err(e) = check_clock(settings.medium_window_start.as_str(), "settings.mediumWindowStart") {
        return Err(e);
    }
    if let Err(e) = check_clock(settings.medium_window_end.as_str(), "settings.mediumWindowEnd") {
        return Err(e);
    }
    if let Err(e) = check_clock(settings.high_window_start.as_str(), "settings.highWindowStart") {
        return Err(e);
    }
    if let Err(e) = check_clock(settings.high_window_end.as_str(), "settings.highWindowEnd") {
        return Err(e);
    }
    validate_availability(settings)
}


/// The instant that `rfc3339_reading` gives, without its offset.
pub open spec fn reading_before(a: (i64, u32, i32), b: (i64, u32, i32)) -> bool {
    a.0 < b.0 || (a.0 == b.0 && a.1 < b.1)
}

/// What `validate_event` reports for an event at a path, in check order.
pub open spec fn event_fault(event: Event, path: Seq<char>) -> Option<Fault> {
    first_of(
        required_fault(event.id@, path + ".id"@),
        first_of(
            required_fault(event.title@, path + ".title"@),
            first_of(
                timestamp_fault(event.start_at@, path + ".startAt"@),
                first_of(
                    timestamp_fault(event.end_at@, path + ".endAt"@),
                    if !reading_before(
                        rfc3339_reading(event.start_at@)->Some_0,
                        rfc3339_reading(event.end_at@)->Some_0,
                    ) {
                        invalid("invalid_interval"@, path, "event end must be after start"@)
                    } else if !tz_known(event.timezone@) {
                        invalid(
                            "invalid_timezone"@,
                            path + ".timezone"@,
                            "event timezone must be an IANA name"@,
                        )
                    } else if event.rrule matches Some(rule) && is_blank_text(rule@) {
                        invalid("invalid_rrule"@, path + ".rrule"@, "rrule cannot be empty"@)
                    } else {
                        None
                    },
                ),
            ),
        ),
    )
}

/// Checks one event: id and title present, a start before an end, a known
/// zone, and no blank recurrence rule.
pub fn validate_event(event: &Event, path: &str) -> (r: Result<(), AppError>)
    ensures
        reports(r, event_fault(*event, path@)),
{
    let id_path = concat(path, ".id");
    if let Err(e) = required(event.id.as_str(), id_path.as_str()) {
        return Err(e);
    }
    let title_path = concat(path, ".title");
    if let Err(e) = required(event.title.as_str(), title_path.as_str()) {
        return Err(e);
    }
    let start_path = concat(path, ".startAt");
    let start = match parse_timestamp(event.start_at.as_str(), start_path.as_str()) {
        Ok(m) => m,
        Err(e) => {
            return Err(e);
        },
    };
    let end_path = concat(path, ".endAt");
    let end = match parse_timestamp(event.end_at.as_str(), end_path.as_str()) {
        Ok(m) => m,
        Err(e) => {
            return Err(e);
        },
    };
    if !is_before(&start, &end) {
        return Err(AppError::validation("invalid_interval", path, "event end must be after start"));
    }
    if !timezone_exists(event.timezone.as_str()) {
        let tz_path = concat(path, ".timezone");
        return Err(
            AppError::validation(
                "invalid_timezone",
                tz_path.as_str(),
                "event timezone must be an IANA name",
            ),
        );
    }
    if let Some(rule) = &event.rrule {
        if is_blank(rule.as_str()) {
            let rule_path = concat(path, ".rrule");
            return Err(AppError::validation("invalid_rrule", rule_path.as_str(), "rrule cannot be empty"));
        }
    }
    Ok(())
}

/// What `validate_task` reports for a task at a path, in check order.
pub open spec fn task_fault(task: Task, path: Seq<char>) -> Option<Fault> {
    first_of(
        required_fault(task.id@, path + ".id"@),
        first_of(
            required_fault(task.title@, path + ".title"@),
            first_of(
                if task.duration_minutes == 0 {
                    invalid(
                        "invalid_duration"@,
                        path + ".durationMinutes"@,
                        "duration must be greater than zero"@,
                    )
                } else {
                    None
                },
                first_of(
                    match task.earliest_at {
                        Some(earliest) => timestamp_fault(earliest@, path + ".earliestAt"@),
                        None => None,
                    },
                    first_of(deadline_fault(task, path), if task.state != TaskState::Inbox
                        && task.linked_event_id is None {
                        invalid(
                            "missing_linked_event"@,
                            path + ".linkedEventId"@,
                            "applied tasks require a linked event"@,
                        )
                    } else {
                        None
                    }),
                ),
            ),
        ),
    )
}

/// A deadline matches its kind and reads as a timestamp.
pub open spec fn deadline_fault(task: Task, path: Seq<char>) -> Option<Fault> {
    match (task.deadline_kind, task.deadline_at) {
        (DeadlineKind::NoDeadline, Some(_)) => invalid(
            "contradictory_deadline"@,
            path,
            "deadlineAt requires a hard or soft deadline"@,
        ),
        (DeadlineKind::NoDeadline, None) => None,
        (_, None) => invalid(
            "missing_deadline"@,
            path + ".deadlineAt"@,
            "deadlineAt is required for this deadline kind"@,
        ),
        (_, Some(deadline)) => timestamp_fault(deadline@, path + ".deadlineAt"@),
    }
}

/// Checks one task: id and title present, a positive duration, readable
/// timestamps, a deadline that matches its kind, and a linked event for
/// every task that is no longer in the inbox.
pub fn validate_task(task: &Task, path: &str) -> (r: Result<(), AppError>)
    ensures
        reports(r, task_fault(*task, path@)),
{
    let id_path = concat(path, ".id");
    if let Err(e) = required(task.id.as_str(), id_path.as_str()) {
        return Err(e);
    }
    let title_path = concat(path, ".title");
    if let Err(e) = required(task.title.as_str(), title_path.as_str()) {
        return Err(e);
    }
    if task.duration_minutes == 0 {
        let duration_path = concat(path, ".durationMinutes");
        return Err(
            AppError::validation(
                "invalid_duration",
                duration_path.as_str(),
                "duration must be greater than zero",
            ),
        );
    }
    if let Some(earliest) = &task.earliest_at {
        let earliest_path = concat(path, ".earliestAt");
        if let Err(e) = check_timestamp(earliest.as_str(), earliest_path.as_str()) {
            return Err(e);
        }
    }
    match (&task.deadline_kind, &task.deadline_at) {
        (DeadlineKind::NoDeadline, Some(_)) => {
            return Err(
                AppError::validation(
                    "contradictory_deadline",
                    path,
                    "deadlineAt requires a hard or soft deadline",
                ),
            );
        },
        (DeadlineKind::NoDeadline, None) => {},
        (_, None) => {
            let deadline_path = concat(path, ".deadlineAt");
            return Err(
                AppError::validation(
                    "missing_deadline",
                    deadline_path.as_str(),
                    "deadlineAt is required for this deadline kind",
                ),
            );
        },
        (_, Some(deadline)) => {
            let deadline_path = concat(path, ".deadlineAt");
            if let Err(e) = check_timestamp(deadline.as_str(), deadline_path.as_str()) {
                return Err(e);
            }
        },
    }
    if task.state != TaskState::Inbox && task.linked_event_id.is_none() {
        let linked_path = concat(path, ".linkedEventId");
        return Err(
            AppError::validation(
                "missing_linked_event",
                linked_path.as_str(),
                "applied tasks require a linked event",
            ),
        );
    }
    Ok(())
}


/// An earlier event than the `i`th has its id.
pub open spec fn event_id_seen(events: Seq<Event>, i: int) -> bool {
    exists|j: int| 0 <= j < i && events[j].id@ == events[i].id@
}

/// The checks of the events from the `from`th on: each event, then its id
/// against the ids before it.
pub open spec fn events_fault(events: Seq<Event>, from: int) -> Option<Fault>
    decreases events.len() - from,
{
    if from < 0 || from >= events.len() {
        None
    } else {
        let path = indexed("events"@, from as nat);
        first_of(
            event_fault(events[from], path),
            first_of(
                if event_id_seen(events, from) {
                    invalid("duplicate_id"@, path + ".id"@, "event id is duplicated"@)
                } else {
                    None
                },
                events_fault(events, from + 1),
            ),
        )
    }
}

/// An earlier task than the `i`th has its id.
pub open spec fn task_id_seen(tasks: Seq<Task>, i: int) -> bool {
    exists|j: int| 0 <= j < i && tasks[j].id@ == tasks[i].id@
}

/// The checks of the tasks from the `from`th on.
pub open spec fn tasks_fault(tasks: Seq<Task>, from: int) -> Option<Fault>
    decreases tasks.len() - from,
{
    if from < 0 || from >= tasks.len() {
        None
    } else {
        let path = indexed("tasks"@, from as nat);
        first_of(
            task_fault(tasks[from], path),
            first_of(
                if task_id_seen(tasks, from) {
                    invalid("duplicate_id"@, path + ".id"@, "task id is duplicated"@)
                } else {
                    None
                },
                tasks_fault(tasks, from + 1),
            ),
        )
    }
}

/// Some task has the id.
pub open spec fn has_task(tasks: Seq<Task>, id: Seq<char>) -> bool {
    exists|j: int| 0 <= j < tasks.len() && tasks[j].id@ == id
}

/// The key under which a dependency counts as a duplicate: both ids joined
/// by a NUL character.
pub open spec fn dependency_key(d: Dependency) -> Seq<char> {
    d.from_task_id@ + seq!['\0'] + d.to_task_id@
}

/// The check of the `k`th dependency.
pub open spec fn dependency_fault(tasks: Seq<Task>, deps: Seq<Dependency>, k: int) -> Option<Fault> {
    let path = indexed("dependencies"@, k as nat);
    if deps[k].from_task_id@ == deps[k].to_task_id@ {
        invalid("self_dependency"@, path, "a task cannot depend on itself"@)
    } else if !has_task(tasks, deps[k].from_task_id@) || !has_task(tasks, deps[k].to_task_id@) {
        invalid("missing_task"@, path, "dependency refers to a missing task"@)
    } else if exists|j: int| 0 <= j < k && dependency_key(deps[j]) == dependency_key(deps[k]) {
        invalid("duplicate_dependency"@, path, "dependency is duplicated"@)
    } else {
        None
    }
}

/// The checks of the dependencies from the `from`th on.
pub open spec fn dependencies_fault(tasks: Seq<Task>, deps: Seq<Dependency>, from: int) -> Option<
    Fault,
>
    decreases deps.len() - from,
{
    if from < 0 || from >= deps.len() {
        None
    } else {
        first_of(dependency_fault(tasks, deps, from), dependencies_fault(tasks, deps, from + 1))
    }
}

/// The dependencies form a DAG: some ranking of task ids by natural numbers
/// puts every task after each task it depends on.
pub open spec fn is_dag(deps: Seq<Dependency>) -> bool {
    exists|rank: spec_fn(Seq<char>) -> nat| ranks_dependencies(deps, rank)
}

pub open spec fn ranks_dependencies(deps: Seq<Dependency>, rank: spec_fn(Seq<char>) -> nat) -> bool {
    forall|k: int|
        0 <= k < deps.len() ==> rank(#[trigger] deps[k].from_task_id@) < rank(
            deps[k].to_task_id@,
        )
}

/// What `validate_request` reports for a request, in the order of its checks.
pub open spec fn request_fault(request: Request) -> Option<Fault> {
    if request.protocol_version != PROTOCOL_VERSION {
        Some(
            Fault {
                kind: ErrorKind::Protocol,
                code: "unsupported_protocol_version"@,
                path: "protocolVersion"@,
                message: "expected protocol version 1"@,
            },
        )
    } else {
        first_of(
            if is_blank_text(request.request_id@) {
                invalid("required"@, "requestId"@, "requestId is required"@)
            } else {
                None
            },
            first_of(
                timestamp_fault(request.now@, "now"@),
                first_of(
                    settings_fault(request.settings),
                    first_of(
                        events_fault(request.events@, 0),
                        first_of(
                            tasks_fault(request.tasks@, 0),
                            first_of(
                                dependencies_fault(request.tasks@, request.dependencies@, 0),
                                if !is_dag(request.dependencies@) {
                                    invalid(
                                        "dependency_cycle"@,
                                        "dependencies"@,
                                        "dependencies must form a DAG"@,
                                    )
                                } else {
                                    None
                                },
                            ),
                        ),
                    ),
                ),
            ),
        )
    }
}

/// A request that passes every check.
pub open spec fn request_valid(request: Request) -> bool {
    request_fault(request) is None
}

/// Whether an earlier event than the `i`th has its id.
fn seen_event_id(events: &Vec<Event>, i: usize) -> (r: bool)
    requires
        i < events.len(),
    ensures
        r == event_id_seen(events@, i as int),
{
    let mut j: usize = 0;
    while j < i
        invariant
            i < events.len(),
            j <= i,
            forall|k: int| 0 <= k < j ==> events@[k].id@ != events@[i as int].id@,
        decreases i - j,
    {
        if events[j].id == events[i].id {
            return true;
        }
        j += 1;
    }
    false
}

/// Whether an earlier task than the `i`th has its id.
fn seen_task_id(tasks: &Vec<Task>, i: usize) -> (r: bool)
    requires
        i < tasks.len(),
    ensures
        r == task_id_seen(tasks@, i as int),
{
    let mut j: usize = 0;
    while j < i
        invariant
            i < tasks.len(),
            j <= i,
            forall|k: int| 0 <= k < j ==> tasks@[k].id@ != tasks@[i as int].id@,
        decreases i - j,
    {
        if tasks[j].id == tasks[i].id {
            return true;
        }
        j += 1;
    }
    false
}

/// The index of the first task with the id.
pub fn find_task(tasks: &Vec<Task>, id: &String) -> (r: Option<usize>)
    ensures
        match r {
            Some(i) => i < tasks.len() && tasks@[i as int].id@ == id@ && forall|j: int|
                0 <= j < i ==> tasks@[j].id@ != id@,
            None => !has_task(tasks@, id@),
        },
{
    let mut j: usize = 0;
    while j < tasks.len()
        invariant
            j <= tasks.len(),
            forall|k: int| 0 <= k < j ==> tasks@[k].id@ != id@,
        decreases tasks.len() - j,
    {
        if tasks[j].id == *id {
            return Some(j);
        }
        j += 1;
    }
    None
}

fn same_key(a: &Dependency, b: &Dependency) -> (r: bool)
    ensures
        r == (dependency_key(*a) == dependency_key(*b)),
{
    let mut ka = a.from_task_id.clone();
    crate::text::push_char(&mut ka, '\0');
    ka.append(a.to_task_id.as_str());
    let mut kb = b.from_task_id.clone();
    crate::text::push_char(&mut kb, '\0');
    kb.append(b.to_task_id.as_str());
    assert(ka@ =~= dependency_key(*a));
    assert(kb@ =~= dependency_key(*b));
    ka == kb
}

fn check_dependency(tasks: &Vec<Task>, deps: &Vec<Dependency>, k: usize) -> (r: Result<(), AppError>)
    requires
        k < deps.len(),
    ensures
        reports(r, dependency_fault(tasks@, deps@, k as int)),
{
    let path = indexed_path("dependencies", k);
    let d = &deps[k];
    if d.from_task_id == d.to_task_id {
        return Err(AppError::validation("self_dependency", path.as_str(), "a task cannot depend on itself"));
    }
    if find_task(tasks, &d.from_task_id).is_none() || find_task(tasks, &d.to_task_id).is_none() {
        return Err(AppError::validation("missing_task", path.as_str(), "dependency refers to a missing task"));
    }
    let mut j: usize = 0;
    while j < k
        invariant
            k < deps.len(),
            j <= k,
            *d == deps@[k as int],
            d.from_task_id@ != d.to_task_id@,
            has_task(tasks@, d.from_task_id@),
            has_task(tasks@, d.to_task_id@),
            path@ == indexed("dependencies"@, k as nat),
            forall|i: int| 0 <= i < j ==> dependency_key(deps@[i]) != dependency_key(deps@[k as int]),
        decreases k - j,
    {
        if same_key(&deps[j], d) {
            assert(0 <= j < k && dependency_key(deps@[j as int]) == dependency_key(deps@[k as int]));
            return Err(AppError::validation("duplicate_dependency", path.as_str(), "dependency is duplicated"));
        }
        j += 1;
    }
    Ok(())
}


/// Task ids are pairwise distinct.
pub open spec fn unique_task_ids(tasks: Seq<Task>) -> bool {
    forall|i: int, j: int| 0 <= i < tasks.len() && 0 <= j < tasks.len() && i != j ==> tasks[i].id@ != tasks[j].id@
}

/// Every dependency names tasks of the list.
pub open spec fn dependencies_known(tasks: Seq<Task>, deps: Seq<Dependency>) -> bool {
    forall|k: int|
        0 <= k < deps.len() ==> has_task(tasks, #[trigger] deps[k].from_task_id@) && has_task(
            tasks,
            deps[k].to_task_id@,
        )
}

/// The dependencies as pairs of task indices.
pub open spec fn edges_match(tasks: Seq<Task>, deps: Seq<Dependency>, from: Seq<usize>, to: Seq<usize>) -> bool {
    &&& from.len() == deps.len()
    &&& to.len() == deps.len()
    &&& forall|k: int|
        0 <= k < deps.len() ==> #[trigger] from[k] < tasks.len() && to[k] < tasks.len()
            && tasks[from[k] as int].id@ == deps[k].from_task_id@ && tasks[to[k] as int].id@
            == deps[k].to_task_id@
}

/// All tasks that `v` depends on have been taken.
pub open spec fn ready(removed: Seq<bool>, from: Seq<usize>, to: Seq<usize>, v: int) -> bool {
    forall|k: int| 0 <= k < to.len() && #[trigger] to[k] == v ==> removed[from[k] as int]
}

pub open spec fn count_true(s: Seq<bool>) -> nat
    decreases s.len(),
{
    if s.len() == 0 {
        0
    } else {
        count_true(s.drop_last()) + if s.last() {
            1nat
        } else {
            0nat
        }
    }
}

proof fn lemma_count_true_update(s: Seq<bool>, i: int)
    requires
        0 <= i < s.len(),
        !s[i],
    ensures
        count_true(s.update(i, true)) == count_true(s) + 1,
    decreases s.len(),
{
    if i < s.len() - 1 {
        lemma_count_true_update(s.drop_last(), i);
        assert(s.update(i, true).drop_last() == s.drop_last().update(i, true));
    } else {
        assert(s.update(i, true).drop_last() == s.drop_last());
    }
}

proof fn lemma_count_true_bound(s: Seq<bool>, i: int)
    requires
        0 <= i < s.len(),
        !s[i],
    ensures
        count_true(s) < s.len(),
    decreases s.len(),
{
    lemma_count_true_le(s.drop_last());
    if i < s.len() - 1 {
        lemma_count_true_bound(s.drop_last(), i);
    }
}

proof fn lemma_count_true_le(s: Seq<bool>)
    ensures
        count_true(s) <= s.len(),
    decreases s.len(),
{
    if s.len() > 0 {
        lemma_count_true_le(s.drop_last());
    }
}

/// In a stuck state every remaining task has a remaining task it depends
/// on; no ranking can order them all, since ranks cannot descend forever.
proof fn lemma_stuck_ranks_grow(
    tasks: Seq<Task>,
    deps: Seq<Dependency>,
    from: Seq<usize>,
    to: Seq<usize>,
    removed: Seq<bool>,
    rank: spec_fn(Seq<char>) -> nat,
    b: nat,
)
    requires
        edges_match(tasks, deps, from, to),
        removed.len() == tasks.len(),
        ranks_dependencies(deps, rank),
        forall|v: int| 0 <= v < tasks.len() && !removed[v] ==> !#[trigger] ready(removed, from, to, v),
    ensures
        forall|v: int| 0 <= v < tasks.len() && !removed[v] ==> rank(#[trigger] tasks[v].id@) >= b,
    decreases b,
{
    if b > 0 {
        lemma_stuck_ranks_grow(tasks, deps, from, to, removed, rank, (b - 1) as nat);
        assert forall|v: int| 0 <= v < tasks.len() && !removed[v] implies rank(#[trigger] tasks[v].id@) >= b by {
            assert(!ready(removed, from, to, v));
            let k = choose|k: int| 0 <= k < to.len() && #[trigger] to[k] == v && !removed[from[k] as int];
            assert(rank(deps[k].from_task_id@) < rank(deps[k].to_task_id@));
            let u = from[k] as int;
            assert(rank(tasks[u].id@) >= b - 1);
        }
    }
}

fn is_ready(removed: &Vec<bool>, from: &Vec<usize>, to: &Vec<usize>, v: usize) -> (r: bool)
    requires
        from.len() == to.len(),
        forall|k: int| 0 <= k < from.len() ==> #[trigger] from@[k] < removed.len(),
    ensures
        r == ready(removed@, from@, to@, v as int),
{
    let mut k: usize = 0;
    while k < to.len()
        invariant
            from.len() == to.len(),
            forall|k: int| 0 <= k < from.len() ==> #[trigger] from@[k] < removed.len(),
            k <= to.len(),
            forall|j: int| 0 <= j < k && #[trigger] to@[j] == v ==> removed@[from@[j] as int],
        decreases to.len() - k,
    {
        if to[k] == v && !removed[from[k]] {
            return false;
        }
        k += 1;
    }
    true
}

/// The `i`th dependency of a chain leads into the task the next one leaves.
pub open spec fn links(deps: Seq<Dependency>, chain: Seq<int>, i: int) -> bool {
    deps[chain[i]].to_task_id@ == deps[chain[i + 1]].from_task_id@
}

/// `chain` lists dependencies, each leading into the task the next one
/// leaves, and the last one back into the task the first one leaves: some
/// task reaches itself along dependency edges.
pub open spec fn closed_chain(deps: Seq<Dependency>, chain: Seq<int>) -> bool {
    &&& chain.len() > 0
    &&& forall|i: int| 0 <= i < chain.len() ==> 0 <= #[trigger] chain[i] < deps.len()
    &&& forall|i: int| 0 <= i < chain.len() - 1 ==> #[trigger] links(deps, chain, i)
    &&& deps[chain[chain.len() - 1]].to_task_id@ == deps[chain[0]].from_task_id@
}

/// Some task reaches itself along dependency edges.
pub open spec fn has_dependency_cycle(deps: Seq<Dependency>) -> bool {
    exists|chain: Seq<int>| #[trigger] closed_chain(deps, chain)
}

proof fn lemma_chain_ranks_rise(deps: Seq<Dependency>, chain: Seq<int>, rank: spec_fn(Seq<char>) -> nat, j: int)
    requires
        closed_chain(deps, chain),
        ranks_dependencies(deps, rank),
        0 <= j < chain.len(),
    ensures
        rank(deps[chain[0]].from_task_id@) + j < rank(deps[chain[j]].to_task_id@),
    decreases j,
{
    assert(0 <= chain[j] < deps.len());
    if j > 0 {
        lemma_chain_ranks_rise(deps, chain, rank, j - 1);
        assert(links(deps, chain, j - 1));
    }
}

/// A task that reaches itself along dependency edges leaves the
/// dependencies without a DAG order.
pub proof fn law_cycle_rules_out_dag(deps: Seq<Dependency>, chain: Seq<int>)
    requires
        closed_chain(deps, chain),
    ensures
        !is_dag(deps),
{
    if is_dag(deps) {
        let rank = choose|rank: spec_fn(Seq<char>) -> nat| ranks_dependencies(deps, rank);
        lemma_chain_ranks_rise(deps, chain, rank, chain.len() - 1);
    }
}

proof fn lemma_dag_has_no_cycle(deps: Seq<Dependency>)
    requires
        is_dag(deps),
    ensures
        !has_dependency_cycle(deps),
{
    if has_dependency_cycle(deps) {
        let chain = choose|chain: Seq<int>| #[trigger] closed_chain(deps, chain);
        law_cycle_rules_out_dag(deps, chain);
    }
}

/// A dependency into `v` from a task not yet taken.
spec fn open_edge(from: Seq<usize>, to: Seq<usize>, removed: Seq<bool>, v: int) -> int {
    choose|k: int| 0 <= k < to.len() && to[k] == v && !removed[from[k] as int]
}

/// The dependency into the `i`th task of `w` leaves its next task.
spec fn step_back(from: Seq<usize>, to: Seq<usize>, removed: Seq<bool>, w: Seq<int>, i: int) -> bool {
    let e = open_edge(from, to, removed, w[i]);
    0 <= e < to.len() && to[e] == w[i] && from[e] == w[i + 1]
}

/// From `start`, `m` steps back along dependencies from tasks not yet taken.
spec fn back_nodes(from: Seq<usize>, to: Seq<usize>, removed: Seq<bool>, start: int, m: nat) -> Seq<int>
    decreases m,
{
    if m == 0 {
        seq![start]
    } else {
        let w = back_nodes(from, to, removed, start, (m - 1) as nat);
        w.push(from[open_edge(from, to, removed, w.last())] as int)
    }
}

proof fn lemma_back_nodes(
    n: int,
    from: Seq<usize>,
    to: Seq<usize>,
    removed: Seq<bool>,
    start: int,
    m: nat,
)
    requires
        from.len() == to.len(),
        removed.len() == n,
        forall|k: int| 0 <= k < to.len() ==> #[trigger] from[k] < n && to[k] < n,
        forall|v: int| 0 <= v < n && !removed[v] ==> !#[trigger] ready(removed, from, to, v),
        0 <= start < n,
        !removed[start],
    ensures
        back_nodes(from, to, removed, start, m).len() == m + 1,
        back_nodes(from, to, removed, start, m)[0] == start,
        forall|i: int|
            0 <= i <= m ==> 0 <= #[trigger] back_nodes(from, to, removed, start, m)[i] < n
                && !removed[back_nodes(from, to, removed, start, m)[i]],
        forall|i: int| 0 <= i < m ==> #[trigger] step_back(from, to, removed, back_nodes(from, to, removed, start, m), i),
    decreases m,
{
    if m > 0 {
        lemma_back_nodes(n, from, to, removed, start, (m - 1) as nat);
        let w = back_nodes(from, to, removed, start, (m - 1) as nat);
        let v = w.last();
        assert(w[m - 1] == v);
        assert(!ready(removed, from, to, v));
        let e = open_edge(from, to, removed, v);
        assert(0 <= e < to.len() && to[e] == v && !removed[from[e] as int]);
        let w2 = back_nodes(from, to, removed, start, m);
        assert(w2 == w.push(from[e] as int));
        assert forall|i: int| 0 <= i < m implies #[trigger] step_back(from, to, removed, w2, i) by {
            assert(w2[i] == w[i]);
            if i < m - 1 {
                assert(step_back(from, to, removed, w, i));
                assert(w2[i + 1] == w[i + 1]);
            }
        }
    }
}

/// `n + 1` numbers below `n` hold a repeat.
proof fn lemma_pigeonhole(s: Seq<int>, n: int)
    requires
        s.len() == n + 1,
        n >= 0,
        forall|i: int| 0 <= i < s.len() ==> 0 <= #[trigger] s[i] < n,
    ensures
        exists|i: int, j: int| 0 <= i < j < s.len() && s[i] == s[j],
{
    broadcast use vstd::set::group_set_axioms, vstd::seq_lib::seq_to_set_is_finite;

    if !exists|i: int, j: int| 0 <= i < j < s.len() && s[i] == s[j] {
        assert(s.no_duplicates()) by {
            assert forall|i: int, j: int| 0 <= i < s.len() && 0 <= j < s.len() && i != j implies s[i] != s[j] by {
                if i < j {
                    assert(!(s[i] == s[j]));
                } else {
                    assert(!(s[j] == s[i]));
                }
            }
        }
        s.unique_seq_to_set();
        vstd::set_lib::lemma_int_range(0, n);
        assert(s.to_set().subset_of(vstd::set_lib::set_int_range(0, n)));
        vstd::set_lib::lemma_len_subset(s.to_set(), vstd::set_lib::set_int_range(0, n));
    }
}

/// When every task not yet taken still waits on another such task, some
/// task reaches itself along dependency edges.
proof fn lemma_stuck_has_cycle(
    tasks: Seq<Task>,
    deps: Seq<Dependency>,
    from: Seq<usize>,
    to: Seq<usize>,
    removed: Seq<bool>,
    start: int,
)
    requires
        edges_match(tasks, deps, from, to),
        removed.len() == tasks.len(),
        forall|v: int| 0 <= v < tasks.len() && !removed[v] ==> !#[trigger] ready(removed, from, to, v),
        0 <= start < tasks.len(),
        !removed[start],
    ensures
        has_dependency_cycle(deps),
{
    let n = tasks.len() as int;
    assert forall|k: int| 0 <= k < to.len() implies #[trigger] from[k] < n && to[k] < n by {}
    lemma_back_nodes(n, from, to, removed, start, n as nat);
    let w = back_nodes(from, to, removed, start, n as nat);
    lemma_pigeonhole(w, n);
    let (i, j) = choose|i: int, j: int| 0 <= i < j < w.len() && w[i] == w[j];
    let edge = |x: int| open_edge(from, to, removed, x);
    let chain = Seq::new((j - i) as nat, |t: int| edge(w[j - 1 - t]));
    assert forall|t: int| 0 <= t < chain.len() implies 0 <= #[trigger] chain[t] < deps.len() by {
        assert(step_back(from, to, removed, w, j - 1 - t));
    }
    assert forall|t: int| 0 <= t < chain.len() - 1 implies #[trigger] links(deps, chain, t) by {
        let a = open_edge(from, to, removed, w[j - 1 - t]);
        let b = open_edge(from, to, removed, w[j - 2 - t]);
        assert(step_back(from, to, removed, w, j - 1 - t));
        assert(step_back(from, to, removed, w, j - 2 - t));
        assert(to[a] == w[j - 1 - t]);
        assert(from[b] == w[j - 1 - t]);
        assert(tasks[to[a] as int].id@ == deps[a].to_task_id@);
        assert(tasks[from[b] as int].id@ == deps[b].from_task_id@);
    }
    let last = open_edge(from, to, removed, w[i]);
    let first = open_edge(from, to, removed, w[j - 1]);
    assert(chain[chain.len() - 1] == last);
    assert(chain[0] == first);
    assert(step_back(from, to, removed, w, i));
    assert(step_back(from, to, removed, w, j - 1));
    assert(to[last] == w[i]);
    assert(from[first] == w[j]);
    assert(tasks[to[last] as int].id@ == deps[last].to_task_id@);
    assert(tasks[from[first] as int].id@ == deps[first].from_task_id@);
    assert(closed_chain(deps, chain));
}

/// The position of the task with an id.
spec fn task_index(tasks: Seq<Task>, id: Seq<char>) -> int {
    choose|j: int| 0 <= j < tasks.len() && tasks[j].id@ == id
}

/// Takes, one at a time, a task whose dependencies have all been taken,
/// numbering them in turn; either all are taken and the numbers rank the
/// dependencies, or every task left waits on another, which closes a cycle.
proof fn lemma_take_in_turn(
    tasks: Seq<Task>,
    deps: Seq<Dependency>,
    from: Seq<usize>,
    to: Seq<usize>,
    removed: Seq<bool>,
    pos: Seq<nat>,
    count: nat,
)
    requires
        unique_task_ids(tasks),
        edges_match(tasks, deps, from, to),
        removed.len() == tasks.len(),
        pos.len() == tasks.len(),
        count == count_true(removed),
        forall|v: int| 0 <= v < tasks.len() && removed[v] ==> pos[v] < count,
        forall|k: int|
            0 <= k < to.len() && removed[#[trigger] to[k] as int] ==> removed[from[k] as int] && pos[from[k] as int]
                < pos[to[k] as int],
    ensures
        is_dag(deps) || has_dependency_cycle(deps),
    decreases tasks.len() - count,
{
    let n = tasks.len() as int;
    lemma_count_true_le(removed);
    if forall|v: int| 0 <= v < n ==> removed[v] {
        let rank = |id: Seq<char>|
            if has_task(tasks, id) {
                pos[task_index(tasks, id)]
            } else {
                0nat
            };
        assert forall|k: int| 0 <= k < deps.len() implies rank(#[trigger] deps[k].from_task_id@) < rank(
            deps[k].to_task_id@,
        ) by {
            let a = from[k] as int;
            let b = to[k] as int;
            assert(tasks[a].id@ == deps[k].from_task_id@);
            assert(tasks[b].id@ == deps[k].to_task_id@);
            assert(removed[b]);
            assert(task_index(tasks, deps[k].from_task_id@) == a);
            assert(task_index(tasks, deps[k].to_task_id@) == b);
        }
        assert(ranks_dependencies(deps, rank));
    } else {
        let start = choose|v: int| 0 <= v < n && !removed[v];
        if exists|v: int| 0 <= v < n && !removed[v] && #[trigger] ready(removed, from, to, v) {
            let v = choose|v: int| 0 <= v < n && !removed[v] && #[trigger] ready(removed, from, to, v);
            lemma_count_true_update(removed, v);
            lemma_count_true_bound(removed, v);
            let removed2 = removed.update(v, true);
            let pos2 = pos.update(v, count);
            assert forall|k: int|
                0 <= k < to.len() && removed2[#[trigger] to[k] as int] implies removed2[from[k] as int]
                    && pos2[from[k] as int] < pos2[to[k] as int] by {
                assert(from[k] < n && to[k] < n);
                if to[k] as int == v {
                    assert(removed[from[k] as int]);
                    assert(from[k] as int != v);
                } else {
                    assert(removed2[to[k] as int] == removed[to[k] as int]);
                    assert(removed[to[k] as int]);
                }
            }
            lemma_take_in_turn(tasks, deps, from, to, removed2, pos2, count + 1);
        } else {
            lemma_stuck_has_cycle(tasks, deps, from, to, removed, start);
        }
    }
}

/// The dependencies form a DAG exactly when no task reaches itself along
/// dependency edges.
pub proof fn law_dag_iff_no_cycle(tasks: Seq<Task>, deps: Seq<Dependency>)
    requires
        unique_task_ids(tasks),
        dependencies_known(tasks, deps),
        tasks.len() <= usize::MAX,
    ensures
        is_dag(deps) <==> !has_dependency_cycle(deps),
{
    if is_dag(deps) {
        lemma_dag_has_no_cycle(deps);
    } else {
        let from = Seq::new(deps.len(), |k: int| task_index(tasks, deps[k].from_task_id@) as usize);
        let to = Seq::new(deps.len(), |k: int| task_index(tasks, deps[k].to_task_id@) as usize);
        assert forall|k: int| 0 <= k < deps.len() implies #[trigger] from[k] < tasks.len() && to[k] < tasks.len()
            && tasks[from[k] as int].id@ == deps[k].from_task_id@ && tasks[to[k] as int].id@
            == deps[k].to_task_id@ by {
            assert(has_task(tasks, deps[k].from_task_id@));
            assert(has_task(tasks, deps[k].to_task_id@));
            let a = task_index(tasks, deps[k].from_task_id@);
            let b = task_index(tasks, deps[k].to_task_id@);
            assert(0 <= a < tasks.len() && 0 <= b < tasks.len());
            assert(from[k] as int == a);
            assert(to[k] as int == b);
        }
        assert(edges_match(tasks, deps, from, to));
        let removed = Seq::new(tasks.len(), |v: int| false);
        lemma_count_none(removed);
        lemma_take_in_turn(tasks, deps, from, to, removed, Seq::new(tasks.len(), |v: int| 0nat), 0);
    }
}

/// Whether the dependencies hold a cycle, so that no order of the tasks puts
/// each after the tasks it depends on.
pub fn has_cycle(tasks: &Vec<Task>, deps: &Vec<Dependency>) -> (r: bool)
    requires
        unique_task_ids(tasks@),
        dependencies_known(tasks@, deps@),
    ensures
        r == !is_dag(deps@),
        r == has_dependency_cycle(deps@),
{
    let n = tasks.len();
    let mut from: Vec<usize> = Vec::new();
    let mut to: Vec<usize> = Vec::new();
    let mut k: usize = 0;
    while k < deps.len()
        invariant
            k <= deps.len(),
            n == tasks.len(),
            dependencies_known(tasks@, deps@),
            edges_match(tasks@, deps@.take(k as int), from@, to@),
        decreases deps.len() - k,
    {
        proof {
            assert(has_task(tasks@, deps@[k as int].from_task_id@));
            assert(has_task(tasks@, deps@[k as int].to_task_id@));
        }
        let a = find_task(tasks, &deps[k].from_task_id);
        let b = find_task(tasks, &deps[k].to_task_id);
        match (a, b) {
            (Some(a), Some(b)) => {
                from.push(a);
                to.push(b);
            },
            _ => {
                return false;
            },
        }
        k += 1;
        proof {
            assert forall|j: int| 0 <= j < k implies #[trigger] from@[j] < tasks.len() && to@[j] < tasks.len()
                && tasks@[from@[j] as int].id@ == deps@.take(k as int)[j].from_task_id@
                && tasks@[to@[j] as int].id@ == deps@.take(k as int)[j].to_task_id@ by {
                if j < k - 1 {
                    assert(deps@.take(k as int)[j] == deps@.take(k - 1)[j]);
                }
            }
        }
    }
    assert(deps@.take(deps.len() as int) == deps@);
    let mut removed: Vec<bool> = Vec::new();
    let mut pos: Vec<usize> = Vec::new();
    let mut i: usize = 0;
    while i < n
        invariant
            i <= n,
            removed.len() == i,
            pos.len() == i,
            forall|j: int| 0 <= j < i ==> !removed@[j],
        decreases n - i,
    {
        removed.push(false);
        pos.push(0);
        i += 1;
    }
    let mut count: usize = 0;
    proof {
        assert(count_true(removed@) == 0) by {
            lemma_count_none(removed@);
        }
    }
    loop
        invariant
            n == tasks.len(),
            unique_task_ids(tasks@),
            edges_match(tasks@, deps@, from@, to@),
            removed.len() == n,
            pos.len() == n,
            count == count_true(removed@),
            count <= n,
            forall|v: int| 0 <= v < n && removed@[v] ==> pos@[v] < count,
            forall|k: int|
                0 <= k < to.len() && removed@[#[trigger] to@[k] as int] ==> removed@[from@[k] as int]
                    && pos@[from@[k] as int] < pos@[to@[k] as int],
        decreases n - count,
    {
        let mut left: Option<usize> = None;
        let mut v: usize = 0;
        while v < n
            invariant
                v <= n,
                removed.len() == n,
                match left {
                    None => forall|j: int| 0 <= j < v ==> removed@[j],
                    Some(j) => j < n && !removed@[j as int],
                },
            decreases n - v,
        {
            if !removed[v] {
                left = Some(v);
            }
            v += 1;
        }
        let first_left = match left {
            None => {
                proof {
                    let rank = |id: Seq<char>|
                        if exists|j: int| 0 <= j < n && tasks@[j].id@ == id {
                            pos@[(choose|j: int| 0 <= j < n && tasks@[j].id@ == id)] as nat
                        } else {
                            0nat
                        };
                    assert forall|k: int| 0 <= k < deps.len() implies rank(#[trigger] deps@[k].from_task_id@) < rank(
                        deps@[k].to_task_id@,
                    ) by {
                        let a = from@[k] as int;
                        let b = to@[k] as int;
                        assert(tasks@[a].id@ == deps@[k].from_task_id@);
                        assert(tasks@[b].id@ == deps@[k].to_task_id@);
                        assert(removed@[b]);
                        let ca = choose|j: int| 0 <= j < n && tasks@[j].id@ == deps@[k].from_task_id@;
                        let cb = choose|j: int| 0 <= j < n && tasks@[j].id@ == deps@[k].to_task_id@;
                        assert(ca == a);
                        assert(cb == b);
                    }
                    assert(ranks_dependencies(deps@, rank));
                    lemma_dag_has_no_cycle(deps@);
                }
                return false;
            },
            Some(j) => j,
        };
        let mut picked: Option<usize> = None;
        let mut w: usize = 0;
        while w < n
            invariant
                w <= n,
                removed.len() == n,
                edges_match(tasks@, deps@, from@, to@),
                n == tasks.len(),
                match picked {
                    None => forall|j: int| 0 <= j < w && !removed@[j] ==> !#[trigger] ready(removed@, from@, to@, j),
                    Some(j) => j < n && !removed@[j as int] && ready(removed@, from@, to@, j as int),
                },
            decreases n - w,
        {
            if picked.is_none() && !removed[w] && is_ready(&removed, &from, &to, w) {
                picked = Some(w);
            }
            w += 1;
        }
        match picked {
            None => {
                proof {
                    lemma_stuck_has_cycle(tasks@, deps@, from@, to@, removed@, first_left as int);
                    if is_dag(deps@) {
                        let rank = choose|rank: spec_fn(Seq<char>) -> nat| ranks_dependencies(deps@, rank);
                        let b = rank(tasks@[first_left as int].id@) + 1;
                        lemma_stuck_ranks_grow(tasks@, deps@, from@, to@, removed@, rank, b);
                        assert(rank(tasks@[first_left as int].id@) >= b);
                    }
                }
                return true;
            },
            Some(v) => {
                proof {
                    lemma_count_true_update(removed@, v as int);
                    lemma_count_true_bound(removed@, v as int);
                }
                removed.set(v, true);
                pos.set(v, count);
                count += 1;
            },
        }
    }
}

proof fn lemma_count_none(s: Seq<bool>)
    requires
        forall|j: int| 0 <= j < s.len() ==> !s[j],
    ensures
        count_true(s) == 0,
    decreases s.len(),
{
    if s.len() > 0 {
        lemma_count_none(s.drop_last());
    }
}


/// Checks a whole request: protocol version, request id, current moment,
/// settings, events, tasks, dependencies, and that the dependencies form a
/// DAG. The first failing check, in that order, is reported.
pub fn validate_request(request: &Request) -> (r: Result<(), AppError>)
    requires
        days_ascending(request.settings),
    ensures
        reports(r, request_fault(*request)),
{
    if request.protocol_version != PROTOCOL_VERSION {
        return Err(
            AppError::protocol(
                "unsupported_protocol_version",
                "protocolVersion",
                "expected protocol version 1",
            ),
        );
    }
    if is_blank(request.request_id.as_str()) {
        return Err(AppError::validation("required", "requestId", "requestId is required"));
    }
    if let Err(e) = check_timestamp(request.now.as_str(), "now") {
        return Err(e);
    }
    if let Err(e) = validate_settings(&request.settings) {
        return Err(e);
    }
    let events = &request.events;
    let mut i: usize = 0;
    while i < events.len()
        invariant
            *events == request.events,
            request.protocol_version == PROTOCOL_VERSION,
            !is_blank_text(request.request_id@),
            timestamp_fault(request.now@, "now"@) is None,
            settings_fault(request.settings) is None,
            i <= events.len(),
            events_fault(events@, 0) == events_fault(events@, i as int),
        decreases events.len() - i,
    {
        let path = indexed_path("events", i);
        if let Err(e) = validate_event(&events[i], path.as_str()) {
            return Err(e);
        }
        if seen_event_id(events, i) {
            let id_path = concat(path.as_str(), ".id");
            return Err(AppError::validation("duplicate_id", id_path.as_str(), "event id is duplicated"));
        }
        i += 1;
    }
    let tasks = &request.tasks;
    let mut i: usize = 0;
    while i < tasks.len()
        invariant
            *tasks == request.tasks,
            request.protocol_version == PROTOCOL_VERSION,
            !is_blank_text(request.request_id@),
            timestamp_fault(request.now@, "now"@) is None,
            settings_fault(request.settings) is None,
            events_fault(request.events@, 0) is None,
            i <= tasks.len(),
            tasks_fault(tasks@, 0) == tasks_fault(tasks@, i as int),
            forall|a: int, b: int| 0 <= a < i && 0 <= b < i && a != b ==> tasks@[a].id@ != tasks@[b].id@,
        decreases tasks.len() - i,
    {
        let path = indexed_path("tasks", i);
        if let Err(e) = validate_task(&tasks[i], path.as_str()) {
            return Err(e);
        }
        if seen_task_id(tasks, i) {
            let id_path = concat(path.as_str(), ".id");
            return Err(AppError::validation("duplicate_id", id_path.as_str(), "task id is duplicated"));
        }
        i += 1;
    }
    let deps = &request.dependencies;
    let mut k: usize = 0;
    while k < deps.len()
        invariant
            *deps == request.dependencies,
            *tasks == request.tasks,
            request.protocol_version == PROTOCOL_VERSION,
            !is_blank_text(request.request_id@),
            timestamp_fault(request.now@, "now"@) is None,
            settings_fault(request.settings) is None,
            events_fault(request.events@, 0) is None,
            tasks_fault(request.tasks@, 0) is None,
            unique_task_ids(tasks@),
            k <= deps.len(),
            dependencies_fault(tasks@, deps@, 0) == dependencies_fault(tasks@, deps@, k as int),
            forall|j: int|
                0 <= j < k ==> has_task(tasks@, #[trigger] deps@[j].from_task_id@) && has_task(
                    tasks@,
                    deps@[j].to_task_id@,
                ),
        decreases deps.len() - k,
    {
        if let Err(e) = check_dependency(tasks, deps, k) {
            return Err(e);
        }
        k += 1;
    }
    if has_cycle(tasks, deps) {
        return Err(AppError::validation("dependency_cycle", "dependencies", "dependencies must form a DAG"));
    }
    Ok(())
}


proof fn lemma_events_pass(events: Seq<Event>, from: int)
    requires
        0 <= from,
        events_fault(events, from) is None,
    ensures
        forall|i: int| from <= i < events.len() ==> !#[trigger] event_id_seen(events, i),
    decreases events.len() - from,
{
    if from < events.len() {
        lemma_events_pass(events, from + 1);
    }
}

proof fn lemma_tasks_pass(tasks: Seq<Task>, from: int)
    requires
        0 <= from,
        tasks_fault(tasks, from) is None,
    ensures
        forall|i: int| from <= i < tasks.len() ==> !#[trigger] task_id_seen(tasks, i),
    decreases tasks.len() - from,
{
    if from < tasks.len() {
        lemma_tasks_pass(tasks, from + 1);
    }
}

proof fn lemma_dependencies_pass(tasks: Seq<Task>, deps: Seq<Dependency>, from: int)
    requires
        0 <= from,
        dependencies_fault(tasks, deps, from) is None,
    ensures
        forall|k: int| from <= k < deps.len() ==> #[trigger] dependency_fault(tasks, deps, k) is None,
    decreases deps.len() - from,
{
    if from < deps.len() {
        lemma_dependencies_pass(tasks, deps, from + 1);
    }
}

/// A request that passes validation has events with distinct ids, tasks
/// with distinct ids, and dependencies that each join two different tasks
/// of the request, appear once, and form a DAG.
pub proof fn law_valid_request_is_consistent(request: Request)
    requires
        request_valid(request),
    ensures
        forall|i: int, j: int|
            0 <= i < j < request.events.len() ==> #[trigger] request.events@[i].id@ != #[trigger] request.events@[j].id@,
        forall|i: int, j: int|
            0 <= i < j < request.tasks.len() ==> #[trigger] request.tasks@[i].id@ != #[trigger] request.tasks@[j].id@,
        forall|k: int|
            0 <= k < request.dependencies.len() ==> {
                let d = #[trigger] request.dependencies@[k];
                &&& d.from_task_id@ != d.to_task_id@
                &&& exists|a: int| 0 <= a < request.tasks.len() && request.tasks@[a].id@ == d.from_task_id@
                &&& exists|b: int| 0 <= b < request.tasks.len() && request.tasks@[b].id@ == d.to_task_id@
            },
        forall|j: int, k: int|
            0 <= j < k < request.dependencies.len() ==> !(#[trigger] request.dependencies@[j].from_task_id@
                == #[trigger] request.dependencies@[k].from_task_id@ && request.dependencies@[j].to_task_id@
                == request.dependencies@[k].to_task_id@),
        !has_dependency_cycle(request.dependencies@),
{
    let events = request.events@;
    let tasks = request.tasks@;
    let deps = request.dependencies@;
    assert(events_fault(events, 0) is None);
    assert(tasks_fault(tasks, 0) is None);
    assert(dependencies_fault(tasks, deps, 0) is None);
    assert(is_dag(deps));
    lemma_events_pass(events, 0);
    lemma_tasks_pass(tasks, 0);
    lemma_dependencies_pass(tasks, deps, 0);
    assert forall|i: int, j: int| 0 <= i < j < events.len() implies #[trigger] events[i].id@ != #[trigger] events[j].id@ by {
        assert(!event_id_seen(events, j));
    }
    assert forall|i: int, j: int| 0 <= i < j < tasks.len() implies #[trigger] tasks[i].id@ != #[trigger] tasks[j].id@ by {
        assert(!task_id_seen(tasks, j));
    }
    assert forall|k: int| 0 <= k < deps.len() implies {
        let d = #[trigger] deps[k];
        &&& d.from_task_id@ != d.to_task_id@
        &&& exists|a: int| 0 <= a < tasks.len() && tasks[a].id@ == d.from_task_id@
        &&& exists|b: int| 0 <= b < tasks.len() && tasks[b].id@ == d.to_task_id@
    } by {
        assert(dependency_fault(tasks, deps, k) is None);
    }
    assert forall|j: int, k: int| 0 <= j < k < deps.len() implies !(#[trigger] deps[j].from_task_id@
        == #[trigger] deps[k].from_task_id@ && deps[j].to_task_id@ == deps[k].to_task_id@) by {
        assert(dependency_fault(tasks, deps, k) is None);
        if deps[j].from_task_id@ == deps[k].from_task_id@ && deps[j].to_task_id@ == deps[k].to_task_id@ {
            assert(dependency_key(deps[j]) == dependency_key(deps[k]));
        }
    }
    lemma_dag_has_no_cycle(deps);
}


proof fn lemma_windows_pass(settings: Settings, d: int, from: int)
    requires
        0 <= d < settings.availability.len(),
        0 <= from,
        windows_fault(settings, d, from) is None,
    ensures
        forall|w: int|
            from <= w < settings.availability[d].windows.len() ==> {
                let win = #[trigger] settings.availability[d].windows[w];
                &&& clock_reading(win.start@) is Ok
                &&& clock_reading(win.end@) is Ok
                &&& clock_reading(win.start@)->Ok_0 < clock_reading(win.end@)->Ok_0
            },
    decreases settings.availability[d].windows.len() - from,
{
    if from < settings.availability[d].windows.len() {
        lemma_windows_pass(settings, d, from + 1);
    }
}

proof fn lemma_days_pass(settings: Settings, from: int)
    requires
        0 <= from,
        days_fault(settings, from) is None,
    ensures
        forall|d: int| from <= d < settings.availability.len() ==> #[trigger] day_fault(settings, d) is None,
    decreases settings.availability.len() - from,
{
    if from < settings.availability.len() {
        lemma_days_pass(settings, from + 1);
    }
}

/// Settings that pass validation name a known zone, keep every number in
/// its range, read all six cognitive-window clocks, and give at least one
/// weekday, each named day at least one window, and each window a start
/// before its end.
pub proof fn law_valid_settings_are_in_range(settings: Settings)
    requires
        settings_fault(settings) is None,
    ensures
        tz_known(settings.timezone@),
        1 <= settings.horizon_days <= 90,
        5 <= settings.slot_minutes <= 120,
        1 <= settings.solve_seconds <= 120,
        settings.priority_low_weight >= 0,
        settings.priority_normal_weight >= 0,
        settings.priority_high_weight >= 0,
        settings.low_outside_penalty >= 0,
        settings.medium_outside_penalty >= 0,
        settings.high_outside_penalty >= 0,
        settings.excess_high_penalty >= 0,
        settings.high_streak_limit >= 1,
        clock_reading(settings.low_window_start@) is Ok,
        clock_reading(settings.low_window_end@) is Ok,
        clock_reading(settings.medium_window_start@) is Ok,
        clock_reading(settings.medium_window_end@) is Ok,
        clock_reading(settings.high_window_start@) is Ok,
        clock_reading(settings.high_window_end@) is Ok,
        settings.availability.len() >= 1,
        forall|d: int|
            0 <= d < settings.availability.len() ==> is_weekday_key((#[trigger] settings.availability@[d]).day@)
                && settings.availability@[d].windows.len() >= 1,
        forall|d: int, w: int|
            0 <= d < settings.availability.len() && 0 <= w < settings.availability@[d].windows.len() ==> {
                let win = #[trigger] settings.availability@[d].windows@[w];
                &&& clock_reading(win.start@) is Ok
                &&& clock_reading(win.end@) is Ok
                &&& clock_reading(win.start@)->Ok_0 < clock_reading(win.end@)->Ok_0
            },
{
    assert(availability_fault(settings) is None);
    lemma_days_pass(settings, 0);
    assert forall|d: int|
        0 <= d < settings.availability.len() implies is_weekday_key((#[trigger] settings.availability@[d]).day@)
            && settings.availability@[d].windows.len() >= 1 by {
        assert(day_fault(settings, d) is None);
    }
    assert forall|d: int, w: int|
        0 <= d < settings.availability.len() && 0 <= w < settings.availability@[d].windows.len() implies {
            let win = #[trigger] settings.availability@[d].windows@[w];
            &&& clock_reading(win.start@) is Ok
            &&& clock_reading(win.end@) is Ok
            &&& clock_reading(win.start@)->Ok_0 < clock_reading(win.end@)->Ok_0
        } by {
        assert(day_fault(settings, d) is None);
        lemma_windows_pass(settings, d, 0);
        assert(settings.availability@[d].windows@[w] == settings.availability[d].windows[w]);
    }
}

} // verus!
