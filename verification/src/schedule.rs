//! When the daily update pass is due.
use vstd::prelude::*;

use crate::number::{all_digits, is_digit, law_only_digits_are_numbers, parse_u32, u32_of};
use crate::seqs::{first_at, lemma_first_at};
use crate::text::{law_trim_takes_off_outer_space, text_of, to_chars, trim, trim_of};

verus! {

/// A time of day, in seconds from midnight.
#[derive(Debug, Clone, Copy, PartialEq, Eq, Structural)]
pub struct TimeOfDay {
    pub secs: u32,
}

/// A calendar day.
#[derive(Debug, Clone, Copy, PartialEq, Eq, Structural)]
pub struct CalendarDay {
    pub year: i32,
    pub month: u32,
    pub day: u32,
}

/// The seconds from midnight of `hour:min:sec`, if that is a time of day.
pub open spec fn clock_secs(hour: u32, min: u32, sec: u32) -> Option<u32> {
    if hour < 24 && min < 60 && sec < 60 {
        Some((hour * 3600 + min * 60 + sec) as u32)
    } else {
        None
    }
}

/// Calls `chrono::NaiveTime::from_hms_opt`, and `num_seconds_from_midnight` on the time
/// that it gives: there is one for hours below 24, and minutes and seconds below 60.
#[verifier::external_body]
fn clock_time(hour: u32, min: u32, sec: u32) -> (secs: Option<u32>)
    ensures
        secs == clock_secs(hour, min, sec),
{
    chrono::NaiveTime::from_hms_opt(hour, min, sec).map(
        |t| chrono::Timelike::num_seconds_from_midnight(&t),
    )
}

/// The time of day that `s` states as `HH:MM`: the digits of the hour and of the minute
/// with a colon between them, white space allowed around each. A sign is not.
pub open spec fn hhmm_of(s: Seq<char>) -> Option<TimeOfDay> {
    let p = first_at(s, ':');
    if p >= s.len() {
        None
    } else {
        let h = u32_of(trim_of(s.take(p)));
        let m = u32_of(trim_of(s.skip(p + 1)));
        if h is Some && m is Some && clock_secs(h->0, m->0, 0) is Some {
            Some(TimeOfDay { secs: clock_secs(h->0, m->0, 0)->0 })
        } else {
            None
        }
    }
}

fn find_colon(v: &Vec<char>) -> (p: usize)
    ensures
        p == first_at(v@, ':'),
        p <= v@.len(),
{
    proof {
        lemma_first_at(v@, ':');
    }
    let mut i: usize = 0;
    while i < v.len() && v[i] != ':'
        invariant
            i <= first_at(v@, ':') <= v@.len(),
            first_at(v@, ':') < v@.len() ==> v@[first_at(v@, ':')] == ':',
            forall|j: int| 0 <= j < first_at(v@, ':') ==> v@[j] != ':',
        decreases v@.len() - i,
    {
        i = i + 1;
    }
    i
}

/// The time of day that `s` states as `HH:MM`.
pub fn parse_hhmm(s: &str) -> (t: Option<TimeOfDay>)
    ensures
        t == hhmm_of(s@),
{
    let v = to_chars(s);
    let p: usize = find_colon(&v);
    if p == v.len() {
        return None;
    }
    let hours = trim(text_of(&v, 0, p).as_str());
    let minutes = trim(text_of(&v, p + 1, v.len()).as_str());
    proof {
        assert(v@.subrange(0, p as int) =~= s@.take(p as int));
        assert(v@.subrange(p as int + 1, v@.len() as int) =~= s@.skip(p as int + 1));
    }
    match parse_u32(hours.as_str()) {
        Some(h) => match parse_u32(minutes.as_str()) {
            Some(m) => match clock_time(h, m, 0) {
                Some(secs) => Some(TimeOfDay { secs }),
                None => None,
            },
            None => None,
        },
        None => None,
    }
}

/// Whether the pass is due: the target is a time of day, it has come, and the pass has
/// not run today.
pub open spec fn is_due(
    now: TimeOfDay,
    today: CalendarDay,
    target: Seq<char>,
    last_run: Option<CalendarDay>,
) -> bool {
    hhmm_of(target) is Some && last_run != Some(today) && now.secs >= hhmm_of(target)->0.secs
}

/// Whether the pass is due. With a target that is no time of day it never is.
pub fn due(
    now_time: TimeOfDay,
    today: CalendarDay,
    target: &str,
    last_run: Option<CalendarDay>,
) -> (yes: bool)
    ensures
        yes == is_due(now_time, today, target@, last_run),
{
    let t: TimeOfDay = match parse_hhmm(target) {
        Some(t) => t,
        None => return false,
    };
    if let Some(day) = last_run {
        if day.year == today.year && day.month == today.month && day.day == today.day {
            return false;
        }
    }
    now_time.secs >= t.secs
}

/// The pass runs once a day at most: when it has run today, it is not due again today;
/// when it ran on another day, it is due as soon as the target has come.
pub proof fn law_due_once_a_day(
    now: TimeOfDay,
    today: CalendarDay,
    other: CalendarDay,
    target: Seq<char>,
)
    requires
        other != today,
    ensures
        !is_due(now, today, target, Some(today)),
        is_due(now, today, target, Some(other)) == is_due(now, today, target, None),
{
}

/// A time that was due stays due for the rest of the day until the pass runs.
pub proof fn law_due_stays_due(
    now: TimeOfDay,
    later: TimeOfDay,
    today: CalendarDay,
    target: Seq<char>,
    last_run: Option<CalendarDay>,
)
    requires
        now.secs <= later.secs,
        is_due(now, today, target, last_run),
    ensures
        is_due(later, today, target, last_run),
{
}

/// The pass is never due while the time of day is before the target, and always due from
/// the target on if it has not run that day. The target is the hour and the minute, read
/// from the digits before and behind the colon; what is no hour or no minute is never due.
pub proof fn law_due_from_the_target_on(
    now: TimeOfDay,
    today: CalendarDay,
    hours: Seq<char>,
    minutes: Seq<char>,
    last_run: Option<CalendarDay>,
    h: u32,
    m: u32,
)
    requires
        u32_of(hours) == Some(h),
        u32_of(minutes) == Some(m),
    ensures
        ({
            let target = hours + seq![':'] + minutes;
            &&& now.secs < h * 3600 + m * 60 ==> !is_due(now, today, target, last_run)
            &&& h < 24 && m < 60 && now.secs >= h * 3600 + m * 60 && last_run != Some(today)
                ==> is_due(now, today, target, last_run)
            &&& h >= 24 || m >= 60 ==> !is_due(now, today, target, last_run)
        }),
{
    let target = hours + seq![':'] + minutes;
    let n = hours.len() as int;
    law_only_digits_are_numbers(hours);
    law_only_digits_are_numbers(minutes);
    lemma_first_at(target, ':');
    assert(target[n] == ':');
    assert forall|i: int| 0 <= i < n implies target[i] != ':' by {
        assert(is_digit(hours[i]));
    }
    assert(first_at(target, ':') == n);
    assert(target.take(n) =~= hours);
    assert(target.skip(n + 1) =~= minutes);
    lemma_digits_are_trimmed(hours);
    lemma_digits_are_trimmed(minutes);
}

proof fn lemma_digits_are_trimmed(s: Seq<char>)
    requires
        s.len() > 0,
        all_digits(s),
    ensures
        trim_of(s) == s,
{
    assert(is_digit(s[0]));
    assert(is_digit(s[s.len() - 1]));
    let none = Seq::<char>::empty();
    law_trim_takes_off_outer_space(none, s, none);
    assert(none + s + none =~= s);
}

/// A target is a time of day whatever white space stands around its hour and its minute,
/// and what is written otherwise than with digits there, or without a colon, is none.
pub proof fn law_target_is_hour_and_minute(s: Seq<char>, now: TimeOfDay, today: CalendarDay)
    ensures
        !s.contains(':') ==> !is_due(now, today, s, None),
        forall|p: int|
            0 <= p < s.len() && #[trigger] s[p] == ':' && (forall|i: int| 0 <= i < p ==> s[i] != ':')
                && !(all_digits(trim_of(s.take(p))) && all_digits(trim_of(s.skip(p + 1))))
                ==> !is_due(now, today, s, None),
{
    lemma_first_at(s, ':');
    if hhmm_of(s) is Some {
        let p = first_at(s, ':');
        law_only_digits_are_numbers(trim_of(s.take(p)));
        law_only_digits_are_numbers(trim_of(s.skip(p + 1)));
    }
}

} // verus!
