//! The records of a guard post: who began a shift, and when the guard on
//! duty fell asleep and woke up.

use crate::scan::{chars_of, plain_format, scan, scanned, texts, unsigned_at, unsigned_token};
use std::cmp::Ordering;
use vstd::prelude::*;

verus! {

/// What a record says.
#[derive(PartialEq, Eq, Debug, Clone, Copy, Structural)]
pub enum TimelineEventType {
    FallsAsleep,
    WakesUp,
    BeginsShift(u32),
}

/// A record: when it was made, in seconds and by the minute of the hour, and
/// what it says.
#[derive(Eq, Debug, Clone, Copy)]
pub struct TimelineEvent {
    pub timestamp: i64,
    pub minute: u32,
    pub event: TimelineEventType,
}

/// A guard, with the records of falling asleep and waking up in the order
/// of time.
pub struct Guard {
    pub id: u32,
    pub timeline_events: Vec<TimelineEvent>,
}

impl PartialEq for TimelineEvent {
    /// Two records are equal where they were made at the same time.
    fn eq(&self, other: &TimelineEvent) -> (equal: bool) {
        self.timestamp == other.timestamp
    }
}

impl vstd::std_specs::cmp::PartialEqSpecImpl for TimelineEvent {
    open spec fn obeys_eq_spec() -> bool {
        true
    }

    open spec fn eq_spec(&self, other: &TimelineEvent) -> bool {
        self.timestamp == other.timestamp
    }
}

impl PartialOrd for TimelineEvent {
    /// Records are ordered by the time at which they were made.
    fn partial_cmp(&self, other: &TimelineEvent) -> (order: Option<Ordering>) {
        Some(self.cmp(other))
    }
}

impl vstd::std_specs::cmp::PartialOrdSpecImpl for TimelineEvent {
    open spec fn obeys_partial_cmp_spec() -> bool {
        true
    }

    open spec fn partial_cmp_spec(&self, other: &TimelineEvent) -> Option<Ordering> {
        Some(order_of(self.timestamp, other.timestamp))
    }
}

/// How the first time stands to the second.
pub open spec fn order_of(first: i64, second: i64) -> Ordering {
    if first < second {
        Ordering::Less
    } else if first > second {
        Ordering::Greater
    } else {
        Ordering::Equal
    }
}

/// `part` stands in `text` at position `at`.
pub open spec fn is_part_at(part: Seq<char>, text: Seq<char>, at: int) -> bool {
    0 <= at && at + part.len() <= text.len() && text.subrange(at, at + part.len()) == part
}

/// `part` stands somewhere in `text`.
pub open spec fn is_part(part: Seq<char>, text: Seq<char>) -> bool {
    exists|at: int| is_part_at(part, text, at)
}

fn part_at(part: &Vec<char>, text: &Vec<char>, at: usize) -> (found: bool)
    requires
        at + part@.len() <= text@.len(),
    ensures
        found == is_part_at(part@, text@, at as int),
{
    let size = text.len();
    let mut i: usize = 0;
    while i < part.len()
        invariant
            i <= part@.len(),
            at + part@.len() <= text@.len() == size,
            text@.subrange(at as int, at + i) == part@.take(i as int),
        decreases part@.len() - i,
    {
        if text[at + i] != part[i] {
            proof {
                assert(text@.subrange(at as int, at + part@.len())[i as int] != part@[i as int]);
            }
            return false;
        }
        proof {
            assert(text@.subrange(at as int, at + i + 1) =~= text@.subrange(at as int, at + i).push(
                text@[at + i],
            ));
            assert(part@.take(i + 1) =~= part@.take(i as int).push(part@[i as int]));
        }
        i += 1;
    }
    proof {
        assert(part@.take(i as int) =~= part@);
    }
    true
}

/// Says whether `part` stands somewhere in `text`.
pub fn contains_part(text: &Vec<char>, part: &Vec<char>) -> (found: bool)
    ensures
        found == is_part(part@, text@),
{
    if part.len() > text.len() {
        return false;
    }
    let last = text.len() - part.len();
    let mut at: usize = 0;
    loop
        invariant
            at <= last,
            last == text@.len() - part@.len(),
            forall|k: int| 0 <= k < at ==> !is_part_at(part@, text@, k),
        decreases last - at,
    {
        if part_at(part, text, at) {
            return true;
        }
        if at == last {
            return false;
        }
        at += 1;
    }
}

/// The days of the year before the first of the month, in a year of 365
/// days.
pub open spec fn days_before(month: int) -> int {
    if month <= 1 {
        0
    } else if month == 2 {
        31
    } else if month == 3 {
        59
    } else if month == 4 {
        90
    } else if month == 5 {
        120
    } else if month == 6 {
        151
    } else if month == 7 {
        181
    } else if month == 8 {
        212
    } else if month == 9 {
        243
    } else if month == 10 {
        273
    } else if month == 11 {
        304
    } else if month == 12 {
        334
    } else {
        365
    }
}

/// The seconds from the start of 1970 to the given minute of a year that
/// lies `years` years of 365 days behind 1970; nothing where the year has no
/// such day or the day no such minute.
pub open spec fn seconds_of(years: int, month: int, day: int, hour: int, minute: int) -> Option<
    int,
> {
    if 1 <= month <= 12 && 1 <= day <= days_before(month + 1) - days_before(month) && 0 <= hour < 24
        && 0 <= minute < 60 {
        Some(((years * 365 + days_before(month) + day - 1) * 24 + hour) * 3600 + minute * 60)
    } else {
        None
    }
}

/// Asks chrono for the seconds from the start of 1970 to the start of the
/// given minute, in universal time: `NaiveDate::from_ymd_opt` and
/// `NaiveDate::and_hms_opt`, which refuse a day or a time that does not
/// exist, then `NaiveDateTime::and_utc` and `DateTime::timestamp`. Stated
/// for 1971 alone, which has 365 days and follows a year of 365 days.
#[verifier::external_body]
fn timestamp_in(year: i32, month: u32, day: u32, hour: u32, minute: u32) -> (seconds: Option<i64>)
    requires
        year == 1971,
    ensures
        seconds == match seconds_of(1, month as int, day as int, hour as int, minute as int) {
            Some(value) => Some(value as i64),
            None => None,
        },
{
    let date = chrono::NaiveDate::from_ymd_opt(year, month, day)?;
    let time = date.and_hms_opt(hour, minute, 0)?;
    Some(time.and_utc().timestamp())
}

/// The format of what a record says where a guard begins a shift.
pub open spec fn shift_format() -> Seq<char> {
    "Guard #{} begins shift"@
}

/// The format of a record: the date, the time, and what the record says,
/// up to the next full stop.
pub open spec fn record_format() -> Seq<char> {
    "[{}-{}-{} {}:{}] {[^.]}"@
}

/// The shift that the tokens give: the number of the guard.
pub open spec fn shift_of(tokens: Seq<Seq<char>>) -> Option<TimelineEventType> {
    match unsigned_token(tokens, 0, 0xffff_ffff) {
        Some(id) => Some(TimelineEventType::BeginsShift(id as u32)),
        None => None,
    }
}

/// What a record says, by its text: falling asleep where it holds `falls
/// asleep`; else a shift where it holds `begins shift`, with the number of
/// the guard that the scanner picks out; else waking up.
pub open spec fn event_type_of(text: Seq<char>) -> Option<TimelineEventType> {
    if is_part("falls asleep"@, text) {
        Some(TimelineEventType::FallsAsleep)
    } else if is_part("begins shift"@, text) {
        shift_of(scanned(text, shift_format()))
    } else {
        Some(TimelineEventType::WakesUp)
    }
}

/// The record that the tokens of a line give: behind the year, which is
/// not read, the month, the day, the hour and the minute, and the text of
/// what the record says. The time is taken in 1971.
pub open spec fn event_of(tokens: Seq<Seq<char>>) -> Option<TimelineEvent> {
    match (
        unsigned_token(tokens, 1, 0xffff_ffff),
        unsigned_token(tokens, 2, 0xffff_ffff),
        unsigned_token(tokens, 3, 0xffff_ffff),
        unsigned_token(tokens, 4, 0xffff_ffff),
    ) {
        (Some(month), Some(day), Some(hour), Some(minute)) => if tokens.len() > 5 {
            match (
                event_type_of(tokens[5]),
                seconds_of(1, month as int, day as int, hour as int, minute as int),
            ) {
                (Some(event), Some(seconds)) => Some(
                    TimelineEvent { timestamp: seconds as i64, minute: minute as u32, event },
                ),
                _ => None,
            }
        } else {
            None
        },
        _ => None,
    }
}

/// Reads the shift of a guard from the tokens of the record's text.
pub fn shift_from_tokens(tokens: &Vec<String>) -> (shift: Option<TimelineEventType>)
    ensures
        shift == shift_of(texts(tokens@)),
{
    match unsigned_at(tokens, 0, 0xffff_ffff) {
        Some(id) => Some(TimelineEventType::BeginsShift(id as u32)),
        None => None,
    }
}

/// Reads what a record says from its text.
pub fn event_type_from_text(text: &str) -> (event: Option<TimelineEventType>)
    ensures
        event == event_type_of(text@),
{
    let units = chars_of(text);
    let asleep = chars_of("falls asleep");
    let shift = chars_of("begins shift");
    if contains_part(&units, &asleep) {
        Some(TimelineEventType::FallsAsleep)
    } else if contains_part(&units, &shift) {
        proof {
            reveal_strlit("Guard #{} begins shift");
            assert(plain_format("Guard #{} begins shift"@));
        }
        let tokens = scan(text, "Guard #{} begins shift");
        shift_from_tokens(&tokens)
    } else {
        Some(TimelineEventType::WakesUp)
    }
}

/// Reads a record from the tokens of its line.
pub fn event_from_tokens(tokens: &Vec<String>) -> (event: Option<TimelineEvent>)
    ensures
        event == event_of(texts(tokens@)),
{
    let month = unsigned_at(tokens, 1, 0xffff_ffff);
    let day = unsigned_at(tokens, 2, 0xffff_ffff);
    let hour = unsigned_at(tokens, 3, 0xffff_ffff);
    let minute = unsigned_at(tokens, 4, 0xffff_ffff);
    match (month, day, hour, minute) {
        (Some(month), Some(day), Some(hour), Some(minute)) => {
            if tokens.len() <= 5 {
                return None;
            }
            let event = event_type_from_text(tokens[5].as_str());
            // The years of the records lie before 1970; the times are taken in 1971.
            let seconds = timestamp_in(1971, month as u32, day as u32, hour as u32, minute as u32);
            match (event, seconds) {
                (Some(event), Some(seconds)) => Some(
                    TimelineEvent { timestamp: seconds, minute: minute as u32, event },
                ),
                _ => None,
            }
        },
        _ => None,
    }
}

impl TimelineEvent {
    /// Reads a record such as `[1518-11-01 00:00] Guard #10 begins shift`:
    /// the record that the tokens give which the scanner picks out of the
    /// line.
    pub fn new(raw_input: String) -> (event: Option<TimelineEvent>)
        ensures
            event == event_of(scanned(raw_input@, record_format())),
    {
        proof {
            reveal_strlit("[{}-{}-{} {}:{}] {[^.]}");
            assert(plain_format("[{}-{}-{} {}:{}] {[^.]}"@));
        }
        let tokens = scan(raw_input.as_str(), "[{}-{}-{} {}:{}] {[^.]}");
        event_from_tokens(&tokens)
    }

    /// How this record stands to the other one in time.
    pub fn cmp(&self, other: &TimelineEvent) -> (order: Ordering)
        ensures
            order == order_of(self.timestamp, other.timestamp),
    {
        if self.timestamp < other.timestamp {
            return Ordering::Less;
        } else if self.timestamp > other.timestamp {
            return Ordering::Greater;
        }
        Ordering::Equal
    }

    /// The seconds from the earlier record to this one.
    pub fn time_between(&self, previous_event: &TimelineEvent) -> (seconds: i64)
        requires
            i64::MIN <= self.timestamp - previous_event.timestamp <= i64::MAX,
        ensures
            seconds == self.timestamp - previous_event.timestamp,
    {
        self.timestamp - previous_event.timestamp
    }
}

/// The last record of falling asleep among the records.
pub open spec fn asleep_since(events: Seq<TimelineEvent>) -> Option<TimelineEvent>
    decreases events.len(),
{
    if events.len() == 0 {
        None
    } else if events.last().event == TimelineEventType::FallsAsleep {
        Some(events.last())
    } else {
        asleep_since(events.drop_last())
    }
}

/// The seconds of sleep in the records: for each record of waking up the
/// time since the last record of falling asleep. Nothing where a record of
/// waking up has no record of falling asleep before it, or where a time or
/// a sum on the way leaves the range of `i64`.
pub open spec fn sleep_time(events: Seq<TimelineEvent>) -> Option<int>
    decreases events.len(),
{
    if events.len() == 0 {
        Some(0)
    } else {
        match sleep_time(events.drop_last()) {
            None => None,
            Some(before) => if events.last().event == TimelineEventType::WakesUp {
                match asleep_since(events.drop_last()) {
                    None => None,
                    Some(asleep) => {
                        let nap = events.last().timestamp - asleep.timestamp;
                        if i64::MIN <= nap <= i64::MAX && i64::MIN <= before + nap <= i64::MAX {
                            Some(before + nap)
                        } else {
                            None
                        }
                    },
                }
            } else {
                Some(before)
            },
        }
    }
}

/// The seconds of sleep of the guard.
pub fn calc_sleep_time(guard: &Guard) -> (seconds: Option<i64>)
    ensures
        seconds == match sleep_time(guard.timeline_events@) {
            Some(sum) => Some(sum as i64),
            None => None,
        },
        sleep_time(guard.timeline_events@) matches Some(sum) ==> i64::MIN <= sum <= i64::MAX,
{
    let ghost events = guard.timeline_events@;
    let mut last_sleep_event: Option<TimelineEvent> = None;
    let mut current_sleep_amount: i64 = 0;
    let mut i: usize = 0;
    while i < guard.timeline_events.len()
        invariant
            i <= guard.timeline_events@.len(),
            events == guard.timeline_events@,
            last_sleep_event == asleep_since(events.take(i as int)),
            sleep_time(events.take(i as int)) == Some(current_sleep_amount as int),
        decreases guard.timeline_events@.len() - i,
    {
        proof {
            assert(events.take(i + 1).drop_last() =~= events.take(i as int));
            assert(events.take(i + 1).last() == events[i as int]);
        }
        let event = guard.timeline_events[i];
        match event.event {
            TimelineEventType::FallsAsleep => {
                last_sleep_event = Some(event);
            },
            TimelineEventType::WakesUp => {
                match last_sleep_event {
                    None => {
                        proof {
                            lemma_sleep_time_fails(events, i + 1);
                        }
                        return None;
                    },
                    Some(asleep) => {
                        let nap: i128 = event.timestamp as i128 - asleep.timestamp as i128;
                        let sum: i128 = current_sleep_amount as i128 + nap;
                        if nap < i64::MIN as i128 || nap > i64::MAX as i128 || sum < i64::MIN as i128
                            || sum > i64::MAX as i128 {
                            proof {
                                lemma_sleep_time_fails(events, i + 1);
                            }
                            return None;
                        }
                        current_sleep_amount = sum as i64;
                    },
                }
            },
            _ => {},
        }
        i += 1;
    }
    proof {
        assert(events.take(i as int) =~= events);
    }
    Some(current_sleep_amount)
}

/// Once the seconds of sleep are lost, more records do not bring them back.
pub proof fn lemma_sleep_time_fails(events: Seq<TimelineEvent>, n: int)
    requires
        0 <= n <= events.len(),
        sleep_time(events.take(n)) is None,
    ensures
        sleep_time(events) is None,
    decreases events.len(),
{
    if n < events.len() {
        assert(events.drop_last().take(n) =~= events.take(n));
        lemma_sleep_time_fails(events.drop_last(), n);
    } else {
        assert(events.take(n) =~= events);
    }
}

/// Every record of waking up has a record of falling asleep before it.
pub open spec fn well_paired(events: Seq<TimelineEvent>) -> bool
    decreases events.len(),
{
    if events.len() == 0 {
        true
    } else {
        well_paired(events.drop_last()) && (events.last().event == TimelineEventType::WakesUp
            ==> asleep_since(events.drop_last()) is Some)
    }
}

/// How often the guard was asleep in the minute: the naps that began in or
/// before that minute of the hour and ended behind it.
pub open spec fn times_asleep(events: Seq<TimelineEvent>, minute: int) -> nat
    decreases events.len(),
{
    if events.len() == 0 {
        0
    } else {
        let before = times_asleep(events.drop_last(), minute);
        if events.last().event == TimelineEventType::WakesUp && asleep_since(
            events.drop_last(),
        ) is Some && asleep_since(events.drop_last())->0.minute <= minute < events.last().minute {
            before + 1
        } else {
            before
        }
    }
}

/// What a minute counts for: one less than the times that the guard was
/// asleep in it, and nothing where the guard never was.
pub open spec fn score(events: Seq<TimelineEvent>, minute: int) -> nat {
    if times_asleep(events, minute) == 0 {
        0
    } else {
        (times_asleep(events, minute) - 1) as nat
    }
}

/// The highest score among the minutes before `upto`.
pub open spec fn best_score(events: Seq<TimelineEvent>, upto: nat) -> nat
    decreases upto,
{
    if upto == 0 {
        0
    } else if score(events, upto - 1) > best_score(events, (upto - 1) as nat) {
        score(events, upto - 1)
    } else {
        best_score(events, (upto - 1) as nat)
    }
}

/// The first of the minutes before `upto` that has the highest score, and
/// minute 0 where no minute has a score.
pub open spec fn best_minute(events: Seq<TimelineEvent>, upto: nat) -> nat
    decreases upto,
{
    if upto == 0 {
        0
    } else if score(events, upto - 1) > best_score(events, (upto - 1) as nat) {
        (upto - 1) as nat
    } else {
        best_minute(events, (upto - 1) as nat)
    }
}

/// Every record was made in one of the sixty minutes of an hour.
pub open spec fn minutes_of_the_hour(events: Seq<TimelineEvent>) -> bool {
    forall|i: int| 0 <= i < events.len() ==> (#[trigger] events[i]).minute < 60
}

/// No minute is slept in more often than there are records.
pub proof fn lemma_times_asleep_bound(events: Seq<TimelineEvent>, minute: int)
    ensures
        times_asleep(events, minute) <= events.len(),
    decreases events.len(),
{
    if events.len() > 0 {
        lemma_times_asleep_bound(events.drop_last(), minute);
    }
}

/// The minute of the hour in which the guard slept most often, and its
/// score: one less than the times that the guard was asleep in it. Of
/// several such minutes it is the first, and minute 0 with score 0 where
/// the guard never slept twice in one minute. Nothing where a record of
/// waking up has no record of falling asleep before it, or where the score
/// leaves the range of `u32`.
pub fn calc_most_slept_minute(guard: &Guard) -> (most: Option<(u32, u32)>)
    requires
        minutes_of_the_hour(guard.timeline_events@),
    ensures
        most == if well_paired(guard.timeline_events@) && best_score(guard.timeline_events@, 60)
            <= u32::MAX {
            Some(
                (
                    best_minute(guard.timeline_events@, 60) as u32,
                    best_score(guard.timeline_events@, 60) as u32,
                ),
            )
        } else {
            None
        },
{
    let ghost events = guard.timeline_events@;
    let mut time_map: Vec<usize> = Vec::new();
    let mut filled: usize = 0;
    while filled < 60
        invariant
            filled <= 60,
            time_map@.len() == filled,
            forall|m: int| 0 <= m < filled ==> time_map@[m] == 0,
        decreases 60 - filled,
    {
        time_map.push(0);
        filled += 1;
    }
    let mut last_sleep_event: Option<TimelineEvent> = None;
    let records = guard.timeline_events.len();
    let mut i: usize = 0;
    while i < records
        invariant
            i <= guard.timeline_events@.len() == records,
            events == guard.timeline_events@,
            minutes_of_the_hour(events),
            time_map@.len() == 60,
            last_sleep_event == asleep_since(events.take(i as int)),
            well_paired(events.take(i as int)),
            forall|m: int| 0 <= m < 60 ==> #[trigger] time_map@[m] == times_asleep(
                events.take(i as int),
                m,
            ),
        decreases records - i,
    {
        proof {
            assert(events.take(i + 1).drop_last() =~= events.take(i as int));
            assert(events.take(i + 1).last() == events[i as int]);
        }
        let event = guard.timeline_events[i];
        match event.event {
            TimelineEventType::FallsAsleep => {
                last_sleep_event = Some(event);
            },
            TimelineEventType::WakesUp => {
                match last_sleep_event {
                    None => {
                        proof {
                            lemma_pairing_fails(events, i + 1);
                        }
                        return None;
                    },
                    Some(asleep) => {
                        proof {
                            lemma_asleep_since_member(events.take(i as int));
                            assert(asleep.minute < 60);
                        }
                        let start = asleep.minute;
                        let end = event.minute;
                        let ghost before = time_map@;
                        let mut minute: u32 = start;
                        while minute < end
                            invariant
                                start <= minute,
                                minute <= end || minute == start,
                                end < 60,
                                i < events.len() == records,
                                time_map@.len() == 60,
                                before.len() == 60,
                                forall|m: int| 0 <= m < 60 ==> #[trigger] before[m] == times_asleep(
                                    events.take(i as int),
                                    m,
                                ),
                                forall|m: int|
                                    0 <= m < 60 ==> #[trigger] time_map@[m] == if start <= m
                                        < minute {
                                        before[m] + 1
                                    } else {
                                        before[m] as int
                                    },
                            decreases end - minute,
                        {
                            proof {
                                lemma_times_asleep_bound(events.take(i as int), minute as int);
                                assert(time_map@[minute as int] == before[minute as int]);
                            }
                            let slept = time_map[minute as usize];
                            time_map.set(minute as usize, slept + 1);
                            minute += 1;
                        }
                    },
                }
            },
            _ => {},
        }
        i += 1;
    }
    proof {
        assert(events.take(i as int) =~= events);
    }
    let mut num_of_times_slept_at_minute: usize = 0;
    let mut most_slept_minute: u32 = 0;
    let mut m: u32 = 0;
    while m < 60
        invariant
            m <= 60,
            time_map@.len() == 60,
            forall|k: int| 0 <= k < 60 ==> #[trigger] time_map@[k] == times_asleep(events, k),
            num_of_times_slept_at_minute == best_score(events, m as nat),
            most_slept_minute == best_minute(events, m as nat),
            most_slept_minute < 60,
        decreases 60 - m,
    {
        let slept = time_map[m as usize];
        let count_value = if slept == 0 {
            0
        } else {
            slept - 1
        };
        if count_value > num_of_times_slept_at_minute {
            most_slept_minute = m;
            num_of_times_slept_at_minute = count_value;
        }
        m += 1;
    }
    if num_of_times_slept_at_minute > 0xffff_ffff {
        None
    } else {
        Some((most_slept_minute, num_of_times_slept_at_minute as u32))
    }
}

/// Once a record of waking up lacks its record of falling asleep, more
/// records do not mend that.
pub proof fn lemma_pairing_fails(events: Seq<TimelineEvent>, n: int)
    requires
        0 <= n <= events.len(),
        !well_paired(events.take(n)),
    ensures
        !well_paired(events),
    decreases events.len(),
{
    if n < events.len() {
        assert(events.drop_last().take(n) =~= events.take(n));
        lemma_pairing_fails(events.drop_last(), n);
    } else {
        assert(events.take(n) =~= events);
    }
}

/// The last record of falling asleep is one of the records.
pub proof fn lemma_asleep_since_member(events: Seq<TimelineEvent>)
    ensures
        asleep_since(events) matches Some(asleep) ==> events.contains(asleep),
    decreases events.len(),
{
    if events.len() > 0 {
        if events.last().event == TimelineEventType::FallsAsleep {
            assert(events[events.len() - 1] == events.last());
        } else {
            lemma_asleep_since_member(events.drop_last());
            if asleep_since(events.drop_last()) is Some {
                let asleep = asleep_since(events.drop_last())->0;
                let k = choose|k: int|
                    0 <= k < events.drop_last().len() && events.drop_last()[k] == asleep;
                assert(events[k] == asleep);
            }
        }
    }
}

/// What `calc_most_slept_minute` finds for the records of a guard.
pub open spec fn most_slept(events: Seq<TimelineEvent>) -> Option<(u32, u32)> {
    if well_paired(events) && best_score(events, 60) <= u32::MAX {
        Some((best_minute(events, 60) as u32, best_score(events, 60) as u32))
    } else {
        None
    }
}

/// The minute, its score and the guard that lead after the guards listed:
/// the first guard whose best minute has the highest score, and zeros where
/// no minute has a score. Nothing where there is none for one of the guards.
pub open spec fn leader(guards: Seq<Guard>) -> Option<(u32, u32, u32)>
    decreases guards.len(),
{
    if guards.len() == 0 {
        Some((0u32, 0u32, 0u32))
    } else {
        match (leader(guards.drop_last()), most_slept(guards.last().timeline_events@)) {
            (Some(before), Some((minute, count))) => if count > before.1 {
                Some((minute, count, guards.last().id))
            } else {
                Some(before)
            },
            _ => None,
        }
    }
}

/// Once there is no leader, more guards do not bring one.
pub proof fn lemma_leader_fails(guards: Seq<Guard>, n: int)
    requires
        0 <= n <= guards.len(),
        leader(guards.take(n)) is None,
    ensures
        leader(guards) is None,
    decreases guards.len(),
{
    if n < guards.len() {
        assert(guards.drop_last().take(n) =~= guards.take(n));
        lemma_leader_fails(guards.drop_last(), n);
    } else {
        assert(guards.take(n) =~= guards);
    }
}

/// The guard who slept most often in one and the same minute, and that
/// minute.
pub fn calc_most_slept_same_minute(guards: &Vec<Guard>) -> (most: Option<(u32, u32)>)
    requires
        forall|i: int|
            0 <= i < guards@.len() ==> minutes_of_the_hour((#[trigger] guards@[i]).timeline_events@),
    ensures
        most == match leader(guards@) {
            Some((minute, _, id)) => Some((id, minute)),
            None => None,
        },
{
    let mut most_slept_minute: u32 = 0;
    let mut num_of_times_slept_on_minute: u32 = 0;
    let mut guard_id_who_slept_same_minute: u32 = 0;
    let mut i: usize = 0;
    while i < guards.len()
        invariant
            i <= guards@.len(),
            forall|k: int|
                0 <= k < guards@.len() ==> minutes_of_the_hour(
                    (#[trigger] guards@[k]).timeline_events@,
                ),
            leader(guards@.take(i as int)) == Some(
                (most_slept_minute, num_of_times_slept_on_minute, guard_id_who_slept_same_minute),
            ),
        decreases guards@.len() - i,
    {
        proof {
            assert(guards@.take(i + 1).drop_last() =~= guards@.take(i as int));
            assert(guards@.take(i + 1).last() == guards@[i as int]);
        }
        match calc_most_slept_minute(&guards[i]) {
            None => {
                proof {
                    lemma_leader_fails(guards@, i + 1);
                }
                return None;
            },
            Some((minute, count)) => {
                if count > num_of_times_slept_on_minute {
                    most_slept_minute = minute;
                    num_of_times_slept_on_minute = count;
                    guard_id_who_slept_same_minute = guards[i].id;
                }
            },
        }
        i += 1;
    }
    proof {
        assert(guards@.take(i as int) =~= guards@);
    }
    Some((guard_id_who_slept_same_minute, most_slept_minute))
}

/// The guard and the seconds of sleep that lead after the guards listed:
/// the first guard with the most seconds of sleep, and zeros where no
/// guard slept. Nothing where there are no seconds of sleep for one of the
/// guards.
pub open spec fn sleepiest(guards: Seq<Guard>) -> Option<(u32, i64)>
    decreases guards.len(),
{
    if guards.len() == 0 {
        Some((0u32, 0i64))
    } else {
        match (sleepiest(guards.drop_last()), sleep_time(guards.last().timeline_events@)) {
            (Some(before), Some(amount)) => if amount > before.1 {
                Some((guards.last().id, amount as i64))
            } else {
                Some(before)
            },
            _ => None,
        }
    }
}

/// Once there is no sleepiest guard, more guards do not bring one.
pub proof fn lemma_sleepiest_fails(guards: Seq<Guard>, n: int)
    requires
        0 <= n <= guards.len(),
        sleepiest(guards.take(n)) is None,
    ensures
        sleepiest(guards) is None,
    decreases guards.len(),
{
    if n < guards.len() {
        assert(guards.drop_last().take(n) =~= guards.take(n));
        lemma_sleepiest_fails(guards.drop_last(), n);
    } else {
        assert(guards.take(n) =~= guards);
    }
}

/// The guard who slept longest, with the seconds of sleep.
pub fn sleepiest_guard(guards: &Vec<Guard>) -> (most: Option<(u32, i64)>)
    ensures
        most == sleepiest(guards@),
{
    let mut most_sleep_amount: i64 = 0;
    let mut sleepiest_guard: u32 = 0;
    let mut i: usize = 0;
    while i < guards.len()
        invariant
            i <= guards@.len(),
            sleepiest(guards@.take(i as int)) == Some((sleepiest_guard, most_sleep_amount)),
        decreases guards@.len() - i,
    {
        proof {
            assert(guards@.take(i + 1).drop_last() =~= guards@.take(i as int));
            assert(guards@.take(i + 1).last() == guards@[i as int]);
        }
        match calc_sleep_time(&guards[i]) {
            None => {
                proof {
                    lemma_sleepiest_fails(guards@, i + 1);
                }
                return None;
            },
            Some(amount_of_sleep) => {
                if amount_of_sleep > most_sleep_amount {
                    sleepiest_guard = guards[i].id;
                    most_sleep_amount = amount_of_sleep;
                }
            },
        }
        i += 1;
    }
    proof {
        assert(guards@.take(i as int) =~= guards@);
    }
    Some((sleepiest_guard, most_sleep_amount))
}

/// The records stand in the order of time.
pub open spec fn in_time_order(events: Seq<TimelineEvent>) -> bool {
    forall|i: int, j: int|
        0 <= i < j < events.len() ==> (#[trigger] events[i]).timestamp <= (
        #[trigger] events[j]).timestamp
}

/// Sorts with `slice::sort_by`, which puts the elements in the order that
/// the comparison gives, and keeps all of them.
#[verifier::external_body]
fn sort_by_time(timeline: &mut Vec<TimelineEvent>)
    ensures
        in_time_order(final(timeline)@),
        final(timeline)@.to_multiset() == old(timeline)@.to_multiset(),
{
    timeline.sort_by(|a, b| a.cmp(b));
}

/// Brings the records into the order of time.
pub fn sort_timeline(timeline: &mut Vec<TimelineEvent>)
    ensures
        in_time_order(final(timeline)@),
        final(timeline)@.to_multiset() == old(timeline)@.to_multiset(),
        final(timeline)@.len() == old(timeline)@.len(),
{
    let ghost before = timeline@;
    sort_by_time(timeline);
    proof {
        vstd::seq_lib::to_multiset_len(before);
        vstd::seq_lib::to_multiset_len(timeline@);
    }
}

/// A guard as a mathematical value.
pub struct Duty {
    pub id: u32,
    pub events: Seq<TimelineEvent>,
}

impl Guard {
    /// The guard with its records.
    pub open spec fn view(&self) -> Duty {
        Duty { id: self.id, events: self.timeline_events@ }
    }
}

/// The guards with their records.
pub open spec fn duties(guards: Seq<Guard>) -> Seq<Duty> {
    guards.map_values(|guard: Guard| guard@)
}

/// The position of the guard `id` among the guards from `from` on, and the
/// number of guards where there is no such guard.
pub open spec fn place_of(roster: Seq<Duty>, id: u32, from: int) -> int
    decreases roster.len() - from,
{
    if from < 0 || from >= roster.len() {
        roster.len() as int
    } else if roster[from].id == id {
        from
    } else {
        place_of(roster, id, from + 1)
    }
}

/// The guards after one more record, and the guard on duty. A record of a
/// shift puts its guard on duty, and among the guards where the guard is
/// new. Any other record goes to the guard on duty, and is dropped where
/// that guard is not among the guards.
pub open spec fn after_record(roster: Seq<Duty>, on_duty: u32, event: TimelineEvent) -> (
    Seq<Duty>,
    u32,
) {
    match event.event {
        TimelineEventType::BeginsShift(id) => if place_of(roster, id, 0) < roster.len() {
            (roster, id)
        } else {
            (roster.push(Duty { id, events: Seq::empty() }), id)
        },
        _ => {
            let at = place_of(roster, on_duty, 0);
            if at < roster.len() {
                (
                    roster.update(at, Duty { id: roster[at].id, events: roster[at].events.push(event) }),
                    on_duty,
                )
            } else {
                (roster, on_duty)
            }
        },
    }
}

/// The guards that the records name, in the order in which they first
/// begin a shift, each with the records made while on duty; and the guard
/// on duty at the end, which is guard 0 before the first shift.
pub open spec fn roster_of(timeline: Seq<TimelineEvent>) -> (Seq<Duty>, u32)
    decreases timeline.len(),
{
    if timeline.len() == 0 {
        (Seq::empty(), 0u32)
    } else {
        let before = roster_of(timeline.drop_last());
        after_record(before.0, before.1, timeline.last())
    }
}

fn find_guard(guards: &Vec<Guard>, id: u32) -> (at: usize)
    ensures
        at == place_of(duties(guards@), id, 0),
        at <= guards@.len(),
{
    let mut at: usize = 0;
    while at < guards.len()
        invariant
            at <= guards@.len(),
            place_of(duties(guards@), id, 0) == place_of(duties(guards@), id, at as int),
        decreases guards@.len() - at,
    {
        if guards[at].id == id {
            return at;
        }
        at += 1;
    }
    at
}

/// Hands each record to the guard on duty.
pub fn assign_to_guards(timeline: &Vec<TimelineEvent>) -> (guards: Vec<Guard>)
    ensures
        duties(guards@) == roster_of(timeline@).0,
{
    let mut guards: Vec<Guard> = Vec::new();
    let mut last_guard_id: u32 = 0;
    let mut i: usize = 0;
    proof {
        assert(duties(guards@) =~= Seq::<Duty>::empty());
    }
    while i < timeline.len()
        invariant
            i <= timeline@.len(),
            (duties(guards@), last_guard_id) == roster_of(timeline@.take(i as int)),
        decreases timeline@.len() - i,
    {
        proof {
            assert(timeline@.take(i + 1).drop_last() =~= timeline@.take(i as int));
            assert(timeline@.take(i + 1).last() == timeline@[i as int]);
        }
        let ghost before = duties(guards@);
        let event = timeline[i];
        match event.event {
            TimelineEventType::BeginsShift(guard_id) => {
                last_guard_id = guard_id;
                if find_guard(&guards, guard_id) == guards.len() {
                    guards.push(Guard { id: last_guard_id, timeline_events: Vec::new() });
                    proof {
                        assert(duties(guards@) =~= before.push(
                            Duty { id: guard_id, events: Seq::empty() },
                        ));
                    }
                }
            },
            _ => {
                let at = find_guard(&guards, last_guard_id);
                if at < guards.len() {
                    guards[at].timeline_events.push(event);
                    proof {
                        assert(duties(guards@) =~= before.update(
                            at as int,
                            Duty { id: before[at as int].id, events: before[at as int].events.push(event) },
                        ));
                    }
                }
            },
        }
        i += 1;
    }
    proof {
        assert(timeline@.take(i as int) =~= timeline@);
    }
    guards
}

} // verus!
