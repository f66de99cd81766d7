use advent::guards::{
    assign_to_guards, calc_most_slept_minute, calc_most_slept_same_minute, calc_sleep_time,
    contains_part, event_from_tokens, event_type_from_text, shift_from_tokens, sleepiest_guard,
    sort_timeline, Guard, TimelineEvent, TimelineEventType,
};
use std::cmp::Ordering;

fn record(line: &str) -> TimelineEvent {
    TimelineEvent::new(String::from(line)).unwrap()
}

fn example() -> Vec<TimelineEvent> {
    let lines = [
        "[1518-11-01 00:00] Guard #10 begins shift",
        "[1518-11-01 00:05] falls asleep",
        "[1518-11-01 00:25] wakes up",
        "[1518-11-01 00:30] falls asleep",
        "[1518-11-01 00:55] wakes up",
        "[1518-11-01 23:58] Guard #99 begins shift",
        "[1518-11-02 00:40] falls asleep",
        "[1518-11-02 00:50] wakes up",
        "[1518-11-03 00:05] Guard #10 begins shift",
        "[1518-11-03 00:24] falls asleep",
        "[1518-11-03 00:29] wakes up",
        "[1518-11-04 00:02] Guard #99 begins shift",
        "[1518-11-04 00:36] falls asleep",
        "[1518-11-04 00:46] wakes up",
        "[1518-11-05 00:03] Guard #99 begins shift",
        "[1518-11-05 00:45] falls asleep",
        "[1518-11-05 00:55] wakes up",
    ];
    lines.iter().map(|l| record(l)).collect()
}

#[test]
fn a_record_is_read_from_its_line() {
    let event = record("[1518-11-01 00:00] Guard #10 begins shift");
    assert_eq!(event.event, TimelineEventType::BeginsShift(10));
    assert_eq!(event.minute, 0);
    assert_eq!(event.timestamp, (365 + 304) * 86400);

    let event = record("[1518-11-01 00:05] falls asleep");
    assert_eq!(event.event, TimelineEventType::FallsAsleep);
    assert_eq!(event.minute, 5);
    assert_eq!(event.timestamp, (365 + 304) * 86400 + 300);

    let event = record("[1518-03-09 23:58] wakes up");
    assert_eq!(event.event, TimelineEventType::WakesUp);
    assert_eq!(event.minute, 58);
    assert_eq!(event.timestamp, (365 + 59 + 8) * 86400 + 23 * 3600 + 58 * 60);
}

#[test]
fn the_time_is_taken_in_a_year_of_365_days() {
    assert_eq!(record("[1518-01-01 00:00] wakes up").timestamp, 31536000);
    assert_eq!(record("[1518-02-28 00:00] wakes up").timestamp, 31536000 + 58 * 86400);
    assert_eq!(record("[1518-03-01 00:00] wakes up").timestamp, 31536000 + 59 * 86400);
    assert_eq!(record("[1518-12-31 23:59] wakes up").timestamp, 2 * 31536000 - 60);
    assert_eq!(record("[2000-12-31 23:59] wakes up").timestamp, 2 * 31536000 - 60);
    assert_eq!(record("[x-06-30 12:30] wakes up").timestamp, 31536000 + 180 * 86400 + 45000);
    let firsts = [0, 31, 59, 90, 120, 151, 181, 212, 243, 273, 304, 334];
    for month in 1..=12 {
        let line = format!("[1518-{}-1 0:0] wakes up", month);
        assert_eq!(record(&line).timestamp, 31536000 + firsts[month - 1] * 86400);
    }
}

#[test]
fn a_day_or_a_time_that_does_not_exist_gives_none() {
    let read = |line: &str| TimelineEvent::new(String::from(line));
    assert!(read("[1518-02-29 00:00] wakes up").is_none());
    assert!(read("[1518-02-28 00:00] wakes up").is_some());
    assert!(read("[1518-04-31 00:00] wakes up").is_none());
    assert!(read("[1518-04-30 00:00] wakes up").is_some());
    assert!(read("[1518-13-01 00:00] wakes up").is_none());
    assert!(read("[1518-00-01 00:00] wakes up").is_none());
    assert!(read("[1518-01-00 00:00] wakes up").is_none());
    assert!(read("[1518-01-32 00:00] wakes up").is_none());
    assert!(read("[1518-01-31 24:00] wakes up").is_none());
    assert!(read("[1518-01-31 23:60] wakes up").is_none());
    assert!(read("[1518-01-31 23:59] wakes up").is_some());
    for (month, days) in [(1, 31), (2, 28), (3, 31), (4, 30), (5, 31), (6, 30), (7, 31), (8, 31), (9, 30), (10, 31), (11, 30), (12, 31)] {
        assert!(read(&format!("[1518-{}-{} 00:00] wakes up", month, days)).is_some());
        assert!(read(&format!("[1518-{}-{} 00:00] wakes up", month, days + 1)).is_none());
    }
}

#[test]
fn a_line_that_is_no_record_gives_none() {
    let read = |line: &str| TimelineEvent::new(String::from(line));
    assert!(read("").is_none());
    assert!(read("[1518-11-01 00:00]").is_none());
    assert!(read("[1518-11-01 00:00] Guard begins shift").is_none());
    assert!(read("[1518-11-01 00:00] Guard #x begins shift").is_none());
    assert!(read("1518-11-01 00:00 wakes up").is_none());
    assert!(read("[1518-11-01 00:xx] wakes up").is_none());
}

#[test]
fn what_a_record_says_goes_by_its_text() {
    assert_eq!(event_type_from_text("falls asleep"), Some(TimelineEventType::FallsAsleep));
    assert_eq!(event_type_from_text("wakes up"), Some(TimelineEventType::WakesUp));
    assert_eq!(event_type_from_text("anything"), Some(TimelineEventType::WakesUp));
    assert_eq!(event_type_from_text(""), Some(TimelineEventType::WakesUp));
    assert_eq!(event_type_from_text("Guard #7 begins shift"), Some(TimelineEventType::BeginsShift(7)));
    assert_eq!(
        event_type_from_text("Guard #4294967295 begins shift"),
        Some(TimelineEventType::BeginsShift(u32::MAX))
    );
    assert_eq!(event_type_from_text("Guard #4294967296 begins shift"), None);
    assert_eq!(event_type_from_text("begins shift"), None);
    assert_eq!(
        event_type_from_text("Guard #7 begins shift and falls asleep"),
        Some(TimelineEventType::FallsAsleep)
    );
    assert_eq!(shift_from_tokens(&vec![String::from("12")]), Some(TimelineEventType::BeginsShift(12)));
    assert_eq!(shift_from_tokens(&vec![String::from("")]), None);
    assert_eq!(shift_from_tokens(&vec![]), None);
}

#[test]
fn a_record_needs_six_tokens() {
    let tokens = |texts: &[&str]| texts.iter().map(|t| String::from(*t)).collect::<Vec<String>>();
    let event = event_from_tokens(&tokens(&["1518", "11", "01", "00", "05", "falls asleep"])).unwrap();
    assert_eq!(event.event, TimelineEventType::FallsAsleep);
    assert_eq!(event.minute, 5);
    assert_eq!(event.timestamp, (365 + 304) * 86400 + 300);
    assert!(event_from_tokens(&tokens(&["", "11", "01", "00", "05", "falls asleep"])).is_some());
    assert!(event_from_tokens(&tokens(&["1518", "11", "01", "00", "05"])).is_none());
    assert!(event_from_tokens(&tokens(&["1518", "11", "01", "00", "-5", "falls asleep"])).is_none());
    assert!(event_from_tokens(&tokens(&[""])).is_none());
}

#[test]
fn a_part_is_found_anywhere_in_a_text() {
    let chars = |text: &str| text.chars().collect::<Vec<char>>();
    assert!(contains_part(&chars("falls asleep"), &chars("falls asleep")));
    assert!(contains_part(&chars("he falls asleep now"), &chars("falls asleep")));
    assert!(contains_part(&chars("abc"), &chars("c")));
    assert!(contains_part(&chars("abc"), &chars("a")));
    assert!(contains_part(&chars("abc"), &chars("")));
    assert!(contains_part(&chars(""), &chars("")));
    assert!(!contains_part(&chars(""), &chars("a")));
    assert!(!contains_part(&chars("ab"), &chars("abc")));
    assert!(!contains_part(&chars("falls  asleep"), &chars("falls asleep")));
    assert!(contains_part(&chars("aab"), &chars("ab")));
}

#[test]
fn records_compare_by_their_time() {
    let early = record("[1518-11-01 00:05] falls asleep");
    let late = record("[1518-11-01 00:25] wakes up");
    let same = record("[1518-11-01 00:05] wakes up");
    assert_eq!(early.cmp(&late), Ordering::Less);
    assert_eq!(late.cmp(&early), Ordering::Greater);
    assert_eq!(early.cmp(&same), Ordering::Equal);
    assert_eq!(early.partial_cmp(&late), Some(Ordering::Less));
    assert!(early < late);
    assert!(early == same);
    assert!(early != late);
    assert_eq!(late.time_between(&early), 1200);
    assert_eq!(early.time_between(&late), -1200);
}

#[test]
fn the_timeline_is_sorted_by_time() {
    let mut timeline = example();
    timeline.reverse();
    timeline.swap(3, 11);
    sort_timeline(&mut timeline);
    let sorted = example();
    assert_eq!(timeline.len(), sorted.len());
    for i in 0..sorted.len() {
        assert_eq!(timeline[i].timestamp, sorted[i].timestamp);
        assert_eq!(timeline[i].event, sorted[i].event);
        assert_eq!(timeline[i].minute, sorted[i].minute);
    }
}

#[test]
fn records_go_to_the_guard_on_duty() {
    let guards = assign_to_guards(&example());
    assert_eq!(guards.len(), 2);
    assert_eq!(guards[0].id, 10);
    assert_eq!(guards[1].id, 99);
    assert_eq!(guards[0].timeline_events.len(), 6);
    assert_eq!(guards[1].timeline_events.len(), 6);
    assert_eq!(guards[0].timeline_events[4].minute, 24);
    assert_eq!(guards[1].timeline_events[0].minute, 40);

    // Before the first shift guard 0 is on duty, who is no guard yet.
    let lost = vec![record("[1518-11-01 00:05] falls asleep"), record("[1518-11-01 00:06] Guard #0 begins shift"), record("[1518-11-01 00:07] wakes up")];
    let guards = assign_to_guards(&lost);
    assert_eq!(guards.len(), 1);
    assert_eq!(guards[0].id, 0);
    assert_eq!(guards[0].timeline_events.len(), 1);
    assert_eq!(guards[0].timeline_events[0].minute, 7);
    assert_eq!(assign_to_guards(&vec![]).len(), 0);
}

#[test]
fn sleep_time_is_the_sum_of_the_naps() {
    let guards = assign_to_guards(&example());
    assert_eq!(calc_sleep_time(&guards[0]), Some(50 * 60));
    assert_eq!(calc_sleep_time(&guards[1]), Some(30 * 60));
    assert_eq!(sleepiest_guard(&guards), Some((10, 3000)));
    assert_eq!(sleepiest_guard(&vec![]), Some((0, 0)));
    let idle = Guard { id: 3, timeline_events: vec![] };
    assert_eq!(calc_sleep_time(&idle), Some(0));
}

#[test]
fn waking_up_without_falling_asleep_gives_none() {
    let guard = Guard { id: 3, timeline_events: vec![record("[1518-11-01 00:25] wakes up")] };
    assert_eq!(calc_sleep_time(&guard), None);
    assert_eq!(calc_most_slept_minute(&guard), None);
    assert_eq!(sleepiest_guard(&vec![guard]), None);
    let guard = Guard { id: 3, timeline_events: vec![record("[1518-11-01 00:25] wakes up")] };
    assert_eq!(calc_most_slept_same_minute(&vec![guard]), None);
}

#[test]
fn a_nap_beyond_the_range_gives_none() {
    let asleep = TimelineEvent { timestamp: i64::MIN, minute: 0, event: TimelineEventType::FallsAsleep };
    let awake = TimelineEvent { timestamp: 0, minute: 1, event: TimelineEventType::WakesUp };
    let guard = Guard { id: 3, timeline_events: vec![asleep, awake] };
    assert_eq!(calc_sleep_time(&guard), None);
    let asleep = TimelineEvent { timestamp: i64::MIN + 1, minute: 0, event: TimelineEventType::FallsAsleep };
    let guard = Guard { id: 3, timeline_events: vec![asleep, awake] };
    assert_eq!(calc_sleep_time(&guard), Some(i64::MAX));
    let guard = Guard { id: 3, timeline_events: vec![asleep, awake, awake] };
    assert_eq!(calc_sleep_time(&guard), None);
}

#[test]
fn the_most_slept_minute_counts_one_less_than_the_naps() {
    let guards = assign_to_guards(&example());
    // Guard 10 was asleep twice in minute 24, guard 99 three times in minute 45.
    assert_eq!(calc_most_slept_minute(&guards[0]), Some((24, 1)));
    assert_eq!(calc_most_slept_minute(&guards[1]), Some((45, 2)));
    assert_eq!(calc_most_slept_same_minute(&guards), Some((99, 45)));
    assert_eq!(calc_most_slept_same_minute(&vec![]), Some((0, 0)));

    // One nap alone gives no minute a score.
    let once = Guard {
        id: 5,
        timeline_events: vec![record("[1518-11-01 00:05] falls asleep"), record("[1518-11-01 00:25] wakes up")],
    };
    assert_eq!(calc_most_slept_minute(&once), Some((0, 0)));
    assert_eq!(calc_most_slept_same_minute(&vec![once]), Some((0, 0)));
}

#[test]
fn of_several_minutes_the_first_is_taken() {
    let naps = Guard {
        id: 5,
        timeline_events: vec![
            record("[1518-11-01 00:10] falls asleep"),
            record("[1518-11-01 00:20] wakes up"),
            record("[1518-11-02 00:15] falls asleep"),
            record("[1518-11-02 00:18] wakes up"),
            record("[1518-11-03 00:40] falls asleep"),
            record("[1518-11-03 00:42] wakes up"),
            record("[1518-11-04 00:41] falls asleep"),
            record("[1518-11-04 00:30] wakes up"),
            record("[1518-11-04 00:40] falls asleep"),
            record("[1518-11-04 00:41] wakes up"),
        ],
    };
    // Minutes 15 to 17 and minute 40 were slept in twice.
    assert_eq!(calc_most_slept_minute(&naps), Some((15, 1)));
}
