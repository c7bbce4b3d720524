use aoc2018::sleeplog::{
    parse_event, parse_events, solve_part1, Event, EventHistory, EventType, Guard, HistoryError,
    Minutes,
};

const EXAMPLE: &str = "[1518-11-01 00:00] Guard #10 begins shift\n\
[1518-11-01 00:05] falls asleep\n\
[1518-11-01 00:25] wakes up\n\
[1518-11-01 00:30] falls asleep\n\
[1518-11-01 00:55] wakes up\n\
[1518-11-01 23:58] Guard #99 begins shift\n\
[1518-11-02 00:40] falls asleep\n\
[1518-11-02 00:50] wakes up\n\
[1518-11-03 00:05] Guard #10 begins shift\n\
[1518-11-03 00:24] falls asleep\n\
[1518-11-03 00:29] wakes up\n\
[1518-11-04 00:02] Guard #99 begins shift\n\
[1518-11-04 00:36] falls asleep\n\
[1518-11-04 00:46] wakes up\n\
[1518-11-05 00:03] Guard #99 begins shift\n\
[1518-11-05 00:45] falls asleep\n\
[1518-11-05 00:55] wakes up    \n";

#[test]
fn test_biggest_sleeper() {
    let events = parse_events(EXAMPLE).expect("test input format should be correct");
    let history: EventHistory = EventHistory::try_from(events.as_slice()).unwrap();
    match history.biggest_sleeper() {
        Ok(guard) => {
            assert_eq!(guard, Guard(10));
            assert_eq!(solve_part1(&history), 240);
        }
        Err(e) => {
            panic!("biggest_sleeper failed: {e:?}");
        }
    }
}

#[test]
fn test_parse_event() {
    assert_eq!(
        parse_event("[1518-11-01 00:05] falls asleep"),
        Ok(Event {
            kind: EventType::FallsAsleep,
            minute: Minutes(5)
        })
    );
    assert_eq!(
        parse_event("[1518-11-01 00:25] wakes up"),
        Ok(Event {
            kind: EventType::Wakes,
            minute: Minutes(25)
        })
    );
    assert_eq!(
        parse_event("[1518-11-01 00:00] Guard #10 begins shift"),
        Ok(Event {
            kind: EventType::ShiftStart(Guard(10)),
            minute: Minutes(0)
        })
    );
    assert_eq!(
        parse_event("[1518-11-01 00:00] Guard #4294967296 begins shift"),
        Err(HistoryError::FormatError)
    );
}

#[test]
fn test_malformed_line_is_format_error() {
    assert_eq!(
        parse_events("not a valid line\n"),
        Err(HistoryError::FormatError)
    );
    assert_eq!(parse_event("not a valid line"), Err(HistoryError::FormatError));
}

#[test]
fn test_wake_without_sleep_is_out_of_order() {
    let events = vec![
        Event {
            kind: EventType::ShiftStart(Guard(7)),
            minute: Minutes(0),
        },
        Event {
            kind: EventType::Wakes,
            minute: Minutes(10),
        },
    ];
    assert_eq!(
        EventHistory::try_from(events.as_slice()),
        Err(HistoryError::OutOfOrderError)
    );
}

#[test]
fn test_sleep_before_shift_is_out_of_order() {
    let events = vec![Event {
        kind: EventType::FallsAsleep,
        minute: Minutes(10),
    }];
    assert_eq!(
        EventHistory::try_from(events.as_slice()),
        Err(HistoryError::OutOfOrderError)
    );
}

#[test]
fn test_wake_before_sleep_is_arithmetic_error() {
    let events = vec![
        Event {
            kind: EventType::ShiftStart(Guard(7)),
            minute: Minutes(0),
        },
        Event {
            kind: EventType::FallsAsleep,
            minute: Minutes(30),
        },
        Event {
            kind: EventType::Wakes,
            minute: Minutes(10),
        },
    ];
    assert_eq!(
        EventHistory::try_from(events.as_slice()),
        Err(HistoryError::ArithmeticError)
    );
}

#[test]
fn test_empty_history_error() {
    let history = EventHistory::new();
    assert_eq!(
        history.biggest_sleeper(),
        Err(HistoryError::EmptyHistoryError)
    );
    assert_eq!(history.minute_during_which_sleeps_most(&Guard(1)), None);
}

#[test]
fn test_replay_is_deterministic() {
    let events = parse_events(EXAMPLE).expect("valid input");
    let first = EventHistory::try_from(events.as_slice()).unwrap();
    let second = EventHistory::try_from(events.as_slice()).unwrap();
    assert_eq!(first, second);
}

#[test]
fn test_totals_match_wake_intervals() {
    let events = parse_events(EXAMPLE).expect("valid input");
    let history = EventHistory::try_from(events.as_slice()).unwrap();
    let total: u64 = history.sleeps.iter().map(|(_, m)| m.0 as u64).sum();
    // intervals: 20 + 25 + 10 + 5 + 10 + 10 minutes
    assert_eq!(total, 80);
    let per_minute: u64 = history
        .asleep_during_minute
        .iter()
        .map(|(_, _, c)| *c as u64)
        .sum();
    assert_eq!(per_minute, 80);
}

#[test]
fn test_minute_counts_cover_intervals() {
    let events = parse_events(EXAMPLE).expect("valid input");
    let history = EventHistory::try_from(events.as_slice()).unwrap();
    // Guard 10 slept over minute 24 twice: [5,25) and [24,29).
    assert!(history
        .asleep_during_minute
        .contains(&(Guard(10), Minutes(24), 2)));
    // Guard 99 was never asleep at minute 0.
    assert!(!history
        .asleep_during_minute
        .iter()
        .any(|(g, m, _)| *g == Guard(99) && *m == Minutes(0)));
}

#[test]
fn test_checked_minutes() {
    assert_eq!(Minutes(1).checked_add(Minutes(2)), Some(Minutes(3)));
    assert_eq!(Minutes(u32::MAX).checked_add(Minutes(1)), None);
    assert_eq!(Minutes(5).checked_sub(Minutes(2)), Some(Minutes(3)));
    assert_eq!(Minutes(1).checked_sub(Minutes(2)), None);
}

#[test]
fn test_favorite_minute_of_busiest_guard() {
    let events = parse_events(EXAMPLE).expect("valid input");
    let history = EventHistory::try_from(events.as_slice()).unwrap();
    assert_eq!(
        history.minute_during_which_sleeps_most(&Guard(10)),
        Some((Minutes(24), 2))
    );
}
