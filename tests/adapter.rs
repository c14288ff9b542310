use std::fmt::Display;

use skip_error::{ok_or_report, Level, Report, Silent, SkipError, SkipErrorIter};

#[derive(Default)]
struct Recorder {
    events: Vec<(String, Level)>,
}

impl<E: Display> Report<E> for Recorder {
    fn report(&mut self, error: &E, level: Level) {
        self.events.push((error.to_string(), level));
    }
}

fn parse_all(words: &[&str]) -> Vec<Result<u32, std::num::ParseIntError>> {
    words.iter().map(|w| w.parse::<u32>()).collect()
}

#[test]
fn parsed_numbers_keep_the_successes() {
    let mut it = ["1", "2", "three", "4"]
        .iter()
        .map(|w| w.parse::<u32>())
        .skip_error();
    assert_eq!(it.collect_vec(), vec![1, 2, 4]);
}

#[test]
fn parsed_numbers_report_the_failure_at_warn() {
    let mut it = parse_all(&["1", "2", "three", "4"])
        .into_iter()
        .skip_error_and_log(Level::Warn, Recorder::default());
    assert_eq!(it.collect_vec(), vec![1, 2, 4]);
    let events = &it.port().events;
    assert_eq!(events.len(), 1);
    assert!(events[0].0.contains("invalid digit found in string"));
    assert_eq!(events[0].1, Level::Warn);
}

#[test]
fn five_failures_give_nothing() {
    let source: Vec<Result<u32, String>> = (1..=5).map(|i| Err(format!("Boom on {}", i))).collect();
    let mut it = source.into_iter().skip_error();
    assert_eq!(it.collect_vec(), Vec::<u32>::new());
}

#[test]
fn five_failures_give_five_reports_at_warn() {
    let source: Vec<Result<u32, String>> = (1..=5).map(|i| Err(format!("Boom on {}", i))).collect();
    let mut it = source.into_iter().skip_error_and_log(Level::Warn, Recorder::default());
    assert_eq!(it.collect_vec(), Vec::<u32>::new());
    let events = &it.port().events;
    assert_eq!(events.len(), 5);
    for (i, (text, level)) in events.iter().enumerate() {
        assert_eq!(text, &format!("Boom on {}", i + 1));
        assert_eq!(*level, Level::Warn);
    }
}

#[test]
fn long_run_of_failures_then_one_success() {
    let mut source: Vec<Result<u64, u64>> = (0..100_000u64).map(Err).collect();
    source.push(Ok(7));
    let mut it = source.into_iter().skip_error();
    assert_eq!(it.next(), Some(7));
    assert_eq!(it.next(), None);
}

#[test]
fn long_run_of_failures_is_reported_in_full() {
    let mut source: Vec<Result<u64, u64>> = (0..100_000u64).map(Err).collect();
    source.push(Ok(7));
    let mut it = source.into_iter().skip_error_and_log(Level::Trace, Recorder::default());
    assert_eq!(it.next(), Some(7));
    assert_eq!(it.port().events.len(), 100_000);
    assert_eq!(it.port().events[99_999], ("99999".to_string(), Level::Trace));
}

#[test]
fn mixed_outcomes_keep_order_and_duplicates() {
    let source: Vec<Result<i32, &str>> = vec![Ok(3), Err("a"), Ok(3), Ok(-1), Err("b"), Err("c"), Ok(0)];
    let mut it = source.into_iter().skip_error_and_log(Level::Error, Recorder::default());
    assert_eq!(it.collect_vec(), vec![3, 3, -1, 0]);
    let texts: Vec<&str> = it.port().events.iter().map(|(t, _)| t.as_str()).collect();
    assert_eq!(texts, vec!["a", "b", "c"]);
}

#[test]
fn documented_example_with_zeros() {
    let source: Vec<Result<usize, String>> = vec![0, 1, 0, 0, 3]
        .into_iter()
        .map(|v| if v == 0 { Ok(0) } else { Err(format!("Boom on {}", v)) })
        .collect();
    let mut it = source.into_iter().skip_error_and_log(Level::Warn, Recorder::default());
    assert_eq!(it.collect_vec(), vec![0, 0, 0]);
    let events = &it.port().events;
    assert_eq!(events[0], ("Boom on 1".to_string(), Level::Warn));
    assert_eq!(events[1], ("Boom on 3".to_string(), Level::Warn));
}

#[test]
fn only_successes_pass_unchanged_without_reports() {
    let source: Vec<Result<u8, String>> = vec![Ok(9), Ok(8), Ok(9)];
    let mut it = source.into_iter().skip_error_and_log(Level::Error, Recorder::default());
    assert_eq!(it.collect_vec(), vec![9, 8, 9]);
    assert!(it.port().events.is_empty());
}

#[test]
fn no_level_means_no_reports() {
    let source: Vec<Result<u8, String>> = vec![Err("x".to_string()), Ok(1), Err("y".to_string())];
    let mut it = SkipErrorIter::new(source.into_iter(), None, Recorder::default());
    assert_eq!(it.collect_vec(), vec![1]);
    assert!(it.port().events.is_empty());
}

#[test]
fn report_count_equals_failure_count() {
    let source: Vec<Result<u8, u8>> = vec![Err(1), Ok(2), Err(3), Err(4), Ok(5), Err(6)];
    let mut it = SkipErrorIter::new(source.into_iter(), Some(Level::Info), Recorder::default());
    assert_eq!(it.collect_vec(), vec![2, 5]);
    assert_eq!(it.port().events.len(), 4);
    assert!(it.port().events.iter().all(|(_, l)| *l == Level::Info));
}

#[test]
fn two_adapters_over_copies_agree() {
    let source: Vec<Result<u16, String>> = vec![Ok(1), Err("e".to_string()), Ok(2), Err("f".to_string())];
    let mut a = source.clone().into_iter().skip_error_and_log(Level::Debug, Recorder::default());
    let mut b = source.into_iter().skip_error_and_log(Level::Debug, Recorder::default());
    let ra = a.collect_vec();
    let rb = b.collect_vec();
    assert_eq!(ra, vec![1, 2]);
    assert_eq!(ra, rb);
    assert_eq!(a.port().events, b.port().events);
}

#[test]
fn empty_source_is_exhausted_at_once() {
    let source: Vec<Result<u8, u8>> = Vec::new();
    let mut it = source.into_iter().skip_error();
    assert_eq!(it.next(), None);
    assert_eq!(it.collect_vec(), Vec::<u8>::new());
}

#[test]
fn next_pulls_lazily_one_success_at_a_time() {
    let source: Vec<Result<u8, u8>> = vec![Err(1), Ok(2), Err(3), Ok(4), Err(5)];
    let mut it = source.into_iter().skip_error_and_log(Level::Warn, Recorder::default());
    assert_eq!(it.next(), Some(2));
    assert_eq!(it.port().events.len(), 1);
    assert_eq!(it.next(), Some(4));
    assert_eq!(it.port().events.len(), 2);
    assert_eq!(it.next(), None);
    assert_eq!(it.port().events.len(), 3);
    assert_eq!(it.next(), None);
    assert_eq!(it.port().events.len(), 3);
}

#[test]
fn collect_after_next_takes_the_rest() {
    let source: Vec<Result<u8, u8>> = vec![Ok(1), Err(2), Ok(3), Ok(4)];
    let mut it = source.into_iter().skip_error();
    assert_eq!(it.next(), Some(1));
    assert_eq!(it.collect_vec(), vec![3, 4]);
}

#[test]
fn silent_port_accepts_reports() {
    let source: Vec<Result<u8, u8>> = vec![Err(1), Ok(2)];
    let mut it = source.into_iter().skip_error_and_log(Level::Error, Silent);
    assert_eq!(it.collect_vec(), vec![2]);
    assert_eq!(*it.port(), Silent);
}

#[test]
fn ok_or_report_in_a_loop() {
    let mut port = Recorder::default();
    let mut numbers: Vec<u32> = Vec::new();
    for word in ["1", "2", "three", "4"] {
        let number = match ok_or_report(word.parse::<u32>(), Some(Level::Warn), &mut port) {
            Some(n) => n,
            None => continue,
        };
        numbers.push(number);
    }
    assert_eq!(numbers, vec![1, 2, 4]);
    assert_eq!(port.events.len(), 1);
    assert!(port.events[0].0.contains("invalid digit found in string"));
    assert_eq!(port.events[0].1, Level::Warn);
}

#[test]
fn ok_or_report_without_level_is_quiet() {
    let mut port = Recorder::default();
    assert_eq!(ok_or_report::<u8, &str, _>(Ok(5), Some(Level::Info), &mut port), Some(5));
    assert_eq!(ok_or_report::<u8, &str, _>(Err("no"), None, &mut port), None);
    assert!(port.events.is_empty());
    assert_eq!(ok_or_report::<u8, &str, _>(Err("yes"), Some(Level::Debug), &mut port), None);
    assert_eq!(port.events, vec![("yes".to_string(), Level::Debug)]);
}

#[test]
fn levels_are_ordered_from_trace_to_error() {
    assert!(Level::Trace < Level::Debug);
    assert!(Level::Debug < Level::Info);
    assert!(Level::Info < Level::Warn);
    assert!(Level::Warn < Level::Error);
}
