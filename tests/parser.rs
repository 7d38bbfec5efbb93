use logcat::parser::{Clock, LogLevel, LogParser};

fn fixed_clock() -> Clock {
    Clock {
        year: "2024".to_string(),
        month_day: "12-05".to_string(),
        time_of_day: "08:09:10.011".to_string(),
        epoch_millis: 1_733_385_750_011,
    }
}

#[test]
fn test_parse_standard_format() {
    let mut parser = LogParser::new();
    let line = "12-04 10:30:45.123  1234  5678 D MainActivity: onCreate called";
    let entry = parser.parse_line(line).unwrap();

    let year = chrono::Local::now().format("%Y").to_string();
    assert_eq!(entry.timestamp, "10:30:45.123");
    assert_eq!(entry.date_time, Some(format!("{}-12-04 10:30:45.123", year)));
    assert_eq!(entry.pid, 1234);
    assert_eq!(entry.tid, 5678);
    assert_eq!(entry.level, LogLevel::D);
    assert_eq!(entry.tag, "MainActivity");
    assert_eq!(entry.message, "onCreate called");
    assert!(entry.package_name.is_none());
    assert!(entry.process_name.is_none());
}

#[test]
fn test_parse_brief_format() {
    let mut parser = LogParser::new();
    let line = "D/MainActivity( 1234): onCreate called";
    let entry = parser.parse_line(line).unwrap();

    assert_eq!(entry.pid, 1234);
    assert_eq!(entry.level, LogLevel::D);
    assert_eq!(entry.tag, "MainActivity");
    assert_eq!(entry.message, "onCreate called");
}

#[test]
fn test_skip_beginning_marker() {
    let mut parser = LogParser::new();
    let line = "--------- beginning of main";
    let entry = parser.parse_line(line);
    assert!(entry.is_none());
}

#[test]
fn brief_line_has_no_thread_and_clock_time() {
    let mut parser = LogParser::new();
    let entry = parser
        .parse_line_at("D/MainActivity( 1234): onCreate called", &fixed_clock())
        .unwrap();
    assert_eq!(entry.tid, 0);
    assert_eq!(entry.timestamp, "08:09:10.011");
    assert_eq!(entry.date_time, Some("2024-12-05 08:09:10.011".to_string()));
    assert_eq!(entry.epoch, Some(1_733_385_750_011));
    assert_eq!(entry.raw, Some("D/MainActivity( 1234): onCreate called".to_string()));
}

#[test]
fn dated_line_with_fixed_clock() {
    let mut parser = LogParser::new();
    let entry = parser
        .parse_line_at("  12-04 10:30:45.123  1234  5678 W Net Stack :   timeout: 30s  ", &fixed_clock())
        .unwrap();
    assert_eq!(entry.date_time, Some("2024-12-04 10:30:45.123".to_string()));
    assert_eq!(entry.timestamp, "10:30:45.123");
    assert_eq!(entry.level, LogLevel::W);
    assert_eq!(entry.tag, "Net Stack");
    assert_eq!(entry.message, "timeout: 30s");
    assert_eq!(entry.raw, Some("12-04 10:30:45.123  1234  5678 W Net Stack :   timeout: 30s".to_string()));
}

#[test]
fn undated_line_takes_the_clock_date() {
    let mut parser = LogParser::new();
    let entry = parser
        .parse_line_at("10:30:45.123 42 43 F Crash: boom", &fixed_clock())
        .unwrap();
    assert_eq!(entry.timestamp, "10:30:45.123");
    assert_eq!(entry.date_time, Some("2024-12-05 10:30:45.123".to_string()));
    assert_eq!(entry.pid, 42);
    assert_eq!(entry.tid, 43);
    assert_eq!(entry.level, LogLevel::A);
    assert_eq!(entry.tag, "Crash");
    assert_eq!(entry.message, "boom");
}

#[test]
fn oversized_pid_reads_as_zero() {
    let mut parser = LogParser::new();
    let entry = parser
        .parse_line_at("12-04 10:30:45.123 99999999999 7 I Tag: m", &fixed_clock())
        .unwrap();
    assert_eq!(entry.pid, 0);
    assert_eq!(entry.tid, 7);
}

#[test]
fn blank_lines_yield_nothing() {
    let mut parser = LogParser::new();
    assert!(parser.parse_line("").is_none());
    assert!(parser.parse_line("   \t  ").is_none());
    assert!(parser.parse_line("--------- beginning of system").is_none());
    assert_eq!(parser.next_id(), 0);
}

#[test]
fn unknown_lines_yield_nothing() {
    let mut parser = LogParser::new();
    assert!(parser.parse_line("\tat com.example.Foo.bar(Foo.java:12)").is_none());
    assert!(parser.parse_line("12-04 10:30:45.123 1234 5678 X Tag: bad level").is_none());
    assert!(parser.parse_line("12-04 10:30:45.123 1234 5678 D NoSeparator").is_none());
    assert!(parser.parse_line("D/Tag(abc): not a pid").is_none());
    assert_eq!(parser.next_id(), 0);
}

#[test]
fn sequence_ids_count_from_zero_and_reset() {
    let mut parser = LogParser::new();
    let a = parser.parse_line("D/A( 1): one").unwrap();
    assert!(parser.parse_line("garbage").is_none());
    let b = parser.parse_line("I/B( 2): two").unwrap();
    let c = parser.parse_line("12-04 10:30:45.123 3 4 E C: three").unwrap();
    assert_eq!((a.id, b.id, c.id), (0, 1, 2));
    parser.reset();
    let d = parser.parse_line("V/D( 5): again").unwrap();
    assert_eq!(d.id, 0);
}

#[test]
fn parse_lines_keeps_order_and_numbers() {
    let mut parser = LogParser::new();
    let text = "--------- beginning of main\nD/A( 1): one\n\ncontinuation\r\n10:00:00.000 7 8 W B: two\r\nE/C(9): three\n";
    let entries = parser.parse_lines(text);
    assert_eq!(entries.len(), 3);
    assert_eq!(entries[0].tag, "A");
    assert_eq!(entries[1].tag, "B");
    assert_eq!(entries[1].message, "two");
    assert_eq!(entries[2].pid, 9);
    let ids: Vec<u64> = entries.iter().map(|e| e.id).collect();
    assert_eq!(ids, vec![0, 1, 2]);
    assert_eq!(parser.next_id(), 3);
}

#[test]
fn fatal_folds_into_assert() {
    assert_eq!(LogLevel::from_char('F'), Some(LogLevel::A));
    assert_eq!(LogLevel::from_char('A'), Some(LogLevel::A));
    assert_eq!(LogLevel::from_char('V'), Some(LogLevel::V));
    assert_eq!(LogLevel::from_char('x'), None);
}

#[test]
fn empty_message_yields_nothing() {
    let mut parser = LogParser::new();
    assert!(parser.parse_line_at("12-04 10:30:45.123 1 2 I Tag:", &fixed_clock()).is_none());
    assert!(parser.parse_line_at("12-04 10:30:45.123 1 2 I Tag:   ", &fixed_clock()).is_none());
    assert!(parser.parse_line("D/T(1):").is_none());
    assert_eq!(parser.next_id(), 0);
}

#[test]
fn blank_tag_yields_nothing() {
    let mut parser = LogParser::new();
    assert!(parser.parse_line("D/ (1): x").is_none());
    assert!(parser.parse_line_at("12-04 10:30:45.123 1 2 I  : x", &fixed_clock()).is_none());
    assert!(parser.parse_line_at("10:30:45.123 1 2 I \t : x", &fixed_clock()).is_none());
    assert_eq!(parser.next_id(), 0);
}

#[test]
fn message_with_line_feed_is_dropped() {
    let mut parser = LogParser::new();
    assert!(parser.parse_line_at("12-04 10:30:45.123 1 2 I Tag: a\nb", &fixed_clock()).is_none());
}
