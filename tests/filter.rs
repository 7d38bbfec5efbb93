use logcat::filter::{FilterConfig, LogFilter};
use logcat::parser::{LogEntry, LogLevel};

fn create_test_entry(level: LogLevel, tag: &str, message: &str) -> LogEntry {
    LogEntry {
        id: 0,
        device_id: None,
        timestamp: "12:00:00.000".to_string(),
        date_time: None,
        epoch: None,
        pid: 1234,
        tid: 5678,
        level,
        tag: tag.to_string(),
        message: message.to_string(),
        package_name: None,
        process_name: None,
        raw: None,
    }
}

#[test]
fn test_level_filter() {
    let config = FilterConfig {
        levels: vec![LogLevel::E, LogLevel::W],
        ..Default::default()
    };
    let filter = LogFilter::new(config);

    let error_entry = create_test_entry(LogLevel::E, "Test", "Error message");
    let debug_entry = create_test_entry(LogLevel::D, "Test", "Debug message");

    assert!(filter.matches(&error_entry));
    assert!(!filter.matches(&debug_entry));
}

#[test]
fn test_tag_filter() {
    let config = FilterConfig {
        tags: vec!["MainActivity".to_string()],
        ..Default::default()
    };
    let filter = LogFilter::new(config);

    let matching = create_test_entry(LogLevel::D, "MainActivity", "test");
    let not_matching = create_test_entry(LogLevel::D, "OtherActivity", "test");

    assert!(filter.matches(&matching));
    assert!(!filter.matches(&not_matching));
}

#[test]
fn test_search_text_filter() {
    let config = FilterConfig {
        search_text: "error".to_string(),
        is_case_sensitive: false,
        ..Default::default()
    };
    let filter = LogFilter::new(config);

    let matching = create_test_entry(LogLevel::D, "Test", "An ERROR occurred");
    let not_matching = create_test_entry(LogLevel::D, "Test", "All good");

    assert!(filter.matches(&matching));
    assert!(!filter.matches(&not_matching));
}

#[test]
fn test_regex_filter() {
    let config = FilterConfig {
        search_text: r"\d{4}".to_string(),
        is_regex: true,
        ..Default::default()
    };
    let filter = LogFilter::new(config);

    let matching = create_test_entry(LogLevel::D, "Test", "Code: 1234");
    let not_matching = create_test_entry(LogLevel::D, "Test", "No numbers");

    assert!(filter.matches(&matching));
    assert!(!filter.matches(&not_matching));
}

#[test]
fn case_sensitive_search_respects_case() {
    let config = FilterConfig {
        search_text: "error".to_string(),
        is_case_sensitive: true,
        ..Default::default()
    };
    let filter = LogFilter::new(config);
    assert!(!filter.matches(&create_test_entry(LogLevel::D, "Test", "An ERROR occurred")));
    assert!(filter.matches(&create_test_entry(LogLevel::D, "Test", "an error occurred")));
}

#[test]
fn literal_search_escapes_meta_characters() {
    let config = FilterConfig {
        search_text: "a.c(1)".to_string(),
        ..Default::default()
    };
    let filter = LogFilter::new(config);
    assert!(filter.matches(&create_test_entry(LogLevel::D, "Test", "call A.C(1) now")));
    assert!(!filter.matches(&create_test_entry(LogLevel::D, "Test", "abc1")));
}

#[test]
fn invalid_regex_matches_everything() {
    let config = FilterConfig {
        search_text: "(unclosed".to_string(),
        is_regex: true,
        ..Default::default()
    };
    let filter = LogFilter::new(config);
    assert!(filter.matches(&create_test_entry(LogLevel::D, "Test", "anything")));
}

#[test]
fn search_spans_tag_and_message() {
    let config = FilterConfig {
        search_text: "Net down".to_string(),
        ..Default::default()
    };
    let filter = LogFilter::new(config);
    assert!(filter.matches(&create_test_entry(LogLevel::D, "Net", "down again")));
}

#[test]
fn package_filter_looks_at_the_tag() {
    let config = FilterConfig {
        package_name: Some("EXAMPLE".to_string()),
        ..Default::default()
    };
    let filter = LogFilter::new(config);
    let mut entry = create_test_entry(LogLevel::D, "Other", "m");
    entry.package_name = Some("com.example.app".to_string());
    assert!(!filter.matches(&entry));
    assert!(filter.matches(&create_test_entry(LogLevel::D, "com.example.Tag", "m")));
}

#[test]
fn pid_filter_is_exact() {
    let config = FilterConfig {
        pid: Some(1234),
        ..Default::default()
    };
    let filter = LogFilter::new(config);
    assert!(filter.matches(&create_test_entry(LogLevel::D, "T", "m")));
    let mut other = create_test_entry(LogLevel::D, "T", "m");
    other.pid = 12345;
    assert!(!filter.matches(&other));
}

#[test]
fn unsetting_a_criterion_keeps_accepted_entries() {
    let strict = FilterConfig {
        levels: vec![LogLevel::I],
        tags: vec!["net".to_string()],
        package_name: Some("Net".to_string()),
        pid: Some(1234),
        search_text: "up".to_string(),
        is_regex: false,
        is_case_sensitive: false,
    };
    let entry = create_test_entry(LogLevel::I, "Network", "link up");
    assert!(LogFilter::new(strict.clone()).matches(&entry));
    let relaxed = [
        FilterConfig { levels: vec![LogLevel::V, LogLevel::D, LogLevel::I, LogLevel::W, LogLevel::E, LogLevel::A], ..strict.clone() },
        FilterConfig { tags: vec![], ..strict.clone() },
        FilterConfig { package_name: None, ..strict.clone() },
        FilterConfig { pid: None, ..strict.clone() },
        FilterConfig { search_text: String::new(), ..strict.clone() },
    ];
    for config in relaxed {
        assert!(LogFilter::new(config).matches(&entry));
    }
}

#[test]
fn filter_logs_keeps_order() {
    let filter = LogFilter::new(FilterConfig {
        levels: vec![LogLevel::E],
        ..Default::default()
    });
    let logs = vec![
        create_test_entry(LogLevel::E, "A", "1"),
        create_test_entry(LogLevel::D, "B", "2"),
        create_test_entry(LogLevel::E, "C", "3"),
    ];
    let kept = filter.filter_logs(&logs);
    let tags: Vec<&str> = kept.iter().map(|e| e.tag.as_str()).collect();
    assert_eq!(tags, vec!["A", "C"]);
}

#[test]
fn update_config_recompiles() {
    let mut filter = LogFilter::new(FilterConfig::default());
    let entry = create_test_entry(LogLevel::D, "T", "hello");
    assert!(filter.matches(&entry));
    filter.update_config(FilterConfig {
        search_text: "bye".to_string(),
        ..Default::default()
    });
    assert!(!filter.matches(&entry));
    assert_eq!(filter.config().search_text, "bye");
}
