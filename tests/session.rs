use logcat::parser::{LogEntry, LogLevel};
use logcat::session::{Batcher, LogcatError, SessionRegistry, SetupStep, BATCH_LIMIT};

fn entry(id: u64) -> LogEntry {
    LogEntry {
        id,
        device_id: None,
        timestamp: "12:00:00.000".to_string(),
        date_time: None,
        epoch: None,
        pid: 1,
        tid: 1,
        level: LogLevel::D,
        tag: "T".to_string(),
        message: "m".to_string(),
        package_name: None,
        process_name: None,
        raw: None,
    }
}

#[test]
fn second_start_is_refused_and_keeps_the_first() {
    let mut reg: SessionRegistry<u32> = SessionRegistry::new();
    assert_eq!(reg.check_start("dev1"), Ok(()));
    assert_eq!(reg.register("dev1".to_string(), 10), None);
    assert_eq!(reg.check_start("dev1"), Err(LogcatError::AlreadyRunning));
    assert_eq!(reg.register("dev1".to_string(), 20), Some(20));
    assert_eq!(reg.list_active(), vec!["dev1".to_string()]);
    assert_eq!(reg.stop("dev1"), Some(10));
}

#[test]
fn stop_is_idempotent() {
    let mut reg: SessionRegistry<u32> = SessionRegistry::new();
    assert_eq!(reg.stop("nobody"), None);
    reg.register("a".to_string(), 1);
    reg.register("b".to_string(), 2);
    assert_eq!(reg.stop("a"), Some(1));
    assert_eq!(reg.stop("a"), None);
    assert!(!reg.is_active("a"));
    assert!(reg.is_active("b"));
}

#[test]
fn stop_all_empties_the_registry() {
    let mut reg: SessionRegistry<u32> = SessionRegistry::new();
    reg.register("a".to_string(), 1);
    reg.register("b".to_string(), 2);
    let all = reg.stop_all();
    assert_eq!(all, vec![("a".to_string(), 1), ("b".to_string(), 2)]);
    assert!(reg.list_active().is_empty());
}

#[test]
fn single_event_goes_out_on_timeout() {
    let mut b = Batcher::new("dev".to_string(), 0);
    assert!(b.on_event(entry(0), 10).is_none());
    let out = b.on_timeout(60).unwrap();
    assert_eq!(out.len(), 1);
    assert_eq!(out[0].device_id, Some("dev".to_string()));
    assert!(b.on_timeout(120).is_none());
}

#[test]
fn full_batch_goes_out_at_once() {
    let mut b = Batcher::new("dev".to_string(), 0);
    for i in 0..(BATCH_LIMIT as u64 - 1) {
        assert!(b.on_event(entry(i), 1).is_none());
    }
    let out = b.on_event(entry(99), 1).unwrap();
    assert_eq!(out.len(), BATCH_LIMIT);
    let ids: Vec<u64> = out.iter().map(|e| e.id).collect();
    let mut expected: Vec<u64> = (0..(BATCH_LIMIT as u64 - 1)).collect();
    expected.push(99);
    assert_eq!(ids, expected);
    assert_eq!(b.pending_len(), 0);
}

#[test]
fn stale_batch_goes_out_with_next_event() {
    let mut b = Batcher::new("dev".to_string(), 0);
    assert!(b.on_event(entry(1), 50).is_none());
    let out = b.on_event(entry(2), 101).unwrap();
    assert_eq!(out.iter().map(|e| e.id).collect::<Vec<_>>(), vec![1, 2]);
}

#[test]
fn close_flushes_the_remainder_once() {
    let mut b = Batcher::new("dev".to_string(), 0);
    b.on_event(entry(1), 1);
    b.on_event(entry(2), 2);
    let out = b.on_closed().unwrap();
    assert_eq!(out.len(), 2);
    assert!(b.on_closed().is_none());
}

#[test]
fn errors_describe_themselves() {
    assert!(!LogcatError::AlreadyRunning.describe().is_empty());
    assert!(!LogcatError::BufferClearFailed.describe().is_empty());
}

#[test]
fn setup_runs_through_every_step() {
    let mut step = SetupStep::first();
    let mut seen = vec![step];
    while !step.is_final() {
        step = step.next(true);
        seen.push(step);
    }
    assert_eq!(
        seen,
        vec![
            SetupStep::CheckRegistry,
            SetupStep::LoadProcesses,
            SetupStep::ClearBuffer,
            SetupStep::SpawnCapture,
            SetupStep::Register,
            SetupStep::Running,
        ]
    );
}

#[test]
fn setup_failures_name_their_step() {
    assert_eq!(SetupStep::CheckRegistry.next(false), SetupStep::Aborted(LogcatError::AlreadyRunning));
    assert_eq!(SetupStep::LoadProcesses.next(false), SetupStep::ClearBuffer);
    assert_eq!(SetupStep::ClearBuffer.next(false), SetupStep::Aborted(LogcatError::BufferClearFailed));
    assert_eq!(SetupStep::SpawnCapture.next(false), SetupStep::Aborted(LogcatError::SpawnFailed));
    assert!(SetupStep::Aborted(LogcatError::SpawnFailed).is_final());
}

#[test]
fn batches_over_a_run_keep_every_event_once_in_order() {
    let mut b = Batcher::new("dev".to_string(), 0);
    let mut out: Vec<u64> = Vec::new();
    for i in 0..120u64 {
        if let Some(batch) = b.on_event(entry(i), i * 3) {
            out.extend(batch.iter().map(|e| e.id));
        }
        if i % 17 == 0 {
            if let Some(batch) = b.on_timeout(i * 3 + 1) {
                out.extend(batch.iter().map(|e| e.id));
            }
        }
    }
    if let Some(batch) = b.on_closed() {
        out.extend(batch.iter().map(|e| e.id));
    }
    assert_eq!(out, (0..120u64).collect::<Vec<_>>());
}
