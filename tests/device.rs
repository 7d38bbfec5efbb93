use logcat::device::{enrich, AdbManager, DeviceState, ProcessDirectory, ProcessInfo};
use logcat::parser::{LogEntry, LogLevel};

fn entry_with_pid(pid: u32) -> LogEntry {
    LogEntry {
        id: 0,
        device_id: None,
        timestamp: "12:00:00.000".to_string(),
        date_time: None,
        epoch: None,
        pid,
        tid: 1,
        level: LogLevel::I,
        tag: "T".to_string(),
        message: "m".to_string(),
        package_name: None,
        process_name: None,
        raw: None,
    }
}

#[test]
fn device_state_words() {
    assert_eq!(DeviceState::from_str("device"), DeviceState::Device);
    assert_eq!(DeviceState::from_str(" OFFLINE "), DeviceState::Offline);
    assert_eq!(DeviceState::from_str("Unauthorized"), DeviceState::Unauthorized);
    assert_eq!(DeviceState::from_str("recovery"), DeviceState::NoDevice);
}

#[test]
fn device_listing_rows() {
    let adb = AdbManager::new();
    assert_eq!(adb.adb_path(), "adb");
    let out = "List of devices attached\n\
               emulator-5554 device product:sdk model:sdk_gphone64 device:emu64a transport_id:1\n\
               R58M123 unauthorized usb:1-1 transport_id:2\n\
               \n\
               lonely\n\
               192.168.0.7:5555 offline model:Pixel_7\n";
    let devices = adb.parse_devices_output(out);
    assert_eq!(devices.len(), 3);
    assert_eq!(devices[0].id, "emulator-5554");
    assert_eq!(devices[0].state, DeviceState::Device);
    assert_eq!(devices[0].model, "sdk gphone64");
    assert_eq!(devices[0].name, "emu64a");
    assert!(devices[0].is_emulator);
    assert_eq!(devices[1].name, "");
    assert_eq!(devices[1].model, "");
    assert_eq!(devices[1].state, DeviceState::Unauthorized);
    assert!(!devices[1].is_emulator);
    assert_eq!(devices[2].name, "Pixel 7");
    assert_eq!(devices[2].model, "Pixel 7");
    assert_eq!(devices[2].state, DeviceState::Offline);
}

#[test]
fn emulator_without_device_word_gets_a_name() {
    let adb = AdbManager::with_path("/opt/adb".to_string());
    assert_eq!(adb.adb_path(), "/opt/adb");
    let devices = adb.parse_devices_output("header\nlocalhost:5555 device\n");
    assert_eq!(devices.len(), 1);
    assert!(devices[0].is_emulator);
    assert_eq!(devices[0].name, "Emulator (localhost:5555)");
    assert_eq!(devices[0].model, "Emulator (localhost:5555)");
}

#[test]
fn process_listing_rows() {
    let adb = AdbManager::new();
    let out = "  PID NAME\n    1 init\n  612 com.android.systemui\nbad row here\n  77 kworker/0:1 extra part\n +8 plus\n4294967296 toobig\n";
    let procs = adb.parse_processes_output(out);
    assert_eq!(procs.len(), 4);
    assert_eq!(procs[0].pid, 1);
    assert_eq!(procs[0].name, "init");
    assert_eq!(procs[0].package_name, None);
    assert_eq!(procs[1].pid, 612);
    assert_eq!(procs[1].package_name, Some("com.android.systemui".to_string()));
    assert_eq!(procs[2].name, "kworker/0:1 extra part");
    assert_eq!(procs[3].pid, 8);
}

#[test]
fn directory_overwrites_and_keeps_stale_pids() {
    let mut dir = ProcessDirectory::new();
    dir.refresh_from_listing("PID NAME\n1 init\n2 old.name\n");
    assert_eq!(dir.len(), 2);
    dir.refresh_from_listing("PID NAME\n2 new.name\n3 other\n");
    let snap = dir.snapshot();
    assert_eq!(snap.len(), 3);
    assert_eq!(snap[&1].name, "init");
    assert_eq!(snap[&2].name, "new.name");
    assert_eq!(snap[&3].package_name, None);
}

#[test]
fn enrichment_fills_known_pids_only() {
    let mut dir = ProcessDirectory::new();
    dir.merge(&vec![ProcessInfo {
        pid: 612,
        name: "com.android.systemui".to_string(),
        package_name: Some("com.android.systemui".to_string()),
    }]);
    let snap = dir.snapshot();
    let mut hit = entry_with_pid(612);
    enrich(&mut hit, &snap);
    assert_eq!(hit.process_name, Some("com.android.systemui".to_string()));
    assert_eq!(hit.package_name, Some("com.android.systemui".to_string()));
    let mut miss = entry_with_pid(7);
    enrich(&mut miss, &snap);
    assert_eq!(miss.process_name, None);
    assert_eq!(miss.package_name, None);
}
