use droidrun::adb_error::AdbError;
use droidrun::device::{
    parse_app_info, parse_current_app, parse_forward_list, parse_forward_port,
    parse_package_list, parse_shell2_output, parse_window_size, parse_wlan_ip,
    screen_on_from_output, shell2_command, AdbDevice,
};
use droidrun::models::{
    CurrentApp, DeviceEvent, DeviceState, FileStat, ForwardEntry, RebootMode, ReverseEntry,
    ScreenSize, ShellOutput, SyncDirEntry,
};
use droidrun::server::{parse_device_events, parse_device_list, parse_server_version, AdbServer};
use droidrun::recv::{RecvReader, WordStep};
use droidrun::sync::{
    encode_upload, expect_stat_reply, le_vec, list_reply_continues, read_le, CHUNK_SIZE,
};
use droidrun::wire::{decode_payload, format_request, parse_length_prefix};

// ── connection ─────────────────────────────────────────────────────

#[test]
fn test_command_format() {
    let msg = format_request("host:version");
    assert_eq!(msg, "000Chost:version");
}

#[test]
fn test_short_command_format() {
    let msg = format_request("host:devices");
    assert_eq!(msg, "000Chost:devices");
}

// ── device ─────────────────────────────────────────────────────────

#[test]
fn test_device_creation() {
    let d = AdbDevice::with_serial("emulator-5554");
    assert_eq!(d.serial, "emulator-5554");
    assert_eq!(d.host(), "127.0.0.1");
    assert_eq!(d.port(), 5037);
}

#[test]
fn test_device_custom_host() {
    let d = AdbDevice::new("device123", "192.168.1.100", 5038);
    assert_eq!(d.serial, "device123");
    assert_eq!(d.host(), "192.168.1.100");
    assert_eq!(d.port(), 5038);
}

#[test]
fn test_parse_shell2_output() {
    let out = parse_shell2_output("hello world\nDROIDRUN_EXIT:0\n");
    assert_eq!(out.stdout, "hello world\n");
    assert_eq!(out.exit_code, 0);
}

#[test]
fn test_parse_shell2_failure() {
    let out = parse_shell2_output("error: not found\nDROIDRUN_EXIT:1\n");
    assert_eq!(out.stdout, "error: not found\n");
    assert_eq!(out.exit_code, 1);
}

#[test]
fn test_parse_wm_size() {
    let size = parse_window_size("Physical size: 1080x1920\n").unwrap();
    assert_eq!(size.width, 1080);
    assert_eq!(size.height, 1920);
}

#[test]
fn test_parse_wm_size_override() {
    let size = parse_window_size("Physical size: 1440x2960\nOverride size: 1080x2220\n").unwrap();
    assert_eq!(size.width, 1440);
    assert_eq!(size.height, 2960);
}

#[test]
fn test_parse_current_app() {
    let output =
        "    mResumedActivity: ActivityRecord{abcdef u0 com.example.app/.MainActivity t1}\n";
    let app = parse_current_app(output).unwrap();
    assert_eq!(app.package, "com.example.app");
    assert_eq!(app.activity, ".MainActivity");
}

#[test]
fn test_parse_app_info() {
    let output = "  versionName=1.2.3\n  versionCode=42 minSdk=24\n  codePath=/data/app/com.example\n  firstInstallTime=2024-01-01\n  lastUpdateTime=2024-06-15\n";
    let detail = parse_app_info("com.example", output);
    assert_eq!(detail.version_name.as_deref(), Some("1.2.3"));
    assert_eq!(detail.version_code, Some(42));
    assert_eq!(detail.install_path.as_deref(), Some("/data/app/com.example"));
}

#[test]
fn test_parse_wlan_ip() {
    let output = "    inet 192.168.1.42/24 brd 192.168.1.255 scope global wlan0\n";
    assert_eq!(parse_wlan_ip(output).unwrap(), "192.168.1.42");
}

#[test]
fn test_parse_screen_on() {
    assert!(screen_on_from_output("  mWakefulness=Awake\n"));
    assert!(!screen_on_from_output("  mWakefulness=Asleep\n"));
}

// ── models ─────────────────────────────────────────────────────────

#[test]
fn test_device_state_from_str() {
    assert_eq!(DeviceState::from("device"), DeviceState::Device);
    assert_eq!(DeviceState::from("offline"), DeviceState::Offline);
    assert_eq!(DeviceState::from("unauthorized"), DeviceState::Unauthorized);
    assert!(DeviceState::from("device").is_online());
    assert!(!DeviceState::from("offline").is_online());
}

#[test]
fn test_forward_entry_ports() {
    let entry = ForwardEntry {
        serial: "emulator-5554".into(),
        local: "tcp:27183".into(),
        remote: "tcp:8080".into(),
    };
    assert_eq!(entry.local_port(), Some(27183));
    assert_eq!(entry.remote_port(), Some(8080));
}

#[test]
fn test_forward_entry_non_tcp() {
    let entry = ForwardEntry {
        serial: "device".into(),
        local: "localabstract:foo".into(),
        remote: "tcp:5000".into(),
    };
    assert_eq!(entry.local_port(), None);
    assert_eq!(entry.remote_port(), Some(5000));
}

#[test]
fn test_shell_output() {
    let output = ShellOutput { stdout: "hello world\n".into(), exit_code: 0 };
    assert_eq!(output.exit_code, 0);
    assert!(output.stdout.contains("hello"));
}

#[test]
fn test_reverse_entry_ports() {
    let entry = ReverseEntry { remote: "tcp:8080".into(), local: "tcp:9090".into() };
    assert_eq!(entry.remote_port(), Some(8080));
    assert_eq!(entry.local_port(), Some(9090));
}

#[test]
fn test_reverse_entry_non_tcp() {
    let entry = ReverseEntry { remote: "localabstract:foo".into(), local: "tcp:5000".into() };
    assert_eq!(entry.remote_port(), None);
    assert_eq!(entry.local_port(), Some(5000));
}

#[test]
fn test_file_stat_dir() {
    let stat = FileStat { mode: 0o40755, size: 4096, mtime: 1700000000 };
    assert!(stat.is_dir());
    assert!(!stat.is_file());
    assert!(stat.file_exists());
}

#[test]
fn test_file_stat_file() {
    let stat = FileStat { mode: 0o100644, size: 1234, mtime: 1700000000 };
    assert!(!stat.is_dir());
    assert!(stat.is_file());
    assert!(stat.file_exists());
}

#[test]
fn test_file_stat_not_found() {
    let stat = FileStat { mode: 0, size: 0, mtime: 0 };
    assert!(!stat.is_dir());
    assert!(!stat.is_file());
    assert!(!stat.file_exists());
}

#[test]
fn test_sync_dir_entry() {
    let entry = SyncDirEntry { name: "test.txt".into(), mode: 0o100644, size: 100, mtime: 1700000000 };
    assert!(entry.is_file());
    assert!(!entry.is_dir());
}

#[test]
fn test_reboot_mode_str() {
    assert_eq!(RebootMode::Normal.as_str(), "");
    assert_eq!(RebootMode::Bootloader.as_str(), "bootloader");
    assert_eq!(RebootMode::Recovery.as_str(), "recovery");
    assert_eq!(RebootMode::Sideload.as_str(), "sideload");
}

#[test]
fn test_current_app_display() {
    let app = CurrentApp { package: "com.example.app".into(), activity: ".MainActivity".into() };
    assert_eq!(app.to_string(), "com.example.app/.MainActivity");
}

#[test]
fn test_screen_size_display() {
    let size = ScreenSize { width: 1080, height: 1920 };
    assert_eq!(size.to_string(), "1080x1920");
}

#[test]
fn test_device_event() {
    let event = DeviceEvent { serial: "emulator-5554".into(), state: DeviceState::Device };
    assert!(event.state.is_online());
}

// ── server ─────────────────────────────────────────────────────────

#[test]
fn test_default_server() {
    let server = AdbServer::default();
    assert_eq!(server.host(), "127.0.0.1");
    assert_eq!(server.port(), 5037);
}

#[test]
fn test_parse_devices_output() {
    let devices = parse_device_list("emulator-5554\tdevice\n192.168.1.5:5555\toffline\n");
    assert_eq!(devices.len(), 2);
    assert_eq!(devices[0].serial, "emulator-5554");
    assert!(devices[0].state.is_online());
    assert_eq!(devices[1].serial, "192.168.1.5:5555");
    assert!(!devices[1].state.is_online());
}

#[test]
fn test_parse_track_devices_output() {
    let events = parse_device_events("emulator-5554\tdevice\n192.168.1.5:5555\toffline\n");
    assert_eq!(events.len(), 2);
    assert_eq!(events[0].serial, "emulator-5554");
    assert!(events[0].state.is_online());
    assert!(!events[1].state.is_online());
}

// ── further cases ──────────────────────────────────────────────────

#[test]
fn shell2_command_wraps_and_marks_exit() {
    assert_eq!(shell2_command("ls /sdcard"), "(ls /sdcard); echo DROIDRUN_EXIT:$?");
}

#[test]
fn shell2_without_sentinel_keeps_everything() {
    let out = parse_shell2_output("no marker here");
    assert_eq!(out.stdout, "no marker here");
    assert_eq!(out.exit_code, -1);
}

#[test]
fn length_prefix_round_trip() {
    assert_eq!(parse_length_prefix(b"000C".to_vec()).unwrap(), 12);
    assert_eq!(parse_length_prefix(b"ffff".to_vec()).unwrap(), 65535);
    assert!(matches!(parse_length_prefix(b"zz00".to_vec()), Err(AdbError::Protocol(_))));
}

#[test]
fn payload_must_be_utf8() {
    assert_eq!(decode_payload(b"device".to_vec()).unwrap(), "device");
    assert!(matches!(decode_payload(vec![0xff, 0xfe]), Err(AdbError::Utf8(_))));
}

#[test]
fn little_endian_words_read_back() {
    let b = le_vec(0x12345678);
    assert_eq!(b, vec![0x78, 0x56, 0x34, 0x12]);
    assert_eq!(read_le(&b, 0), 0x12345678);
}

#[test]
fn upload_frames_hold_the_data_and_the_done_word() {
    let frames = encode_upload("/sdcard/a.txt", b"hello", 7);
    // SEND + length + path, DATA + length + bytes, DONE + mtime
    assert_eq!(&frames[0..4], b"SEND");
    assert_eq!(read_le(&frames, 4), 19);
    let data_at = 8 + 19;
    assert_eq!(&frames[data_at..data_at + 4], b"DATA");
    assert_eq!(read_le(&frames, data_at + 4), 5);
    assert_eq!(&frames[data_at + 8..data_at + 13], b"hello");
    assert_eq!(&frames[data_at + 13..data_at + 17], b"DONE");
    assert_eq!(read_le(&frames, data_at + 17), 7);
    assert_eq!(frames.len(), data_at + 21);
    assert!(CHUNK_SIZE >= 5);
}

#[test]
fn server_version_is_hex() {
    assert_eq!(parse_server_version("0029").unwrap(), 41);
    assert!(matches!(parse_server_version("xyz"), Err(AdbError::Parse(_))));
}

#[test]
fn forward_list_keeps_only_the_device() {
    let data = "emulator-5554 tcp:1000 tcp:8080\nother tcp:2000 tcp:9000\nbroken\n";
    let mine = parse_forward_list(data, Some("emulator-5554"));
    assert_eq!(mine.len(), 1);
    assert_eq!(mine[0].local, "tcp:1000");
    let all = parse_forward_list(data, None);
    assert_eq!(all.len(), 2);
    assert_eq!(parse_forward_port("27183\n").unwrap(), 27183);
    assert!(parse_forward_port("oops").is_err());
}

#[test]
fn package_list_strips_prefix() {
    let pkgs = parse_package_list("package:com.a\npackage:com.b\n\n");
    assert_eq!(pkgs, vec!["com.a".to_string(), "com.b".to_string()]);
}

#[test]
fn current_app_fails_without_activity() {
    assert!(matches!(parse_current_app("nothing to see"), Err(AdbError::Parse(_))));
}

#[test]
fn shell2_reads_the_last_sentinel() {
    let out = parse_shell2_output("echo DROIDRUN_EXIT:5\nDROIDRUN_EXIT:0\n");
    assert_eq!(out.stdout, "echo DROIDRUN_EXIT:5\n");
    assert_eq!(out.exit_code, 0);
    let neg = parse_shell2_output("xDROIDRUN_EXIT:-2\n");
    assert_eq!(neg.stdout, "x");
    assert_eq!(neg.exit_code, -2);
}

#[test]
fn state_names_read_back() {
    for state in [
        DeviceState::Device,
        DeviceState::Offline,
        DeviceState::Unauthorized,
        DeviceState::Authorizing,
        DeviceState::Connecting,
        DeviceState::Recovery,
        DeviceState::Bootloader,
        DeviceState::Unknown("sideload".into()),
    ] {
        assert_eq!(DeviceState::from(&state.to_string()), state);
    }
    assert_eq!(DeviceState::from("  device\n"), DeviceState::Device);
}

/// Feeds a `RECV` reply stream to a reader, as a connection would.
fn read_back(stream: &[u8]) -> Result<Vec<u8>, AdbError> {
    let mut reader = RecvReader::new();
    let mut at = 0;
    loop {
        reader.on_tag(&stream[at..at + 4])?;
        at += 4;
        let step = reader.on_word(&stream[at..at + 4]);
        at += 4;
        match step {
            WordStep::Chunk(n) => {
                reader.on_chunk(&stream[at..at + n]);
                at += n;
            }
            WordStep::Message(n) => {
                return Err(AdbError::SyncError(
                    String::from_utf8_lossy(&stream[at..at + n]).to_string(),
                ))
            }
            WordStep::Finished => return Ok(reader.into_data()),
        }
    }
}

#[test]
fn pushed_frames_read_back_as_the_data() {
    let data: Vec<u8> = (0..(CHUNK_SIZE + 10)).map(|i| (i % 251) as u8).collect();
    let frames = encode_upload("/sdcard/big.bin", &data, 99);
    // drop the SEND header: what remains is DATA..., DONE + word
    let start = 8 + read_le(&frames, 4) as usize;
    assert_eq!(read_back(&frames[start..]).unwrap(), data);
}

#[test]
fn recv_reader_collects_chunks_in_order() {
    let mut stream = Vec::new();
    stream.extend_from_slice(b"DATA");
    stream.extend_from_slice(&le_vec(3));
    stream.extend_from_slice(b"abc");
    stream.extend_from_slice(b"DATA");
    stream.extend_from_slice(&le_vec(0));
    stream.extend_from_slice(b"DATA");
    stream.extend_from_slice(&le_vec(2));
    stream.extend_from_slice(b"de");
    stream.extend_from_slice(b"DONE");
    stream.extend_from_slice(&le_vec(0));
    assert_eq!(read_back(&stream).unwrap(), b"abcde".to_vec());
}

#[test]
fn recv_reader_reports_fail_and_unknown_tags() {
    let mut stream = Vec::new();
    stream.extend_from_slice(b"FAIL");
    stream.extend_from_slice(&le_vec(7));
    stream.extend_from_slice(b"no file");
    match read_back(&stream) {
        Err(AdbError::SyncError(m)) => assert_eq!(m, "no file"),
        other => panic!("unexpected {other:?}"),
    }
    let mut reader = RecvReader::new();
    match reader.on_tag(b"OKAY") {
        Err(AdbError::SyncError(m)) => assert_eq!(m, "unexpected sync response: \"OKAY\""),
        other => panic!("unexpected {other:?}"),
    }
}

#[test]
fn list_and_stat_replies_are_checked() {
    assert_eq!(list_reply_continues(b"DENT").unwrap(), true);
    assert_eq!(list_reply_continues(b"DONE").unwrap(), false);
    match list_reply_continues(b"STAT") {
        Err(AdbError::SyncError(m)) => assert_eq!(m, "expected DENT/DONE, got \"STAT\""),
        other => panic!("unexpected {other:?}"),
    }
    assert!(expect_stat_reply(b"STAT").is_ok());
    match expect_stat_reply(b"FAIL") {
        Err(AdbError::SyncError(m)) => assert_eq!(m, "expected STAT, got \"FAIL\""),
        other => panic!("unexpected {other:?}"),
    }
}

#[test]
fn file_stat_time_counts_from_the_epoch() {
    let st = FileStat { mode: 0o100644, size: 3, mtime: 1_700_000_000 };
    assert_eq!(
        st.modified_time(),
        std::time::UNIX_EPOCH + std::time::Duration::from_secs(1_700_000_000)
    );
    assert_ne!(st.modified_time(), std::time::UNIX_EPOCH);
}

#[test]
fn file_type_comes_from_the_type_field() {
    let block = FileStat { mode: 0o60660, size: 0, mtime: 0 };
    assert!(!block.is_dir());
    assert!(!block.is_file());
    let link = FileStat { mode: 0o120777, size: 0, mtime: 0 };
    assert!(!link.is_file());
    assert!(!link.is_dir());
    let socket = SyncDirEntry { name: "s".to_string(), mode: 0o140755, size: 0, mtime: 0 };
    assert!(!socket.is_file());
    assert!(!socket.is_dir());
}

#[test]
fn a_bare_carriage_return_ends_the_last_line() {
    let app = parse_current_app("mCurrentFocus=com.a/com.a.Main\r").unwrap();
    assert_eq!(app.package, "mCurrentFocus=com.a");
    assert_eq!(app.activity, "com.a.Main");
    let crlf = parse_current_app("mCurrentFocus=com.a/com.a.Main\r\n").unwrap();
    assert_eq!(crlf.package, "com.a");
    assert_eq!(crlf.activity, "com.a.Main");
}
