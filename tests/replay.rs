use session_decrypt::{
    echo_enabled, generate_replay, write_exit_data, DataDecoder, ExitData, Metadata,
    PTYMetadata, PTYParserError, SliceSource,
};

fn frame(source: u8, elapsed: u64, data: &[u8]) -> Vec<u8> {
    let mut out = Vec::new();
    out.extend_from_slice(&((data.len() + 13) as u32).to_be_bytes());
    out.push(source);
    out.extend_from_slice(&0u32.to_be_bytes());
    out.extend_from_slice(&elapsed.to_be_bytes());
    out.extend_from_slice(data);
    out
}

fn xterm() -> PTYMetadata {
    PTYMetadata {
        term: Some("xterm".to_string()),
        width: 80,
        height: 24,
        modes: Vec::new(),
    }
}

fn meta(pty: Option<PTYMetadata>, exit_data: Option<ExitData>) -> Metadata {
    Metadata {
        started_at: 0,
        data_size: 0,
        encapsulated_key: String::new(),
        pty,
        exit_data,
    }
}

fn exit(status: Option<u32>, core_dumped: bool, error_msg: Option<&str>) -> ExitData {
    ExitData {
        timestamp: 100,
        status,
        signal: None,
        core_dumped,
        error_msg: error_msg.map(|s| s.to_string()),
    }
}

fn end_banner(data: Option<ExitData>) -> String {
    let mut out = Vec::new();
    write_exit_data(&mut out, &data).unwrap();
    String::from_utf8(out).unwrap()
}

#[test]
fn replays_origin_packets_with_timing() {
    let mut stream = Vec::new();
    stream.extend(frame(1, 0, b"ab"));
    stream.extend(frame(0, 500_000, b"xy"));
    stream.extend(frame(1, 1_500_000, b"cd"));
    let mut d = DataDecoder(SliceSource::new(stream));
    let mut data = Vec::new();
    let mut times = Vec::new();
    generate_replay(&meta(Some(xterm()), None), &mut d, &mut data, &mut times).unwrap();
    assert_eq!(
        String::from_utf8(data).unwrap(),
        "Session started on 1970-01-01 00:00:00+00 [TERM=\"xterm\" COLUMNS=\"80\" LINES=\"24\"]\n\
         abcd\nSession has no termination data\n"
    );
    assert_eq!(String::from_utf8(times).unwrap(), "0.000000 2\n1.500000 2\n");
}

#[test]
fn unknown_term_and_date_in_banner() {
    let pty = PTYMetadata {
        term: None,
        width: 132,
        height: 43,
        modes: Vec::new(),
    };
    let mut m = meta(Some(pty), None);
    m.started_at = 1_000_000_000;
    let mut d = DataDecoder(SliceSource::new(Vec::new()));
    let mut data = Vec::new();
    let mut times = Vec::new();
    generate_replay(&m, &mut d, &mut data, &mut times).unwrap();
    assert_eq!(
        String::from_utf8(data).unwrap(),
        "Session started on 2001-09-09 01:46:40+00 [TERM=\"unknown\" COLUMNS=\"132\" LINES=\"43\"]\n\
         \nSession has no termination data\n"
    );
    assert!(times.is_empty());
}

#[test]
fn timing_delay_has_six_decimals() {
    let mut stream = Vec::new();
    stream.extend(frame(1, 1_234_567, b"q"));
    stream.extend(frame(1, 62_234_568, b"abc"));
    stream.extend(frame(1, 62_234_568, b""));
    let mut d = DataDecoder(SliceSource::new(stream));
    let mut data = Vec::new();
    let mut times = Vec::new();
    generate_replay(&meta(Some(xterm()), None), &mut d, &mut data, &mut times).unwrap();
    assert_eq!(
        String::from_utf8(times).unwrap(),
        "1.234567 1\n61.000001 3\n0.000000 0\n"
    );
}

#[test]
fn clock_going_back_counts_as_no_delay() {
    let mut stream = Vec::new();
    stream.extend(frame(1, 2_000_000, b"a"));
    stream.extend(frame(1, 1_000_000, b"b"));
    let mut d = DataDecoder(SliceSource::new(stream));
    let mut data = Vec::new();
    let mut times = Vec::new();
    generate_replay(&meta(Some(xterm()), None), &mut d, &mut data, &mut times).unwrap();
    assert_eq!(String::from_utf8(times).unwrap(), "2.000000 1\n0.000000 1\n");
}

#[test]
fn replay_without_pty_is_refused() {
    let mut d = DataDecoder(SliceSource::new(frame(1, 0, b"a")));
    let mut data = Vec::new();
    let mut times = Vec::new();
    let r = generate_replay(&meta(None, None), &mut d, &mut data, &mut times);
    assert!(matches!(r, Err(PTYParserError::PTYNotFound)));
    assert!(data.is_empty());
    assert!(times.is_empty());
}

#[test]
fn replay_stops_at_a_bad_frame() {
    let mut d = DataDecoder(SliceSource::new(frame(3, 0, b"a")));
    let mut data = Vec::new();
    let mut times = Vec::new();
    let r = generate_replay(&meta(Some(xterm()), None), &mut d, &mut data, &mut times);
    assert!(matches!(r, Err(PTYParserError::ReadError(_))));
}

#[test]
fn exit_code_banner() {
    assert_eq!(
        end_banner(Some(exit(Some(1), false, None))),
        "\nScript done on 1970-01-01 00:01:40+00 [COMMAND_EXIT_CODE=\"1\"]\n"
    );
}

#[test]
fn missing_status_defaults_to_zero() {
    assert_eq!(
        end_banner(Some(exit(None, false, None))),
        "\nScript done on 1970-01-01 00:01:40+00 [COMMAND_EXIT_CODE=\"0\"]\n"
    );
}

#[test]
fn core_dump_banner() {
    assert_eq!(
        end_banner(Some(exit(Some(139), true, None))),
        "\nScript done on 1970-01-01 00:01:40+00 [CORE DUMPED]\n"
    );
}

#[test]
fn error_message_takes_priority() {
    assert_eq!(
        end_banner(Some(exit(Some(1), true, Some("lost")))),
        "\nScript done on 1970-01-01 00:01:40+00 [ERROR=\"lost\"]\n"
    );
}

#[test]
fn no_exit_data_banner() {
    assert_eq!(end_banner(None), "\nSession has no termination data\n");
}

#[test]
fn echo_mode_is_found() {
    let mut pty = xterm();
    assert!(!echo_enabled(&pty));
    pty.modes.push(("ECHO".to_string(), 0));
    assert!(!echo_enabled(&pty));
    pty.modes.push(("ECHOE".to_string(), 1));
    assert!(!echo_enabled(&pty));
    pty.modes.push(("ECHO".to_string(), 1));
    assert!(echo_enabled(&pty));
}
