use crate::data::{
    frame_error, stopped_at_bad_frame, DataPacket, decode_frames, encode_frames, extends, fresh, lemma_encode_decode, lemma_encode_push,
    packet_wf, side_payloads, DataDecoder, DataError, DataSource, PacketModel,
};
use crate::decimal::{
    decimal, fixed_digits, push_bytes, push_decimal, push_fixed_digits, push_str,
};
use crate::metadata::{ExitData, Metadata, PTYMetadata, MAX_TIMESTAMP};
use crate::source::{coherent, lemma_prefix_take, lemma_taken, upcoming, ByteSource};
use vstd::prelude::*;
use vstd::string::StringSliceAdditionalSpecFns;
use vstd::utf8::encode_utf8;

verus! {

#[derive(Clone, Copy, Debug, PartialEq, Eq)]
pub enum PTYParserError {
    ReadError(DataError),
    WriteError,
    PTYNotFound,
}

/// Name of the terminal mode that tells whether input is echoed.
pub const PTY_MODE_ECHO: &'static str = "ECHO";

/// Microseconds in a second.
pub const MICROS_PER_SEC: u64 = 1_000_000;

/// The proleptic Gregorian (year, month, day) of the day `days` after
/// 1970-01-01, for `days >= 0`: the era-based civil calendar conversion.
pub open spec fn civil_from_days(days: int) -> (int, int, int) {
    let z = days + 719468;
    let era = z / 146097;
    let doe = z - era * 146097;
    let yoe = (doe - doe / 1460 + doe / 36524 - doe / 146096) / 365;
    let doy = doe - (365 * yoe + yoe / 4 - yoe / 100);
    let mp = (5 * doy + 2) / 153;
    let d = doy - (153 * mp + 2) / 5 + 1;
    let m = if mp < 10 {
        mp + 3
    } else {
        mp - 9
    };
    (yoe + era * 400 + if m <= 2 {
        1int
    } else {
        0int
    }, m, d)
}

/// The `k` low-order decimal digits of `n` as characters, zero-padded.
pub open spec fn digit_chars(n: nat, k: nat) -> Seq<char> {
    fixed_digits(n, k).map_values(|b: u8| b as char)
}

/// `YYYY-MM-DD HH:MM:SS+00` for the UTC time `secs` seconds after the
/// Unix epoch.
pub open spec fn utc_date_text(secs: nat) -> Seq<char> {
    let (y, m, d) = civil_from_days(secs as int / 86400);
    let t = secs % 86400;
    digit_chars(y as nat, 4) + seq!['-'] + digit_chars(m as nat, 2) + seq!['-'] + digit_chars(
        d as nat,
        2,
    ) + seq![' '] + digit_chars(t / 3600, 2) + seq![':'] + digit_chars(t % 3600 / 60, 2) + seq![
        ':',
    ] + digit_chars(t % 60, 2) + seq!['+', '0', '0']
}

/// Relies on chrono's `DateTime::<Utc>::from_timestamp`, which yields the
/// UTC date and time for every second from the epoch to the end of year
/// 9999, and on its `format` with the pattern `%Y-%m-%d %H:%M:%S+00`, which
/// writes the four-digit year and the zero-padded fields.
#[verifier::external_body]
fn format_date(secs: i64) -> (r: Option<String>)
    requires
        0 <= secs <= MAX_TIMESTAMP,
    ensures
        r is Some,
        r->Some_0@ == utc_date_text(secs as nat),
{
    match chrono::DateTime::<chrono::Utc>::from_timestamp(secs, 0) {
        Some(d) => Some(d.format("%Y-%m-%d %H:%M:%S+00").to_string()),
        None => None,
    }
}

pub open spec fn date_bytes(secs: u64) -> Seq<u8> {
    encode_utf8(utc_date_text(secs as nat))
}

fn push_date(out: &mut Vec<u8>, secs: u64)
    requires
        secs <= MAX_TIMESTAMP,
    ensures
        final(out)@ == old(out)@ + date_bytes(secs),
{
    match format_date(secs as i64) {
        Some(s) => push_str(out, s.as_str()),
        None => {},
    }
}

pub open spec fn term_bytes(term: Option<String>) -> Seq<u8> {
    match term {
        Some(t) => encode_utf8(t@),
        None => "unknown".spec_bytes(),
    }
}

/// The first line of a transcript.
pub open spec fn start_banner(started_at: u64, pty: PTYMetadata) -> Seq<u8> {
    "Session started on ".spec_bytes() + date_bytes(started_at) + " [TERM=\"".spec_bytes()
        + term_bytes(pty.term) + "\" COLUMNS=\"".spec_bytes() + decimal(pty.width as nat)
        + "\" LINES=\"".spec_bytes() + decimal(pty.height as nat) + "\"]\n".spec_bytes()
}

/// The last line of a transcript, from how the session ended.
pub open spec fn end_banner(exit: Option<ExitData>) -> Seq<u8> {
    match exit {
        None => "\nSession has no termination data\n".spec_bytes(),
        Some(e) => "\nScript done on ".spec_bytes() + date_bytes(e.timestamp) + match e.error_msg {
            Some(m) => " [ERROR=\"".spec_bytes() + encode_utf8(m@) + "\"]\n".spec_bytes(),
            None => if e.core_dumped {
                " [CORE DUMPED]\n".spec_bytes()
            } else {
                " [COMMAND_EXIT_CODE=\"".spec_bytes() + decimal(
                    match e.status {
                        Some(c) => c as nat,
                        None => 0,
                    },
                ) + "\"]\n".spec_bytes()
            },
        },
    }
}

/// One record of the timing file: the delay in seconds with six decimals,
/// then the number of bytes written.
pub open spec fn timing_line(delta: nat, len: nat) -> Seq<u8> {
    decimal(delta / 1_000_000) + ".".spec_bytes() + fixed_digits(delta % 1_000_000, 6)
        + " ".spec_bytes() + decimal(len) + "\n".spec_bytes()
}

/// Time from `prev` to `cur`; a clock that went back counts as no delay.
pub open spec fn delay(prev: u64, cur: u64) -> nat {
    if cur >= prev {
        (cur - prev) as nat
    } else {
        0
    }
}

/// The elapsed time of the last packet from the origin, zero if none.
pub open spec fn last_origin_elapsed(ps: Seq<PacketModel>) -> u64
    decreases ps.len(),
{
    if ps.len() == 0 {
        0
    } else if ps.last().source == DataSource::Origin {
        ps.last().elapsed
    } else {
        last_origin_elapsed(ps.drop_last())
    }
}

/// The timing file for `ps`: one record per origin packet.
pub open spec fn timing_lines(ps: Seq<PacketModel>) -> Seq<u8>
    decreases ps.len(),
{
    if ps.len() == 0 {
        Seq::empty()
    } else {
        let p = ps.last();
        timing_lines(ps.drop_last()) + if p.source == DataSource::Origin {
            timing_line(delay(last_origin_elapsed(ps.drop_last()), p.elapsed), p.data.len())
        } else {
            Seq::empty()
        }
    }
}

/// Whether the terminal modes hold `ECHO` with a nonzero value.
pub open spec fn echo_on(modes: Seq<(String, u32)>) -> bool {
    exists|i: int|
        0 <= i < modes.len() && encode_utf8(#[trigger] modes[i].0@) == PTY_MODE_ECHO.spec_bytes()
            && modes[i].1 != 0
}

fn bytes_equal(a: &[u8], b: &[u8]) -> (r: bool)
    ensures
        r == (a@ == b@),
{
    if a.len() != b.len() {
        return false;
    }
    let mut i: usize = 0;
    while i < a.len()
        invariant
            a@.len() == b@.len(),
            i <= a@.len(),
            a@.take(i as int) == b@.take(i as int),
        decreases a@.len() - i,
    {
        if a[i] != b[i] {
            assert(a@[i as int] == a@.take(i as int + 1)[i as int]);
            assert(b@[i as int] == b@.take(i as int + 1)[i as int]);
            return false;
        }
        assert(a@.take(i as int + 1) =~= a@.take(i as int).push(a@[i as int]));
        assert(b@.take(i as int + 1) =~= b@.take(i as int).push(b@[i as int]));
        i = i + 1;
    }
    assert(a@.take(i as int) =~= a@);
    assert(b@.take(i as int) =~= b@);
    true
}

/// Whether the terminal echoes input, by its `ECHO` mode.
pub fn echo_enabled(pty: &PTYMetadata) -> (r: bool)
    ensures
        r == echo_on(pty.modes@),
{
    let mut i: usize = 0;
    while i < pty.modes.len()
        invariant
            i <= pty.modes@.len(),
            forall|j: int|
                0 <= j < i ==> !(encode_utf8(#[trigger] pty.modes@[j].0@)
                    == PTY_MODE_ECHO.spec_bytes() && pty.modes@[j].1 != 0),
        decreases pty.modes@.len() - i,
    {
        let (name, value) = &pty.modes[i];
        if *value != 0 && bytes_equal(name.as_str().as_bytes(), PTY_MODE_ECHO.as_bytes()) {
            return true;
        }
        i = i + 1;
    }
    false
}

/// Appends the closing line of a transcript.
pub fn write_exit_data(writer: &mut Vec<u8>, data: &Option<ExitData>) -> (r: Result<(), PTYParserError>)
    requires
        data matches Some(e) ==> e.timestamp <= MAX_TIMESTAMP,
    ensures
        r is Ok,
        final(writer)@ == old(writer)@ + end_banner(*data),
{
    match data {
        None => push_str(writer, "\nSession has no termination data\n"),
        Some(exit_data) => {
            push_str(writer, "\nScript done on ");
            push_date(writer, exit_data.timestamp);
            match &exit_data.error_msg {
                Some(e) => {
                    push_str(writer, " [ERROR=\"");
                    push_str(writer, e.as_str());
                    push_str(writer, "\"]\n");
                },
                None => {
                    if exit_data.core_dumped {
                        push_str(writer, " [CORE DUMPED]\n");
                    } else {
                        let code: u32 = match exit_data.status {
                            Some(c) => c,
                            None => 0,
                        };
                        push_str(writer, " [COMMAND_EXIT_CODE=\"");
                        push_decimal(writer, code as u64);
                        push_str(writer, "\"]\n");
                    }
                },
            }
        },
    }
    Ok(())
}

fn write_start_banner(writer: &mut Vec<u8>, started_at: u64, pty: &PTYMetadata)
    requires
        started_at <= MAX_TIMESTAMP,
    ensures
        final(writer)@ == old(writer)@ + start_banner(started_at, *pty),
{
    push_str(writer, "Session started on ");
    push_date(writer, started_at);
    push_str(writer, " [TERM=\"");
    match &pty.term {
        Some(t) => push_str(writer, t.as_str()),
        None => push_str(writer, "unknown"),
    }
    push_str(writer, "\" COLUMNS=\"");
    push_decimal(writer, pty.width as u64);
    push_str(writer, "\" LINES=\"");
    push_decimal(writer, pty.height as u64);
    push_str(writer, "\"]\n");
}

fn write_timing_line(writer: &mut Vec<u8>, delta: u64, len: usize)
    ensures
        final(writer)@ == old(writer)@ + timing_line(delta as nat, len as nat),
{
    push_decimal(writer, delta / MICROS_PER_SEC);
    push_str(writer, ".");
    push_fixed_digits(writer, delta % MICROS_PER_SEC, 6);
    push_str(writer, " ");
    push_decimal(writer, len as u64);
    push_str(writer, "\n");
}

/// Replays the packets of `decoder` into a transcript and a timing file.
///
/// The transcript gets the start banner, the payload of every origin
/// packet, then the end banner. Client packets are skipped: the origin
/// echoes what the client typed. The timing file gets one record per origin
/// packet, with the delay since the previous origin packet.
#[verifier::rlimit(50)]
pub fn generate_replay<R: ByteSource>(
    meta: &Metadata,
    decoder: &mut DataDecoder<R>,
    data_writer: &mut Vec<u8>,
    times_writer: &mut Vec<u8>,
) -> (r: Result<(), PTYParserError>)
    requires
        meta.wf(),
    ensures
        extends(old(decoder).0.delivered(), final(decoder).0.delivered()),
        meta.pty is None ==> {
            &&& r == Err::<(), PTYParserError>(PTYParserError::PTYNotFound)
            &&& final(decoder).0.delivered() == old(decoder).0.delivered()
            &&& final(data_writer)@ == old(data_writer)@
            &&& final(times_writer)@ == old(times_writer)@
        },
        meta.pty is Some ==> (r matches Err(e) ==> e matches PTYParserError::ReadError(_)),
        (meta.pty is Some && old(decoder).0.at_end()) ==> r is Ok,
        r is Ok ==> final(decoder).0.at_end() && final(decoder).0.faults() == old(decoder).0.faults(),
        coherent(&old(decoder).0) ==> coherent(&final(decoder).0),
        (coherent(&old(decoder).0) && final(decoder).0.faults() == old(decoder).0.faults()) ==> {
            let got = fresh(final(decoder).0.delivered(), old(decoder).0.delivered().len());
            &&& final(decoder).0.stream() == old(decoder).0.stream()
            &&& got == upcoming(&old(decoder).0).take(got.len() as int)
        },
        final(decoder).0.faults() == old(decoder).0.faults() || r matches Err(PTYParserError::ReadError(DataError::ReadError(_))),
        (meta.pty is Some && r is Err) ==> exists|ps: Seq<PacketModel>|
            {
                &&& decode_frames(#[trigger] encode_frames(ps)) == Some(ps)
                &&& stopped_at_bad_frame(
                    old(decoder).0.delivered(),
                    final(decoder).0.delivered(),
                    encode_frames(ps),
                    final(decoder).0.faults() == old(decoder).0.faults(),
                )
                &&& r matches Err(PTYParserError::ReadError(e)) && frame_error(
                    fresh(
                        final(decoder).0.delivered(),
                        (old(decoder).0.delivered().len() + encode_frames(ps).len()) as nat,
                    ),
                    e,
                    final(decoder).0.faults() == old(decoder).0.faults(),
                    final(decoder).0.at_end(),
                )
                &&& final(data_writer)@ == old(data_writer)@ + start_banner(
                    meta.started_at,
                    meta.pty->Some_0,
                ) + side_payloads(ps, DataSource::Origin)
                &&& final(times_writer)@ == old(times_writer)@ + timing_lines(ps)
            },
        r is Ok ==> ({
            let got = fresh(final(decoder).0.delivered(), old(decoder).0.delivered().len());
            let ps = decode_frames(got)->Some_0;
            &&& meta.pty is Some
            &&& decode_frames(got) is Some
            &&& final(data_writer)@ == old(data_writer)@ + start_banner(
                meta.started_at,
                meta.pty->Some_0,
            ) + side_payloads(ps, DataSource::Origin) + end_banner(meta.exit_data)
            &&& final(times_writer)@ == old(times_writer)@ + timing_lines(ps)
        }),
{
    let pty = match &meta.pty {
        Some(pty_meta) => pty_meta,
        None => {
            proof {
                lemma_prefix_take(decoder.0.delivered(), Seq::empty());
                lemma_taken(&old(decoder).0, &decoder.0);
            }
            return Err(PTYParserError::PTYNotFound);
        },
    };

    // Whether input was echoed is worked out but not used yet: the
    // transcript is the same either way, which may well be incomplete.
    let _echo = echo_enabled(pty);

    write_start_banner(data_writer, meta.started_at, pty);
    let ghost banner_end = data_writer@;

    let ghost d0 = decoder.0.delivered();
    let ghost mut ps: Seq<PacketModel> = Seq::empty();
    let mut latest_elapsed: u64 = 0;
    proof {
        assert(encode_frames(ps) == Seq::<u8>::empty());
        assert(d0 + Seq::<u8>::empty() =~= d0);
        assert(banner_end + side_payloads(ps, DataSource::Origin) =~= banner_end);
        assert(old(times_writer)@ + timing_lines(ps) =~= old(times_writer)@);
    }
    loop
        invariant
            d0 == old(decoder).0.delivered(),
            decoder.0.faults() == old(decoder).0.faults(),
            coherent(&old(decoder).0) ==> coherent(&decoder.0) && decoder.0.stream() == old(decoder).0.stream(),
            old(decoder).0.at_end() ==> decoder.0.at_end() && ps.len() == 0,
            banner_end == old(data_writer)@ + start_banner(meta.started_at, *pty),
            meta.pty == Some(*pty),
            meta.wf(),
            decoder.0.delivered() == d0 + encode_frames(ps),
            forall|i: int| 0 <= i < ps.len() ==> packet_wf(#[trigger] ps[i]),
            data_writer@ == banner_end + side_payloads(ps, DataSource::Origin),
            times_writer@ == old(times_writer)@ + timing_lines(ps),
            latest_elapsed == last_origin_elapsed(ps),
        decreases decoder.0.left(),
    {
        let ghost dd = decoder.0.delivered();
        let packet = match decoder.next() {
            Ok(Some(p)) => p,
            Ok(None) => {
                proof {
                    assert(decoder.0.delivered() =~= dd);
                    lemma_prefix_take(d0, encode_frames(ps));
                    assert(fresh(decoder.0.delivered(), d0.len()) =~= encode_frames(ps));
                    lemma_encode_decode(ps);
                }
                let written = write_exit_data(data_writer, &meta.exit_data);
                proof {
                    assert(data_writer@ =~= old(data_writer)@ + start_banner(meta.started_at, *pty)
                        + side_payloads(ps, DataSource::Origin) + end_banner(meta.exit_data));
                }
                proof { lemma_taken(&old(decoder).0, &decoder.0); }
                return written;
            },
            Err(e) => {
                proof {
                    lemma_prefix_take(d0, encode_frames(ps));
                    let df = decoder.0.delivered();
                    assert(df.take(d0.len() as int) =~= df.take(dd.len() as int).take(d0.len() as int));
                    lemma_encode_decode(ps);
                }
                proof { lemma_taken(&old(decoder).0, &decoder.0); }
                return Err(PTYParserError::ReadError(e));
            },
        };
        proof {
            let df = decoder.0.delivered();
            assert(df =~= dd + fresh(df, dd.len()));
            lemma_encode_push(ps, packet@);
            lemma_replay_step(ps, packet@);
        }
        replay_packet(&packet, &mut latest_elapsed, data_writer, times_writer);
        proof {
            ps = ps.push(packet@);
        }
    }
}

/// What one more packet adds to the replay of `ps`.
proof fn lemma_replay_step(ps: Seq<PacketModel>, p: PacketModel)
    requires
        packet_wf(p),
        forall|i: int| 0 <= i < ps.len() ==> packet_wf(#[trigger] ps[i]),
    ensures
        forall|i: int| 0 <= i < ps.push(p).len() ==> packet_wf(#[trigger] ps.push(p)[i]),
        side_payloads(ps.push(p), DataSource::Origin) == side_payloads(ps, DataSource::Origin)
            + origin_payload(p),
        timing_lines(ps.push(p)) == timing_lines(ps) + origin_timing(last_origin_elapsed(ps), p),
        last_origin_elapsed(ps.push(p)) == if p.source == DataSource::Origin {
            p.elapsed
        } else {
            last_origin_elapsed(ps)
        },
{
    let ps2 = ps.push(p);
    assert(ps2.drop_last() =~= ps);
    assert forall|i: int| 0 <= i < ps2.len() implies packet_wf(#[trigger] ps2[i]) by {
        if i < ps.len() {
            assert(ps2[i] == ps[i]);
        }
    }
}

pub open spec fn origin_payload(p: PacketModel) -> Seq<u8> {
    if p.source == DataSource::Origin {
        p.data
    } else {
        Seq::empty()
    }
}

pub open spec fn origin_timing(prev: u64, p: PacketModel) -> Seq<u8> {
    if p.source == DataSource::Origin {
        timing_line(delay(prev, p.elapsed), p.data.len())
    } else {
        Seq::empty()
    }
}

/// Replays one packet: an origin packet's payload goes to the transcript
/// and its delay to the timing file; a client packet changes nothing.
fn replay_packet(
    packet: &DataPacket,
    latest_elapsed: &mut u64,
    data_writer: &mut Vec<u8>,
    times_writer: &mut Vec<u8>,
)
    ensures
        final(data_writer)@ == old(data_writer)@ + origin_payload(packet@),
        final(times_writer)@ == old(times_writer)@ + origin_timing(*old(latest_elapsed), packet@),
        *final(latest_elapsed) == if packet.source == DataSource::Origin {
            packet.elapsed
        } else {
            *old(latest_elapsed)
        },
{
    if packet.source == DataSource::Origin {
        push_bytes(data_writer, packet.data.as_slice());
        let delta: u64 = if packet.elapsed >= *latest_elapsed {
            packet.elapsed - *latest_elapsed
        } else {
            0
        };
        write_timing_line(times_writer, delta, packet.data.len());
        *latest_elapsed = packet.elapsed;
    } else {
        assert(old(data_writer)@ + origin_payload(packet@) =~= old(data_writer)@);
        assert(old(times_writer)@ + origin_timing(*old(latest_elapsed), packet@) =~= old(times_writer)@);
    }
}

} // verus!
