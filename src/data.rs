use crate::bytes::{
    be_bytes, be_value, lemma_be_bytes_len, lemma_be_bytes_of_value, lemma_be_value_bound,
    lemma_be_value_of_bytes, lemma_pow256_values, read_be,
};
use crate::source::{
    coherent, lemma_prefix_take, lemma_taken, read_exact, upcoming, ByteSource, StreamError,
};
use vstd::prelude::*;

verus! {

/// The side of the session a packet comes from.
#[derive(Clone, Copy, Debug, PartialEq, Eq, Structural)]
pub enum DataSource {
    /// The connecting party.
    Client,
    /// The party being connected to.
    Origin,
}

/// One decoded frame of the session protocol.
pub struct DataPacket {
    pub source: DataSource,
    pub code: u32,
    /// Microseconds since the start of the session.
    pub elapsed: u64,
    pub data: Vec<u8>,
}

/// The mathematical content of a packet.
pub struct PacketModel {
    pub source: DataSource,
    pub code: u32,
    pub elapsed: u64,
    pub data: Seq<u8>,
}

impl DataPacket {
    pub open spec fn view(&self) -> PacketModel {
        PacketModel {
            source: self.source,
            code: self.code,
            elapsed: self.elapsed,
            data: self.data@,
        }
    }
}

#[derive(Clone, Copy, Debug, PartialEq, Eq)]
pub enum DataError {
    ReadError(StreamError),
    WriteError,
    DataPacketTooSmall,
    UnexpectedDataSource,
}

/// Number of header bytes counted by a frame's length field.
pub const FRAME_HEADER_LEN: u32 = 13;

pub open spec fn source_tag(s: DataSource) -> u8 {
    match s {
        DataSource::Client => 0,
        DataSource::Origin => 1,
    }
}

/// A packet whose frame length fits the 32-bit length field.
pub open spec fn packet_wf(p: PacketModel) -> bool {
    p.data.len() + 13 < 0x1_0000_0000
}

/// The frame that carries `p`: the total length, the source tag, the code,
/// the elapsed microseconds, then the payload.
pub open spec fn frame_bytes(p: PacketModel) -> Seq<u8> {
    be_bytes(p.data.len() + 13, 4) + seq![source_tag(p.source)] + be_bytes(p.code as nat, 4)
        + be_bytes(p.elapsed as nat, 8) + p.data
}

/// The first frame of `s` and the number of bytes it takes, if `s` starts
/// with a well-formed frame.
pub open spec fn parse_frame(s: Seq<u8>) -> Option<(PacketModel, nat)> {
    if s.len() < 4 {
        None
    } else {
        let l = be_value(s.take(4));
        if l < 13 || s.len() < 4 + l || s[4] > 1 {
            None
        } else {
            Some(
                (
                    PacketModel {
                        source: if s[4] == 0 {
                            DataSource::Client
                        } else {
                            DataSource::Origin
                        },
                        code: be_value(s.subrange(5, 9)) as u32,
                        elapsed: be_value(s.subrange(9, 17)) as u64,
                        data: s.subrange(17, 4 + l as int),
                    },
                    (4 + l) as nat,
                ),
            )
        }
    }
}

/// The packets of a stream made of well-formed frames only.
pub open spec fn decode_frames(s: Seq<u8>) -> Option<Seq<PacketModel>>
    decreases s.len(),
{
    if s.len() == 0 {
        Some(Seq::empty())
    } else {
        match parse_frame(s) {
            None => None,
            Some((p, n)) => match decode_frames(s.skip(n as int)) {
                None => None,
                Some(rest) => Some(seq![p] + rest),
            },
        }
    }
}

/// The stream that carries `ps`, one frame after another.
pub open spec fn encode_frames(ps: Seq<PacketModel>) -> Seq<u8>
    decreases ps.len(),
{
    if ps.len() == 0 {
        Seq::empty()
    } else {
        frame_bytes(ps[0]) + encode_frames(ps.skip(1))
    }
}

/// The payloads of the packets from `side`, concatenated in order.
pub open spec fn side_payloads(ps: Seq<PacketModel>, side: DataSource) -> Seq<u8>
    decreases ps.len(),
{
    if ps.len() == 0 {
        Seq::empty()
    } else {
        let last = ps.last();
        side_payloads(ps.drop_last(), side) + if last.source == side {
            last.data
        } else {
            Seq::empty()
        }
    }
}

proof fn lemma_be4(v: nat)
    requires
        v < 0x1_0000_0000,
    ensures
        be_value(be_bytes(v, 4)) == v,
        be_bytes(v, 4).len() == 4,
{
    lemma_be_value_of_bytes(v, 4);
    lemma_pow256_values();
    lemma_be_bytes_len(v, 4);
    vstd::arithmetic::div_mod::lemma_small_mod(v, 0x1_0000_0000);
}

proof fn lemma_be8(v: nat)
    requires
        v < 0x1_0000_0000_0000_0000,
    ensures
        be_value(be_bytes(v, 8)) == v,
        be_bytes(v, 8).len() == 8,
{
    lemma_be_value_of_bytes(v, 8);
    lemma_pow256_values();
    lemma_be_bytes_len(v, 8);
    vstd::arithmetic::div_mod::lemma_small_mod(v, 0x1_0000_0000_0000_0000);
}

/// A well-formed packet's frame parses back to the packet, whatever follows.
pub proof fn lemma_parse_frame_bytes(p: PacketModel, rest: Seq<u8>)
    requires
        packet_wf(p),
    ensures
        parse_frame(frame_bytes(p) + rest) == Some((p, frame_bytes(p).len())),
        frame_bytes(p).len() == p.data.len() + 17,
{
    let l = p.data.len() + 13;
    lemma_be4(l);
    lemma_be4(p.code as nat);
    lemma_be8(p.elapsed as nat);
    let f = frame_bytes(p);
    let s = f + rest;
    assert(s.take(4) =~= be_bytes(l, 4));
    assert(s.subrange(5, 9) =~= be_bytes(p.code as nat, 4));
    assert(s.subrange(9, 17) =~= be_bytes(p.elapsed as nat, 8));
    assert(s.subrange(17, 4 + l as int) =~= p.data);
    assert(s[4] == source_tag(p.source));
    let q = parse_frame(s)->Some_0.0;
    assert(q.source == p.source);
    assert(q == p);
}

/// The bytes a frame was parsed from are the frame of the parsed packet.
pub proof fn lemma_frame_bytes_of_parse(s: Seq<u8>)
    requires
        parse_frame(s) is Some,
    ensures
        ({
            let (p, n) = parse_frame(s)->Some_0;
            &&& packet_wf(p)
            &&& 17 <= n <= s.len()
            &&& frame_bytes(p) == s.take(n as int)
        }),
{
    let (p, n) = parse_frame(s)->Some_0;
    let l = be_value(s.take(4));
    lemma_be_value_bound(s.take(4));
    lemma_be_value_bound(s.subrange(5, 9));
    lemma_be_value_bound(s.subrange(9, 17));
    lemma_pow256_values();
    lemma_be_bytes_of_value(s.take(4));
    lemma_be_bytes_of_value(s.subrange(5, 9));
    lemma_be_bytes_of_value(s.subrange(9, 17));
    assert(p.data.len() + 13 == l);
    assert(frame_bytes(p) =~= s.take(n as int));
}

/// Re-encoding the packets decoded from a stream gives the stream back.
pub proof fn lemma_decode_encode(s: Seq<u8>)
    requires
        decode_frames(s) is Some,
    ensures
        encode_frames(decode_frames(s)->Some_0) == s,
        forall|i: int|
            0 <= i < decode_frames(s)->Some_0.len() ==> packet_wf(
                #[trigger] decode_frames(s)->Some_0[i],
            ),
    decreases s.len(),
{
    if s.len() > 0 {
        let (p, n) = parse_frame(s)->Some_0;
        lemma_frame_bytes_of_parse(s);
        let t = s.skip(n as int);
        lemma_decode_encode(t);
        let ps = decode_frames(s)->Some_0;
        assert(ps.skip(1) =~= decode_frames(t)->Some_0);
        assert(s =~= s.take(n as int) + t);
        assert forall|i: int| 0 <= i < ps.len() implies packet_wf(#[trigger] ps[i]) by {
            if i > 0 {
                assert(ps[i] == decode_frames(t)->Some_0[i - 1]);
            }
        }
    }
}

/// Decoding the encoding of well-formed packets gives the packets back.
pub proof fn lemma_encode_decode(ps: Seq<PacketModel>)
    requires
        forall|i: int| 0 <= i < ps.len() ==> packet_wf(#[trigger] ps[i]),
    ensures
        decode_frames(encode_frames(ps)) == Some(ps),
    decreases ps.len(),
{
    if ps.len() > 0 {
        let rest = ps.skip(1);
        assert forall|i: int| 0 <= i < rest.len() implies packet_wf(#[trigger] rest[i]) by {
            assert(rest[i] == ps[i + 1]);
        }
        lemma_encode_decode(rest);
        let s = encode_frames(ps);
        lemma_parse_frame_bytes(ps[0], encode_frames(rest));
        let n = frame_bytes(ps[0]).len();
        assert(s.skip(n as int) =~= encode_frames(rest));
        assert(seq![ps[0]] + rest =~= ps);
    }
}

/// Adding a packet at the end adds its frame at the end.
pub proof fn lemma_encode_push(ps: Seq<PacketModel>, p: PacketModel)
    ensures
        encode_frames(ps.push(p)) == encode_frames(ps) + frame_bytes(p),
    decreases ps.len(),
{
    if ps.len() == 0 {
        assert(ps.push(p).skip(1) =~= Seq::<PacketModel>::empty());
        assert(encode_frames(ps.push(p).skip(1)) == Seq::<u8>::empty());
        assert(encode_frames(ps) == Seq::<u8>::empty());
        assert(encode_frames(ps.push(p)) =~= frame_bytes(p));
    } else {
        lemma_encode_push(ps.skip(1), p);
        assert(ps.push(p).skip(1) =~= ps.skip(1).push(p));
        assert(encode_frames(ps.push(p)) =~= encode_frames(ps) + frame_bytes(p));
    }
}

/// The bytes `src` delivered beyond the first `n`.
pub open spec fn fresh(d: Seq<u8>, n: nat) -> Seq<u8> {
    d.skip(n as int)
}

pub open spec fn extends(d0: Seq<u8>, d: Seq<u8>) -> bool {
    d.len() >= d0.len() && d.take(d0.len() as int) == d0
}

/// The total length that a frame's 4-byte header gives, which must cover
/// the 13 bytes of source, code and elapsed time.
pub fn frame_length(header: &[u8]) -> (r: Result<u32, DataError>)
    requires
        header@.len() == 4,
    ensures
        match r {
            Ok(n) => n == be_value(header@) && n >= 13,
            Err(e) => e == DataError::DataPacketTooSmall && be_value(header@) < 13,
        },
{
    proof {
        assert(header@.subrange(0, 4) =~= header@);
        lemma_be_value_bound(header@);
        lemma_pow256_values();
    }
    let total: u64 = read_be(header, 0, 4);
    if total < FRAME_HEADER_LEN as u64 {
        Err(DataError::DataPacketTooSmall)
    } else {
        Ok(total as u32)
    }
}

/// Decodes the `body` of a frame, everything after the length: the source
/// byte, the code, the elapsed microseconds and the payload.
pub fn decode_frame(body: &[u8]) -> (r: Result<DataPacket, DataError>)
    requires
        13 <= body@.len() < 0x1_0000_0000,
    ensures
        (r is Ok) <==> body@[0] <= 1,
        r matches Err(e) ==> e == DataError::UnexpectedDataSource,
        r matches Ok(p) ==> {
            let framed = be_bytes(body@.len(), 4) + body@;
            &&& packet_wf(p@)
            &&& frame_bytes(p@) == framed
            &&& parse_frame(framed) == Some((p@, framed.len()))
        },
{
    let ghost framed = be_bytes(body@.len(), 4) + body@;
    proof {
        lemma_be4(body@.len());
        assert(framed.take(4) =~= be_bytes(body@.len(), 4));
        assert(framed[4] == body@[0]);
    }
    let source = if body[0] == 0 {
        DataSource::Client
    } else if body[0] == 1 {
        DataSource::Origin
    } else {
        return Err(DataError::UnexpectedDataSource);
    };
    let code: u64 = read_be(body, 1, 4);
    let elapsed: u64 = read_be(body, 5, 8);
    proof {
        lemma_be_value_bound(body@.subrange(1, 5));
        lemma_pow256_values();
        assert(body@.subrange(1, 5) =~= framed.subrange(5, 9));
        assert(body@.subrange(5, 13) =~= framed.subrange(9, 17));
    }
    let mut data: Vec<u8> = Vec::new();
    let mut i: usize = 13;
    while i < body.len()
        invariant
            13 <= i <= body@.len(),
            data@ == body@.subrange(13, i as int),
        decreases body@.len() - i,
    {
        data.push(body[i]);
        i = i + 1;
    }
    let p = DataPacket { source, code: code as u32, elapsed, data };
    proof {
        assert(data@ =~= framed.subrange(17, framed.len() as int));
        assert(parse_frame(framed) == Some((p@, framed.len())));
        lemma_frame_bytes_of_parse(framed);
        assert(framed.take(framed.len() as int) =~= framed);
    }
    Ok(p)
}

/// Decodes packets from any byte source, one frame per call.
pub struct DataDecoder<R: ByteSource>(pub R);

impl<R: ByteSource> DataDecoder<R> {
    /// Reads one frame. `Ok(None)` when the source is exhausted before the
    /// first byte of a frame.
    pub fn next(&mut self) -> (r: Result<Option<DataPacket>, DataError>)
        ensures
            final(self).0.left() <= old(self).0.left(),
            final(self).0.faults() >= old(self).0.faults(),
            extends(old(self).0.delivered(), final(self).0.delivered()),
            old(self).0.at_end() ==> (r matches Ok(None)),
            coherent(&old(self).0) ==> coherent(&final(self).0),
            (coherent(&old(self).0) && final(self).0.faults() == old(self).0.faults()) ==> {
                let got = fresh(final(self).0.delivered(), old(self).0.delivered().len());
                &&& final(self).0.stream() == old(self).0.stream()
                &&& got == upcoming(&old(self).0).take(got.len() as int)
            },
            ({
                let got = fresh(final(self).0.delivered(), old(self).0.delivered().len());
                let same_faults = final(self).0.faults() == old(self).0.faults();
                let cut_short = got.len() < 4 || (be_value(got.take(4)) >= 13 && got.len() < 4
                    + be_value(got.take(4)));
                match r {
                    Ok(None) => got.len() == 0 && final(self).0.at_end() && same_faults,
                    Ok(Some(p)) => {
                        &&& same_faults
                        &&& packet_wf(p@)
                        &&& got == frame_bytes(p@)
                        &&& parse_frame(got) == Some((p@, got.len()))
                        &&& final(self).0.left() < old(self).0.left()
                    },
                    Err(DataError::DataPacketTooSmall) => {
                        &&& same_faults
                        &&& got.len() == 4
                        &&& be_value(got) < 13
                    },
                    Err(DataError::UnexpectedDataSource) => {
                        &&& same_faults
                        &&& got.len() >= 5
                        &&& be_value(got.take(4)) >= 13
                        &&& got.len() == 4 + be_value(got.take(4))
                        &&& got[4] > 1
                    },
                    Err(DataError::ReadError(e)) => {
                        ||| !same_faults
                        ||| (e == StreamError::UnexpectedEnd && final(self).0.at_end() && got.len()
                            > 0 && cut_short)
                    },
                    Err(DataError::WriteError) => false,
                }
            }),
    {
        let ghost d0 = self.0.delivered();
        let mut header = match self.0.fill(4) {
            Ok(b) => b,
            Err(e) => {
                proof { assert(fresh(d0, d0.len()) =~= Seq::<u8>::empty()); lemma_prefix_take(d0, Seq::empty()); assert(d0 + Seq::<u8>::empty() =~= d0); }
                proof { lemma_taken(&old(self).0, &self.0); }
                return Err(DataError::ReadError(e));
            },
        };
        if header.len() == 0 {
            proof { assert(d0 + header@ =~= d0); lemma_prefix_take(d0, Seq::empty()); }
            proof { lemma_taken(&old(self).0, &self.0); }
                return Ok(None);
        }
        let ghost d1 = self.0.delivered();
        let mut more = match read_exact(&mut self.0, 4 - header.len()) {
            Ok(b) => b,
            Err(e) => {
                proof {
                    lemma_prefix_take(d0, header@);
                    let df = self.0.delivered();
                    assert(df.take(d0.len() as int) =~= df.take(d1.len() as int).take(d0.len() as int));
                }
                proof { lemma_taken(&old(self).0, &self.0); }
                return Err(DataError::ReadError(e));
            },
        };
        header.append(&mut more);
        proof {
            assert(self.0.delivered() =~= d0 + header@);
            lemma_prefix_take(d0, header@);
            assert(fresh(self.0.delivered(), d0.len()) =~= header@);
            assert(header@.subrange(0, 4) =~= header@);
        }
        let total = match frame_length(header.as_slice()) {
            Ok(n) => n,
            Err(e) => {
                proof { lemma_taken(&old(self).0, &self.0); }
                return Err(e);
            },
        };
        let ghost d2 = self.0.delivered();
        let buf = match read_exact(&mut self.0, total as usize) {
            Ok(b) => b,
            Err(e) => {
                proof {
                    let df = self.0.delivered();
                    assert(df.take(d0.len() as int) =~= df.take(d2.len() as int).take(d0.len() as int));
                    let got = fresh(df, d0.len());
                    assert(got.take(4) =~= header@) by {
                        assert forall|i: int| 0 <= i < 4 implies got[i] == header@[i] by {
                            assert(df[d0.len() + i] == df.take(d2.len() as int)[d0.len() + i]);
                        }
                    }
                }
                proof { lemma_taken(&old(self).0, &self.0); }
                return Err(DataError::ReadError(e));
            },
        };
        let ghost got = header@ + buf@;
        proof {
            assert(self.0.delivered() =~= d0 + got);
            lemma_prefix_take(d0, got);
            assert(fresh(self.0.delivered(), d0.len()) =~= got);
            assert(got.take(4) =~= header@);
            assert(got[4] == buf@[0]);
            lemma_be_bytes_of_value(header@);
        }
        proof { lemma_taken(&old(self).0, &self.0); }
        match decode_frame(buf.as_slice()) {
            Ok(p) => {
                proof {
                    assert(got.take(got.len() as int) =~= got);
                }
                Ok(Some(p))
            },
            Err(e) => Err(e),
        }
    }
}

/// The bytes from `d0` to `d` start with the frames `done`. If the source
/// reported no failure, what follows them is not a whole well-formed frame.
pub open spec fn stopped_at_bad_frame(d0: Seq<u8>, d: Seq<u8>, done: Seq<u8>, healthy: bool) -> bool {
    &&& extends(d0 + done, d)
    &&& healthy ==> {
        &&& fresh(d, (d0.len() + done.len()) as nat).len() > 0
        &&& parse_frame(fresh(d, (d0.len() + done.len()) as nat)) is None
    }
}

/// The error that decoding one frame gives on the bytes `got` it read: a
/// length below 13, a source byte above 1, or a failing or ended source.
pub open spec fn frame_error(got: Seq<u8>, e: DataError, healthy: bool, at_end: bool) -> bool {
    match e {
        DataError::DataPacketTooSmall => healthy && got.len() == 4 && be_value(got) < 13,
        DataError::UnexpectedDataSource => {
            &&& healthy
            &&& got.len() >= 5
            &&& be_value(got.take(4)) >= 13
            &&& got.len() == 4 + be_value(got.take(4))
            &&& got[4] > 1
        },
        DataError::ReadError(s) => !healthy || (s == StreamError::UnexpectedEnd && at_end && got.len()
            > 0 && (got.len() < 4 || (be_value(got.take(4)) >= 13 && got.len() < 4 + be_value(
            got.take(4),
        )))),
        DataError::WriteError => false,
    }
}

/// Drains `decoder`, appending each payload to the sink of its side.
#[verifier::rlimit(50)]
pub fn generate_data_file<R: ByteSource>(
    decoder: &mut DataDecoder<R>,
    client_data_writer: &mut Vec<u8>,
    origin_data_writer: &mut Vec<u8>,
) -> (r: Result<(), DataError>)
    ensures
        extends(old(decoder).0.delivered(), final(decoder).0.delivered()),
        r is Ok ==> ({
            let got = fresh(final(decoder).0.delivered(), old(decoder).0.delivered().len());
            &&& decode_frames(got) is Some
            &&& final(client_data_writer)@ == old(client_data_writer)@ + side_payloads(
                decode_frames(got)->Some_0,
                DataSource::Client,
            )
            &&& final(origin_data_writer)@ == old(origin_data_writer)@ + side_payloads(
                decode_frames(got)->Some_0,
                DataSource::Origin,
            )
        }),
        r matches Err(e) ==> e != DataError::WriteError,
        old(decoder).0.at_end() ==> r is Ok,
        r is Ok ==> final(decoder).0.at_end() && final(decoder).0.faults() == old(decoder).0.faults(),
        coherent(&old(decoder).0) ==> coherent(&final(decoder).0),
        (coherent(&old(decoder).0) && final(decoder).0.faults() == old(decoder).0.faults()) ==> {
            let got = fresh(final(decoder).0.delivered(), old(decoder).0.delivered().len());
            &&& final(decoder).0.stream() == old(decoder).0.stream()
            &&& got == upcoming(&old(decoder).0).take(got.len() as int)
        },
        final(decoder).0.faults() == old(decoder).0.faults() || r matches Err(DataError::ReadError(_)),
        r is Err ==> exists|ps: Seq<PacketModel>|
            {
                &&& decode_frames(#[trigger] encode_frames(ps)) == Some(ps)
                &&& stopped_at_bad_frame(
                    old(decoder).0.delivered(),
                    final(decoder).0.delivered(),
                    encode_frames(ps),
                    final(decoder).0.faults() == old(decoder).0.faults(),
                )
                &&& frame_error(
                    fresh(
                        final(decoder).0.delivered(),
                        (old(decoder).0.delivered().len() + encode_frames(ps).len()) as nat,
                    ),
                    r->Err_0,
                    final(decoder).0.faults() == old(decoder).0.faults(),
                    final(decoder).0.at_end(),
                )
                &&& final(client_data_writer)@ == old(client_data_writer)@ + side_payloads(
                    ps,
                    DataSource::Client,
                )
                &&& final(origin_data_writer)@ == old(origin_data_writer)@ + side_payloads(
                    ps,
                    DataSource::Origin,
                )
            },
{
    let ghost d0 = decoder.0.delivered();
    let ghost mut ps: Seq<PacketModel> = Seq::empty();
    proof {
        assert(encode_frames(ps) == Seq::<u8>::empty());
        assert(d0 + Seq::<u8>::empty() =~= d0);
    }
    loop
        invariant
            d0 == old(decoder).0.delivered(),
            decoder.0.faults() == old(decoder).0.faults(),
            coherent(&old(decoder).0) ==> coherent(&decoder.0) && decoder.0.stream() == old(decoder).0.stream(),
            old(decoder).0.at_end() ==> decoder.0.at_end() && ps.len() == 0,
            decoder.0.delivered() == d0 + encode_frames(ps),
            forall|i: int| 0 <= i < ps.len() ==> packet_wf(#[trigger] ps[i]),
            client_data_writer@ == old(client_data_writer)@ + side_payloads(ps, DataSource::Client),
            origin_data_writer@ == old(origin_data_writer)@ + side_payloads(ps, DataSource::Origin),
        decreases decoder.0.left(),
    {
        let ghost dd = decoder.0.delivered();
        let packet = match decoder.next() {
            Ok(Some(p)) => p,
            Ok(None) => {
                proof {
                    assert(fresh(dd, dd.len()) =~= Seq::<u8>::empty());
                    assert(decoder.0.delivered() =~= dd);
                    lemma_prefix_take(d0, encode_frames(ps));
                    assert(fresh(decoder.0.delivered(), d0.len()) =~= encode_frames(ps));
                    lemma_encode_decode(ps);
                }
                proof { lemma_taken(&old(decoder).0, &decoder.0); }
                return Ok(());
            },
            Err(e) => {
                proof {
                    lemma_prefix_take(d0, encode_frames(ps));
                    let df = decoder.0.delivered();
                    assert(df.take(d0.len() as int) =~= df.take(dd.len() as int).take(d0.len() as int));
                    lemma_encode_decode(ps);
                }
                proof { lemma_taken(&old(decoder).0, &decoder.0); }
                return Err(e);
            },
        };
        proof {
            let df = decoder.0.delivered();
            assert(df =~= dd + fresh(df, dd.len()));
            lemma_encode_push(ps, packet@);
            assert(ps.push(packet@).drop_last() =~= ps);
        }
        match packet.source {
            DataSource::Client => {
                let mut data = packet.data;
                client_data_writer.append(&mut data);
            },
            DataSource::Origin => {
                let mut data = packet.data;
                origin_data_writer.append(&mut data);
            },
        }
        proof {
            ps = ps.push(packet@);
            assert forall|i: int| 0 <= i < ps.len() implies packet_wf(#[trigger] ps[i]) by {
                if i < ps.len() - 1 {
                    assert(ps[i] == ps.drop_last()[i]);
                }
            }
        }
    }
}

} // verus!
