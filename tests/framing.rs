use session_decrypt::{
    decode_frame, frame_length, generate_data_file, DataDecoder, DataError, DataSource,
    SliceSource, StreamError,
};

fn frame(source: u8, code: u32, elapsed: u64, data: &[u8]) -> Vec<u8> {
    let mut out = Vec::new();
    out.extend_from_slice(&((data.len() + 13) as u32).to_be_bytes());
    out.push(source);
    out.extend_from_slice(&code.to_be_bytes());
    out.extend_from_slice(&elapsed.to_be_bytes());
    out.extend_from_slice(data);
    out
}

fn decoder(bytes: Vec<u8>) -> DataDecoder<SliceSource> {
    DataDecoder(SliceSource::new(bytes))
}

#[test]
fn decodes_fields_of_a_frame() {
    let mut d = decoder(frame(1, 0xdead_beef, 1_500_000, b"hello"));
    let p = d.next().unwrap().unwrap();
    assert!(matches!(p.source, DataSource::Origin));
    assert_eq!(p.code, 0xdead_beef);
    assert_eq!(p.elapsed, 1_500_000);
    assert_eq!(p.data, b"hello".to_vec());
    assert!(d.next().unwrap().is_none());
}

#[test]
fn empty_stream_ends_cleanly() {
    let mut d = decoder(Vec::new());
    assert!(d.next().unwrap().is_none());
}

#[test]
fn length_twelve_is_too_small() {
    let mut bytes = 12u32.to_be_bytes().to_vec();
    bytes.extend_from_slice(&[0u8; 12]);
    let mut d = decoder(bytes);
    assert!(matches!(d.next(), Err(DataError::DataPacketTooSmall)));
}

#[test]
fn length_thirteen_gives_empty_payload() {
    let mut d = decoder(frame(0, 7, 0, b""));
    let p = d.next().unwrap().unwrap();
    assert!(matches!(p.source, DataSource::Client));
    assert_eq!(p.code, 7);
    assert!(p.data.is_empty());
}

#[test]
fn source_byte_two_is_rejected() {
    let mut d = decoder(frame(2, 0, 0, b"x"));
    assert!(matches!(d.next(), Err(DataError::UnexpectedDataSource)));
}

#[test]
fn truncated_frame_is_a_read_error() {
    let mut bytes = frame(1, 0, 0, b"abcdef");
    bytes.truncate(bytes.len() - 2);
    let mut d = decoder(bytes);
    assert!(matches!(
        d.next(),
        Err(DataError::ReadError(StreamError::UnexpectedEnd))
    ));
}

#[test]
fn truncated_length_is_a_read_error() {
    let mut d = decoder(vec![0, 0]);
    assert!(matches!(
        d.next(),
        Err(DataError::ReadError(StreamError::UnexpectedEnd))
    ));
}

#[test]
fn reencoding_decoded_frames_gives_the_stream_back() {
    let mut stream = Vec::new();
    stream.extend(frame(0, 1, 10, b"ls\n"));
    stream.extend(frame(1, 2, 20, b""));
    stream.extend(frame(1, 3, u64::MAX, &[0xff; 300]));
    let mut d = decoder(stream.clone());
    let mut again = Vec::new();
    while let Some(p) = d.next().unwrap() {
        let tag = match p.source {
            DataSource::Client => 0,
            DataSource::Origin => 1,
        };
        again.extend(frame(tag, p.code, p.elapsed, &p.data));
    }
    assert_eq!(again, stream);
}

#[test]
fn demultiplexes_payloads_by_side() {
    let mut stream = Vec::new();
    stream.extend(frame(0, 0, 0, b"A"));
    stream.extend(frame(1, 0, 0, b"B"));
    stream.extend(frame(0, 0, 0, b"C"));
    let mut d = decoder(stream);
    let mut client = Vec::new();
    let mut origin = Vec::new();
    generate_data_file(&mut d, &mut client, &mut origin).unwrap();
    assert_eq!(client, b"AC".to_vec());
    assert_eq!(origin, b"B".to_vec());
}

#[test]
fn demultiplexing_stops_at_a_bad_frame() {
    let mut stream = frame(0, 0, 0, b"A");
    stream.extend(frame(5, 0, 0, b"B"));
    let mut d = decoder(stream);
    let mut client = Vec::new();
    let mut origin = Vec::new();
    let r = generate_data_file(&mut d, &mut client, &mut origin);
    assert!(matches!(r, Err(DataError::UnexpectedDataSource)));
    assert_eq!(client, b"A".to_vec());
    assert!(origin.is_empty());
}

#[test]
fn frame_length_checks_the_minimum() {
    assert_eq!(frame_length(&[0, 0, 0, 12]), Err(DataError::DataPacketTooSmall));
    assert_eq!(frame_length(&[0, 0, 0, 13]), Ok(13));
    assert_eq!(frame_length(&[1, 2, 3, 4]), Ok(0x0102_0304));
}

#[test]
fn decode_frame_reads_the_body() {
    let mut body = vec![1u8, 0, 0, 1, 2];
    body.extend_from_slice(&300u64.to_be_bytes());
    body.extend_from_slice(b"xyz");
    let p = decode_frame(&body).unwrap();
    assert!(matches!(p.source, DataSource::Origin));
    assert_eq!(p.code, 258);
    assert_eq!(p.elapsed, 300);
    assert_eq!(p.data, b"xyz".to_vec());
    body[0] = 2;
    assert!(matches!(decode_frame(&body), Err(DataError::UnexpectedDataSource)));
}

#[test]
fn exhausted_decoder_stays_exhausted() {
    let mut d = decoder(frame(0, 0, 0, b"a"));
    assert!(d.next().unwrap().is_some());
    assert!(d.next().unwrap().is_none());
    assert!(d.next().unwrap().is_none());
}
