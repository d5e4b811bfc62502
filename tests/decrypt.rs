use hpke::aead::ChaCha20Poly1305;
use hpke::kdf::HkdfSha256;
use hpke::kem::X25519HkdfSha256;
use hpke::{Kem, OpModeS, Serializable};
use rand::rngs::StdRng;
use rand::SeedableRng;
use session_decrypt::{
    generate_data_file, write_buf, ByteSource, Ctx, DataDecoder, HPKEDecryptionError, Metadata,
    MetadataError, SliceSource, StreamError,
};

struct Recording {
    private_key: String,
    meta: Metadata,
    ciphertext: Vec<u8>,
}

fn encrypt(chunks: &[&[u8]], seed: u64) -> Recording {
    let mut rng = StdRng::seed_from_u64(seed);
    let (sk, pk) = X25519HkdfSha256::gen_keypair(&mut rng);
    let (enc, mut sender) = hpke::setup_sender::<ChaCha20Poly1305, HkdfSha256, X25519HkdfSha256, _>(
        &OpModeS::Base,
        &pk,
        &[],
        &mut rng,
    )
    .unwrap();
    let mut ciphertext = Vec::new();
    for chunk in chunks {
        let ct = sender.seal(chunk, &[]).unwrap();
        ciphertext.extend_from_slice(&(ct.len() as u32).to_be_bytes());
        ciphertext.extend_from_slice(&ct);
    }
    Recording {
        private_key: base64::encode(sk.to_bytes()),
        meta: Metadata {
            started_at: 0,
            data_size: 0,
            encapsulated_key: hex::encode(enc.to_bytes()),
            pty: None,
            exit_data: None,
        },
        ciphertext,
    }
}

fn read_all<R: ByteSource>(src: &mut R, step: usize) -> Result<Vec<u8>, StreamError> {
    let mut out = Vec::new();
    loop {
        let b = src.fill(step)?;
        if b.is_empty() {
            return Ok(out);
        }
        out.extend(b);
    }
}

fn open(rec: Recording) -> Ctx<SliceSource> {
    Ctx::new(&rec.meta, rec.private_key, SliceSource::new(rec.ciphertext)).ok().unwrap()
}

#[test]
fn decryption_gives_the_plaintext_back() {
    let chunks: [&[u8]; 3] = [b"first chunk, ", b"second, ", b"and the last one"];
    for step in [1, 3, 7, 64, 4096] {
        let mut ctx = open(encrypt(&chunks, 1));
        assert_eq!(
            read_all(&mut ctx, step).unwrap(),
            b"first chunk, second, and the last one".to_vec()
        );
    }
}

#[test]
fn large_chunks_round_trip() {
    let big: Vec<u8> = (0..70_000u32).map(|i| (i % 251) as u8).collect();
    let mut ctx = open(encrypt(&[&big, &big[..10]], 2));
    let mut expected = big.clone();
    expected.extend_from_slice(&big[..10]);
    assert_eq!(read_all(&mut ctx, 1000).unwrap(), expected);
}

#[test]
fn flipped_ciphertext_byte_fails_without_output() {
    let rec = encrypt(&[b"secret session bytes"], 3);
    for i in 4..rec.ciphertext.len() {
        let mut tampered = rec.ciphertext.clone();
        tampered[i] ^= 0x01;
        let mut ctx = Ctx::new(&rec.meta, rec.private_key.clone(), SliceSource::new(tampered))
            .ok()
            .unwrap();
        assert_eq!(ctx.fill(1024), Err(StreamError::Decryption));
    }
}

#[test]
fn decrypt_block_reports_end_of_stream() {
    let mut ctx = open(encrypt(&[b"one"], 4));
    assert_eq!(ctx.decrypt_block().ok().unwrap(), b"one".to_vec());
    assert!(ctx.decrypt_block().ok().unwrap().is_empty());
}

#[test]
fn truncated_chunk_is_a_read_error() {
    let mut rec = encrypt(&[b"abcdef"], 5);
    rec.ciphertext.truncate(rec.ciphertext.len() - 1);
    let mut ctx = open(rec);
    assert_eq!(ctx.fill(10), Err(StreamError::UnexpectedEnd));
}

#[test]
fn wrong_key_fails_to_decrypt() {
    let rec = encrypt(&[b"abc"], 6);
    let other = encrypt(&[b"abc"], 7);
    let mut ctx = Ctx::new(&rec.meta, other.private_key, SliceSource::new(rec.ciphertext))
        .ok()
        .unwrap();
    assert_eq!(ctx.fill(10), Err(StreamError::Decryption));
}

#[test]
fn bad_private_key_encodings() {
    let rec = encrypt(&[b"abc"], 8);
    let r = Ctx::new(&rec.meta, "not base64!".to_string(), SliceSource::new(Vec::new()));
    assert_eq!(r.err(), Some(HPKEDecryptionError::PrivateKeyInvalidB64));
    let r = Ctx::new(&rec.meta, base64::encode([1u8; 31]), SliceSource::new(Vec::new()));
    assert_eq!(r.err(), Some(HPKEDecryptionError::PrivateKeyInvalid));
}

#[test]
fn bad_encapsulated_key_encodings() {
    let mut rec = encrypt(&[b"abc"], 9);
    rec.meta.encapsulated_key = "abc".to_string();
    let r = Ctx::new(&rec.meta, rec.private_key.clone(), SliceSource::new(Vec::new()));
    assert_eq!(r.err(), Some(HPKEDecryptionError::EncappedKeyInvalidHex));
    rec.meta.encapsulated_key = "zz".repeat(32);
    let r = Ctx::new(&rec.meta, rec.private_key.clone(), SliceSource::new(Vec::new()));
    assert_eq!(r.err(), Some(HPKEDecryptionError::EncappedKeyInvalidHex));
    rec.meta.encapsulated_key = "AB".repeat(31);
    let r = Ctx::new(&rec.meta, rec.private_key.clone(), SliceSource::new(Vec::new()));
    assert_eq!(r.err(), Some(HPKEDecryptionError::EncappedKeyInvalid));
}

#[test]
fn decrypted_frames_are_demultiplexed() {
    let mut frames = Vec::new();
    for (tag, payload) in [(0u8, &b"ls\n"[..]), (1, b"file.txt\n")] {
        frames.extend_from_slice(&((payload.len() + 13) as u32).to_be_bytes());
        frames.push(tag);
        frames.extend_from_slice(&[0u8; 12]);
        frames.extend_from_slice(payload);
    }
    let (a, b) = frames.split_at(10);
    let mut d = DataDecoder(open(encrypt(&[a, b], 10)));
    let mut client = Vec::new();
    let mut origin = Vec::new();
    generate_data_file(&mut d, &mut client, &mut origin).unwrap();
    assert_eq!(client, b"ls\n".to_vec());
    assert_eq!(origin, b"file.txt\n".to_vec());
}

#[test]
fn write_buf_splits_at_the_limit() {
    let mut out = vec![9u8];
    let rest = write_buf(b"abcdef", &mut out, 4);
    assert_eq!(out, b"\x09abcd".to_vec());
    assert_eq!(rest, b"ef".to_vec());
    let mut out = Vec::new();
    let rest = write_buf(b"ab", &mut out, 4);
    assert_eq!(out, b"ab".to_vec());
    assert!(rest.is_empty());
}

#[test]
fn metadata_header_is_base64_decoded() {
    let body = b"eyJhIjoxfQ==";
    let mut bytes = (body.len() as u32).to_be_bytes().to_vec();
    bytes.extend_from_slice(body);
    bytes.extend_from_slice(b"rest");
    let mut src = SliceSource::new(bytes);
    assert_eq!(Metadata::read_encoded(&mut src).unwrap(), b"{\"a\":1}".to_vec());
    assert_eq!(src.remaining(), b"rest".to_vec());
}

#[test]
fn metadata_header_errors() {
    let mut bytes = 3u32.to_be_bytes().to_vec();
    bytes.extend_from_slice(b"@@@");
    assert_eq!(
        Metadata::read_encoded(&mut SliceSource::new(bytes)),
        Err(MetadataError::DecodeB64Meta)
    );
    let mut bytes = 8u32.to_be_bytes().to_vec();
    bytes.extend_from_slice(b"abc");
    assert_eq!(
        Metadata::read_encoded(&mut SliceSource::new(bytes)),
        Err(MetadataError::ReadError(StreamError::UnexpectedEnd))
    );
}

#[test]
fn empty_chunks_do_not_end_the_stream() {
    let chunks: [&[u8]; 4] = [b"ab", b"", b"", b"cd"];
    let mut ctx = open(encrypt(&chunks, 11));
    assert_eq!(ctx.read(2).unwrap(), b"ab".to_vec());
    assert_eq!(ctx.read(2).unwrap(), b"cd".to_vec());
    assert!(ctx.read(2).unwrap().is_empty());
}

#[test]
fn end_of_plaintext_repeats_and_zero_reads_are_empty() {
    let mut ctx = open(encrypt(&[b"xyz"], 12));
    assert!(ctx.read(0).unwrap().is_empty());
    assert_eq!(ctx.read(2).unwrap(), b"xy".to_vec());
    assert!(ctx.read(0).unwrap().is_empty());
    assert_eq!(ctx.read(5).unwrap(), b"z".to_vec());
    assert!(ctx.read(5).unwrap().is_empty());
    assert!(ctx.read(5).unwrap().is_empty());
}
