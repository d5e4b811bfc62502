use crate::bytes::{be_value, lemma_be_value_bound, lemma_pow256_values, read_be};
use crate::data::{extends, fresh};
use crate::metadata::{base64_decoded, decode_base64, Metadata};
use crate::source::{coherent, lemma_prefix_take, read_exact, upcoming, ByteSource, StreamError};
use hpke::aead::{AeadCtxR, ChaCha20Poly1305};
use hpke::kdf::HkdfSha256;
use hpke::kem::X25519HkdfSha256;
use hpke::{Deserializable, Kem as KemTrait, OpModeR};
use vstd::prelude::*;
use vstd::utf8::encode_utf8;

verus! {

/// hpke's receiving context for X25519, HKDF-SHA256 and ChaCha20-Poly1305,
/// used only through the two functions below that call hpke.
#[verifier::external_body]
struct OpenContext {
    ctx: AeadCtxR<ChaCha20Poly1305, HkdfSha256, X25519HkdfSha256>,
}

/// A receiving context with the keys it was set up from and the number of
/// chunks it has opened, which fixes the nonce of the next one.
struct Receiver {
    aead: OpenContext,
    sk: Ghost<Seq<u8>>,
    ek: Ghost<Seq<u8>>,
    seq: Ghost<nat>,
}

/// Whether hpke sets up a receiving context, in base mode with empty info,
/// from these 32-byte private and encapsulated keys.
pub uninterp spec fn receiver_accepts(sk: Seq<u8>, ek: Seq<u8>) -> bool;

/// What hpke's `open` yields, with empty associated data, for the chunk
/// `ct` under the context set up from `sk` and `ek` after `seq` chunks were
/// opened; `None` where it fails.
pub uninterp spec fn opened(sk: Seq<u8>, ek: Seq<u8>, seq: nat, ct: Seq<u8>) -> Option<Seq<u8>>;

/// The plaintext of the chunks at the start of `s`: each a 4-byte
/// big-endian length and that many bytes of ciphertext, opened in turn,
/// up to the first chunk that is cut short or fails to open.
pub open spec fn chunks_plain(sk: Seq<u8>, ek: Seq<u8>, seq: nat, s: Seq<u8>) -> Seq<u8>
    decreases s.len(),
{
    if s.len() < 4 {
        Seq::empty()
    } else {
        let n = be_value(s.take(4));
        if s.len() < 4 + n {
            Seq::empty()
        } else {
            match opened(sk, ek, seq, s.subrange(4, 4 + n as int)) {
                Some(p) => p + chunks_plain(sk, ek, seq + 1, s.skip(4 + n as int)),
                None => Seq::empty(),
            }
        }
    }
}

/// Length of the authentication tag that ends every chunk.
pub const TAG_LEN: usize = 16;

/// Length of an X25519 key, private or public.
pub const KEY_LEN: usize = 32;

#[derive(Clone, Copy, Debug, PartialEq, Eq)]
pub enum HPKEDecryptionError {
    PrivateKeyInvalidB64,
    PrivateKeyInvalid,
    EncappedKeyInvalidHex,
    EncappedKeyInvalid,
    BuffRead(StreamError),
    ContextCreation,
    Decrypt,
}

/// Value of an ASCII hex digit, either case.
pub open spec fn hex_digit(c: u8) -> Option<nat> {
    if 48 <= c <= 57 {
        Some((c - 48) as nat)
    } else if 97 <= c <= 102 {
        Some((c - 87) as nat)
    } else if 65 <= c <= 70 {
        Some((c - 55) as nat)
    } else {
        None
    }
}

/// The bytes that an even-length string of hex digits stands for, two
/// digits per byte, high digit first.
pub open spec fn hex_decoded(s: Seq<u8>) -> Option<Seq<u8>> {
    if s.len() % 2 == 0 && forall|i: int| 0 <= i < s.len() ==> #[trigger] hex_digit(s[i]) is Some {
        Some(
            Seq::new(
                s.len() / 2,
                |i: int| (hex_digit(s[2 * i])->Some_0 * 16 + hex_digit(s[2 * i + 1])->Some_0) as u8,
            ),
        )
    } else {
        None
    }
}

/// Relies on `hex::decode` (0.4): it fails on an odd length or a character
/// that is not a hex digit, and otherwise maps each pair of digits to a byte.
#[verifier::external_body]
fn decode_hex(input: &[u8]) -> (r: Option<Vec<u8>>)
    ensures
        match r {
            Some(v) => hex_decoded(input@) == Some(v@),
            None => hex_decoded(input@) is None,
        },
{
    hex::decode(input).ok()
}

/// Why a receiving context could not be set up.
enum SetupFault {
    PrivateKey,
    EncappedKey,
    Context,
}

/// Relies on hpke's `Deserializable::from_bytes` for the X25519 private key
/// and encapsulated key, which accept exactly 32 bytes, and on
/// `hpke::setup_receiver` in base mode with empty info, whose outcome
/// depends on the two keys alone. The key types live in private modules of
/// hpke and cannot be named here, so the three calls share one item.
#[verifier::external_body]
fn setup_receiver(private_key: &[u8], encapped_key: &[u8]) -> (r: Result<OpenContext, SetupFault>)
    ensures
        (r is Ok) <==> (private_key@.len() == KEY_LEN && encapped_key@.len() == KEY_LEN
            && receiver_accepts(private_key@, encapped_key@)),
        (r matches Err(SetupFault::PrivateKey)) <==> private_key@.len() != KEY_LEN,
        (r matches Err(SetupFault::EncappedKey)) <==> (private_key@.len() == KEY_LEN
            && encapped_key@.len() != KEY_LEN),
{
    let sk = match <X25519HkdfSha256 as KemTrait>::PrivateKey::from_bytes(private_key) {
        Ok(k) => k,
        Err(_) => return Err(SetupFault::PrivateKey),
    };
    let ek = match <X25519HkdfSha256 as KemTrait>::EncappedKey::from_bytes(encapped_key) {
        Ok(k) => k,
        Err(_) => return Err(SetupFault::EncappedKey),
    };
    match hpke::setup_receiver(&OpModeR::Base, &sk, &ek, &[]) {
        Ok(ctx) => Ok(OpenContext { ctx }),
        Err(_) => Err(SetupFault::Context),
    }
}

/// Relies on `AeadCtxR::open` with empty associated data: its outcome
/// depends on the keys, on the number of chunks opened before (its nonce,
/// which advances only on success) and on the chunk; the last 16 bytes are
/// the tag, so shorter input fails and the plaintext is 16 bytes shorter.
#[verifier::external_body]
fn open_chunk(rcv: &mut Receiver, ciphertext: &[u8]) -> (r: Option<Vec<u8>>)
    ensures
        r matches Some(v) ==> opened(old(rcv).sk@, old(rcv).ek@, old(rcv).seq@, ciphertext@) == Some(
            v@,
        ),
        r is None ==> opened(old(rcv).sk@, old(rcv).ek@, old(rcv).seq@, ciphertext@) is None,
        ciphertext@.len() < TAG_LEN ==> r is None,
        r matches Some(v) ==> v@.len() + TAG_LEN == ciphertext@.len(),
        final(rcv).sk == old(rcv).sk,
        final(rcv).ek == old(rcv).ek,
        final(rcv).seq@ == old(rcv).seq@ + if r is Some {
            1nat
        } else {
            0nat
        },
{
    rcv.aead.ctx.open(ciphertext, &[]).ok()
}

/// Appends to `out` the first `n` bytes of `buf` (all of it if shorter) and
/// returns the rest.
pub fn write_buf(buf: &[u8], out: &mut Vec<u8>, n: usize) -> (r: Vec<u8>)
    ensures
        ({
            let k = if buf@.len() < n { buf@.len() as int } else { n as int };
            &&& final(out)@ == old(out)@ + buf@.take(k)
            &&& r@ == buf@.skip(k)
        }),
{
    let k: usize = if buf.len() < n { buf.len() } else { n };
    let mut rest: Vec<u8> = Vec::new();
    let mut i: usize = 0;
    while i < buf.len()
        invariant
            k <= buf@.len(),
            i <= buf@.len(),
            i <= k ==> out@ == old(out)@ + buf@.take(i as int) && rest@.len() == 0,
            i > k ==> out@ == old(out)@ + buf@.take(k as int) && rest@ == buf@.subrange(k as int, i as int),
        decreases buf@.len() - i,
    {
        if i < k {
            out.push(buf[i]);
            assert(out@ =~= old(out)@ + buf@.take(i as int + 1));
        } else {
            rest.push(buf[i]);
            assert(rest@ =~= buf@.subrange(k as int, i as int + 1));
            if i == k {
                assert(buf@.take(i as int) =~= buf@.take(k as int));
            }
        }
        i = i + 1;
    }
    proof {
        if buf@.len() == k {
            assert(buf@.skip(k as int) =~= rest@);
        } else {
            assert(buf@.subrange(k as int, buf@.len() as int) =~= buf@.skip(k as int));
        }
    }
    rest
}

/// A decrypting byte source: reads length-prefixed ciphertext chunks from
/// `reader`, opens each whole, and hands out the plaintext in order.
pub struct Ctx<R: ByteSource> {
    inner: Receiver,
    reader: R,
    pending: Vec<u8>,
    delivered: Ghost<Seq<u8>>,
    faults: Ghost<nat>,
}

impl<R: ByteSource> Ctx<R> {
    pub closed spec fn reader(&self) -> R {
        self.reader
    }

    /// The private key the context was set up with.
    pub closed spec fn private_key(&self) -> Seq<u8> {
        self.inner.sk@
    }

    /// The encapsulated key the context was set up with.
    pub closed spec fn encapped_key(&self) -> Seq<u8> {
        self.inner.ek@
    }

    /// How many chunks have been opened so far.
    pub closed spec fn opened_chunks(&self) -> nat {
        self.inner.seq@
    }

    /// Plaintext already opened and not handed out yet.
    pub closed spec fn pending(&self) -> Seq<u8> {
        self.pending@
    }

    /// Sets up decryption with a base64 private key and the encapsulated
    /// key that the metadata gives in hex.
    pub fn new(meta: &Metadata, private_key: String, reader: R) -> (r: Result<
        Self,
        HPKEDecryptionError,
    >)
        ensures
            ({
                let sk = base64_decoded(encode_utf8(private_key@));
                let ek = hex_decoded(encode_utf8(meta.encapsulated_key@));
                match r {
                    Ok(c) => {
                        &&& sk matches Some(k) && k.len() == KEY_LEN
                        &&& ek matches Some(k) && k.len() == KEY_LEN
                        &&& c.reader() == reader
                        &&& c.pending().len() == 0
                        &&& c.delivered().len() == 0
                        &&& c.faults() == 0
                        &&& receiver_accepts(sk->Some_0, ek->Some_0)
                        &&& c.stream() == chunks_plain(sk->Some_0, ek->Some_0, 0, upcoming(&reader))
                        &&& coherent(&reader) ==> (c.wf() && c.delivered().len() <= c.stream().len() && c.delivered() == c.stream().take(c.delivered().len() as int) && (c.at_end() ==> c.delivered().len() == c.stream().len()))
                    },
                    Err(HPKEDecryptionError::PrivateKeyInvalidB64) => sk is None,
                    Err(HPKEDecryptionError::PrivateKeyInvalid) => sk matches Some(k) && k.len()
                        != KEY_LEN,
                    Err(HPKEDecryptionError::EncappedKeyInvalidHex) => {
                        &&& sk matches Some(k) && k.len() == KEY_LEN
                        &&& ek is None
                    },
                    Err(HPKEDecryptionError::EncappedKeyInvalid) => {
                        &&& sk matches Some(k) && k.len() == KEY_LEN
                        &&& ek matches Some(k) && k.len() != KEY_LEN
                    },
                    Err(HPKEDecryptionError::ContextCreation) => {
                        &&& sk matches Some(k) && k.len() == KEY_LEN
                        &&& ek matches Some(k) && k.len() == KEY_LEN
                        &&& !receiver_accepts(sk->Some_0, ek->Some_0)
                    },
                    Err(_) => false,
                }
            }),
    {
        let private_key = match decode_base64(private_key.as_str().as_bytes()) {
            Some(k) => k,
            None => return Err(HPKEDecryptionError::PrivateKeyInvalidB64),
        };
        if private_key.len() != KEY_LEN {
            return Err(HPKEDecryptionError::PrivateKeyInvalid);
        }
        let encapped_key = match decode_hex(meta.encapsulated_key.as_str().as_bytes()) {
            Some(k) => k,
            None => return Err(HPKEDecryptionError::EncappedKeyInvalidHex),
        };
        let inner = match setup_receiver(private_key.as_slice(), encapped_key.as_slice()) {
            Ok(c) => Receiver {
                aead: c,
                sk: Ghost(private_key@),
                ek: Ghost(encapped_key@),
                seq: Ghost(0),
            },
            Err(SetupFault::PrivateKey) => return Err(HPKEDecryptionError::PrivateKeyInvalid),
            Err(SetupFault::EncappedKey) => return Err(HPKEDecryptionError::EncappedKeyInvalid),
            Err(SetupFault::Context) => return Err(HPKEDecryptionError::ContextCreation),
        };
        let c = Ctx {
            inner,
            reader,
            pending: Vec::new(),
            delivered: Ghost(Seq::empty()),
            faults: Ghost(0),
        };
        proof {
            assert(c.stream() =~= chunks_plain(private_key@, encapped_key@, 0, upcoming(&c.reader)));
            if coherent(&c.reader) {
                c.lemma_coherent();
            }
        }
        Ok(c)
    }

    /// Reads and opens the next chunk: a 4-byte big-endian length, then that
    /// many bytes of ciphertext. `None` when the ciphertext stream is
    /// exhausted before the first byte of a chunk.
    fn next_chunk(&mut self) -> (r: Result<Option<Vec<u8>>, HPKEDecryptionError>)
        ensures
            final(self).inner.sk == old(self).inner.sk,
            final(self).inner.ek == old(self).inner.ek,
            coherent(&old(self).reader) ==> coherent(&final(self).reader),
            (coherent(&old(self).reader) && r is Ok)
                ==> final(self).reader.stream() == old(self).reader.stream(),
            coherent(&old(self).reader) ==> match r {
                Ok(None) => upcoming(&old(self).reader).len() == 0 && final(self).inner.seq
                    == old(self).inner.seq,
                Ok(Some(v)) => chunks_plain(
                    old(self).inner.sk@,
                    old(self).inner.ek@,
                    old(self).inner.seq@,
                    upcoming(&old(self).reader),
                ) == v@ + chunks_plain(
                    old(self).inner.sk@,
                    old(self).inner.ek@,
                    final(self).inner.seq@,
                    upcoming(&final(self).reader),
                ),
                Err(_) => final(self).reader.faults() == old(self).reader.faults() ==> chunks_plain(
                    old(self).inner.sk@,
                    old(self).inner.ek@,
                    old(self).inner.seq@,
                    upcoming(&old(self).reader),
                ) == Seq::<u8>::empty(),
            },
            final(self).faults() == old(self).faults(),
            final(self).reader().faults() >= old(self).reader().faults(),
            old(self).reader().at_end() ==> final(self).reader().at_end()
                && final(self).reader().delivered() == old(self).reader().delivered(),
            old(self).reader().at_end() ==> r matches Ok(None),
            r matches Ok(None) ==> final(self).reader().at_end(),
            final(self).pending() == old(self).pending(),
            final(self).delivered() == old(self).delivered(),
            final(self).reader().left() <= old(self).reader().left(),
            extends(old(self).reader().delivered(), final(self).reader().delivered()),
            ({
                let got = fresh(
                    final(self).reader().delivered(),
                    old(self).reader().delivered().len(),
                );
                let framed = got.len() >= 4 && got.len() == 4 + be_value(got.take(4));
                let same_faults = final(self).reader().faults() == old(self).reader().faults();
                let cut_short = final(self).reader().at_end() && got.len() > 0 && !framed;
                match r {
                    Ok(None) => got.len() == 0 && same_faults,
                    Ok(Some(v)) => {
                        &&& same_faults
                        &&& framed
                        &&& v@.len() + TAG_LEN + 4 == got.len()
                        &&& final(self).reader().left() + got.len() <= old(self).reader().left()
                    },
                    Err(HPKEDecryptionError::Decrypt) => {
                        &&& same_faults
                        &&& framed
                        &&& final(self).reader().left() + got.len() <= old(self).reader().left()
                    },
                    Err(HPKEDecryptionError::BuffRead(e)) => {
                        ||| final(self).reader().faults() > old(self).reader().faults()
                        ||| (same_faults && e == StreamError::UnexpectedEnd && cut_short)
                    },
                    Err(_) => false,
                }
            }),
    {
        let ghost d0 = self.reader.delivered();
        let ghost l0 = self.reader.left();
        let ghost s0 = self.reader.stream();
        let ghost u0 = upcoming(&self.reader);
        let mut len_bytes = match self.reader.fill(4) {
            Ok(b) => b,
            Err(e) => {
                proof { lemma_prefix_take(d0, Seq::empty()); assert(d0 + Seq::<u8>::empty() =~= d0); }
                return Err(HPKEDecryptionError::BuffRead(e));
            },
        };
        if len_bytes.len() == 0 {
            proof {
                assert(d0 + len_bytes@ =~= d0);
                lemma_prefix_take(d0, Seq::empty());
                assert(fresh(self.reader.delivered(), d0.len()) =~= Seq::<u8>::empty());
            }
            return Ok(None);
        }
        let ghost d1 = self.reader.delivered();
        let mut more = match read_exact(&mut self.reader, 4 - len_bytes.len()) {
            Ok(b) => b,
            Err(e) => {
                proof {
                    lemma_prefix_take(d0, len_bytes@);
                    let df = self.reader.delivered();
                    assert(df.take(d0.len() as int) =~= df.take(d1.len() as int).take(d0.len() as int));
                }
                return Err(HPKEDecryptionError::BuffRead(e));
            },
        };
        len_bytes.append(&mut more);
        proof {
            assert(len_bytes@.subrange(0, 4) =~= len_bytes@);
            lemma_be_value_bound(len_bytes@);
            lemma_pow256_values();
        }
        let len: u64 = read_be(len_bytes.as_slice(), 0, 4);
        let ghost d2 = self.reader.delivered();
        let body = match read_exact(&mut self.reader, len as usize) {
            Ok(b) => b,
            Err(e) => {
                proof {
                    let df = self.reader.delivered();
                    assert(d2 =~= d0 + len_bytes@);
                    lemma_prefix_take(d0, len_bytes@);
                    assert(df.take(d0.len() as int) =~= df.take(d2.len() as int).take(d0.len() as int));
                    let got = fresh(df, d0.len());
                    assert(got.take(4) =~= len_bytes@.subrange(0, 4)) by {
                        assert forall|i: int| 0 <= i < 4 implies got[i] == len_bytes@[i] by {
                            assert(df[d0.len() + i] == df.take(d2.len() as int)[d0.len() + i]);
                        }
                    }
                }
                return Err(HPKEDecryptionError::BuffRead(e));
            },
        };
        proof {
            let got = len_bytes@ + body@;
            assert(self.reader.delivered() =~= d0 + got);
            lemma_prefix_take(d0, got);
            assert(fresh(self.reader.delivered(), d0.len()) =~= got);
            assert(got.take(4) =~= len_bytes@);
        }
        let ghost n = len as int;
        proof {
            if coherent(&old(self).reader) {
                let df = self.reader.delivered();
                let got = len_bytes@ + body@;
                assert(df.len() <= s0.len());
                assert(u0.take(4 + n) =~= got) by {
                    assert forall|i: int| 0 <= i < 4 + n implies u0[i] == got[i] by {
                        assert(df[d0.len() + i] == s0.take(df.len() as int)[d0.len() + i]);
                    }
                }
                assert(u0.take(4) =~= len_bytes@);
                assert(u0.subrange(4, 4 + n) =~= body@);
                assert(upcoming(&self.reader) =~= u0.skip(4 + n));
            }
        }
        match open_chunk(&mut self.inner, body.as_slice()) {
            Some(v) => Ok(Some(v)),
            None => Err(HPKEDecryptionError::Decrypt),
        }
    }

    /// Reads and opens the next chunk: a 4-byte big-endian length, then that
    /// many bytes of ciphertext. An empty result with nothing read means
    /// that the ciphertext stream is exhausted.
    pub fn decrypt_block(&mut self) -> (r: Result<Vec<u8>, HPKEDecryptionError>)
        ensures
            final(self).faults() == old(self).faults(),
            final(self).reader().faults() >= old(self).reader().faults(),
            old(self).reader().at_end() ==> final(self).reader().at_end()
                && final(self).reader().delivered() == old(self).reader().delivered(),
            old(self).reader().at_end() ==> (r matches Ok(v) && v@.len() == 0),
            final(self).private_key() == old(self).private_key(),
            final(self).encapped_key() == old(self).encapped_key(),
            coherent(&old(self).reader()) ==> coherent(&final(self).reader()),
            (coherent(&old(self).reader()) && r is Ok) ==> chunks_plain(
                old(self).private_key(),
                old(self).encapped_key(),
                old(self).opened_chunks(),
                upcoming(&old(self).reader()),
            ) == r->Ok_0@ + chunks_plain(
                old(self).private_key(),
                old(self).encapped_key(),
                final(self).opened_chunks(),
                upcoming(&final(self).reader()),
            ),
            final(self).pending() == old(self).pending(),
            final(self).delivered() == old(self).delivered(),
            final(self).reader().left() <= old(self).reader().left(),
            extends(old(self).reader().delivered(), final(self).reader().delivered()),
            ({
                let got = fresh(
                    final(self).reader().delivered(),
                    old(self).reader().delivered().len(),
                );
                let framed = got.len() >= 4 && got.len() == 4 + be_value(got.take(4));
                let same_faults = final(self).reader().faults() == old(self).reader().faults();
                let cut_short = final(self).reader().at_end() && got.len() > 0 && !framed;
                match r {
                    Ok(v) => {
                        &&& same_faults
                        &&& got.len() == 0 ==> v@.len() == 0 && final(self).reader().at_end()
                        &&& got.len() > 0 ==> framed && v@.len() + TAG_LEN + 4 == got.len()
                        &&& final(self).reader().left() + got.len() <= old(self).reader().left()
                    },
                    Err(HPKEDecryptionError::Decrypt) => {
                        &&& same_faults
                        &&& framed
                        &&& final(self).reader().left() + got.len() <= old(self).reader().left()
                    },
                    Err(HPKEDecryptionError::BuffRead(e)) => {
                        ||| final(self).reader().faults() > old(self).reader().faults()
                        ||| (same_faults && e == StreamError::UnexpectedEnd && cut_short)
                    },
                    Err(_) => false,
                }
            }),
    {
        let ghost u0 = upcoming(&self.reader);
        match self.next_chunk() {
            Ok(Some(v)) => Ok(v),
            Ok(None) => {
                proof {
                    if coherent(&old(self).reader) {
                        assert(self.reader.delivered() =~= old(self).reader.delivered());
                        assert(upcoming(&self.reader) =~= u0);
                    }
                    assert(Seq::<u8>::empty() + chunks_plain(self.inner.sk@, self.inner.ek@, self.inner.seq@, u0) =~= chunks_plain(self.inner.sk@, self.inner.ek@, self.inner.seq@, u0));
                }
                Ok(Vec::new())
            },
            Err(e) => Err(e),
        }
    }
}

impl<R: ByteSource> Ctx<R> {
    /// A decrypting source is coherent whenever its ciphertext source is.
    pub proof fn lemma_coherent(&self)
        requires
            coherent(&self.reader()),
        ensures
            (self.wf() && self.delivered().len() <= self.stream().len() && self.delivered() == self.stream().take(self.delivered().len() as int) && (self.at_end() ==> self.delivered().len() == self.stream().len())),
    {
        assert(self.stream().take(self.delivered().len() as int) =~= self.delivered());
        if self.at_end() {
            assert(upcoming(&self.reader) =~= Seq::<u8>::empty());
            assert(self.stream() =~= self.delivered());
        }
    }

    /// Hands out at most `max` bytes of plaintext: pending plaintext first,
    /// and one more chunk opened only when that is not enough. A chunk that
    /// fails to open hands out nothing and keeps what was pending.
    pub fn read(&mut self, max: usize) -> (r: Result<Vec<u8>, StreamError>)
        ensures
            final(self).left() <= old(self).left(),
            final(self).faults() >= old(self).faults(),
            (r is Ok) <==> final(self).faults() == old(self).faults(),
            old(self).at_end() ==> (r matches Ok(b) && b@.len() == 0) && final(self).at_end(),
            (r matches Ok(b) && b@.len() == 0 && max > 0) ==> final(self).at_end(),
            old(self).pending().len() >= max ==> r is Ok,
            r is Err ==> (final(self).reader().faults() > old(self).reader().faults()
                || final(self).reader().delivered().len() > old(self).reader().delivered().len()),
            (coherent(&old(self).reader()) && r is Err
                && final(self).reader().faults() == old(self).reader().faults())
                ==> old(self).stream().skip(old(self).delivered().len() as int) == old(self).pending(),
            (old(self).pending().len() == 0 && old(self).reader().at_end()) ==> (r matches Ok(b)
                && b@.len() == 0),
            ((old(self).wf() && old(self).delivered().len() <= old(self).stream().len() && old(self).delivered() == old(self).stream().take(old(self).delivered().len() as int) && (old(self).at_end() ==> old(self).delivered().len() == old(self).stream().len())) && final(self).faults() == old(self).faults())
                ==> final(self).stream() == old(self).stream(),
            (old(self).wf() && old(self).delivered().len() <= old(self).stream().len() && old(self).delivered() == old(self).stream().take(old(self).delivered().len() as int) && (old(self).at_end() ==> old(self).delivered().len() == old(self).stream().len())) ==> (final(self).wf() && final(self).delivered().len() <= final(self).stream().len() && final(self).delivered() == final(self).stream().take(final(self).delivered().len() as int) && (final(self).at_end() ==> final(self).delivered().len() == final(self).stream().len())),
            (r matches Ok(b) && b@.len() == 0 && max > 0) ==> old(self).pending().len() == 0
                && final(self).reader().at_end(),
            match r {
                Ok(b) => {
                    &&& b@.len() <= max
                    &&& final(self).delivered() == old(self).delivered() + b@
                    &&& final(self).left() + b@.len() <= old(self).left()
                    &&& old(self).pending().len() >= max ==> {
                        &&& b@ == old(self).pending().take(max as int)
                        &&& final(self).pending() == old(self).pending().skip(max as int)
                        &&& final(self).reader() == old(self).reader()
                    }
                    &&& old(self).pending().len() < max ==> {
                        &&& b@.take(old(self).pending().len() as int) == old(self).pending()
                        &&& final(self).pending().len() > 0 ==> b@.len() == max
                    }
                    &&& (old(self).wf() && old(self).delivered().len() <= old(self).stream().len() && old(self).delivered() == old(self).stream().take(old(self).delivered().len() as int) && (old(self).at_end() ==> old(self).delivered().len() == old(self).stream().len())) ==> b@ == old(self).stream().skip(old(self).delivered().len() as int).take(b@.len() as int)
                    &&& ((old(self).wf() && old(self).delivered().len() <= old(self).stream().len() && old(self).delivered() == old(self).stream().take(old(self).delivered().len() as int) && (old(self).at_end() ==> old(self).delivered().len() == old(self).stream().len())) && max > 0 && old(self).stream().skip(old(self).delivered().len() as int).len() > 0) ==> b@.len() > 0
                },
                Err(_) => {
                    &&& final(self).delivered() == old(self).delivered()
                    &&& final(self).pending() == old(self).pending()
                },
            },
    {
        let mut out: Vec<u8> = Vec::new();
        let ghost c0 = coherent(&self.reader);
        let ghost cp0 = chunks_plain(self.inner.sk@, self.inner.ek@, self.inner.seq@, upcoming(&self.reader));
        if self.pending.len() >= max {
            let rest = write_buf(self.pending.as_slice(), &mut out, max);
            proof {
                assert(self.pending@ =~= out@ + rest@);
                self.delivered@ = self.delivered@ + out@;
            }
            self.pending = rest;
            proof {
                assert(self.stream() =~= old(self).stream());
                if c0 {
                    self.lemma_coherent();
                    assert(old(self).stream().skip(old(self).delivered().len() as int) =~= old(self).pending@ + cp0);
                }
            }
            return Ok(out);
        }
        // Chunks with no plaintext are passed over, so that an empty result
        // means the end of the ciphertext.
        let ghost p0 = self.pending@;
        let ghost d0 = self.delivered@;
        let ghost l0 = self.reader.left();
        let mut decrypted: Vec<u8> = Vec::new();
        let mut done = false;
        while !done
            invariant
                self.faults@ == old(self).faults@,
                c0 == coherent(&old(self).reader),
                cp0 == chunks_plain(old(self).inner.sk@, old(self).inner.ek@, old(self).inner.seq@, upcoming(&old(self).reader)),
                self.inner.sk == old(self).inner.sk,
                self.inner.ek == old(self).inner.ek,
                self.reader.faults() == old(self).reader.faults(),
                self.reader.delivered().len() >= old(self).reader.delivered().len(),
                c0 ==> coherent(&self.reader) && self.reader.stream() == old(self).reader.stream(),
                c0 ==> cp0 == decrypted@ + chunks_plain(self.inner.sk@, self.inner.ek@, self.inner.seq@, upcoming(&self.reader)),
                (c0 && done && decrypted@.len() == 0) ==> upcoming(&self.reader).len() == 0,
                p0.len() < max,
                old(self).reader.at_end() ==> self.reader.at_end() && decrypted@.len() == 0,
                done && decrypted@.len() == 0 ==> self.reader.at_end(),
                p0 == old(self).pending@,
                d0 == old(self).delivered@,
                l0 == old(self).reader.left(),
                self.pending@ == p0,
                self.delivered@ == d0,
                self.reader.left() <= l0,
                decrypted@.len() <= self.reader.left() + decrypted@.len() <= l0,
                !done ==> decrypted@.len() == 0,
            decreases self.reader.left() + if done { 0nat } else { 1nat },
        {
            match self.next_chunk() {
                Ok(None) => done = true,
                Ok(Some(d)) => {
                    proof {
                        if c0 {
                            assert(decrypted@ + d@ =~= d@);
                            assert(decrypted@ + (d@ + chunks_plain(self.inner.sk@, self.inner.ek@, self.inner.seq@, upcoming(&self.reader))) =~= (decrypted@ + d@) + chunks_plain(self.inner.sk@, self.inner.ek@, self.inner.seq@, upcoming(&self.reader)));
                        }
                    }
                    if d.len() > 0 {
                        decrypted = d;
                        done = true;
                    }
                },
                Err(HPKEDecryptionError::BuffRead(e)) => {
                    proof {
                        self.faults@ = self.faults@ + 1;
                        if c0 {
                            assert(old(self).stream().skip(old(self).delivered().len() as int) =~= p0 + cp0);
                        }
                    }
                    return Err(e);
                },
                Err(_) => {
                    proof {
                        self.faults@ = self.faults@ + 1;
                        if c0 {
                            assert(old(self).stream().skip(old(self).delivered().len() as int) =~= p0 + cp0);
                        }
                    }
                    return Err(StreamError::Decryption);
                },
            }
        }
        let mut pending = Vec::new();
        std::mem::swap(&mut pending, &mut self.pending);
        let room: usize = max - pending.len();
        let rest = write_buf(pending.as_slice(), &mut out, max);
        let rest = write_buf(decrypted.as_slice(), &mut out, room);
        proof {
            self.delivered@ = self.delivered@ + out@;
            assert(out@.take(pending@.len() as int) =~= pending@);
        }
        self.pending = rest;
        proof {
            if c0 {
                let cp = chunks_plain(self.inner.sk@, self.inner.ek@, self.inner.seq@, upcoming(&self.reader));
                assert(out@ + rest@ =~= p0 + decrypted@);
                assert(self.stream() =~= old(self).stream());
                self.lemma_coherent();
                assert(old(self).stream().skip(old(self).delivered().len() as int) =~= p0 + cp0);
                assert(old(self).stream().skip(old(self).delivered().len() as int).take(out@.len() as int) =~= out@);
            }
        }
        Ok(out)
    }
}

impl<R: ByteSource> ByteSource for Ctx<R> {
    closed spec fn delivered(&self) -> Seq<u8> {
        self.delivered@
    }

    closed spec fn left(&self) -> nat {
        self.reader.left() + self.pending@.len()
    }

    closed spec fn at_end(&self) -> bool {
        self.reader.at_end() && self.pending@.len() == 0
    }

    closed spec fn faults(&self) -> nat {
        self.faults@
    }

    closed spec fn stream(&self) -> Seq<u8> {
        self.delivered@ + self.pending@ + chunks_plain(
            self.inner.sk@,
            self.inner.ek@,
            self.inner.seq@,
            upcoming(&self.reader),
        )
    }

    closed spec fn wf(&self) -> bool {
        coherent(&self.reader)
    }

    fn fill(&mut self, max: usize) -> (r: Result<Vec<u8>, StreamError>) {
        proof {
            if coherent(&self.reader) {
                self.lemma_coherent();
            }
        }
        self.read(max)
    }
}

} // verus!
