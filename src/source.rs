use vstd::prelude::*;

verus! {

/// Why a byte source could not deliver.
#[derive(Clone, Copy, Debug, PartialEq, Eq)]
pub enum StreamError {
    /// The underlying medium failed.
    Io,
    /// The source ended inside a unit that had to be read whole.
    UnexpectedEnd,
    /// A ciphertext chunk did not authenticate.
    Decryption,
}

/// A pull-based source of bytes.
///
/// `delivered` is everything handed out so far; `left` is a measure that
/// shrinks with every delivery, so that draining a source ends. `at_end`
/// holds once the source is exhausted, and `faults` counts the failures it
/// has reported. `stream` is everything the source yields unless it fails;
/// it does not change as bytes are handed out.
pub trait ByteSource: Sized {
    spec fn delivered(&self) -> Seq<u8>;

    spec fn stream(&self) -> Seq<u8>;

    spec fn wf(&self) -> bool;

    spec fn left(&self) -> nat;

    spec fn at_end(&self) -> bool;

    spec fn faults(&self) -> nat;

    /// Hands out at most `max` further bytes. An empty `Ok` for a positive
    /// `max` comes exactly when the source is exhausted; an exhausted source
    /// stays so.
    fn fill(&mut self, max: usize) -> (r: Result<Vec<u8>, StreamError>)
        ensures
            final(self).left() <= old(self).left(),
            final(self).faults() >= old(self).faults(),
            (r is Ok) <==> final(self).faults() == old(self).faults(),
            old(self).at_end() ==> (r matches Ok(b) && b@.len() == 0) && final(self).at_end(),
            (r matches Ok(b) && b@.len() == 0 && max > 0) ==> final(self).at_end(),
            (old(self).wf() && final(self).faults() == old(self).faults()) ==> final(self).stream()
                == old(self).stream(),
            (old(self).wf() && old(self).delivered().len() <= old(self).stream().len() && old(self).delivered() == old(self).stream().take(old(self).delivered().len() as int) && (old(self).at_end() ==> old(self).delivered().len() == old(self).stream().len())) ==> (final(self).wf() && final(self).delivered().len() <= final(self).stream().len() && final(self).delivered() == final(self).stream().take(final(self).delivered().len() as int) && (final(self).at_end() ==> final(self).delivered().len() == final(self).stream().len())),
            match r {
                Ok(b) => {
                    &&& b@.len() <= max
                    &&& final(self).delivered() == old(self).delivered() + b@
                    &&& final(self).left() + b@.len() <= old(self).left()
                    &&& (old(self).wf() && old(self).delivered().len() <= old(self).stream().len() && old(self).delivered() == old(self).stream().take(old(self).delivered().len() as int) && (old(self).at_end() ==> old(self).delivered().len() == old(self).stream().len())) ==> b@ == old(self).stream().skip(old(self).delivered().len() as int).take(b@.len() as int)
                    &&& ((old(self).wf() && old(self).delivered().len() <= old(self).stream().len() && old(self).delivered() == old(self).stream().take(old(self).delivered().len() as int) && (old(self).at_end() ==> old(self).delivered().len() == old(self).stream().len())) && max > 0 && old(self).stream().skip(old(self).delivered().len() as int).len() > 0) ==> b@.len() > 0
                },
                Err(_) => final(self).delivered() == old(self).delivered(),
            },
    ;
}

/// What was delivered is a prefix of the stream, and the source is at its
/// end only when all of the stream was delivered.
pub open spec fn coherent<R: ByteSource>(src: &R) -> bool {
    &&& src.wf()
    &&& src.delivered().len() <= src.stream().len()
    &&& src.delivered() == src.stream().take(src.delivered().len() as int)
    &&& src.at_end() ==> src.delivered().len() == src.stream().len()
}

/// The bytes of the stream not delivered yet.
pub open spec fn upcoming<R: ByteSource>(src: &R) -> Seq<u8> {
    src.stream().skip(src.delivered().len() as int)
}

/// Between two coherent states of one stream, the bytes delivered in
/// between are the next bytes of the stream.
pub proof fn lemma_taken<R: ByteSource>(a: &R, b: &R)
    ensures
        ({
            let n = a.delivered().len() as int;
            let taken = b.delivered().skip(n);
            (coherent(a) && coherent(b) && a.stream() == b.stream() && b.delivered().len() >= n
                && b.delivered().take(n) == a.delivered()) ==> {
                &&& taken == upcoming(a).take(taken.len() as int)
                &&& upcoming(b) == upcoming(a).skip(taken.len() as int)
            }
        }),
{
    let n = a.delivered().len() as int;
    let taken = b.delivered().skip(n);
    if coherent(a) && coherent(b) && a.stream() == b.stream() && b.delivered().len() >= n
        && b.delivered().take(n) == a.delivered() {
        let st = a.stream();
        let d = b.delivered();
        assert(taken =~= upcoming(a).take(taken.len() as int)) by {
            assert forall|i: int| 0 <= i < taken.len() implies taken[i] == upcoming(a)[i] by {
                assert(d[n + i] == st.take(d.len() as int)[n + i]);
            }
        }
        assert(upcoming(b) =~= upcoming(a).skip(taken.len() as int));
    }
}

/// A byte source over bytes held in memory.
pub struct SliceSource {
    bytes: Vec<u8>,
    pos: usize,
}

impl SliceSource {
    pub closed spec fn all(&self) -> Seq<u8> {
        self.bytes@
    }

    pub closed spec fn pos(&self) -> nat {
        self.pos as nat
    }

    pub closed spec fn wf(&self) -> bool {
        self.pos <= self.bytes@.len()
    }

    pub fn new(bytes: Vec<u8>) -> (r: SliceSource)
        ensures
            r.wf(),
            r.all() == bytes@,
            r.pos() == 0,
            r.delivered() == Seq::<u8>::empty(),
            r.stream() == bytes@,
            r.faults() == 0,
            coherent(&r),
    {
        SliceSource { bytes, pos: 0 }
    }

    /// What has been delivered is the prefix of the bytes before the
    /// position.
    pub proof fn lemma_delivered(&self)
        requires
            self.wf(),
        ensures
            self.stream() == self.all(),
            self.delivered() == self.all().take(self.pos() as int),
            self.left() == self.all().len() - self.pos(),
            self.pos() <= self.all().len(),
            self.at_end() <==> self.pos() == self.all().len(),
            self.faults() == 0,
    {
    }

    /// An in-memory source never fails, and its stream is its bytes.
    pub proof fn lemma_never_fails(&self)
        ensures
            self.faults() == 0,
            self.stream() == self.all(),
    {
    }

    /// The bytes not delivered yet.
    pub fn remaining(&self) -> (r: Vec<u8>)
        requires
            self.wf(),
        ensures
            r@ == self.all().skip(self.pos() as int),
            r@ == upcoming(self),
    {
        let mut r: Vec<u8> = Vec::new();
        let mut i: usize = self.pos;
        while i < self.bytes.len()
            invariant
                self.pos <= i <= self.bytes@.len(),
                r@ == self.bytes@.subrange(self.pos as int, i as int),
            decreases self.bytes@.len() - i,
        {
            r.push(self.bytes[i]);
            i = i + 1;
        }
        r
    }
}

impl ByteSource for SliceSource {
    closed spec fn delivered(&self) -> Seq<u8> {
        self.bytes@.take(self.pos as int)
    }

    closed spec fn left(&self) -> nat {
        (self.bytes@.len() - self.pos) as nat
    }

    closed spec fn at_end(&self) -> bool {
        self.pos >= self.bytes@.len()
    }

    closed spec fn stream(&self) -> Seq<u8> {
        self.bytes@
    }

    closed spec fn wf(&self) -> bool {
        self.pos <= self.bytes@.len()
    }

    closed spec fn faults(&self) -> nat {
        0
    }

    fn fill(&mut self, max: usize) -> (r: Result<Vec<u8>, StreamError>)
        ensures
            r is Ok,
            old(self).wf() ==> {
                &&& final(self).wf()
                &&& final(self).all() == old(self).all()
                &&& r matches Ok(b) && b@ == old(self).all().subrange(
                    old(self).pos() as int,
                    final(self).pos() as int,
                )
                &&& final(self).pos() as int == if old(self).all().len() - old(self).pos() < max {
                    old(self).all().len() as int
                } else {
                    old(self).pos() + max
                }
            },
    {
        let mut out: Vec<u8> = Vec::new();
        if self.pos > self.bytes.len() {
            return Ok(out);
        }
        let end: usize = if self.bytes.len() - self.pos < max {
            self.bytes.len()
        } else {
            self.pos + max
        };
        let mut i: usize = self.pos;
        while i < end
            invariant
                self.pos <= i <= end <= self.bytes@.len(),
                out@ == self.bytes@.subrange(self.pos as int, i as int),
            decreases end - i,
        {
            out.push(self.bytes[i]);
            i = i + 1;
        }
        proof {
            assert(self.bytes@.take(end as int) =~= self.bytes@.take(self.pos as int) + out@);
        }
        self.pos = end;
        Ok(out)
    }
}

/// Reads exactly `n` bytes, failing if the source ends first.
pub fn read_exact<R: ByteSource>(src: &mut R, n: usize) -> (r: Result<Vec<u8>, StreamError>)
    ensures
        final(src).left() <= old(src).left(),
        final(src).delivered().len() >= old(src).delivered().len(),
        final(src).delivered().take(old(src).delivered().len() as int) == old(src).delivered(),
        r matches Ok(b) ==> b@.len() == n && final(src).delivered() == old(src).delivered() + b@,
        r matches Ok(b) ==> final(src).left() + b@.len() <= old(src).left(),
        final(src).faults() >= old(src).faults(),
        (r is Ok) ==> final(src).faults() == old(src).faults(),
        r is Err ==> final(src).delivered().len() < old(src).delivered().len() + n,
        r matches Err(e) ==> final(src).faults() > old(src).faults() || (e == StreamError::UnexpectedEnd
            && final(src).at_end() && final(src).faults() == old(src).faults()),
        (coherent(old(src)) && final(src).faults() == old(src).faults()) ==> final(src).stream() == old(
            src,
        ).stream(),
        coherent(old(src)) ==> coherent(final(src)),
        (coherent(old(src)) && r is Ok) ==> r->Ok_0@ == upcoming(old(src)).take(n as int),
        (coherent(old(src)) && r is Err && final(src).faults() == old(src).faults()) ==> (
        upcoming(old(src)).len() < n && final(src).delivered() == old(src).stream()),
        (old(src).at_end() && n > 0) ==> r == Err::<Vec<u8>, StreamError>(StreamError::UnexpectedEnd)
            && final(src).delivered() == old(src).delivered(),
{
    let mut buf: Vec<u8> = Vec::new();
    while buf.len() < n
        invariant
            buf@.len() <= n,
            src.faults() == old(src).faults(),
            coherent(old(src)) ==> src.stream() == old(src).stream(),
            coherent(old(src)) ==> coherent(src) && buf@ == upcoming(old(src)).take(buf@.len() as int),
            old(src).at_end() ==> src.at_end() && buf@.len() == 0,
            final_invariants(old(src).delivered(), old(src).left(), src.delivered(), src.left(), buf@),
        decreases n - buf@.len(),
    {
        let mut chunk = match src.fill(n - buf.len()) {
            Ok(c) => c,
            Err(e) => {
                proof { lemma_prefix_take(old(src).delivered(), buf@); }
                return Err(e);
            },
        };
        if chunk.len() == 0 {
            proof { lemma_prefix_take(old(src).delivered(), buf@); }
            return Err(StreamError::UnexpectedEnd);
        }
        proof {
            assert(old(src).delivered() + buf@ + chunk@ =~= old(src).delivered() + (buf@ + chunk@));
            if coherent(old(src)) {
                let u = upcoming(old(src));
                let st = old(src).stream();
                let d0 = old(src).delivered();
                let k = (buf@.len() + chunk@.len()) as int;
                let df = src.delivered();
                assert(df.len() <= st.len());
                assert(buf@ + chunk@ =~= u.take(k)) by {
                    assert forall|i: int| 0 <= i < k implies (buf@ + chunk@)[i] == u[i] by {
                        assert(df[d0.len() + i] == st.take(df.len() as int)[d0.len() + i]);
                    }
                }
            }
        }
        buf.append(&mut chunk);
    }
    proof { lemma_prefix_take(old(src).delivered(), buf@); }
    Ok(buf)
}

pub open spec fn final_invariants(
    d0: Seq<u8>,
    l0: nat,
    d: Seq<u8>,
    l: nat,
    buf: Seq<u8>,
) -> bool {
    &&& d == d0 + buf
    &&& l + buf.len() <= l0
}

pub proof fn lemma_prefix_take(a: Seq<u8>, b: Seq<u8>)
    ensures
        (a + b).take(a.len() as int) == a,
{
    assert((a + b).take(a.len() as int) =~= a);
}

} // verus!
