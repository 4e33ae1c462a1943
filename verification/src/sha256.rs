//! SHA-256, as lowercase hexadecimal.

use vstd::prelude::*;

verus! {

/// The SHA-256 of `bytes`, as hexadecimal.
pub uninterp spec fn sha256_hex_of(bytes: Seq<u8>) -> Seq<char>;

/// Whether `c` is a hexadecimal digit, of lower case.
pub open spec fn is_lower_hex(c: char) -> bool {
    '0' <= c <= '9' || 'a' <= c <= 'f'
}

/// `sha2::Sha256::digest`, printed with `{:x}`: a function of the bytes alone,
/// 32 bytes long, so 64 hexadecimal digits of lower case.
#[verifier::external_body]
pub(crate) fn sha256_hex(bytes: &[u8]) -> (out: String)
    ensures
        out@ == sha256_hex_of(bytes@),
        out@.len() == 64,
        forall|i: int| 0 <= i < 64 ==> is_lower_hex(#[trigger] out@[i]),
{
    format!("{:x}", <sha2::Sha256 as sha2::Digest>::digest(bytes))
}

/// A `sha2::Sha256`, which is fed piece by piece.
#[verifier::external_body]
pub struct HashStream {
    inner: sha2::Sha256,
}

/// The bytes that a stream was fed, in order.
pub uninterp spec fn fed(stream: &HashStream) -> Seq<u8>;

/// The most bytes that a stream may be fed: SHA-256 counts them in bits, and the
/// count is of 64 bits.
pub const MAX_HASHED: u64 = 0x1fff_ffff_ffff_ffff;

impl HashStream {
    /// `sha2::Digest::new` of `sha2::Sha256`: it was fed nothing.
    #[verifier::external_body]
    fn begin() -> (stream: HashStream)
        ensures
            fed(&stream) == Seq::<u8>::empty(),
    {
        HashStream { inner: <sha2::Sha256 as sha2::Digest>::new() }
    }

    /// `sha2::Digest::update`: the chunk follows what was fed before.
    #[verifier::external_body]
    fn absorb(&mut self, chunk: &[u8])
        requires
            fed(old(self)).len() + chunk@.len() <= MAX_HASHED,
        ensures
            fed(final(self)) == fed(old(self)) + chunk@,
    {
        sha2::Digest::update(&mut self.inner, chunk)
    }

    /// `sha2::Digest::finalize`, printed with `{:x}`: what `sha2::Sha256::digest`
    /// gives for all that was fed, at once.
    #[verifier::external_body]
    fn done(self) -> (out: String)
        requires
            fed(&self).len() <= MAX_HASHED,
        ensures
            out@ == sha256_hex_of(fed(&self)),
            out@.len() == 64,
            forall|i: int| 0 <= i < 64 ==> is_lower_hex(#[trigger] out@[i]),
    {
        format!("{:x}", sha2::Digest::finalize(self.inner))
    }
}

/// A SHA-256 over bytes that come in chunks, so that a file need not be held as a
/// whole.
pub struct Sha256Stream {
    stream: HashStream,
    length: u64,
}

impl View for Sha256Stream {
    type V = Seq<u8>;

    /// The bytes so far.
    closed spec fn view(&self) -> Seq<u8> {
        fed(&self.stream)
    }
}

impl Sha256Stream {
    /// The bytes are counted, and no more than can be hashed.
    pub closed spec fn wf(self) -> bool {
        self.length == fed(&self.stream).len() && self.length <= MAX_HASHED
    }

    pub fn new() -> (stream: Sha256Stream)
        ensures
            stream.wf(),
            stream@ == Seq::<u8>::empty(),
    {
        Sha256Stream { stream: HashStream::begin(), length: 0 }
    }

    /// Whether so many bytes more can be hashed.
    pub fn fits(&self, n: usize) -> (yes: bool)
        requires
            self.wf(),
        ensures
            yes == (self@.len() + n <= MAX_HASHED),
    {
        n as u64 <= MAX_HASHED - self.length
    }

    /// One chunk more.
    pub fn update(&mut self, chunk: &[u8])
        requires
            old(self).wf(),
            old(self)@.len() + chunk@.len() <= MAX_HASHED,
        ensures
            final(self).wf(),
            final(self)@ == old(self)@ + chunk@,
    {
        self.length = self.length + chunk.len() as u64;
        self.stream.absorb(chunk);
    }

    /// The hash of all the bytes, in whatever chunks they came.
    pub fn finish(self) -> (out: String)
        requires
            self.wf(),
        ensures
            out@ == sha256_hex_of(self@),
            out@.len() == 64,
            forall|i: int| 0 <= i < 64 ==> is_lower_hex(#[trigger] out@[i]),
    {
        self.stream.done()
    }
}

} // verus!
