//! SHA-256 digests of byte streams, and their upper-case hexadecimal form.
use vstd::prelude::*;

verus! {

/// A running SHA-256 computation of `ring`.
#[verifier::external_type_specification]
#[verifier::external_body]
pub struct ExContext(ring::digest::Context);

/// The bytes that have been fed into a running digest computation so far.
pub uninterp spec fn digest_input(c: ring::digest::Context) -> Seq<u8>;

/// The SHA-256 digest of a byte sequence.
pub uninterp spec fn sha256_of(data: Seq<u8>) -> Seq<u8>;

/// Length in bytes of a SHA-256 digest.
pub const DIGEST_LEN: usize = 32;

/// Inputs of this many bytes or more are refused by `ring` when the digest
/// is finished: their length in bits does not fit in 64 bits.
pub const MAX_DIGEST_INPUT: u64 = 0x2000_0000_0000_0000;

/// Relies on `ring::digest::Context::new(&SHA256)`: a fresh SHA-256
/// computation that has seen no input.
#[verifier::external_body]
fn sha256_context() -> (r: ring::digest::Context)
    ensures
        digest_input(r) == Seq::<u8>::empty(),
{
    ring::digest::Context::new(&ring::digest::SHA256)
}

/// Relies on `ring::digest::Context::update`: the bytes are appended to the
/// input of the computation (it buffers partial blocks and never panics).
#[verifier::external_body]
fn context_update(c: &mut ring::digest::Context, data: &[u8])
    ensures
        digest_input(*final(c)) == digest_input(*old(c)) + data@,
{
    c.update(data)
}

/// Relies on `ring::digest::Context::finish` and `Digest::as_ref`: the
/// SHA-256 digest of everything fed, 32 bytes long. `finish` panics when the
/// input's length in bits overflows 64 bits, which `requires` leaves out.
#[verifier::external_body]
fn context_finish(c: ring::digest::Context) -> (r: Vec<u8>)
    requires
        digest_input(c).len() < MAX_DIGEST_INPUT,
    ensures
        r@ == sha256_of(digest_input(c)),
        r@.len() == DIGEST_LEN,
{
    c.finish().as_ref().to_vec()
}

/// An incremental SHA-256 computation over a stream of chunks.
pub struct Sha256Stream {
    context: ring::digest::Context,
    fed: u64,
}

impl Sha256Stream {
    /// The bytes fed so far, in order.
    pub closed spec fn input(&self) -> Seq<u8> {
        digest_input(self.context)
    }

    pub closed spec fn wf(&self) -> bool {
        &&& self.fed as int == self.input().len()
        &&& self.fed < MAX_DIGEST_INPUT
    }

    /// Starts a computation over the empty input.
    pub fn new() -> (r: Sha256Stream)
        ensures
            r.wf(),
            r.input() == Seq::<u8>::empty(),
    {
        Sha256Stream { context: sha256_context(), fed: 0 }
    }

    /// The number of bytes fed so far.
    pub fn fed_len(&self) -> (r: u64)
        requires
            self.wf(),
        ensures
            r as int == self.input().len(),
    {
        self.fed
    }

    /// Whether `n` more bytes can be fed before the digest is taken.
    pub fn can_take(&self, n: usize) -> (r: bool)
        requires
            self.wf(),
        ensures
            r == (self.input().len() + n < MAX_DIGEST_INPUT),
    {
        n as u64 <= MAX_DIGEST_INPUT - 1 - self.fed
    }

    /// Feeds one chunk: the input grows by exactly its bytes.
    pub fn update(&mut self, chunk: &[u8])
        requires
            old(self).wf(),
            old(self).input().len() + chunk@.len() < MAX_DIGEST_INPUT,
        ensures
            final(self).wf(),
            final(self).input() == old(self).input() + chunk@,
    {
        context_update(&mut self.context, chunk);
        self.fed = self.fed + chunk.len() as u64;
    }

    /// The SHA-256 digest of all bytes fed.
    pub fn finish(self) -> (r: Vec<u8>)
        requires
            self.wf(),
        ensures
            r@ == sha256_of(self.input()),
            r@.len() == DIGEST_LEN,
    {
        context_finish(self.context)
    }
}

/// The byte contents of a sequence of chunks.
pub open spec fn chunks_view(c: Seq<Vec<u8>>) -> Seq<Seq<u8>> {
    c.map_values(|v: Vec<u8>| v@)
}

/// Feeds the chunks in order into one computation and returns its digest:
/// the digest of their concatenation.
pub fn digest_chunks(chunks: &Vec<Vec<u8>>) -> (r: Vec<u8>)
    requires
        chunks_view(chunks@).flatten().len() < MAX_DIGEST_INPUT,
    ensures
        r@ == sha256_of(chunks_view(chunks@).flatten()),
        r@.len() == DIGEST_LEN,
{
    let mut stream = Sha256Stream::new();
    let mut i: usize = 0;
    while i < chunks.len()
        invariant
            0 <= i <= chunks.len(),
            chunks_view(chunks@).flatten().len() < MAX_DIGEST_INPUT,
            stream.wf(),
            stream.input() == chunks_view(chunks@).take(i as int).flatten(),
        decreases chunks.len() - i,
    {
        proof {
            let v = chunks_view(chunks@);
            assert(v[i as int] == chunks@[i as int]@);
            assert(v.take(i as int + 1).drop_last() == v.take(i as int));
            v.take(i as int).lemma_flatten_push(v[i as int]);
            assert(v.take(i as int).push(v[i as int]) == v.take(i as int + 1));
            lemma_flatten_prefix_len(v, i as int + 1);
        }
        stream.update(chunks[i].as_slice());
        i = i + 1;
    }
    proof {
        assert(chunks_view(chunks@).take(chunks.len() as int) == chunks_view(chunks@));
    }
    stream.finish()
}

/// A prefix of a sequence of chunks holds no more bytes than all of them.
proof fn lemma_flatten_prefix_len(v: Seq<Seq<u8>>, n: int)
    requires
        0 <= n <= v.len(),
    ensures
        v.take(n).flatten().len() <= v.flatten().len(),
    decreases v.len() - n,
{
    if n < v.len() {
        lemma_flatten_prefix_len(v, n + 1);
        assert(v.take(n + 1).drop_last() == v.take(n));
        v.take(n).lemma_flatten_push(v[n]);
        assert(v.take(n).push(v[n]) == v.take(n + 1));
    } else {
        assert(v.take(n) == v);
    }
}

/// How a byte stream is cut into chunks does not change its digest: any two
/// chunkings of the same bytes, one of them possibly a single chunk, give
/// the digest of those bytes.
pub proof fn lemma_digest_chunking_independent(a: Seq<Seq<u8>>, b: Seq<Seq<u8>>, data: Seq<u8>)
    requires
        a.flatten() == data,
        b.flatten() == data,
    ensures
        sha256_of(a.flatten()) == sha256_of(b.flatten()),
        sha256_of(seq![data].flatten()) == sha256_of(data),
{
    assert(seq![data].drop_last() == Seq::<Seq<u8>>::empty());
    Seq::<Seq<u8>>::empty().lemma_flatten_push(data);
    assert(Seq::<Seq<u8>>::empty().push(data) == seq![data]);
}

/// The upper-case hexadecimal digit (an ASCII byte) of a value below 16.
pub open spec fn hex_digit(n: u8) -> u8 {
    if n < 10 { (48 + n) as u8 } else { (55 + n) as u8 }
}

/// The upper-case hexadecimal text of a byte sequence, as ASCII bytes: two
/// digits per byte, the high half first.
pub open spec fn hex_upper(b: Seq<u8>) -> Seq<u8>
    decreases b.len(),
{
    if b.len() == 0 {
        Seq::empty()
    } else {
        hex_upper(b.drop_last()) + seq![hex_digit(b.last() / 16), hex_digit(b.last() % 16)]
    }
}

/// Relies on `data_encoding::HEXUPPER.encode`: two upper-case hexadecimal
/// digits per input byte, high half first, with no padding or separators.
/// Its length computation asserts that the input is at most `usize::MAX / 512`
/// bytes long, which `requires` leaves out.
#[verifier::external_body]
fn encode_hex_upper(b: &[u8]) -> (r: Vec<u8>)
    requires
        b@.len() <= usize::MAX / 512,
    ensures
        r@ == hex_upper(b@),
{
    data_encoding::HEXUPPER.encode(b).into_bytes()
}

/// The upper-case hexadecimal form of a digest.
pub fn digest_hex(d: &Vec<u8>) -> (r: Vec<u8>)
    requires
        d@.len() <= DIGEST_LEN,
    ensures
        r@ == hex_upper(d@),
{
    encode_hex_upper(d.as_slice())
}

} // verus!
