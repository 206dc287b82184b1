//! Whole-object digest primitives: MD5, SHA-1, SHA-256, CRC-32 and CRC-32C
//! behind one interface of `update`, `finalize` and `encode`.

use crate::text::{encode_hex, hex_of};
use sha1::Digest;
use vstd::prelude::*;

verus! {

#[verifier::external_type_specification]
#[verifier::external_body]
pub struct ExMd5Context(md5::Context);

/// The MD5 digest of a byte string.
pub uninterp spec fn md5_digest(data: Seq<u8>) -> Seq<u8>;

/// The bytes that an MD5 context has absorbed since it was created.
pub uninterp spec fn md5_absorbed(c: md5::Context) -> Seq<u8>;

/// Relies on md5::Context::new: a fresh context has absorbed nothing.
#[verifier::external_body]
fn md5_new() -> (r: md5::Context)
    ensures
        md5_absorbed(r) == Seq::<u8>::empty(),
{
    md5::Context::new()
}

/// Relies on md5::Context::consume: the bytes are appended to what the
/// context has absorbed.
#[verifier::external_body]
fn md5_consume(c: &mut md5::Context, data: &[u8])
    ensures
        md5_absorbed(*final(c)) == md5_absorbed(*old(c)) + data@,
{
    c.consume(data)
}

/// Relies on md5::Context::compute: the 16-byte MD5 digest of what the
/// context has absorbed.
#[verifier::external_body]
fn md5_compute(c: md5::Context) -> (r: Vec<u8>)
    ensures
        r@ == md5_digest(md5_absorbed(c)),
        r@.len() == 16,
{
    c.compute().0.to_vec()
}

/// A running SHA-1 computation (`sha1::Sha1`, whose generic declaration
/// cannot be given to the verifier).
#[verifier::external_body]
pub struct Sha1State {
    inner: sha1::Sha1,
}

/// The SHA-1 digest of a byte string.
pub uninterp spec fn sha1_digest(data: Seq<u8>) -> Seq<u8>;

/// The bytes that a SHA-1 computation has absorbed since it was created.
pub uninterp spec fn sha1_absorbed(s: Sha1State) -> Seq<u8>;

/// Relies on sha1::Sha1::new: a fresh hasher has absorbed nothing.
#[verifier::external_body]
fn sha1_new() -> (r: Sha1State)
    ensures
        sha1_absorbed(r) == Seq::<u8>::empty(),
{
    Sha1State { inner: sha1::Sha1::new() }
}

/// Relies on sha1::Sha1's Digest::update: the bytes are appended to what the
/// hasher has absorbed.
#[verifier::external_body]
fn sha1_update(s: &mut Sha1State, data: &[u8])
    ensures
        sha1_absorbed(*final(s)) == sha1_absorbed(*old(s)) + data@,
{
    s.inner.update(data)
}

/// Relies on sha1::Sha1's Digest::finalize: the 20-byte SHA-1 digest of what
/// the hasher has absorbed.
#[verifier::external_body]
fn sha1_finalize(s: Sha1State) -> (r: Vec<u8>)
    ensures
        r@ == sha1_digest(sha1_absorbed(s)),
        r@.len() == 20,
{
    s.inner.finalize().to_vec()
}

/// A running SHA-256 computation (`sha2::Sha256`, whose generic declaration
/// cannot be given to the verifier).
#[verifier::external_body]
pub struct Sha256State {
    inner: sha2::Sha256,
}

/// The SHA-256 digest of a byte string.
pub uninterp spec fn sha256_digest(data: Seq<u8>) -> Seq<u8>;

/// The bytes that a SHA-256 computation has absorbed since it was created.
pub uninterp spec fn sha256_absorbed(s: Sha256State) -> Seq<u8>;

/// Relies on sha2::Sha256::new: a fresh hasher has absorbed nothing.
#[verifier::external_body]
fn sha256_new() -> (r: Sha256State)
    ensures
        sha256_absorbed(r) == Seq::<u8>::empty(),
{
    Sha256State { inner: sha2::Sha256::new() }
}

/// Relies on sha2::Sha256's Digest::update: the bytes are appended to what
/// the hasher has absorbed.
#[verifier::external_body]
fn sha256_update(s: &mut Sha256State, data: &[u8])
    ensures
        sha256_absorbed(*final(s)) == sha256_absorbed(*old(s)) + data@,
{
    s.inner.update(data)
}

/// Relies on sha2::Sha256's Digest::finalize: the 32-byte SHA-256 digest of
/// what the hasher has absorbed.
#[verifier::external_body]
fn sha256_finalize(s: Sha256State) -> (r: Vec<u8>)
    ensures
        r@ == sha256_digest(sha256_absorbed(s)),
        r@.len() == 32,
{
    s.inner.finalize().to_vec()
}

/// The CRC-32 (IEEE) checksum of a byte string.
pub uninterp spec fn crc32_value(data: Seq<u8>) -> u32;

/// Relies on crc32fast::Hasher::new and finalize: the checksum of no bytes.
#[verifier::external_body]
fn crc32_start() -> (r: u32)
    ensures
        r == crc32_value(Seq::<u8>::empty()),
{
    crc32fast::Hasher::new().finalize()
}

/// Relies on crc32fast::Hasher::new_with_initial, update and finalize:
/// continuing from the checksum of earlier bytes gives the checksum of the
/// earlier bytes followed by `data`.
#[verifier::external_body]
fn crc32_append(crc: u32, data: &[u8]) -> (r: u32)
    ensures
        forall|prev: Seq<u8>|
            crc32_value(prev) == crc ==> #[trigger] crc32_value(prev + data@) == r,
{
    let mut h = crc32fast::Hasher::new_with_initial(crc);
    h.update(data);
    h.finalize()
}

/// The CRC-32C (Castagnoli) checksum of a byte string.
pub uninterp spec fn crc32c_value(data: Seq<u8>) -> u32;

/// Relies on crc32c::crc32c: the checksum of no bytes.
#[verifier::external_body]
fn crc32c_start() -> (r: u32)
    ensures
        r == crc32c_value(Seq::<u8>::empty()),
{
    crc32c::crc32c(&[])
}

/// Relies on crc32c::crc32c_append: continuing from the checksum of earlier
/// bytes gives the checksum of the earlier bytes followed by `data`.
#[verifier::external_body]
fn crc32c_continue(crc: u32, data: &[u8]) -> (r: u32)
    ensures
        forall|prev: Seq<u8>|
            crc32c_value(prev) == crc ==> #[trigger] crc32c_value(prev + data@) == r,
{
    crc32c::crc32c_append(crc, data)
}

/// The digest algorithms.
#[derive(Clone, Copy, Debug, PartialEq, Eq, Structural)]
pub enum Algorithm {
    MD5,
    SHA1,
    SHA256,
    CRC32,
    CRC32C,
}

/// The four bytes of a 32-bit value, most significant first.
pub open spec fn be_bytes(x: u32) -> Seq<u8> {
    seq![
        (x / 0x100_0000) as u8,
        ((x / 0x1_0000) % 0x100) as u8,
        ((x / 0x100) % 0x100) as u8,
        (x % 0x100) as u8,
    ]
}

/// The digest of `data` under an algorithm, as bytes. A CRC is given as its
/// four bytes, most significant first.
pub open spec fn digest_of(alg: Algorithm, data: Seq<u8>) -> Seq<u8> {
    match alg {
        Algorithm::MD5 => md5_digest(data),
        Algorithm::SHA1 => sha1_digest(data),
        Algorithm::SHA256 => sha256_digest(data),
        Algorithm::CRC32 => be_bytes(crc32_value(data)),
        Algorithm::CRC32C => be_bytes(crc32c_value(data)),
    }
}

/// The canonical name of an algorithm.
pub open spec fn algorithm_name(alg: Algorithm) -> Seq<char> {
    match alg {
        Algorithm::MD5 => seq!['m', 'd', '5'],
        Algorithm::SHA1 => seq!['s', 'h', 'a', '1'],
        Algorithm::SHA256 => seq!['s', 'h', 'a', '2', '5', '6'],
        Algorithm::CRC32 => seq!['c', 'r', 'c', '3', '2'],
        Algorithm::CRC32C => seq!['c', 'r', 'c', '3', '2', 'c'],
    }
}

/// The algorithm that a name denotes, if any.
pub open spec fn algorithm_named(s: Seq<char>) -> Option<Algorithm> {
    if s == algorithm_name(Algorithm::MD5) {
        Some(Algorithm::MD5)
    } else if s == algorithm_name(Algorithm::SHA1) {
        Some(Algorithm::SHA1)
    } else if s == algorithm_name(Algorithm::SHA256) {
        Some(Algorithm::SHA256)
    } else if s == algorithm_name(Algorithm::CRC32) {
        Some(Algorithm::CRC32)
    } else if s == algorithm_name(Algorithm::CRC32C) {
        Some(Algorithm::CRC32C)
    } else {
        None
    }
}

/// Every algorithm is found again under its own name.
pub proof fn lemma_algorithm_named(alg: Algorithm)
    ensures
        algorithm_named(algorithm_name(alg)) == Some(alg),
{
    let n = algorithm_name(alg);
    assert(n.len() != 3 || n[0] != 's');
    if alg != Algorithm::MD5 {
        assert(n != algorithm_name(Algorithm::MD5)) by {
            assert(n.len() != 3 || n[0] != 'm');
        }
    }
    if alg != Algorithm::SHA1 {
        assert(n != algorithm_name(Algorithm::SHA1)) by {
            assert(n.len() != 4 || n[3] != '1');
        }
    }
    if alg != Algorithm::SHA256 {
        assert(n != algorithm_name(Algorithm::SHA256)) by {
            assert(n.len() != 6 || n[0] != 's');
        }
    }
    if alg != Algorithm::CRC32 {
        assert(n != algorithm_name(Algorithm::CRC32)) by {
            assert(n.len() != 5);
        }
    }
}

/// Whether the characters equal a string.
pub fn chars_eq(a: &Vec<char>, lit: &str) -> (r: bool)
    ensures
        r == (a@ == lit@),
{
    let ghost b = lit@;
    let n = lit.unicode_len();
    if a.len() != n {
        return false;
    }
    let mut i: usize = 0;
    while i < n
        invariant
            n == b.len(),
            a@.len() == n,
            b == lit@,
            i <= n,
            forall|j: int| 0 <= j < i ==> a@[j] == b[j],
        decreases n - i,
    {
        if a[i] != lit.get_char(i) {
            return false;
        }
        i = i + 1;
    }
    assert(a@ =~= b);
    true
}

impl Algorithm {
    /// The algorithm named by `s` (`md5`, `sha1`, `sha256`, `crc32` or
    /// `crc32c`), if any.
    pub fn from_name(s: &Vec<char>) -> (r: Option<Algorithm>)
        ensures
            r == algorithm_named(s@),
    {
        proof {
            reveal_strlit("md5");
            reveal_strlit("sha1");
            reveal_strlit("sha256");
            reveal_strlit("crc32");
            reveal_strlit("crc32c");
            assert("md5"@ =~= algorithm_name(Algorithm::MD5));
            assert("sha1"@ =~= algorithm_name(Algorithm::SHA1));
            assert("sha256"@ =~= algorithm_name(Algorithm::SHA256));
            assert("crc32"@ =~= algorithm_name(Algorithm::CRC32));
            assert("crc32c"@ =~= algorithm_name(Algorithm::CRC32C));
        }
        if chars_eq(s, "md5") {
            Some(Algorithm::MD5)
        } else if chars_eq(s, "sha1") {
            Some(Algorithm::SHA1)
        } else if chars_eq(s, "sha256") {
            Some(Algorithm::SHA256)
        } else if chars_eq(s, "crc32") {
            Some(Algorithm::CRC32)
        } else if chars_eq(s, "crc32c") {
            Some(Algorithm::CRC32C)
        } else {
            None
        }
    }

    /// Appends the canonical name of the algorithm.
    pub fn write_name(&self, s: &mut String)
        ensures
            final(s)@ == old(s)@ + algorithm_name(*self),
    {
        let lit = match self {
            Algorithm::MD5 => "md5",
            Algorithm::SHA1 => "sha1",
            Algorithm::SHA256 => "sha256",
            Algorithm::CRC32 => "crc32",
            Algorithm::CRC32C => "crc32c",
        };
        proof {
            reveal_strlit("md5");
            reveal_strlit("sha1");
            reveal_strlit("sha256");
            reveal_strlit("crc32");
            reveal_strlit("crc32c");
        }
        s.append(lit);
        assert(final(s)@ =~= old(s)@ + algorithm_name(*self));
    }
}

/// The running state of one algorithm.
enum DigestState {
    MD5(md5::Context),
    SHA1(Sha1State),
    SHA256(Sha256State),
    CRC32(u32),
    CRC32C(u32),
}

/// A digest computation in progress: an algorithm and the bytes absorbed so
/// far.
pub struct StandardCtx {
    state: DigestState,
    data: Ghost<Seq<u8>>,
}

impl StandardCtx {
    /// The algorithm of this computation.
    pub closed spec fn algorithm(&self) -> Algorithm {
        match self.state {
            DigestState::MD5(_) => Algorithm::MD5,
            DigestState::SHA1(_) => Algorithm::SHA1,
            DigestState::SHA256(_) => Algorithm::SHA256,
            DigestState::CRC32(_) => Algorithm::CRC32,
            DigestState::CRC32C(_) => Algorithm::CRC32C,
        }
    }

    /// The bytes absorbed so far.
    pub closed spec fn absorbed(&self) -> Seq<u8> {
        self.data@
    }

    /// The running state matches the absorbed bytes.
    pub closed spec fn wf(&self) -> bool {
        match self.state {
            DigestState::MD5(c) => md5_absorbed(c) == self.data@,
            DigestState::SHA1(s) => sha1_absorbed(s) == self.data@,
            DigestState::SHA256(s) => sha256_absorbed(s) == self.data@,
            DigestState::CRC32(c) => c == crc32_value(self.data@),
            DigestState::CRC32C(c) => c == crc32c_value(self.data@),
        }
    }

    /// A fresh computation for an algorithm.
    pub fn new(alg: Algorithm) -> (r: StandardCtx)
        ensures
            r.wf(),
            r.algorithm() == alg,
            r.absorbed() == Seq::<u8>::empty(),
    {
        let state = match alg {
            Algorithm::MD5 => DigestState::MD5(md5_new()),
            Algorithm::SHA1 => DigestState::SHA1(sha1_new()),
            Algorithm::SHA256 => DigestState::SHA256(sha256_new()),
            Algorithm::CRC32 => DigestState::CRC32(crc32_start()),
            Algorithm::CRC32C => DigestState::CRC32C(crc32c_start()),
        };
        StandardCtx { state, data: Ghost(Seq::empty()) }
    }

    /// The algorithm of this computation.
    pub fn kind(&self) -> (r: Algorithm)
        ensures
            r == self.algorithm(),
    {
        match &self.state {
            DigestState::MD5(_) => Algorithm::MD5,
            DigestState::SHA1(_) => Algorithm::SHA1,
            DigestState::SHA256(_) => Algorithm::SHA256,
            DigestState::CRC32(_) => Algorithm::CRC32,
            DigestState::CRC32C(_) => Algorithm::CRC32C,
        }
    }

    /// Absorbs more bytes.
    pub fn update(&mut self, data: &[u8])
        requires
            old(self).wf(),
        ensures
            final(self).wf(),
            final(self).algorithm() == old(self).algorithm(),
            final(self).absorbed() == old(self).absorbed() + data@,
    {
        let ghost prev = self.data@;
        match &mut self.state {
            DigestState::MD5(c) => md5_consume(c, data),
            DigestState::SHA1(s) => sha1_update(s, data),
            DigestState::SHA256(s) => sha256_update(s, data),
            DigestState::CRC32(c) => {
                let n = crc32_append(*c, data);
                assert(crc32_value(prev + data@) == n);
                *c = n;
            },
            DigestState::CRC32C(c) => {
                let n = crc32c_continue(*c, data);
                assert(crc32c_value(prev + data@) == n);
                *c = n;
            },
        }
        self.data = Ghost(prev + data@);
    }

    /// Returns the digest of the absorbed bytes and starts afresh with the
    /// same algorithm.
    pub fn finalize(&mut self) -> (r: Vec<u8>)
        requires
            old(self).wf(),
        ensures
            r@ == digest_of(old(self).algorithm(), old(self).absorbed()),
            final(self).wf(),
            final(self).algorithm() == old(self).algorithm(),
            final(self).absorbed() == Seq::<u8>::empty(),
    {
        let mut done = StandardCtx::new(self.kind());
        std::mem::swap(self, &mut done);
        match done.state {
            DigestState::MD5(c) => md5_compute(c),
            DigestState::SHA1(s) => sha1_finalize(s),
            DigestState::SHA256(s) => sha256_finalize(s),
            DigestState::CRC32(c) => u32_be_bytes(c),
            DigestState::CRC32C(c) => u32_be_bytes(c),
        }
    }

    /// The lower-case hexadecimal encoding of a digest.
    pub fn digest_to_string(&self, digest: &[u8]) -> (r: String)
        ensures
            r@ == hex_of(digest@),
    {
        encode_hex(digest)
    }
}

/// The four bytes of a 32-bit value, most significant first.
pub fn u32_be_bytes(x: u32) -> (r: Vec<u8>)
    ensures
        r@ == be_bytes(x),
{
    let mut r: Vec<u8> = Vec::new();
    r.push((x / 0x100_0000) as u8);
    r.push(((x / 0x1_0000) % 0x100) as u8);
    r.push(((x / 0x100) % 0x100) as u8);
    r.push((x % 0x100) as u8);
    assert(r@ =~= be_bytes(x));
    r
}

} // verus!
