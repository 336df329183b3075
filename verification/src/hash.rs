//! Content hashes in their canonical printable form.

use vstd::prelude::*;

verus! {

/// A content hash: a URL-safe, unpadded base64 string. Two hashes are equal
/// exactly when their encoded strings are equal; the string is never decoded
/// back to raw bytes.
#[derive(Debug)]
pub struct Hash {
    value: String,
}

impl View for Hash {
    type V = Seq<char>;

    closed spec fn view(&self) -> Seq<char> {
        self.value@
    }
}

impl Hash {
    /// Wraps an already-encoded hash string.
    pub fn new(value: String) -> (r: Hash)
        ensures
            r@ == value@,
    {
        Hash { value }
    }

    /// The encoded hash text.
    pub fn as_str(&self) -> (r: &str)
        ensures
            r@ == self@,
    {
        self.value.as_str()
    }
}

impl Clone for Hash {
    fn clone(&self) -> (r: Hash)
        ensures
            r@ == self@,
    {
        Hash { value: self.value.clone() }
    }
}

impl PartialEq for Hash {
    fn eq(&self, other: &Hash) -> (r: bool) {
        self.value == other.value
    }
}

impl Eq for Hash {
}

impl vstd::std_specs::cmp::PartialEqSpecImpl for Hash {
    open spec fn obeys_eq_spec() -> bool {
        true
    }

    open spec fn eq_spec(&self, other: &Hash) -> bool {
        self@ == other@
    }
}


#[verifier::external_type_specification]
#[verifier::external_body]
pub struct ExSeaHasher(seahash::SeaHasher);

#[verifier::external_type_specification]
#[verifier::external_body]
pub struct ExMeowHasher(meowhash::MeowHasher);

/// The bytes a seahash hasher has consumed so far.
pub uninterp spec fn sea_fed(h: seahash::SeaHasher) -> Seq<u8>;

/// The bytes a meowhash hasher has consumed so far.
pub uninterp spec fn meow_fed(h: meowhash::MeowHasher) -> Seq<u8>;

/// The 64-bit seahash digest of a byte sequence.
pub uninterp spec fn sea_digest(data: Seq<u8>) -> u64;

/// The 128-byte meowhash digest of a byte sequence.
pub uninterp spec fn meow_digest(data: Seq<u8>) -> Seq<u8>;

/// The URL-safe, unpadded base64 encoding of a byte sequence.
pub uninterp spec fn base64_url_of(data: Seq<u8>) -> Seq<char>;

/// Relies on seahash::SeaHasher::new: a streaming hasher with fixed default
/// seeds that has consumed nothing.
#[verifier::external_body]
fn sea_new() -> (h: seahash::SeaHasher)
    ensures
        sea_fed(h) == Seq::<u8>::empty(),
{
    seahash::SeaHasher::new()
}

/// Relies on std::hash::Hasher::write for seahash::SeaHasher: consumes the
/// bytes; the crate's own tests state that only the concatenation of the
/// written bytes matters, not the write boundaries.
#[verifier::external_body]
fn sea_write(h: &mut seahash::SeaHasher, bytes: &[u8])
    ensures
        sea_fed(*final(h)) == sea_fed(*old(h)) + bytes@,
{
    std::hash::Hasher::write(h, bytes)
}

/// Relies on std::hash::Hasher::finish for seahash::SeaHasher: the digest of
/// the consumed bytes, a pure function of them.
#[verifier::external_body]
fn sea_finish(h: &seahash::SeaHasher) -> (r: u64)
    ensures
        r == sea_digest(sea_fed(*h)),
{
    std::hash::Hasher::finish(h)
}

/// Relies on digest::Digest::new for meowhash::MeowHasher: a hasher with the
/// default seed that has consumed nothing.
#[verifier::external_body]
fn meow_new() -> (h: meowhash::MeowHasher)
    ensures
        meow_fed(h) == Seq::<u8>::empty(),
{
    <meowhash::MeowHasher as digest::Digest>::new()
}

/// Relies on digest::Digest::update for meowhash::MeowHasher: consumes the
/// bytes; per the digest crate's contract, repeated updates are equivalent to
/// one update with the concatenation.
#[verifier::external_body]
fn meow_write(h: &mut meowhash::MeowHasher, bytes: &[u8])
    ensures
        meow_fed(*final(h)) == meow_fed(*old(h)) + bytes@,
{
    digest::Digest::update(h, bytes)
}

/// Relies on digest::Digest::finalize for meowhash::MeowHasher: the 128-byte
/// digest of the consumed bytes, a pure function of them.
#[verifier::external_body]
fn meow_finish(h: meowhash::MeowHasher) -> (r: Vec<u8>)
    ensures
        r@ == meow_digest(meow_fed(h)),
        r@.len() == 128,
{
    digest::Digest::finalize(h).to_vec()
}

/// Relies on base64::encode_config with URL_SAFE_NO_PAD: the URL-safe,
/// unpadded encoding, four characters for every three bytes, rounded up.
#[verifier::external_body]
fn base64_url(bytes: &[u8]) -> (r: String)
    ensures
        r@ == base64_url_of(bytes@),
        r@.len() == (bytes@.len() * 4 + 2) / 3,
{
    base64::encode_config(bytes, base64::URL_SAFE_NO_PAD)
}

/// The little-endian bytes of a 64-bit number.
pub open spec fn le_bytes(n: u64) -> Seq<u8> {
    seq![
        (n & 0xff) as u8,
        ((n >> 8) & 0xff) as u8,
        ((n >> 16) & 0xff) as u8,
        ((n >> 24) & 0xff) as u8,
        ((n >> 32) & 0xff) as u8,
        ((n >> 40) & 0xff) as u8,
        ((n >> 48) & 0xff) as u8,
        ((n >> 56) & 0xff) as u8,
    ]
}

/// Builds the little-endian byte representation of a 64-bit number.
fn u64_le_bytes(n: u64) -> (r: Vec<u8>)
    ensures
        r@ == le_bytes(n),
{
    let mut r: Vec<u8> = Vec::new();
    r.push((n & 0xff) as u8);
    r.push(((n >> 8) & 0xff) as u8);
    r.push(((n >> 16) & 0xff) as u8);
    r.push(((n >> 24) & 0xff) as u8);
    r.push(((n >> 32) & 0xff) as u8);
    r.push(((n >> 40) & 0xff) as u8);
    r.push(((n >> 48) & 0xff) as u8);
    r.push(((n >> 56) & 0xff) as u8);
    proof {
        assert(r@ =~= le_bytes(n));
    }
    r
}

/// The canonical hash text for the given content bytes, by the wide or the
/// small algorithm: the wide algorithm encodes the first 36 bytes of the
/// meowhash digest, the small one the little-endian bytes of the seahash
/// digest.
pub open spec fn hash_text(wide: bool, data: Seq<u8>) -> Seq<char> {
    if wide {
        base64_url_of(meow_digest(data).subrange(0, 36))
    } else {
        base64_url_of(le_bytes(sea_digest(data)))
    }
}

/// The canonical hash text of content bytes: content over 1024 bytes uses the
/// wide algorithm, anything smaller the small one.
pub open spec fn spec_hash(data: Seq<u8>) -> Seq<char> {
    hash_text(data.len() > 1024, data)
}

/// Either a meowhash or a seahash hasher, accumulating content incrementally.
pub enum Calculator {
    Meow(meowhash::MeowHasher),
    Sea(seahash::SeaHasher),
}

impl Calculator {
    /// The bytes consumed so far.
    pub open spec fn fed(self) -> Seq<u8> {
        match self {
            Calculator::Meow(h) => meow_fed(h),
            Calculator::Sea(h) => sea_fed(h),
        }
    }

    /// Whether the wide algorithm was selected.
    pub open spec fn is_wide(self) -> bool {
        self is Meow
    }

    /// Selects the hashing algorithm for a file of the given size: meowhash
    /// over 1024 bytes, seahash otherwise.
    pub fn new(size: u64) -> (r: Calculator)
        ensures
            r.fed() == Seq::<u8>::empty(),
            r.is_wide() == (size > 1024),
    {
        if size > 1024 {
            Calculator::Meow(meow_new())
        } else {
            Calculator::Sea(sea_new())
        }
    }

    /// Consumes the next chunk of content bytes.
    pub fn write(&mut self, bytes: &[u8])
        ensures
            final(self).fed() == old(self).fed() + bytes@,
            final(self).is_wide() == old(self).is_wide(),
    {
        match self {
            Calculator::Meow(h) => meow_write(h, bytes),
            Calculator::Sea(h) => sea_write(h, bytes),
        }
    }

    /// Finishes the hash and returns it in its canonical printable form. The
    /// small algorithm always encodes to 11 characters, the wide one to 48.
    pub fn finish(self) -> (r: Hash)
        ensures
            r@ == hash_text(self.is_wide(), self.fed()),
            !self.is_wide() ==> r@.len() == 11,
            self.is_wide() ==> r@.len() == 48,
    {
        match self {
            Calculator::Meow(h) => {
                let digest = meow_finish(h);
                let prefix = vstd::slice::slice_subrange(digest.as_slice(), 0, 36);
                Hash::new(base64_url(prefix))
            },
            Calculator::Sea(h) => {
                let value = sea_finish(&h);
                let bytes = u64_le_bytes(value);
                Hash::new(base64_url(bytes.as_slice()))
            },
        }
    }
}

/// Computes the content hash of the given bytes, consuming them in chunks of
/// at most 1024 bytes. The result is the same on every call with the same
/// content; content of at most 1024 bytes gives 11 characters of hash text,
/// larger content 48.
pub fn hash_bytes(content: &[u8]) -> (r: Hash)
    ensures
        r@ == spec_hash(content@),
        content@.len() <= 1024 ==> r@.len() == 11,
        content@.len() > 1024 ==> r@.len() == 48,
{
    let n = content.len();
    let mut cal = Calculator::new(n as u64);
    let mut i: usize = 0;
    while i < n
        invariant
            0 <= i <= n,
            n == content@.len(),
            cal.fed() == content@.take(i as int),
            cal.is_wide() == (content@.len() > 1024),
        decreases n - i,
    {
        let end = if n - i > 1024 {
            i + 1024
        } else {
            n
        };
        let chunk = vstd::slice::slice_subrange(content, i, end);
        cal.write(chunk);
        proof {
            assert(content@.take(i as int) + content@.subrange(i as int, end as int)
                =~= content@.take(end as int));
        }
        i = end;
    }
    proof {
        assert(content@.take(n as int) =~= content@);
    }
    cal.finish()
}

} // verus!
