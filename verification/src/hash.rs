//! The SHA-256 digest of a file's contents, shown as lowercase hex.
use vstd::prelude::*;

verus! {

/// The SHA-256 digest of `data`, as `sha2::Sha256` computes it.
pub uninterp spec fn sha256(data: Seq<u8>) -> Seq<u8>;

/// The lowercase hexadecimal digit of a nibble (`0..16`).
pub open spec fn hex_digit(n: int) -> char {
    if n < 10 {
        (n + 48) as char
    } else {
        (n + 87) as char
    }
}

/// Two lowercase hex digits per byte, high nibble first.
pub open spec fn hex_lower(bytes: Seq<u8>) -> Seq<char>
    decreases bytes.len(),
{
    if bytes.len() == 0 {
        Seq::empty()
    } else {
        seq![hex_digit(bytes[0] as int / 16), hex_digit(bytes[0] as int % 16)] + hex_lower(bytes.skip(1))
    }
}

/// A character of `0-9a-f`.
pub open spec fn is_lower_hex_char(c: char) -> bool {
    ('0' <= c && c <= '9') || ('a' <= c && c <= 'f')
}

/// Calls `hex::encode`, which writes each byte as two lowercase hex digits,
/// high nibble first.
#[verifier::external_body]
fn hex_encode(bytes: &[u8; 32]) -> (res: String)
    ensures
        res@ == hex_lower(bytes@),
{
    hex::encode(bytes)
}

/// Calls `sha2::Sha256::digest`; the digest is a function of the bytes alone.
#[verifier::external_body]
fn sha256_digest(data: &[u8]) -> (res: [u8; 32])
    ensures
        res@ == sha256(data@),
{
    <sha2::Sha256 as sha2::Digest>::digest(data).into()
}

/// A 32-byte SHA-256 digest.
#[derive(Clone, Copy, PartialEq, Eq, Hash, Debug)]
pub struct FileHash([u8; 32]);

impl View for FileHash {
    type V = Seq<u8>;

    closed spec fn view(&self) -> Seq<u8> {
        self.0@
    }
}

impl FileHash {
    /// Wraps a 32-byte digest.
    pub fn new(bytes: [u8; 32]) -> (res: Self)
        ensures
            res@ == bytes@,
    {
        FileHash(bytes)
    }

    /// The digest bytes.
    pub fn as_bytes(&self) -> (res: &[u8; 32])
        ensures
            res@ == self@,
    {
        &self.0
    }

    /// The digest bytes, as a slice.
    pub fn as_ref(&self) -> (res: &[u8])
        ensures
            res@ == self@,
    {
        self.0.as_slice()
    }

    /// The digest as 64 lowercase hex digits.
    pub fn to_string(&self) -> (res: String)
        ensures
            res@ == hex_lower(self@),
    {
        hex_encode(&self.0)
    }

    /// The digest as written for debugging: `FileHash(` and its 64 lowercase
    /// hex digits, then `)`.
    pub fn debug_text(&self) -> (res: String)
        ensures
            res@ == "FileHash("@ + hex_lower(self@) + ")"@,
    {
        let hex = self.to_string();
        let a = crate::text::concat("FileHash(", hex.as_str());
        crate::text::concat(a.as_str(), ")")
    }

    /// Whether two digests hold the same bytes.
    pub fn same_as(&self, other: &FileHash) -> (res: bool)
        ensures
            res == (self@ == other@),
    {
        let mut i: usize = 0;
        while i < 32
            invariant
                i <= 32,
                self@.len() == 32,
                other@.len() == 32,
                forall|j: int| 0 <= j < i ==> self@[j] == other@[j],
            decreases 32 - i,
        {
            if self.0[i] != other.0[i] {
                return false;
            }
            i = i + 1;
        }
        assert(self@ =~= other@);
        true
    }

    /// Every digest holds 32 bytes.
    pub proof fn lemma_len(self)
        ensures
            self@.len() == 32,
    {
    }
}

/// The hash of a file whose contents are `data`.
pub fn hash_contents(data: &[u8]) -> (res: FileHash)
    ensures
        res@ == sha256(data@),
{
    FileHash(sha256_digest(data))
}

/// The hex form of `n` bytes has `2 * n` characters, each of `0-9a-f`.
pub proof fn lemma_hex_lower_shape(bytes: Seq<u8>)
    ensures
        hex_lower(bytes).len() == 2 * bytes.len(),
        forall|i: int| 0 <= i < hex_lower(bytes).len() ==> is_lower_hex_char(#[trigger] hex_lower(bytes)[i]),
    decreases bytes.len(),
{
    if bytes.len() > 0 {
        lemma_hex_lower_shape(bytes.skip(1));
        let head = seq![hex_digit(bytes[0] as int / 16), hex_digit(bytes[0] as int % 16)];
        let rest = hex_lower(bytes.skip(1));
        assert(hex_lower(bytes) == head + rest);
        assert forall|i: int| 0 <= i < hex_lower(bytes).len() implies is_lower_hex_char(
            #[trigger] hex_lower(bytes)[i],
        ) by {
            if i >= 2 {
                assert(hex_lower(bytes)[i] == rest[i - 2]);
            } else {
                let n: int = if i == 0 { bytes[0] as int / 16 } else { bytes[0] as int % 16 };
                assert(0 <= n < 16);
                assert(hex_lower(bytes)[i] == hex_digit(n));
            }
        }
    }
}

/// A digest's text is 64 lowercase hex digits: the `n`-th byte gives the
/// characters at `2n` and `2n + 1`.
pub proof fn lemma_hash_text(h: FileHash)
    ensures
        hex_lower(h@).len() == 64,
        forall|i: int| 0 <= i < 64 ==> is_lower_hex_char(#[trigger] hex_lower(h@)[i]),
{
    h.lemma_len();
    lemma_hex_lower_shape(h@);
}

} // verus!
