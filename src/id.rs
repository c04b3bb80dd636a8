//! Content identifiers: 32-byte SHA-256 digests, rendered as lowercase hex.
use sha2::Digest;
use vstd::prelude::*;

verus! {

/// Number of bytes in an identifier.
pub const ID_LEN: usize = 32;

/// What SHA-256 yields for a byte string.
pub uninterp spec fn sha256_of(data: Seq<u8>) -> Seq<u8>;

/// The lowercase hex character of a nibble.
pub open spec fn hex_char(n: u8) -> char {
    if n == 0 { '0' } else if n == 1 { '1' } else if n == 2 { '2' } else if n == 3 { '3' }
    else if n == 4 { '4' } else if n == 5 { '5' } else if n == 6 { '6' } else if n == 7 { '7' }
    else if n == 8 { '8' } else if n == 9 { '9' } else if n == 10 { 'a' } else if n == 11 { 'b' }
    else if n == 12 { 'c' } else if n == 13 { 'd' } else if n == 14 { 'e' } else { 'f' }
}

/// Two lowercase hex characters per byte, high nibble first.
pub open spec fn hex_of(b: Seq<u8>) -> Seq<char>
    decreases b.len(),
{
    if b.len() == 0 {
        Seq::empty()
    } else {
        let last = b.last();
        hex_of(b.drop_last()) + seq![hex_char(last / 16), hex_char(last % 16)]
    }
}

/// Encoding a concatenation concatenates the encodings.
pub proof fn lemma_hex_concat(a: Seq<u8>, b: Seq<u8>)
    ensures
        hex_of(a + b) == hex_of(a) + hex_of(b),
    decreases b.len(),
{
    if b.len() == 0 {
        assert(a + b =~= a);
        assert(hex_of(a) + hex_of(b) =~= hex_of(a));
    } else {
        lemma_hex_concat(a, b.drop_last());
        assert((a + b).drop_last() =~= a + b.drop_last());
        assert((a + b).last() == b.last());
    }
}

/// A character that hex decoding accepts (either case).
pub open spec fn is_hex_char(c: char) -> bool {
    ('0' <= c && c <= '9') || ('a' <= c && c <= 'f') || ('A' <= c && c <= 'F')
}

/// The value of an accepted hex character.
pub open spec fn hex_val(c: char) -> int {
    if '0' <= c && c <= '9' {
        c as int - '0' as int
    } else if 'a' <= c && c <= 'f' {
        c as int - 'a' as int + 10
    } else {
        c as int - 'A' as int + 10
    }
}

/// A string that hex decoding accepts: an even number of hex characters.
pub open spec fn is_hex_text(s: Seq<char>) -> bool {
    s.len() % 2 == 0 && forall|i: int| 0 <= i < s.len() ==> is_hex_char(#[trigger] s[i])
}

/// The bytes that an accepted hex string stands for.
pub open spec fn decodes_to(s: Seq<char>, b: Seq<u8>) -> bool {
    &&& s.len() == 2 * b.len()
    &&& forall|i: int|
        0 <= i < b.len() ==> #[trigger] b[i] == hex_val(s[2 * i]) * 16 + hex_val(s[2 * i + 1])
}

/// Relies on sha2::Sha256::digest: a 32-byte digest that depends on the input bytes alone.
#[verifier::external_body]
fn sha256(data: &[u8]) -> (r: Vec<u8>)
    ensures
        r@ == sha256_of(data@),
        r@.len() == ID_LEN,
{
    <sha2::Sha256 as Digest>::digest(data).to_vec()
}

/// Relies on hex::encode: two lowercase hex digits per byte, high nibble first.
#[verifier::external_body]
pub(crate) fn hex_encode(b: &[u8]) -> (r: String)
    ensures
        r@ == hex_of(b@),
{
    hex::encode(b)
}

/// Relies on hex::decode: it accepts exactly an even number of hex digits of
/// either case, and yields one byte per pair.
#[verifier::external_body]
fn hex_decode(s: &str) -> (r: Result<Vec<u8>, hex::FromHexError>)
    ensures
        r is Ok <==> is_hex_text(s@),
        r matches Ok(v) ==> decodes_to(s@, v@),
{
    hex::decode(s)
}

#[verifier::external_type_specification]
#[verifier::external_body]
pub struct ExFromHexError(hex::FromHexError);

/// Why a string is not an identifier.
#[derive(Debug, PartialEq, Eq, Structural, Clone, Copy)]
pub enum IdError {
    /// The string is not an even number of hex digits.
    NotHex,
    /// The string decodes to a byte count other than 32.
    WrongLength,
}

/// A 32-byte content identifier.
#[derive(Debug)]
pub struct Id {
    pub bytes: Vec<u8>,
}

impl View for Id {
    type V = Seq<u8>;

    open spec fn view(&self) -> Seq<u8> {
        self.bytes@
    }
}

/// A byte-for-byte copy of a vector.
pub fn copy_bytes(v: &[u8]) -> (r: Vec<u8>)
    ensures
        r@ == v@,
{
    let mut r: Vec<u8> = Vec::new();
    let mut i: usize = 0;
    while i < v.len()
        invariant
            i <= v@.len(),
            r@ == v@.subrange(0, i as int),
        decreases v@.len() - i,
    {
        r.push(v[i]);
        i += 1;
        assert(r@ =~= v@.subrange(0, i as int));
    }
    assert(r@ =~= v@);
    r
}

impl Id {
    /// Every identifier is exactly 32 bytes long.
    pub open spec fn wf(&self) -> bool {
        self@.len() == ID_LEN
    }

    /// The all-zero identifier, reserved for "unset".
    pub fn zero() -> (r: Id)
        ensures
            r.wf(),
            forall|i: int| 0 <= i < ID_LEN ==> #[trigger] r@[i] == 0u8,
    {
        let mut bytes: Vec<u8> = Vec::new();
        let mut i: usize = 0;
        while i < ID_LEN
            invariant
                i <= ID_LEN,
                bytes@.len() == i,
                forall|j: int| 0 <= j < i ==> #[trigger] bytes@[j] == 0u8,
            decreases ID_LEN - i,
        {
            bytes.push(0u8);
            i += 1;
        }
        Id { bytes }
    }

    /// The identifier of a byte string: its SHA-256 digest.
    pub fn hash(data: &[u8]) -> (r: Id)
        ensures
            r@ == sha256_of(data@),
            r.wf(),
    {
        Id { bytes: sha256(data) }
    }

    /// The raw bytes of the identifier.
    pub fn as_bytes(&self) -> (r: &[u8])
        ensures
            r@ == self@,
    {
        self.bytes.as_slice()
    }

    /// A copy of this identifier.
    pub fn duplicate(&self) -> (r: Id)
        ensures
            r@ == self@,
    {
        Id { bytes: copy_bytes(self.bytes.as_slice()) }
    }

    /// Whether two identifiers hold the same bytes.
    pub fn same(&self, other: &Id) -> (r: bool)
        ensures
            r == (self@ == other@),
    {
        if self.bytes.len() != other.bytes.len() {
            return false;
        }
        let mut i: usize = 0;
        while i < self.bytes.len()
            invariant
                i <= self@.len(),
                self@.len() == other@.len(),
                forall|j: int| 0 <= j < i ==> self@[j] == other@[j],
            decreases self@.len() - i,
        {
            if self.bytes[i] != other.bytes[i] {
                return false;
            }
            i += 1;
        }
        assert(self@ =~= other@);
        true
    }

    /// The identifier rendered as 64 lowercase hex characters.
    pub fn to_hex(&self) -> (r: String)
        ensures
            r@ == hex_of(self@),
    {
        hex_encode(self.bytes.as_slice())
    }

    /// Parses 64 hex characters (either case) into an identifier.
    pub fn from_hex(s: &str) -> (r: Result<Id, IdError>)
        ensures
            !is_hex_text(s@) ==> r == Err::<Id, IdError>(IdError::NotHex),
            is_hex_text(s@) && s@.len() != 2 * ID_LEN ==> r == Err::<Id, IdError>(
                IdError::WrongLength,
            ),
            is_hex_text(s@) && s@.len() == 2 * ID_LEN ==> (r matches Ok(id) && id.wf()
                && decodes_to(s@, id@)),
    {
        match hex_decode(s) {
            Err(_) => Err(IdError::NotHex),
            Ok(v) => {
                if v.len() != ID_LEN {
                    Err(IdError::WrongLength)
                } else {
                    Ok(Id { bytes: v })
                }
            },
        }
    }
}

} // verus!
