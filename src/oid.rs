use crate::error::Error;
use vstd::prelude::*;
use vstd::slice::slice_to_vec;
use vstd::string::StringSliceAdditionalSpecFns;

verus! {

/// Width in bytes of an object id: a SHA-512 digest.
pub const OID_LEN: usize = 64;

/// The SHA-512 digest of a message.
pub uninterp spec fn sha512_of(m: Seq<u8>) -> [u8; 64];

/// Relies on sodalite's `hash`, which writes the SHA-512 digest of `m` into a
/// 64-byte buffer.
#[verifier::external_body]
fn sha512(m: &[u8]) -> (r: [u8; 64])
    ensures
        r == sha512_of(m@),
{
    let mut out = [0u8; 64];
    sodalite::hash(&mut out, m);
    out
}

/// The sixteen lower-case hexadecimal digits, in order of value.
pub open spec fn hex_digits() -> Seq<char> {
    seq!['0', '1', '2', '3', '4', '5', '6', '7', '8', '9', 'a', 'b', 'c', 'd', 'e', 'f']
}

/// Lower-case hexadecimal text of `b`: two digits per byte, high half first.
pub open spec fn hex_text(b: Seq<u8>) -> Seq<char> {
    Seq::new(
        2 * b.len(),
        |i: int|
            if i % 2 == 0 {
                hex_digits()[b[i / 2] as int / 16]
            } else {
                hex_digits()[b[i / 2] as int % 16]
            },
    )
}

/// The value of one hexadecimal digit of either case.
pub open spec fn hex_value(c: u8) -> Option<u8> {
    if 0x30 <= c <= 0x39 {
        Some((c - 0x30) as u8)
    } else if 0x61 <= c <= 0x66 {
        Some((c - 0x61 + 10) as u8)
    } else if 0x41 <= c <= 0x46 {
        Some((c - 0x41 + 10) as u8)
    } else {
        None
    }
}

/// Whether `s` is hexadecimal text: an even number of digits of either case.
pub open spec fn is_hex(s: Seq<u8>) -> bool {
    &&& s.len() % 2 == 0
    &&& forall|i: int| 0 <= i < s.len() ==> (#[trigger] hex_value(s[i])) is Some
}

/// The bytes that hexadecimal text `s` spells, two digits each.
pub open spec fn unhex(s: Seq<u8>) -> Seq<u8> {
    Seq::new(
        s.len() / 2,
        |i: int| (hex_value(s[2 * i])->0 * 16 + hex_value(s[2 * i + 1])->0) as u8,
    )
}

#[verifier::external_type_specification]
#[verifier::external_body]
pub struct ExFromHexError(hex::FromHexError);

/// Relies on hex's `FromHex` for `Vec<u8>`, which rejects an odd length or any
/// character that is not a hexadecimal digit, and otherwise turns each pair of
/// digits into one byte.
#[verifier::external_body]
pub(crate) fn decode_hex(s: &[u8]) -> (r: Result<Vec<u8>, hex::FromHexError>)
    ensures
        r is Ok <==> is_hex(s@),
        r is Ok ==> r->Ok_0@ == unhex(s@),
{
    <Vec<u8> as hex::FromHex>::from_hex(s)
}

/// Relies on hex's `encode`, which writes each byte as two lower-case digits.
#[verifier::external_body]
fn encode_hex(b: &[u8]) -> (r: String)
    ensures
        r@ == hex_text(b@),
{
    hex::encode(b)
}

/// An object identifier: the hash of an object's record.
///
/// Ids read from an index or from the store's layout are `OID_LEN` bytes long;
/// `from_bytes` also takes shorter keys. Ids order as their bytes do.
#[derive(Debug, Clone, Hash, PartialOrd, Ord)]
pub struct Oid {
    inner: Vec<u8>,
}

impl View for Oid {
    type V = Seq<u8>;

    closed spec fn view(&self) -> Seq<u8> {
        self.inner@
    }
}

impl PartialEq for Oid {
    fn eq(&self, other: &Oid) -> (r: bool)
        ensures
            r == (self@ == other@),
    {
        bytes_equal(self.as_bytes(), other.as_bytes())
    }
}

impl Eq for Oid {}

impl vstd::std_specs::cmp::PartialEqSpecImpl for Oid {
    open spec fn obeys_eq_spec() -> bool {
        true
    }

    open spec fn eq_spec(&self, other: &Oid) -> bool {
        self@ == other@
    }
}

/// Whether two byte strings are equal.
pub fn bytes_equal(a: &[u8], b: &[u8]) -> (r: bool)
    ensures
        r == (a@ == b@),
{
    if a.len() != b.len() {
        return false;
    }
    let mut i: usize = 0;
    while i < a.len()
        invariant
            a@.len() == b@.len(),
            0 <= i <= a@.len(),
            a@.subrange(0, i as int) == b@.subrange(0, i as int),
        decreases a@.len() - i,
    {
        if a[i] != b[i] {
            assert(a@.subrange(0, i + 1)[i as int] != b@.subrange(0, i + 1)[i as int]);
            return false;
        }
        i = i + 1;
        assert(a@.subrange(0, i as int) =~= a@.subrange(0, i - 1) + seq![a@[i - 1]]);
        assert(b@.subrange(0, i as int) =~= b@.subrange(0, i - 1) + seq![b@[i - 1]]);
    }
    assert(a@ =~= a@.subrange(0, i as int));
    assert(b@ =~= b@.subrange(0, i as int));
    true
}

impl Oid {
    /// Parses hexadecimal text of either case.
    pub fn from_hex(key: &str) -> (r: Result<Oid, Error>)
        ensures
            r is Ok <==> is_hex(key.spec_bytes()),
            r is Ok ==> r->Ok_0@ == unhex(key.spec_bytes()),
            r is Err ==> r->Err_0 == Error::BadEncoding,
    {
        match decode_hex(key.as_bytes()) {
            Ok(v) => Ok(Oid { inner: v }),
            Err(_) => Err(Error::BadEncoding),
        }
    }

    /// Wraps raw bytes as an id.
    pub fn from_bytes(key: &[u8]) -> (r: Oid)
        ensures
            r@ == key@,
    {
        Oid { inner: slice_to_vec(key) }
    }

    /// The id of `data`: its SHA-512 digest.
    pub fn from_data(data: &[u8]) -> (r: Oid)
        ensures
            r@ == sha512_of(data@)@,
            r@.len() == OID_LEN,
    {
        let d = sha512(data);
        Oid { inner: slice_to_vec(d.as_slice()) }
    }

    /// The raw bytes of this id.
    pub fn as_bytes(&self) -> (r: &[u8])
        ensures
            r@ == self@,
    {
        self.inner.as_slice()
    }

    /// The lower-case hexadecimal text of this id.
    pub fn to_hex(&self) -> (r: String)
        ensures
            r@ == hex_text(self@),
    {
        encode_hex(self.as_bytes())
    }

    /// Width in bytes of an id made by hashing.
    pub fn len() -> (r: usize)
        ensures
            r == OID_LEN,
    {
        OID_LEN
    }

    /// Width of the hexadecimal text of an id made by hashing.
    pub fn len_str() -> (r: usize)
        ensures
            r == 2 * OID_LEN,
    {
        Self::len() * 2
    }
}

} // verus!
