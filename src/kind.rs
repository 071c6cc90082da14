use crate::error::Error;
use byteorder::ByteOrder;
use vstd::prelude::*;

verus! {

/// Width in bytes of an encoded kind tag.
pub const KIND_LEN: usize = 8;

/// The kind of an object, which says how its payload is read.
#[derive(Debug, Clone, Copy, PartialEq, Eq, Structural)]
pub enum Kind {
    /// Plain bytes with no further meaning to the store.
    Piece,
    /// A list of objects whose contents, taken together, form one byte sequence.
    Blob,
    /// A single level of a filesystem tree.
    Tree,
}

/// The numeric tag of a kind.
pub open spec fn kind_code(k: Kind) -> u64 {
    match k {
        Kind::Piece => 1,
        Kind::Blob => 2,
        Kind::Tree => 3,
    }
}

/// The kind a numeric tag names, if any.
pub open spec fn kind_from_code(c: u64) -> Option<Kind> {
    if c == 1 {
        Some(Kind::Piece)
    } else if c == 2 {
        Some(Kind::Blob)
    } else if c == 3 {
        Some(Kind::Tree)
    } else {
        None
    }
}

/// The value of the first eight bytes of `b`, least significant byte first.
pub open spec fn le_u64(b: Seq<u8>) -> u64
    recommends
        b.len() >= 8,
{
    (b[0] as int + 0x100 * b[1] + 0x1_0000 * b[2] + 0x100_0000 * b[3] + 0x1_0000_0000 * b[4]
        + 0x100_0000_0000 * b[5] + 0x1_0000_0000_0000 * b[6] + 0x100_0000_0000_0000
        * b[7]) as u64
}

/// The eight bytes of `n`, least significant byte first.
pub open spec fn le_bytes(n: u64) -> Seq<u8> {
    seq![
        (n % 0x100) as u8,
        ((n / 0x100) % 0x100) as u8,
        ((n / 0x1_0000) % 0x100) as u8,
        ((n / 0x100_0000) % 0x100) as u8,
        ((n / 0x1_0000_0000) % 0x100) as u8,
        ((n / 0x100_0000_0000) % 0x100) as u8,
        ((n / 0x1_0000_0000_0000) % 0x100) as u8,
        ((n / 0x100_0000_0000_0000) % 0x100) as u8,
    ]
}

/// The encoded tag of a kind.
pub open spec fn kind_bytes(k: Kind) -> Seq<u8> {
    le_bytes(kind_code(k))
}

/// The kind whose tag opens `b`: too few bytes and unknown tags are errors.
pub open spec fn kind_at(b: Seq<u8>) -> Result<Kind, Error> {
    if b.len() < 8 {
        Err(Error::Truncated)
    } else {
        match kind_from_code(le_u64(b)) {
            Some(k) => Ok(k),
            None => Err(Error::UnknownKind(le_u64(b))),
        }
    }
}

/// A kind's tag reads back as that kind, whatever follows it.
pub proof fn lemma_kind_bytes_read_back(k: Kind, rest: Seq<u8>)
    ensures
        kind_bytes(k).len() == 8,
        kind_at(kind_bytes(k) + rest) == Ok::<Kind, Error>(k),
        (kind_bytes(k) + rest).subrange(0, 8) == kind_bytes(k),
        (kind_bytes(k) + rest).subrange(8, 8 + rest.len() as int) == rest,
{
    let b = kind_bytes(k) + rest;
    assert(b.subrange(0, 8) =~= kind_bytes(k));
    assert(b.subrange(8, 8 + rest.len() as int) =~= rest);
    assert(b[0] == kind_bytes(k)[0]);
    assert(b[1] == kind_bytes(k)[1]);
    assert(b[2] == kind_bytes(k)[2]);
    assert(b[3] == kind_bytes(k)[3]);
    assert(b[4] == kind_bytes(k)[4]);
    assert(b[5] == kind_bytes(k)[5]);
    assert(b[6] == kind_bytes(k)[6]);
    assert(b[7] == kind_bytes(k)[7]);
}

/// Relies on byteorder's `LittleEndian::read_u64`, which reads the first eight
/// bytes of a slice least significant first and panics on a shorter one.
#[verifier::external_body]
fn read_le_u64(b: &[u8]) -> (r: u64)
    requires
        b@.len() >= 8,
    ensures
        r == le_u64(b@),
{
    byteorder::LittleEndian::read_u64(b)
}

/// Relies on byteorder's `LittleEndian::write_u64`, which stores `n` least
/// significant byte first into the first eight bytes of a slice.
#[verifier::external_body]
fn write_le_u64(n: u64) -> (r: [u8; 8])
    ensures
        r@ == le_bytes(n),
{
    let mut x = [0u8; 8];
    byteorder::LittleEndian::write_u64(&mut x[..], n);
    x
}

impl Kind {
    /// The numeric tag of this kind.
    pub fn raw(&self) -> (r: u64)
        ensures
            r == kind_code(*self),
    {
        match *self {
            Kind::Piece => 1,
            Kind::Blob => 2,
            Kind::Tree => 3,
        }
    }

    /// The kind whose tag opens `d`.
    pub fn from_bytes(d: &[u8]) -> (r: Result<Kind, Error>)
        ensures
            r == kind_at(d@),
    {
        if d.len() < KIND_LEN {
            return Err(Error::Truncated);
        }
        let c = read_le_u64(d);
        if c == 1 {
            Ok(Kind::Piece)
        } else if c == 2 {
            Ok(Kind::Blob)
        } else if c == 3 {
            Ok(Kind::Tree)
        } else {
            Err(Error::UnknownKind(c))
        }
    }

    /// The eight-byte tag of this kind.
    pub fn as_bytes(&self) -> (r: [u8; 8])
        ensures
            r@ == kind_bytes(*self),
    {
        write_le_u64(self.raw())
    }

    /// Appends the tag of this kind to `w`.
    pub fn write_to(&self, w: &mut Vec<u8>)
        ensures
            final(w)@ == old(w)@ + kind_bytes(*self),
    {
        let b = self.as_bytes();
        let ghost start = w@;
        let mut i: usize = 0;
        while i < KIND_LEN
            invariant
                0 <= i <= 8,
                b@ == kind_bytes(*self),
                w@ == start + b@.subrange(0, i as int),
            decreases 8 - i,
        {
            w.push(b[i]);
            i = i + 1;
            assert(w@ =~= start + b@.subrange(0, i as int));
        }
        assert(b@.subrange(0, 8) =~= b@);
    }

    /// Reads the kind whose tag stands at `pos` in `src`.
    pub fn read_from(src: &[u8], pos: usize) -> (r: Result<Kind, Error>)
        requires
            pos <= src@.len(),
        ensures
            r == kind_at(src@.subrange(pos as int, src@.len() as int)),
    {
        if src.len() - pos < KIND_LEN {
            return Err(Error::Truncated);
        }
        Kind::from_bytes(&src[pos..pos + KIND_LEN])
    }

    /// Width in bytes of an encoded kind tag.
    pub fn len() -> (r: usize)
        ensures
            r == 8,
    {
        KIND_LEN
    }
}

} // verus!
