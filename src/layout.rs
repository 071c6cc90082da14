use crate::oid::{decode_hex, hex_digits, hex_text, hex_value, is_hex, unhex, Oid, OID_LEN};
use vstd::prelude::*;
use vstd::slice::slice_to_vec;
use vstd::string::StringSliceAdditionalSpecFns;

verus! {

broadcast use vstd::string::is_ascii_spec_bytes;

/// How many single-digit directory levels a store puts above each object.
pub const SPLIT_DEPTH: usize = 4;

/// The lower-case hexadecimal text of `b`, as ASCII bytes.
pub open spec fn hex_bytes(b: Seq<u8>) -> Seq<u8> {
    Seq::new(2 * b.len(), |i: int| hex_text(b)[i] as u8)
}

/// Where an object lives below a store's object directory.
#[derive(Debug)]
pub struct ObjectPath {
    /// One directory per level, each named by a single hexadecimal digit
    /// (the ASCII byte of that digit).
    pub dirs: Vec<u8>,
    /// The file name: the rest of the id's hexadecimal text.
    pub name: Vec<u8>,
}

proof fn lemma_hex_text_ascii(b: Seq<u8>)
    ensures
        vstd::utf8::is_ascii_chars(hex_text(b)),
{
    let d = hex_digits();
    assert forall|x: int| 0 <= x < 16 implies '\0' <= #[trigger] d[x] <= '\u{7f}' by {
        assert(d[x] == d[x]);
    }
    assert forall|i: int| 0 <= i < hex_text(b).len() implies '\0' <= #[trigger] hex_text(b)[i]
        <= '\u{7f}' by {
        let x = if i % 2 == 0 {
            b[i / 2] as int / 16
        } else {
            b[i / 2] as int % 16
        };
        assert(hex_text(b)[i] == d[x]);
    }
}

/// The place of `oid` in a store that splits `depth` digits into
/// directories: the first `depth` digits of its hexadecimal text name one
/// directory each, and the remaining digits name the file. An id whose text
/// is not longer than `depth` has no place.
pub fn object_path(oid: &Oid, depth: usize) -> (r: Option<ObjectPath>)
    ensures
        r is Some <==> depth < 2 * oid@.len(),
        r is Some ==> r->Some_0.dirs@ == hex_bytes(oid@).subrange(0, depth as int),
        r is Some ==> r->Some_0.name@ == hex_bytes(oid@).subrange(
            depth as int,
            2 * oid@.len() as int,
        ),
{
    let h = oid.to_hex();
    let t = h.as_str();
    let b = t.as_bytes();
    proof {
        lemma_hex_text_ascii(oid@);
        assert(vstd::string::is_ascii(t));
        assert(t.spec_bytes() =~= Seq::new(t@.len(), |i: int| t@[i] as u8));
        assert(b@ =~= hex_bytes(oid@));
    }
    if depth >= b.len() {
        return None;
    }
    let dirs = slice_to_vec(&b[0..depth]);
    let name = slice_to_vec(&b[depth..b.len()]);
    Some(ObjectPath { dirs, name })
}

/// Each digit's text reads back as its value.
proof fn lemma_digit_reads_back(x: int)
    requires
        0 <= x < 16,
    ensures
        hex_value(hex_digits()[x] as u8) == Some(x as u8),
{
    if x < 8 {
        if x < 4 {
            if x == 0 {} else if x == 1 {} else if x == 2 {} else {}
        } else {
            if x == 4 {} else if x == 5 {} else if x == 6 {} else {}
        }
    } else {
        if x < 12 {
            if x == 8 {} else if x == 9 {} else if x == 10 {} else {}
        } else {
            if x == 12 {} else if x == 13 {} else if x == 14 {} else {}
        }
    }
}

/// The hexadecimal text of any bytes is hexadecimal and spells those bytes.
pub proof fn lemma_hex_round_trip(b: Seq<u8>)
    ensures
        is_hex(hex_bytes(b)),
        unhex(hex_bytes(b)) == b,
{
    let h = hex_bytes(b);
    assert forall|i: int| 0 <= i < h.len() implies (#[trigger] hex_value(h[i])) is Some by {
        let v = b[i / 2] as int;
        if i % 2 == 0 {
            lemma_digit_reads_back(v / 16);
        } else {
            lemma_digit_reads_back(v % 16);
        }
    }
    assert(h.len() % 2 == 0);
    assert forall|j: int| 0 <= j < b.len() implies #[trigger] unhex(h)[j] == b[j] by {
        let v = b[j] as int;
        lemma_digit_reads_back(v / 16);
        lemma_digit_reads_back(v % 16);
        assert((2 * j) % 2 == 0 && (2 * j) / 2 == j);
        assert((2 * j + 1) % 2 == 1 && (2 * j + 1) / 2 == j);
        assert(h[2 * j] == hex_digits()[v / 16] as u8);
        assert(h[2 * j + 1] == hex_digits()[v % 16] as u8);
    }
    assert(unhex(h) =~= b);
}

/// What a directory entry met while walking a store's object directory is.
#[derive(Debug)]
pub enum WalkEntry {
    /// A directory of the layout: walk into it.
    Descend,
    /// The file of the object with this id.
    Object(Oid),
    /// Anything the layout does not put there.
    Skip,
}

/// Classifies an entry named `name`, met below the directories named by the
/// single digits `digits`, in a store that splits `depth` digits into
/// directories. Above the last level only single-digit directories belong
/// to the layout; at the last level, a file whose name completes the digits
/// into the text of a full id.
pub fn walk_entry(digits: &[u8], name: &[u8], is_dir: bool, depth: usize) -> (r: WalkEntry)
    ensures
        digits@.len() < depth ==> (r is Descend <==> is_dir && name@.len() == 1 && hex_value(
            name@[0],
        ) is Some) && !(r is Object),
        digits@.len() == depth ==> !(r is Descend) && (r is Object <==> !is_dir && is_hex(
            digits@ + name@,
        ) && unhex(digits@ + name@).len() == OID_LEN),
        digits@.len() == depth && r is Object ==> r->Object_0@ == unhex(digits@ + name@),
        digits@.len() > depth ==> r is Skip,
{
    if digits.len() < depth {
        if is_dir && name.len() == 1 && is_hex_digit(name[0]) {
            return WalkEntry::Descend;
        }
        return WalkEntry::Skip;
    }
    if digits.len() > depth || is_dir {
        return WalkEntry::Skip;
    }
    let mut text: Vec<u8> = slice_to_vec(digits);
    crate::record::append_bytes(&mut text, name);
    match decode_hex(text.as_slice()) {
        Ok(v) => {
            if v.len() == OID_LEN {
                WalkEntry::Object(Oid::from_bytes(v.as_slice()))
            } else {
                WalkEntry::Skip
            }
        },
        Err(_) => WalkEntry::Skip,
    }
}

/// Whether byte `c` is a hexadecimal digit of either case.
fn is_hex_digit(c: u8) -> (r: bool)
    ensures
        r == hex_value(c) is Some,
{
    (0x30 <= c && c <= 0x39) || (0x61 <= c && c <= 0x66) || (0x41 <= c && c <= 0x46)
}

/// Walking the layout finds every object where `object_path` puts it: each
/// directory on its path is one the walk descends into, and its file names
/// the object's id.
pub proof fn lemma_walk_finds_object(oid: Seq<u8>, depth: nat)
    requires
        oid.len() == OID_LEN,
        depth < 2 * OID_LEN,
    ensures
        forall|i: int|
            0 <= i < depth ==> (#[trigger] hex_value(hex_bytes(oid).subrange(0, depth as int)[i])) is Some,
        is_hex(
            hex_bytes(oid).subrange(0, depth as int) + hex_bytes(oid).subrange(
                depth as int,
                2 * OID_LEN,
            ),
        ),
        unhex(
            hex_bytes(oid).subrange(0, depth as int) + hex_bytes(oid).subrange(
                depth as int,
                2 * OID_LEN,
            ),
        ) == oid,
{
    lemma_hex_round_trip(oid);
    let h = hex_bytes(oid);
    assert(h.subrange(0, depth as int) + h.subrange(depth as int, 2 * OID_LEN) =~= h);
    assert forall|i: int| 0 <= i < depth implies (#[trigger] hex_value(
        h.subrange(0, depth as int)[i],
    )) is Some by {
        assert(h.subrange(0, depth as int)[i] == h[i]);
    }
}

} // verus!
