use crate::error::Error;
use crate::kind::{kind_at, kind_bytes, kind_from_code, le_u64, lemma_kind_bytes_read_back, Kind, KIND_LEN};
use crate::oid::{sha512_of, Oid};
use vstd::prelude::*;
use vstd::slice::slice_to_vec;

verus! {

/// The bytes stored for an object: its kind's tag, then its payload.
pub open spec fn record_of(k: Kind, payload: Seq<u8>) -> Seq<u8> {
    kind_bytes(k) + payload
}

/// The id of an object: the digest of its record.
pub open spec fn object_id(k: Kind, payload: Seq<u8>) -> Seq<u8> {
    sha512_of(record_of(k, payload))@
}

/// What a record read under id `oid` holds: its kind and payload, or why it
/// is refused. A record that does not hash to `oid` is corrupt; the kind tag
/// is read only from a record that does.
pub open spec fn check_record(oid: Seq<u8>, rec: Seq<u8>) -> Result<(Kind, Seq<u8>), Error> {
    if sha512_of(rec)@ != oid {
        Err(Error::Corrupt)
    } else {
        match kind_at(rec) {
            Err(e) => Err(e),
            Ok(k) => Ok((k, rec.subrange(8, rec.len() as int))),
        }
    }
}

/// A store's contents as a map from id to record.
pub type StoreView = Map<Seq<u8>, Seq<u8>>;

/// The store after an object of kind `k` holding `payload` was put into it.
pub open spec fn store_put(s: StoreView, k: Kind, payload: Seq<u8>) -> StoreView {
    s.insert(object_id(k, payload), record_of(k, payload))
}

/// What getting `oid` from the store yields: nothing when no record is held
/// under it, else the kind and payload of the checked record.
pub open spec fn store_get(s: StoreView, oid: Seq<u8>) -> Result<Option<(Kind, Seq<u8>)>, Error> {
    if !s.contains_key(oid) {
        Ok(None)
    } else {
        match check_record(oid, s[oid]) {
            Err(e) => Err(e),
            Ok(v) => Ok(Some(v)),
        }
    }
}

/// An object's record checks out under the object's id, as its kind and
/// payload.
pub proof fn lemma_record_checks(k: Kind, payload: Seq<u8>)
    ensures
        check_record(object_id(k, payload), record_of(k, payload)) == Ok::<(Kind, Seq<u8>), Error>(
            (k, payload),
        ),
{
    lemma_kind_bytes_read_back(k, payload);
}

/// Putting an object and then getting it by the id that putting returned gives
/// back the same kind and payload.
pub proof fn lemma_object_round_trip(s: StoreView, k: Kind, payload: Seq<u8>)
    ensures
        store_get(store_put(s, k, payload), object_id(k, payload)) == Ok::<
            Option<(Kind, Seq<u8>)>,
            Error,
        >(Some((k, payload))),
{
    lemma_record_checks(k, payload);
}

/// Putting the same object twice leaves the store as putting it once did.
pub proof fn lemma_put_object_idempotent(s: StoreView, k: Kind, payload: Seq<u8>)
    ensures
        store_put(store_put(s, k, payload), k, payload) == store_put(s, k, payload),
{
    assert(store_put(store_put(s, k, payload), k, payload) =~= store_put(s, k, payload));
}

/// A record whose digest is not the id it is read under is refused as corrupt,
/// whatever else it holds.
pub proof fn lemma_mismatched_record_refused(oid: Seq<u8>, rec: Seq<u8>)
    requires
        sha512_of(rec)@ != oid,
    ensures
        check_record(oid, rec) == Err::<(Kind, Seq<u8>), Error>(Error::Corrupt),
{
}

/// A record whose first eight bytes name no kind is refused as malformed data.
pub proof fn lemma_unknown_kind_refused(oid: Seq<u8>, rec: Seq<u8>)
    requires
        rec.len() >= 8,
        kind_from_code(le_u64(rec)) is None,
    ensures
        check_record(oid, rec) is Err,
        check_record(oid, rec)->Err_0 != Error::BadEncoding,
{
}

/// A record ready to be stored, with the id it is stored under.
#[derive(Debug)]
pub struct Record {
    /// The digest of `bytes`.
    pub oid: Oid,
    /// The kind tag followed by the payload.
    pub bytes: Vec<u8>,
}

/// Builds the record of an object and computes its id.
pub fn make_record(kind: Kind, payload: &[u8]) -> (r: Record)
    ensures
        r.bytes@ == record_of(kind, payload@),
        r.oid@ == object_id(kind, payload@),
{
    let mut bytes: Vec<u8> = Vec::new();
    kind.write_to(&mut bytes);
    append_bytes(&mut bytes, payload);
    let oid = Oid::from_data(bytes.as_slice());
    Record { oid, bytes }
}

/// Appends `src` to `dst`.
pub fn append_bytes(dst: &mut Vec<u8>, src: &[u8])
    ensures
        final(dst)@ == old(dst)@ + src@,
{
    let ghost start = dst@;
    let mut i: usize = 0;
    while i < src.len()
        invariant
            0 <= i <= src@.len(),
            dst@ == start + src@.subrange(0, i as int),
        decreases src@.len() - i,
    {
        dst.push(src[i]);
        i = i + 1;
        assert(dst@ =~= start + src@.subrange(0, i as int));
    }
    assert(src@.subrange(0, i as int) =~= src@);
}

/// An object that was read from the store and checked against its id.
#[derive(Debug)]
pub struct Object {
    oid: Oid,
    kind: Kind,
    payload: Vec<u8>,
}

impl View for Object {
    type V = (Seq<u8>, Kind, Seq<u8>);

    closed spec fn view(&self) -> (Seq<u8>, Kind, Seq<u8>) {
        (self.oid@, self.kind, self.payload@)
    }
}

impl Object {
    /// Checks a record read under `oid` and opens it: the record must hash to
    /// `oid` and start with a known kind tag.
    pub fn from_record(oid: Oid, record: &[u8]) -> (r: Result<Object, Error>)
        ensures
            r is Ok <==> check_record(oid@, record@) is Ok,
            r is Ok ==> r->Ok_0@ == (oid@, check_record(oid@, record@)->Ok_0.0, check_record(
                oid@,
                record@,
            )->Ok_0.1),
            r is Err ==> r->Err_0 == check_record(oid@, record@)->Err_0,
    {
        let calc = Oid::from_data(record);
        if calc != oid {
            return Err(Error::Corrupt);
        }
        let kind = match Kind::from_bytes(record) {
            Ok(k) => k,
            Err(e) => return Err(e),
        };
        let payload = slice_to_vec(&record[KIND_LEN..record.len()]);
        Ok(Object { oid, kind, payload })
    }

    /// The kind of this object.
    pub fn kind(&self) -> (r: Kind)
        ensures
            r == self@.1,
    {
        self.kind
    }

    /// The id this object was read under.
    pub fn oid(&self) -> (r: &Oid)
        ensures
            r@ == self@.0,
    {
        &self.oid
    }

    /// The payload of this object: its record without the kind tag.
    pub fn payload(&self) -> (r: &[u8])
        ensures
            r@ == self@.2,
    {
        self.payload.as_slice()
    }

    /// Gives up the object for its payload.
    pub fn into_payload(self) -> (r: Vec<u8>)
        ensures
            r@ == self@.2,
    {
        self.payload
    }
}

/// An object being written: its kind and the payload gathered so far.
#[derive(Debug)]
pub struct PendingObject {
    kind: Kind,
    record: Vec<u8>,
}

impl View for PendingObject {
    type V = (Kind, Seq<u8>);

    closed spec fn view(&self) -> (Kind, Seq<u8>) {
        (self.kind, self.record@.subrange(8, self.record@.len() as int))
    }
}

impl PendingObject {
    /// Whether the buffered record is the kind's tag followed by the payload.
    pub closed spec fn wf(&self) -> bool {
        &&& self.record@.len() >= 8
        &&& self.record@.subrange(0, 8) == kind_bytes(self.kind)
    }

    /// Starts an object of kind `kind` with an empty payload.
    pub fn new(kind: Kind) -> (r: PendingObject)
        ensures
            r.wf(),
            r@ == (kind, Seq::<u8>::empty()),
    {
        let mut record: Vec<u8> = Vec::new();
        kind.write_to(&mut record);
        proof {
            lemma_kind_bytes_read_back(kind, Seq::empty());
            assert(record@ =~= kind_bytes(kind) + Seq::<u8>::empty());
        }
        PendingObject { kind, record }
    }

    /// Adds `data` to the end of the payload.
    pub fn append(&mut self, data: &[u8])
        requires
            old(self).wf(),
        ensures
            final(self).wf(),
            final(self)@ == (old(self)@.0, old(self)@.1 + data@),
    {
        let ghost before = self.record@;
        append_bytes(&mut self.record, data);
        assert(self.record@.subrange(0, 8) =~= before.subrange(0, 8));
        assert(self.record@.subrange(8, self.record@.len() as int) =~= before.subrange(
            8,
            before.len() as int,
        ) + data@);
    }

    /// The kind of the object being written.
    pub fn kind(&self) -> (r: Kind)
        ensures
            r == self@.0,
    {
        self.kind
    }

    /// Finishes the object: its record and the id it is stored under.
    pub fn commit(self) -> (r: Record)
        requires
            self.wf(),
        ensures
            r.bytes@ == record_of(self@.0, self@.1),
            r.oid@ == object_id(self@.0, self@.1),
    {
        let oid = Oid::from_data(self.record.as_slice());
        assert(self.record@ =~= record_of(self@.0, self@.1));
        Record { oid, bytes: self.record }
    }
}

} // verus!
