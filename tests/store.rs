use std::collections::HashMap;

use rand::RngCore;
use vblock::{
    object_path, put_blob, BlobReader, BlobStep, Error, Kind, Object, Oid, PendingObject,
    SPLIT_DEPTH,
};

/// Records held in memory, keyed by the raw bytes of their ids.
struct MemStore {
    records: HashMap<Vec<u8>, Vec<u8>>,
}

impl MemStore {
    fn new() -> MemStore {
        MemStore { records: HashMap::new() }
    }

    fn put_object(&mut self, kind: Kind, data: &[u8]) -> Oid {
        let mut o = PendingObject::new(kind);
        o.append(data);
        let rec = o.commit();
        self.records.insert(rec.oid.as_bytes().to_vec(), rec.bytes);
        rec.oid
    }

    fn get(&self, oid: &Oid) -> Result<Option<Object>, Error> {
        match self.records.get(oid.as_bytes()) {
            None => Ok(None),
            Some(rec) => Object::from_record(oid.clone(), rec).map(Some),
        }
    }

    fn get_object(&self, oid: &Oid) -> Result<Option<Vec<u8>>, Error> {
        Ok(self.get(oid)?.map(|o| o.into_payload()))
    }

    fn put_blob(&mut self, data: &[u8]) -> Result<Oid, Error> {
        let plan = put_blob(data)?;
        for rec in plan.records {
            self.records.insert(rec.oid.as_bytes().to_vec(), rec.bytes);
        }
        Ok(plan.root)
    }

    fn drive(&self, mut reader: BlobReader, mut step: Result<BlobStep, Error>) -> Result<Option<Vec<u8>>, Error> {
        loop {
            match step? {
                BlobStep::Fetch(want) => {
                    let rec = self.records.get(want.as_bytes()).cloned();
                    step = reader.feed(rec);
                }
                BlobStep::Done(d) => return Ok(Some(d)),
                BlobStep::Absent => return Ok(None),
            }
        }
    }

    fn get_blob(&self, oid: &Oid) -> Result<Option<Vec<u8>>, Error> {
        let reader = BlobReader::new(oid.clone());
        self.drive(reader, Ok(BlobStep::Fetch(oid.clone())))
    }

    fn load_blob(&self, kind: Kind, payload: Vec<u8>) -> Result<Option<Vec<u8>>, Error> {
        let (reader, step) = BlobReader::resume(kind, payload);
        self.drive(reader, step)
    }

    fn count_kind(&self, kind: Kind) -> usize {
        self.records
            .values()
            .filter(|r| Kind::from_bytes(r) == Ok(kind))
            .count()
    }
}

fn random_bytes(n: usize) -> Vec<u8> {
    let mut v = vec![0u8; n];
    rand::thread_rng().fill_bytes(&mut v);
    v
}

fn blob_rt(a: &[u8]) {
    let mut s = MemStore::new();
    let oid = s.put_blob(a).expect("put failed");
    let rt_data = s.get_blob(&oid).expect("get failed").expect("object does not exist");
    assert_eq!(a, &rt_data[..]);
}

const DATA_HEX: &str = "5e73a68dec8dd148419b366b51ae24332b62aed50fcb9a0c8f759cde90394db7e73ccc6eb08f86534bece2439a07723bbc5619b116681a0b563455e53e45651b";

#[test]
fn object_put() {
    let mut s = MemStore::new();
    let oid = s.put_object(Kind::Piece, b"data");
    let rec = s.records.get(oid.as_bytes()).expect("could not find data record");
    assert_eq!(&rec[0..8], &[1, 0, 0, 0, 0, 0, 0, 0]);
    assert_eq!(&rec[8..], b"data");
    assert_eq!(oid.to_hex(), DATA_HEX);
    let path = object_path(&oid, SPLIT_DEPTH).expect("an id of full width has a path");
    assert_eq!(path.dirs, b"5e73".to_vec());
    assert_eq!(path.name, DATA_HEX.as_bytes()[4..].to_vec());
}

#[test]
fn object_round_trip() {
    let mut s = MemStore::new();
    let oid = s.put_object(Kind::Piece, b"data");
    let d = s.get_object(&oid).expect("getting object failed").expect("object does not exist");
    assert_eq!(d, b"data");
}

#[test]
fn piece_put_twice() {
    let mut s = MemStore::new();
    let a = s.put_object(Kind::Piece, b"hi");
    let b = s.put_object(Kind::Piece, b"hi");
    assert_eq!(a, b);
    assert_eq!(s.records.len(), 1);
}

#[test]
fn blob_put() {
    for _ in 0..100 {
        let n = (rand::thread_rng().next_u32() % 512) as usize;
        let data = random_bytes(n);
        let mut s = MemStore::new();
        assert!(s.put_blob(&data[..]).is_ok());
    }
}

#[test]
fn blob_get() {
    let mut s = MemStore::new();

    let oid1 = s.put_object(Kind::Piece, b"2");
    let oid2 = s.put_object(Kind::Piece, b"3");

    let mut p = vec![];
    Kind::Piece.write_to(&mut p);
    p.extend(oid1.as_bytes());
    p.extend(oid2.as_bytes());

    let oid_blob = s.put_object(Kind::Blob, &p);

    let d = s.get_blob(&oid_blob).expect("get failed").expect("object does not exist");

    assert_eq!(d, b"23");
}

#[test]
fn blob_round_trip_empty() {
    let mut s = MemStore::new();
    let oid = s.put_blob(&[]).expect("put failed");
    let rt_data = s.get_blob(&oid).expect("get failed").expect("object does not exist");
    let e: &[u8] = &[];
    assert_eq!(e, &rt_data[..]);
}

#[test]
fn blob_round_trip_1() {
    blob_rt(&[44, 42, 6, 37, 83, 73, 23, 6, 10, 21, 13, 37, 21, 29, 74, 63, 78, 70, 42, 67, 87, 26, 61, 79, 90, 4, 62, 99, 47, 96, 62, 63, 33, 5, 17, 67, 5, 69, 66, 92, 8, 10, 60, 14, 42, 40, 38, 33, 11, 78, 25, 42, 65, 54, 28, 72, 77, 62, 87, 39, 90, 61, 78, 85][..]);
}

#[test]
fn blob_round_trip_2() {
    blob_rt(&[66, 30, 21, 7, 69, 39, 93, 16, 4, 70, 62, 14, 83, 98, 38, 33, 86, 0, 98, 16, 84, 82, 31, 11, 99, 70, 72, 91, 62, 52, 0][..]);
}

#[test]
fn blob_round_trip() {
    for _ in 0..100 {
        let n = (rand::thread_rng().next_u32() % 512) as usize;
        let data = random_bytes(n);
        let mut s = MemStore::new();
        let oid = match s.put_blob(&data[..]) {
            Ok(v) => v,
            Err(_) => panic!("put failed"),
        };
        let rt_data = match s.get_blob(&oid) {
            Ok(Some(v)) => v,
            _ => panic!("get failed"),
        };
        assert_eq!(data, rt_data);
    }
}
