use std::collections::HashMap;

use rand::RngCore;
use vblock::{
    make_record, put_blob, BlobReader, BlobStep, Error, Kind, Object, Oid, MAX_DEPTH,
};

fn store_of(records: &[(Oid, Vec<u8>)]) -> HashMap<Vec<u8>, Vec<u8>> {
    let mut m = HashMap::new();
    for (oid, rec) in records {
        m.insert(oid.as_bytes().to_vec(), rec.clone());
    }
    m
}

fn read_blob(store: &HashMap<Vec<u8>, Vec<u8>>, oid: &Oid) -> Result<Option<Vec<u8>>, Error> {
    let mut reader = BlobReader::new(oid.clone());
    let mut step = Ok(BlobStep::Fetch(oid.clone()));
    loop {
        match step? {
            BlobStep::Fetch(want) => step = reader.feed(store.get(want.as_bytes()).cloned()),
            BlobStep::Done(d) => return Ok(Some(d)),
            BlobStep::Absent => return Ok(None),
        }
    }
}

fn put(kind: Kind, payload: &[u8]) -> (Oid, Vec<u8>) {
    let r = make_record(kind, payload);
    (r.oid, r.bytes)
}

fn random_bytes(n: usize) -> Vec<u8> {
    let mut v = vec![0u8; n];
    rand::thread_rng().fill_bytes(&mut v);
    v
}

#[test]
fn object_round_trip_every_kind() {
    for kind in [Kind::Piece, Kind::Blob, Kind::Tree] {
        let (oid, rec) = put(kind, b"payload");
        let o = Object::from_record(oid.clone(), &rec).expect("record checks out");
        assert_eq!(o.kind(), kind);
        assert_eq!(o.payload(), b"payload");
        assert_eq!(o.oid(), &oid);
    }
}

#[test]
fn object_id_is_deterministic() {
    let (a, _) = put(Kind::Piece, b"same bytes");
    let (b, _) = put(Kind::Piece, b"same bytes");
    let (c, _) = put(Kind::Blob, b"same bytes");
    assert_eq!(a, b);
    assert_ne!(a, c);
    assert_eq!(a.as_bytes().len(), 64);
}

#[test]
fn record_of_data_is_tag_then_payload() {
    let (_, rec) = put(Kind::Piece, b"data");
    assert_eq!(rec, vec![0x01, 0, 0, 0, 0, 0, 0, 0, 0x64, 0x61, 0x74, 0x61]);
}

#[test]
fn flipped_byte_is_corrupt() {
    let (oid, rec) = put(Kind::Piece, b"data");
    for i in 0..rec.len() {
        let mut bad = rec.clone();
        bad[i] ^= 0xff;
        let r = Object::from_record(oid.clone(), &bad);
        assert!(matches!(r, Err(Error::Corrupt)));
        assert!(r.unwrap_err().is_invalid_data());
    }
}

#[test]
fn unknown_kind_is_refused() {
    for tag in [0u8, 4, 200] {
        let mut rec = vec![tag, 0, 0, 0, 0, 0, 0, 0];
        rec.extend(b"x");
        let oid = Oid::from_data(&rec);
        assert_eq!(Object::from_record(oid, &rec).unwrap_err(), Error::UnknownKind(tag as u64));
    }
    let rec = vec![1u8, 0, 0];
    let oid = Oid::from_data(&rec);
    assert_eq!(Object::from_record(oid, &rec).unwrap_err(), Error::Truncated);
}

#[test]
fn small_blob_is_one_piece() {
    let plan = put_blob(b"hello").expect("put");
    assert_eq!(plan.records.len(), 1);
    assert_eq!(plan.records[0].bytes[0..8], [1, 0, 0, 0, 0, 0, 0, 0]);
    assert_eq!(&plan.records[0].bytes[8..], b"hello");
    assert_eq!(plan.root, plan.records[0].oid);
}

#[test]
fn empty_blob_is_empty_piece() {
    let plan = put_blob(&[]).expect("put");
    assert_eq!(plan.records.len(), 1);
    assert_eq!(plan.records[0].bytes, vec![1, 0, 0, 0, 0, 0, 0, 0]);
    let store = store_of(&[(plan.root.clone(), plan.records[0].bytes.clone())]);
    assert_eq!(read_blob(&store, &plan.root).unwrap(), Some(vec![]));
}

#[test]
fn large_blob_round_trip() {
    let data = random_bytes(1 << 20);
    let plan = put_blob(&data).expect("put");
    let pieces = plan
        .records
        .iter()
        .filter(|r| Kind::from_bytes(&r.bytes) == Ok(Kind::Piece))
        .count();
    assert!(pieces >= 2);
    let recs: Vec<(Oid, Vec<u8>)> = plan.records.iter().map(|r| (r.oid.clone(), r.bytes.clone())).collect();
    let store = store_of(&recs);
    assert_eq!(read_blob(&store, &plan.root).unwrap(), Some(data));
}

#[test]
fn several_mib_round_trip() {
    let data = random_bytes(3 << 20);
    let plan = put_blob(&data).expect("put");
    let recs: Vec<(Oid, Vec<u8>)> = plan.records.iter().map(|r| (r.oid.clone(), r.bytes.clone())).collect();
    let store = store_of(&recs);
    assert_eq!(read_blob(&store, &plan.root).unwrap(), Some(data));
}

#[test]
fn one_byte_blob_round_trip() {
    let plan = put_blob(&[7]).expect("put");
    let recs: Vec<(Oid, Vec<u8>)> = plan.records.iter().map(|r| (r.oid.clone(), r.bytes.clone())).collect();
    assert_eq!(read_blob(&store_of(&recs), &plan.root).unwrap(), Some(vec![7]));
}

#[test]
fn absent_blob_reads_as_none() {
    let (oid, _) = put(Kind::Piece, b"never stored");
    assert_eq!(read_blob(&HashMap::new(), &oid).unwrap(), None);
}

fn index(sub: Kind, ids: &[&Oid]) -> Vec<u8> {
    let mut p = vec![];
    sub.write_to(&mut p);
    for id in ids {
        p.extend(id.as_bytes());
    }
    p
}

#[test]
fn blob_with_missing_child() {
    let (child, _) = put(Kind::Piece, b"gone");
    let (root, rec) = put(Kind::Blob, &index(Kind::Piece, &[&child]));
    let store = store_of(&[(root.clone(), rec)]);
    assert_eq!(read_blob(&store, &root), Err(Error::MissingChild));
}

#[test]
fn blob_with_wrong_child_kind() {
    let (child, crec) = put(Kind::Blob, b"xx");
    let (root, rec) = put(Kind::Blob, &index(Kind::Piece, &[&child]));
    let store = store_of(&[(root.clone(), rec), (child, crec)]);
    assert_eq!(read_blob(&store, &root), Err(Error::WrongChildKind));
}

#[test]
fn blob_with_partial_entry() {
    let (child, crec) = put(Kind::Piece, b"a");
    let mut p = index(Kind::Piece, &[&child]);
    p.extend([1, 2, 3]);
    let (root, rec) = put(Kind::Blob, &p);
    let store = store_of(&[(root.clone(), rec), (child, crec)]);
    assert_eq!(read_blob(&store, &root), Err(Error::PartialEntry));
}

#[test]
fn blob_of_trees_is_refused() {
    let (root, rec) = put(Kind::Blob, &index(Kind::Tree, &[]));
    assert_eq!(read_blob(&store_of(&[(root.clone(), rec)]), &root), Err(Error::TreeNotAllowed));
    let (tree, trec) = put(Kind::Tree, b"t");
    assert_eq!(read_blob(&store_of(&[(tree.clone(), trec)]), &tree), Err(Error::TreeNotAllowed));
}

#[test]
fn short_blob_payload_is_refused() {
    let (root, rec) = put(Kind::Blob, &[2, 0, 0]);
    assert_eq!(read_blob(&store_of(&[(root.clone(), rec)]), &root), Err(Error::Truncated));
}

#[test]
fn corrupt_child_is_refused() {
    let (child, mut crec) = put(Kind::Piece, b"abc");
    crec[9] ^= 1;
    let (root, rec) = put(Kind::Blob, &index(Kind::Piece, &[&child]));
    let store = store_of(&[(root.clone(), rec), (child, crec)]);
    assert_eq!(read_blob(&store, &root), Err(Error::Corrupt));
}

#[test]
fn nested_indexes_read_back_and_stop_when_too_deep() {
    let mut recs = vec![];
    let (leaf, lrec) = put(Kind::Piece, b"x");
    recs.push((leaf.clone(), lrec));
    let mut payload = index(Kind::Piece, &[&leaf]);
    for _ in 0..MAX_DEPTH + 1 {
        let (mid, mrec) = put(Kind::Blob, &payload);
        recs.push((mid.clone(), mrec));
        payload = index(Kind::Blob, &[&mid]);
    }
    let (ok_root, ok_rec) = put(Kind::Blob, &index(Kind::Piece, &[&leaf]));
    let mut shallow = recs.clone();
    shallow.push((ok_root.clone(), ok_rec));
    assert_eq!(read_blob(&store_of(&shallow), &ok_root).unwrap(), Some(b"x".to_vec()));
    let (deep_root, deep_rec) = put(Kind::Blob, &payload);
    let mut deep = recs.clone();
    deep.push((deep_root.clone(), deep_rec));
    assert_eq!(read_blob(&store_of(&deep), &deep_root), Err(Error::TooDeep));
}

#[test]
fn load_blob_from_payload_in_hand() {
    let (a, arec) = put(Kind::Piece, b"left ");
    let (b, brec) = put(Kind::Piece, b"right");
    let store = store_of(&[(a.clone(), arec), (b.clone(), brec)]);
    let (mut reader, mut step) = BlobReader::resume(Kind::Blob, index(Kind::Piece, &[&a, &b]));
    let out = loop {
        match step.unwrap() {
            BlobStep::Fetch(want) => step = reader.feed(store.get(want.as_bytes()).cloned()),
            BlobStep::Done(d) => break d,
            BlobStep::Absent => panic!("payload in hand is never absent"),
        }
    };
    assert_eq!(out, b"left right");
    let (_, step) = BlobReader::resume(Kind::Piece, b"plain".to_vec());
    assert!(matches!(step, Ok(BlobStep::Done(d)) if d == b"plain"));
}

#[test]
fn empty_index_reads_as_empty() {
    let (root, rec) = put(Kind::Blob, &index(Kind::Piece, &[]));
    assert_eq!(read_blob(&store_of(&[(root.clone(), rec)]), &root).unwrap(), Some(vec![]));
}
