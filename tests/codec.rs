use vblock::{
    object_path, open_or_create_next, read_piece_entry, tempdir_name, tempdir_next, walk_entry,
    DirOutcome, DirStep, Error, Kind, Oid, WalkEntry, SPLIT_DEPTH,
};

#[test]
fn kind_tags() {
    assert_eq!(Kind::Piece.raw(), 1);
    assert_eq!(Kind::Blob.raw(), 2);
    assert_eq!(Kind::Tree.raw(), 3);
    assert_eq!(Kind::Blob.as_bytes(), [2, 0, 0, 0, 0, 0, 0, 0]);
    assert_eq!(Kind::from_bytes(&[3, 0, 0, 0, 0, 0, 0, 0, 9]), Ok(Kind::Tree));
    assert_eq!(Kind::from_bytes(&[0, 0, 0, 0, 0, 0, 0, 0]), Err(Error::UnknownKind(0)));
    assert_eq!(Kind::from_bytes(&[1, 0, 0, 0, 0, 0, 0, 1]), Err(Error::UnknownKind(1 + (1 << 56))));
    assert_eq!(Kind::from_bytes(&[1, 0]), Err(Error::Truncated));
    assert_eq!(Kind::len(), 8);
}

#[test]
fn kind_write_and_read() {
    let mut w = vec![9u8];
    Kind::Piece.write_to(&mut w);
    assert_eq!(w, vec![9, 1, 0, 0, 0, 0, 0, 0, 0]);
    assert_eq!(Kind::read_from(&w, 1), Ok(Kind::Piece));
    assert_eq!(Kind::read_from(&w, 2), Err(Error::Truncated));
}

#[test]
fn oid_hex() {
    let o = Oid::from_hex("00ABff10").expect("hex");
    assert_eq!(o.as_bytes(), &[0x00, 0xab, 0xff, 0x10]);
    assert_eq!(o.to_hex(), "00abff10");
    assert_eq!(Oid::from_hex("abc"), Err(Error::BadEncoding));
    assert_eq!(Oid::from_hex("zz"), Err(Error::BadEncoding));
    assert!(!Error::BadEncoding.is_invalid_data());
    assert_eq!(Oid::from_bytes(&[1, 2]), Oid::from_hex("0102").unwrap());
    assert_eq!(Oid::len(), 64);
    assert_eq!(Oid::len_str(), 128);
    assert!(Oid::from_bytes(&[1, 2]) < Oid::from_bytes(&[1, 3]));
    assert!(Oid::from_bytes(&[0xff]) > Oid::from_bytes(&[0x01, 0x00]));
}

#[test]
fn oid_from_data_is_sha512() {
    let o = Oid::from_data(b"abc");
    assert_eq!(
        o.to_hex(),
        "ddaf35a193617abacc417349ae20413112e6fa4e89a97ea20a9eeee64b55d39a2192992a274fc1a836ba3c23a3feebbd454d4423643ce80e2a9ac94fa54ca49f"
    );
}

#[test]
fn path_of_short_id() {
    let o = Oid::from_bytes(&[0xab, 0xcd]);
    let p = object_path(&o, 3).expect("text longer than the depth");
    assert_eq!(p.dirs, b"abc".to_vec());
    assert_eq!(p.name, b"d".to_vec());
    assert!(object_path(&o, 4).is_none());
}

#[test]
fn walk_inverts_path() {
    let o = Oid::from_data(b"walk");
    let p = object_path(&o, SPLIT_DEPTH).unwrap();
    for i in 0..SPLIT_DEPTH {
        assert!(matches!(walk_entry(&p.dirs[..i], &p.dirs[i..i + 1], true, SPLIT_DEPTH), WalkEntry::Descend));
    }
    match walk_entry(&p.dirs, &p.name, false, SPLIT_DEPTH) {
        WalkEntry::Object(found) => assert_eq!(found, o),
        other => panic!("expected the object, got {:?}", other),
    }
    assert!(matches!(walk_entry(b"", b"g", true, SPLIT_DEPTH), WalkEntry::Skip));
    assert!(matches!(walk_entry(b"", b"ab", true, SPLIT_DEPTH), WalkEntry::Skip));
    assert!(matches!(walk_entry(b"", b"a", false, SPLIT_DEPTH), WalkEntry::Skip));
    assert!(matches!(walk_entry(&p.dirs, b"abc", false, SPLIT_DEPTH), WalkEntry::Skip));
    assert!(matches!(walk_entry(&p.dirs, &p.name, true, SPLIT_DEPTH), WalkEntry::Skip));
}

#[test]
fn piece_entries() {
    let mut index = vec![1u8, 0, 0, 0, 0, 0, 0, 0];
    index.extend([5u8; 64]);
    index.extend([6u8; 3]);
    assert_eq!(read_piece_entry(&index, 8).unwrap().unwrap().as_bytes(), &[5u8; 64][..]);
    assert_eq!(read_piece_entry(&index, 72), Err(Error::PartialEntry));
    assert_eq!(read_piece_entry(&index, 75), Ok(None));
}

#[test]
fn temp_names() {
    let a = tempdir_name(b"vblock-temp.");
    let b = tempdir_name(b"vblock-temp.");
    assert_eq!(a.len(), 22);
    assert!(a.starts_with(b"vblock-temp."));
    assert!(a[12..].iter().all(|c| c.is_ascii_alphabetic()));
    assert_ne!(a, b);
}

#[test]
fn open_or_create_steps() {
    assert_eq!(open_or_create_next(DirStep::Open, DirOutcome::Succeeded), DirStep::Done);
    assert_eq!(open_or_create_next(DirStep::Open, DirOutcome::Failed), DirStep::Create);
    assert_eq!(open_or_create_next(DirStep::Create, DirOutcome::Succeeded), DirStep::Reopen);
    assert_eq!(open_or_create_next(DirStep::Create, DirOutcome::AlreadyExists), DirStep::Reopen);
    assert_eq!(open_or_create_next(DirStep::Create, DirOutcome::Failed), DirStep::Fail);
    assert_eq!(open_or_create_next(DirStep::Reopen, DirOutcome::Failed), DirStep::Fail);
    assert_eq!(tempdir_next(DirStep::Create, DirOutcome::AlreadyExists), DirStep::Rename);
    assert_eq!(tempdir_next(DirStep::Create, DirOutcome::Succeeded), DirStep::Reopen);
    assert_eq!(tempdir_next(DirStep::Create, DirOutcome::Failed), DirStep::Fail);
    assert_eq!(tempdir_next(DirStep::Reopen, DirOutcome::Succeeded), DirStep::Done);
}
