use crate::error::Error;
use crate::index::{all_digest_wide, index_payload, lemma_index_round_trip};
use crate::kind::{kind_bytes, Kind};
use crate::oid::{sha512_of, Oid};
use crate::read::{blob_read, child_payload, gather, interpret, lemma_gather_step, ReadStart, MAX_DEPTH};
use crate::record::{append_bytes, check_record, lemma_record_checks, make_record, object_id, record_of, Record, StoreView};
use hash_roll::ChunkIncr;
use vstd::prelude::*;
use vstd::slice::slice_to_vec;

verus! {

/// The chunk lengths that hash-roll's bup splitter, started fresh, finds in
/// `data`.
pub uninterp spec fn bup_chunk_lens(data: Seq<u8>) -> Seq<usize>;

/// Where chunk `i` starts when chunks have lengths `lens`.
pub open spec fn offset(lens: Seq<usize>, i: int) -> int
    decreases i,
{
    if i <= 0 {
        0
    } else {
        offset(lens, i - 1) + lens[i - 1]
    }
}

/// Whether chunks of lengths `lens`, none empty, cover exactly `n` bytes.
pub open spec fn covers(lens: Seq<usize>, n: int) -> bool {
    &&& offset(lens, lens.len() as int) == n
    &&& forall|i: int| 0 <= i < lens.len() ==> #[trigger] lens[i] > 0
}

/// Relies on hash-roll: a fresh bup `RollSumIncr` and `ChunkIncr::iter_slices`
/// cut `data` into non-empty slices that cover it in order. The cuts depend
/// on the bytes alone.
#[verifier::external_body]
fn chunk_lengths(data: &[u8]) -> (r: Vec<usize>)
    ensures
        r@ == bup_chunk_lens(data@),
        covers(r@, data@.len() as int),
{
    hash_roll::bup::RollSumIncr::default().iter_slices(data).map(|s| s.len()).collect()
}

/// Boundary `j` of `data` cut at lengths `lens`: chunk `j` runs from
/// boundary `j` to boundary `j + 1`. Cuts past the end of `data` stop at its
/// end, and the last chunk runs to the end, so the chunks always make up
/// `data` exactly.
pub open spec fn chunk_end(data: Seq<u8>, lens: Seq<usize>, j: int) -> int {
    if j >= lens.len() {
        data.len() as int
    } else if offset(lens, j) <= data.len() {
        offset(lens, j)
    } else {
        data.len() as int
    }
}

/// Chunk `i` of `data` cut at lengths `lens`.
pub open spec fn chunk(data: Seq<u8>, lens: Seq<usize>, i: int) -> Seq<u8> {
    data.subrange(chunk_end(data, lens, i), chunk_end(data, lens, i + 1))
}

/// The records of the chunks of `data`, each stored as an object of kind `k`.
pub open spec fn chunk_records(k: Kind, data: Seq<u8>, lens: Seq<usize>) -> Seq<Seq<u8>> {
    Seq::new(lens.len(), |i: int| record_of(k, chunk(data, lens, i)))
}

/// The ids of the chunks of `data`, each stored as an object of kind `k`.
pub open spec fn chunk_ids(k: Kind, data: Seq<u8>, lens: Seq<usize>) -> Seq<Seq<u8>> {
    Seq::new(lens.len(), |i: int| object_id(k, chunk(data, lens, i)))
}

/// Storing `data` as an object of kind `k`, `level` indexes deep: the id of
/// the outermost object and the records written, in order, or why it fails.
///
/// Data the splitter leaves in one piece is stored whole. Otherwise each chunk
/// is stored as an object of kind `k`, and an index listing them is stored in
/// turn as a blob, unless that nests deeper than a reader would follow.
pub open spec fn put_levels(k: Kind, data: Seq<u8>, level: nat) -> Result<
    (Seq<u8>, Seq<Seq<u8>>),
    Error,
>
    decreases MAX_DEPTH - level,
{
    let lens = bup_chunk_lens(data);
    if lens.len() <= 1 {
        Ok((object_id(k, data), seq![record_of(k, data)]))
    } else if level >= MAX_DEPTH {
        Err(Error::TooDeep)
    } else {
        let index = index_payload(k, chunk_ids(k, data, lens));
        match put_levels(Kind::Blob, index, level + 1) {
            Err(e) => Err(e),
            Ok((root, recs)) => Ok((root, chunk_records(k, data, lens) + recs)),
        }
    }
}

/// How many levels of index storing `data` puts above it.
pub open spec fn put_height(k: Kind, data: Seq<u8>, level: nat) -> nat
    decreases MAX_DEPTH - level,
{
    let lens = bup_chunk_lens(data);
    if lens.len() <= 1 || level >= MAX_DEPTH {
        0
    } else {
        1 + put_height(Kind::Blob, index_payload(k, chunk_ids(k, data, lens)), level + 1)
    }
}

/// What storing a blob yields, given the records already written before it.
pub open spec fn after_records(
    pre: Seq<Seq<u8>>,
    r: Result<(Seq<u8>, Seq<Seq<u8>>), Error>,
) -> Result<(Seq<u8>, Seq<Seq<u8>>), Error> {
    match r {
        Err(e) => Err(e),
        Ok((root, recs)) => Ok((root, pre + recs)),
    }
}

/// Whether store `s` holds each record of `recs` under its digest.
pub open spec fn holds_records(s: StoreView, recs: Seq<Seq<u8>>) -> bool {
    forall|i: int|
        0 <= i < recs.len() ==> s.contains_key(sha512_of(#[trigger] recs[i])@) && s[sha512_of(
            recs[i],
        )@] == recs[i]
}

/// The stored bytes of each record.
pub open spec fn record_bytes(recs: Seq<Record>) -> Seq<Seq<u8>> {
    recs.map_values(|r: Record| r.bytes@)
}

/// What the object stored under `root` stands for, reading at most `n`
/// levels of index.
pub open spec fn reads_from(s: StoreView, root: Seq<u8>, n: nat) -> Result<Seq<u8>, Error> {
    match check_record(root, s[root]) {
        Err(e) => Err(e),
        Ok((k, p)) => interpret(s, k, p, n),
    }
}

/// The objects that storing a blob writes, and the id to read it back by.
#[derive(Debug)]
pub struct BlobPlan {
    /// The id of the outermost object.
    pub root: Oid,
    /// The records to store, inner ones first.
    pub records: Vec<Record>,
}

proof fn lemma_offset_monotone(lens: Seq<usize>, i: int, j: int)
    requires
        0 <= i <= j <= lens.len(),
    ensures
        offset(lens, i) <= offset(lens, j),
    decreases j - i,
{
    if i < j {
        lemma_offset_monotone(lens, i, j - 1);
    }
}

/// Chunk ends never go back, and the first chunk starts at the start.
proof fn lemma_chunk_end_monotone(data: Seq<u8>, lens: Seq<usize>, j: int)
    requires
        0 <= j < lens.len(),
    ensures
        0 <= chunk_end(data, lens, j) <= chunk_end(data, lens, j + 1) <= data.len(),
        j == 0 ==> chunk_end(data, lens, j) == 0,
{
    lemma_offset_monotone(lens, 0, j);
    if j + 1 < lens.len() {
        lemma_offset_monotone(lens, j, j + 1);
    }
}

/// Where the lengths cover the data, chunk `i` is the slice between the
/// running sums of the lengths.
proof fn lemma_chunk_exact(data: Seq<u8>, lens: Seq<usize>, i: int)
    requires
        covers(lens, data.len() as int),
        0 <= i < lens.len(),
    ensures
        chunk(data, lens, i) == data.subrange(offset(lens, i), offset(lens, i + 1)),
        0 <= offset(lens, i) <= offset(lens, i + 1) <= data.len(),
{
    lemma_offset_monotone(lens, 0, i);
    lemma_offset_monotone(lens, i, i + 1);
    lemma_offset_monotone(lens, i + 1, lens.len() as int);
}

/// Chunks of non-zero length end no earlier than their count.
proof fn lemma_offset_at_least(lens: Seq<usize>, i: int)
    requires
        0 <= i <= lens.len(),
        forall|j: int| 0 <= j < lens.len() ==> #[trigger] lens[j] > 0,
    ensures
        offset(lens, i) >= i,
    decreases i,
{
    if i > 0 {
        lemma_offset_at_least(lens, i - 1);
    }
}

/// Covering lengths of at most one byte are at most one chunk.
proof fn lemma_short_data_one_chunk(lens: Seq<usize>, n: int)
    requires
        covers(lens, n),
        n <= 1,
    ensures
        lens.len() <= 1,
{
    lemma_offset_at_least(lens, lens.len() as int);
}

/// Under covering lengths every chunk holds at least one byte, so its
/// record is longer than a kind tag.
proof fn lemma_chunk_records_nonempty(k: Kind, data: Seq<u8>, lens: Seq<usize>)
    requires
        covers(lens, data.len() as int),
    ensures
        forall|i: int|
            0 <= i < lens.len() ==> (#[trigger] chunk_records(k, data, lens)[i]).len() > 8,
{
    assert forall|i: int| 0 <= i < lens.len() implies (#[trigger] chunk_records(
        k,
        data,
        lens,
    )[i]).len() > 8 by {
        lemma_chunk_exact(data, lens, i);
        assert(offset(lens, i + 1) == offset(lens, i) + lens[i]);
        assert(kind_bytes(k).len() == 8);
    }
}

/// A store that holds two runs of records holds each of them.
proof fn lemma_holds_split(s: StoreView, a: Seq<Seq<u8>>, b: Seq<Seq<u8>>)
    requires
        holds_records(s, a + b),
    ensures
        holds_records(s, a),
        holds_records(s, b),
{
    assert forall|i: int| 0 <= i < a.len() implies s.contains_key(sha512_of(#[trigger] a[i])@)
        && s[sha512_of(a[i])@] == a[i] by {
        assert((a + b)[i] == a[i]);
    }
    assert forall|i: int| 0 <= i < b.len() implies s.contains_key(sha512_of(#[trigger] b[i])@)
        && s[sha512_of(b[i])@] == b[i] by {
        assert((a + b)[a.len() + i] == b[i]);
    }
}

proof fn lemma_record_bytes_push(recs: Seq<Record>, r: Record)
    ensures
        record_bytes(recs.push(r)) == record_bytes(recs) + seq![r.bytes@],
{
    assert(record_bytes(recs.push(r)) =~= record_bytes(recs) + seq![r.bytes@]);
}

/// In a store holding the chunks of `data`, the first `j` chunk ids read as
/// the bytes up to the end of chunk `j - 1`.
proof fn lemma_gather_chunks_upto(s: StoreView, k: Kind, data: Seq<u8>, lens: Seq<usize>, j: int)
    requires
        lens.len() >= 1,
        0 <= j <= lens.len(),
        holds_records(s, chunk_records(k, data, lens)),
    ensures
        gather(s, k, chunk_ids(k, data, lens).take(j)) == Ok::<Seq<u8>, Error>(
            data.subrange(0, if j == 0 { 0 } else { chunk_end(data, lens, j) }),
        ),
    decreases j,
{
    let ids = chunk_ids(k, data, lens);
    if j == 0 {
        assert(ids.take(0) =~= Seq::<Seq<u8>>::empty());
        assert(data.subrange(0, 0) =~= Seq::<u8>::empty());
    } else {
        lemma_gather_chunks_upto(s, k, data, lens, j - 1);
        lemma_chunk_end_monotone(data, lens, j - 1);
        let piece = chunk(data, lens, j - 1);
        let rec = chunk_records(k, data, lens)[j - 1];
        assert(rec == record_of(k, piece));
        lemma_record_checks(k, piece);
        assert(child_payload(s, k, ids[j - 1]) == Ok::<Seq<u8>, Error>(piece));
        lemma_gather_step(s, k, ids, j - 1);
        let a = if j - 1 == 0 {
            0
        } else {
            chunk_end(data, lens, j - 1)
        };
        assert(a == chunk_end(data, lens, j - 1));
        assert(data.subrange(0, chunk_end(data, lens, j)) =~= data.subrange(0, a) + piece);
    }
}

/// In a store holding the chunks of `data`, the chunk ids read as `data`.
proof fn lemma_gather_chunks(s: StoreView, k: Kind, data: Seq<u8>, lens: Seq<usize>)
    requires
        lens.len() >= 1,
        holds_records(s, chunk_records(k, data, lens)),
    ensures
        gather(s, k, chunk_ids(k, data, lens)) == Ok::<Seq<u8>, Error>(data),
{
    let ids = chunk_ids(k, data, lens);
    lemma_gather_chunks_upto(s, k, data, lens, lens.len() as int);
    assert(ids.take(lens.len() as int) =~= ids);
    assert(data.subrange(0, data.len() as int) =~= data);
}

/// In a store holding what storing `data` writes, the outermost object is
/// there and reads as `data`, given as many more levels of index as were
/// put above it.
proof fn lemma_put_levels_read(s: StoreView, k: Kind, data: Seq<u8>, level: nat)
    requires
        k != Kind::Tree,
        level <= MAX_DEPTH,
        put_levels(k, data, level) is Ok,
        holds_records(s, put_levels(k, data, level)->Ok_0.1),
    ensures
        s.contains_key(put_levels(k, data, level)->Ok_0.0),
        level + put_height(k, data, level) <= MAX_DEPTH,
        forall|n: nat|
            n >= put_height(k, data, level) ==> #[trigger] reads_from(
                s,
                put_levels(k, data, level)->Ok_0.0,
                n,
            ) == interpret(s, k, data, (n - put_height(k, data, level)) as nat),
    decreases MAX_DEPTH - level,
{
    let lens = bup_chunk_lens(data);
    let root = put_levels(k, data, level)->Ok_0.0;
    if lens.len() <= 1 {
        let rec = record_of(k, data);
        assert(put_levels(k, data, level)->Ok_0.1[0] == rec);
        lemma_record_checks(k, data);
    } else {
        let ids = chunk_ids(k, data, lens);
        let index = index_payload(k, ids);
        let recs = chunk_records(k, data, lens);
        let rest = put_levels(Kind::Blob, index, level + 1)->Ok_0.1;
        lemma_holds_split(s, recs, rest);
        lemma_put_levels_read(s, Kind::Blob, index, level + 1);
        let h1 = put_height(Kind::Blob, index, level + 1);
        assert(all_digest_wide(ids)) by {
            assert forall|j: int| 0 <= j < ids.len() implies (#[trigger] ids[j]).len() == 64 by {
                assert(ids[j] == sha512_of(record_of(k, chunk(data, lens, j)))@);
            }
        }
        lemma_index_round_trip(k, ids);
        lemma_gather_chunks(s, k, data, lens);
        assert forall|n: nat| n >= put_height(k, data, level) implies #[trigger] reads_from(
            s,
            root,
            n,
        ) == interpret(s, k, data, (n - put_height(k, data, level)) as nat) by {
            assert(reads_from(s, root, n) == interpret(s, Kind::Blob, index, (n - h1) as nat));
        }
    }
}

/// Storing a blob and reading it back gives the same bytes: in any store
/// that holds every record that storing `data` writes, reading the blob from
/// the id that storing returns yields `data`.
pub proof fn lemma_blob_round_trip(data: Seq<u8>, s: StoreView)
    requires
        put_levels(Kind::Piece, data, 0) is Ok,
        holds_records(s, put_levels(Kind::Piece, data, 0)->Ok_0.1),
    ensures
        blob_read(s, ReadStart::Stored(put_levels(Kind::Piece, data, 0)->Ok_0.0)) == Ok::<
            Option<Seq<u8>>,
            Error,
        >(Some(data)),
{
    lemma_put_levels_read(s, Kind::Piece, data, 0);
    let root = put_levels(Kind::Piece, data, 0)->Ok_0.0;
    assert(reads_from(s, root, MAX_DEPTH as nat) == interpret(
        s,
        Kind::Piece,
        data,
        (MAX_DEPTH - put_height(Kind::Piece, data, 0)) as nat,
    ));
}

/// Stores each chunk of `cur` as an object of kind `kind`, adding its record
/// to `records`, and returns the index that lists the chunks.
fn store_chunks(kind: Kind, cur: &[u8], lens: &Vec<usize>, records: &mut Vec<Record>) -> (index: Vec<u8>)
    requires
        covers(lens@, cur@.len() as int),
        forall|j: int|
            0 <= j < old(records)@.len() ==> (#[trigger] old(records)@[j]).oid@ == sha512_of(
                old(records)@[j].bytes@,
            )@,
    ensures
        index@ == index_payload(kind, chunk_ids(kind, cur@, lens@)),
        record_bytes(final(records)@) == record_bytes(old(records)@) + chunk_records(kind, cur@, lens@),
        forall|j: int|
            0 <= j < final(records)@.len() ==> (#[trigger] final(records)@[j]).oid@ == sha512_of(
                final(records)@[j].bytes@,
            )@,
        index@.len() >= 8,
{
    let ghost lens_s = lens@;
    let ghost before = records@;
    let ghost ids_all = chunk_ids(kind, cur@, lens_s);
    let ghost recs_all = chunk_records(kind, cur@, lens_s);
    let total = cur.len();
    let mut index: Vec<u8> = Vec::new();
    kind.write_to(&mut index);
    let mut start: usize = 0;
    let mut i: usize = 0;
    proof {
        assert(ids_all.take(0) =~= Seq::<Seq<u8>>::empty());
        assert(recs_all.take(0) =~= Seq::<Seq<u8>>::empty());
        assert(record_bytes(records@) =~= record_bytes(before) + recs_all.take(0));
        assert(index@ =~= index_payload(kind, ids_all.take(0)));
    }
    while i < lens.len()
        invariant
            lens@ == lens_s,
            total == cur@.len(),
            covers(lens_s, cur@.len() as int),
            0 <= i <= lens_s.len(),
            start == offset(lens_s, i as int),
            ids_all == chunk_ids(kind, cur@, lens_s),
            recs_all == chunk_records(kind, cur@, lens_s),
            index@ == index_payload(kind, ids_all.take(i as int)),
            record_bytes(records@) == record_bytes(before) + recs_all.take(i as int),
            forall|j: int|
                0 <= j < records@.len() ==> (#[trigger] records@[j]).oid@ == sha512_of(
                    records@[j].bytes@,
                )@,
        decreases lens_s.len() - i,
    {
        proof {
            lemma_chunk_exact(cur@, lens_s, i as int);
            assert(offset(lens_s, i + 1) == offset(lens_s, i as int) + lens_s[i as int]);
        }
        let end = start + lens[i];
        let rec = make_record(kind, &cur[start..end]);
        let ghost old_records = records@;
        append_bytes(&mut index, rec.oid.as_bytes());
        proof {
            lemma_record_bytes_push(old_records, rec);
        }
        records.push(rec);
        proof {
            assert(ids_all.take(i + 1).drop_last() =~= ids_all.take(i as int));
            assert(index@ =~= index_payload(kind, ids_all.take(i + 1)));
            assert(recs_all.take(i + 1) =~= recs_all.take(i as int) + seq![recs_all[i as int]]);
            assert(record_bytes(records@) =~= record_bytes(before) + recs_all.take(i + 1));
        }
        start = end;
        i = i + 1;
    }
    proof {
        assert(ids_all.take(i as int) =~= ids_all);
        assert(recs_all.take(i as int) =~= recs_all);
        assert(kind_bytes(kind).len() == 8);
    }
    index
}

/// Plans storing `data` as a blob: cuts it into chunks, stores each as a
/// piece, and lists the chunks in an index that is itself stored the same
/// way, until one object remains. Nothing is written; the plan lists the
/// records to write.
pub fn put_blob(data: &[u8]) -> (r: Result<BlobPlan, Error>)
    ensures
        r is Ok <==> put_levels(Kind::Piece, data@, 0) is Ok,
        r is Ok ==> r->Ok_0.root@ == put_levels(Kind::Piece, data@, 0)->Ok_0.0,
        r is Ok ==> record_bytes(r->Ok_0.records@) == put_levels(Kind::Piece, data@, 0)->Ok_0.1,
        r is Ok ==> forall|j: int|
            0 <= j < r->Ok_0.records@.len() ==> (#[trigger] r->Ok_0.records@[j]).oid@ == sha512_of(
                r->Ok_0.records@[j].bytes@,
            )@,
        r is Err ==> r->Err_0 == put_levels(Kind::Piece, data@, 0)->Err_0,
        r is Ok ==> forall|s: StoreView|
            #[trigger] holds_records(s, record_bytes(r->Ok_0.records@)) ==> blob_read(
                s,
                ReadStart::Stored(r->Ok_0.root@),
            ) == Ok::<Option<Seq<u8>>, Error>(Some(data@)),
        bup_chunk_lens(data@).len() <= 1 ==> r is Ok && r->Ok_0.records@.len() == 1
            && r->Ok_0.records@[0].bytes@ == record_of(Kind::Piece, data@) && r->Ok_0.root@
            == object_id(Kind::Piece, data@),
        covers(bup_chunk_lens(data@), data@.len() as int),
        data@.len() <= 1 ==> bup_chunk_lens(data@).len() <= 1,
        data@.len() == 0 ==> r is Ok && r->Ok_0.records@.len() == 1
            && r->Ok_0.records@[0].bytes@ == kind_bytes(Kind::Piece),
        r is Ok && data@.len() > 0 ==> forall|j: int|
            0 <= j < r->Ok_0.records@.len() ==> (#[trigger] r->Ok_0.records@[j]).bytes@.len() > 8,
{
    let mut records: Vec<Record> = Vec::new();
    let mut kind = Kind::Piece;
    let mut cur: Vec<u8> = slice_to_vec(data);
    let mut level: usize = 0;
    proof {
        assert(record_bytes(records@) =~= Seq::<Seq<u8>>::empty());
        assert(put_levels(Kind::Piece, data@, 0) =~= after_records(
            record_bytes(records@),
            put_levels(kind, cur@, level as nat),
        )) by {
            match put_levels(Kind::Piece, data@, 0) {
                Ok((root, recs)) => {
                    assert(Seq::<Seq<u8>>::empty() + recs =~= recs);
                },
                Err(_) => {},
            }
        }
    }
    loop
        invariant
            level <= MAX_DEPTH,
            level == 0 ==> kind == Kind::Piece && cur@ == data@ && records@.len() == 0,
            level > 0 ==> bup_chunk_lens(data@).len() > 1,
            put_levels(Kind::Piece, data@, 0) == after_records(
                record_bytes(records@),
                put_levels(kind, cur@, level as nat),
            ),
            forall|j: int|
                0 <= j < records@.len() ==> (#[trigger] records@[j]).oid@ == sha512_of(
                    records@[j].bytes@,
                )@,
            level > 0 ==> covers(bup_chunk_lens(data@), data@.len() as int),
            data@.len() > 0 ==> cur@.len() > 0,
            data@.len() > 0 ==> forall|j: int|
                0 <= j < records@.len() ==> (#[trigger] records@[j]).bytes@.len() > 8,
        decreases MAX_DEPTH - level,
    {
        let lens = chunk_lengths(cur.as_slice());
        proof {
            if level == 0 {
                if data@.len() <= 1 {
                    lemma_short_data_one_chunk(lens@, data@.len() as int);
                }
                if data@.len() == 0 {
                    assert(data@ =~= Seq::<u8>::empty());
                    assert(record_of(Kind::Piece, data@) =~= kind_bytes(Kind::Piece));
                }
            } else if data@.len() <= 1 {
                lemma_short_data_one_chunk(bup_chunk_lens(data@), data@.len() as int);
            }
        }
        if lens.len() <= 1 {
            let rec = make_record(kind, cur.as_slice());
            let root = Oid::from_bytes(rec.oid.as_bytes());
            let ghost before = records@;
            proof {
                lemma_record_bytes_push(before, rec);
            }
            records.push(rec);
            proof {
                assert(records@[before.len() as int] == rec);
                assert(kind_bytes(kind).len() == 8);
                assert forall|s: StoreView| #[trigger] holds_records(s, record_bytes(records@)) implies blob_read(
                    s,
                    ReadStart::Stored(root@),
                ) == Ok::<Option<Seq<u8>>, Error>(Some(data@)) by {
                    lemma_blob_round_trip(data@, s);
                }
            }
            return Ok(BlobPlan { root, records });
        }
        if level >= MAX_DEPTH {
            return Err(Error::TooDeep);
        }
        let ghost before = records@;
        let index = store_chunks(kind, cur.as_slice(), &lens, &mut records);
        proof {
            let recs_all = chunk_records(kind, cur@, lens@);
            lemma_chunk_records_nonempty(kind, cur@, lens@);
            if data@.len() > 0 {
                assert forall|j: int| 0 <= j < records@.len() implies (
                #[trigger] records@[j]).bytes@.len() > 8 by {
                    assert(record_bytes(records@)[j] == records@[j].bytes@);
                    if j < before.len() {
                        assert(record_bytes(before)[j] == before[j].bytes@);
                        assert(record_bytes(records@)[j] == record_bytes(before)[j]);
                    } else {
                        assert(record_bytes(records@).len() == record_bytes(before).len()
                            + recs_all.len());
                        assert(record_bytes(records@)[j] == recs_all[j - before.len()]);
                    }
                }
            }
            let rest = put_levels(Kind::Blob, index@, (level + 1) as nat);
            match rest {
                Ok((root, recs)) => {
                    assert((record_bytes(before) + recs_all) + recs =~= record_bytes(before) + (
                    recs_all + recs));
                },
                Err(_) => {},
            }
        }
        cur = index;
        kind = Kind::Blob;
        level = level + 1;
    }
}

} // verus!
