use crate::error::Error;
use crate::kind::{kind_at, kind_bytes, lemma_kind_bytes_read_back, Kind, KIND_LEN};
use crate::oid::{Oid, OID_LEN};
use vstd::prelude::*;

verus! {

/// The ids of `ids` written one after another.
pub open spec fn concat_ids(ids: Seq<Seq<u8>>) -> Seq<u8>
    decreases ids.len(),
{
    if ids.len() == 0 {
        Seq::empty()
    } else {
        concat_ids(ids.drop_last()) + ids.last()
    }
}

/// The payload of an index: the kind of the listed objects, then their ids.
pub open spec fn index_payload(sub: Kind, ids: Seq<Seq<u8>>) -> Seq<u8> {
    kind_bytes(sub) + concat_ids(ids)
}

/// The ids that follow the kind tag of index payload `p`, `OID_LEN` bytes each.
pub open spec fn index_entries(p: Seq<u8>) -> Seq<Seq<u8>> {
    Seq::new(
        ((p.len() - 8) / 64) as nat,
        |i: int| p.subrange(8 + 64 * i, 8 + 64 * i + 64),
    )
}

/// How an index payload reads: the kind of its children and their ids.
/// Children that are trees, a short tag, an unknown tag and a trailing
/// partial id are all refused.
pub open spec fn parse_index(p: Seq<u8>) -> Result<(Kind, Seq<Seq<u8>>), Error> {
    match kind_at(p) {
        Err(e) => Err(e),
        Ok(sub) => if sub == Kind::Tree {
            Err(Error::TreeNotAllowed)
        } else if (p.len() - 8) % 64 != 0 {
            Err(Error::PartialEntry)
        } else {
            Ok((sub, index_entries(p)))
        },
    }
}

/// Whether every id of `ids` has the width of a digest.
pub open spec fn all_digest_wide(ids: Seq<Seq<u8>>) -> bool {
    forall|i: int| 0 <= i < ids.len() ==> (#[trigger] ids[i]).len() == 64
}

/// Ids of digest width, written one after another, fill 64 bytes each and can
/// be cut apart again.
pub proof fn lemma_concat_ids(ids: Seq<Seq<u8>>)
    requires
        all_digest_wide(ids),
    ensures
        concat_ids(ids).len() == 64 * ids.len(),
        forall|i: int|
            0 <= i < ids.len() ==> #[trigger] concat_ids(ids).subrange(64 * i, 64 * i + 64)
                == ids[i],
    decreases ids.len(),
{
    if ids.len() > 0 {
        let front = ids.drop_last();
        assert(all_digest_wide(front)) by {
            assert forall|i: int| 0 <= i < front.len() implies (#[trigger] front[i]).len() == 64 by {
                assert(front[i] == ids[i]);
            }
        }
        lemma_concat_ids(front);
        let c = concat_ids(ids);
        assert(c == concat_ids(front) + ids.last());
        assert forall|i: int| 0 <= i < ids.len() implies #[trigger] c.subrange(64 * i, 64 * i + 64)
            == ids[i] by {
            if i < ids.len() - 1 {
                assert(front[i] == ids[i]);
                assert(c.subrange(64 * i, 64 * i + 64) =~= concat_ids(front).subrange(
                    64 * i,
                    64 * i + 64,
                ));
            } else {
                assert(c.subrange(64 * i, 64 * i + 64) =~= ids.last());
            }
        }
    }
}

/// An index built from ids of digest width reads back as the same kind and
/// ids.
pub proof fn lemma_index_round_trip(sub: Kind, ids: Seq<Seq<u8>>)
    requires
        sub != Kind::Tree,
        all_digest_wide(ids),
    ensures
        parse_index(index_payload(sub, ids)) == Ok::<(Kind, Seq<Seq<u8>>), Error>((sub, ids)),
{
    lemma_kind_bytes_read_back(sub, concat_ids(ids));
    lemma_concat_ids(ids);
    let p = index_payload(sub, ids);
    assert((p.len() - 8) / 64 == ids.len()) by (nonlinear_arith)
        requires
            p.len() - 8 == 64 * ids.len(),
    ;
    assert((p.len() - 8) % 64 == 0) by (nonlinear_arith)
        requires
            p.len() - 8 == 64 * ids.len(),
    ;
    let e = index_entries(p);
    assert forall|i: int| 0 <= i < ids.len() implies #[trigger] e[i] == ids[i] by {
        assert(e[i] =~= concat_ids(ids).subrange(64 * i, 64 * i + 64));
    }
    assert(e =~= ids);
}

/// Reads the id that starts at `pos` in index payload `index`.
///
/// The end of the payload ends the list; fewer than `OID_LEN` bytes before
/// the end are a partial entry.
pub fn read_piece_entry(index: &[u8], pos: usize) -> (r: Result<Option<Oid>, Error>)
    requires
        pos <= index@.len(),
    ensures
        pos == index@.len() ==> r == Ok::<Option<Oid>, Error>(None),
        pos < index@.len() && index@.len() - pos < 64 ==> r == Err::<Option<Oid>, Error>(
            Error::PartialEntry,
        ),
        index@.len() - pos >= 64 ==> r is Ok && r->Ok_0 is Some && r->Ok_0->Some_0@
            == index@.subrange(pos as int, pos + 64),
{
    if pos == index.len() {
        return Ok(None);
    }
    if index.len() - pos < OID_LEN {
        return Err(Error::PartialEntry);
    }
    Ok(Some(Oid::from_bytes(&index[pos..pos + OID_LEN])))
}

/// Checks the header of an index payload: the kind of its children, which may
/// not be trees, and a length that holds whole ids.
pub fn parse_index_header(p: &[u8]) -> (r: Result<Kind, Error>)
    ensures
        r is Ok <==> parse_index(p@) is Ok,
        r is Ok ==> r->Ok_0 == parse_index(p@)->Ok_0.0,
        r is Err ==> r->Err_0 == parse_index(p@)->Err_0,
{
    let sub = match Kind::from_bytes(p) {
        Ok(k) => k,
        Err(e) => return Err(e),
    };
    if sub == Kind::Tree {
        return Err(Error::TreeNotAllowed);
    }
    if (p.len() - KIND_LEN) % OID_LEN != 0 {
        return Err(Error::PartialEntry);
    }
    Ok(sub)
}

} // verus!
