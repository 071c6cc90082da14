use crate::error::Error;
use crate::index::{index_entries, parse_index, parse_index_header};
use crate::kind::KIND_LEN;
use crate::oid::OID_LEN;
use crate::kind::Kind;
use crate::oid::Oid;
use crate::record::{append_bytes, check_record, Object, StoreView};
use vstd::prelude::*;

verus! {

/// How many index levels a blob may nest.
pub const MAX_DEPTH: usize = 8;

/// The payload of child `oid` of an index whose children have kind `sub`.
pub open spec fn child_payload(s: StoreView, sub: Kind, oid: Seq<u8>) -> Result<Seq<u8>, Error> {
    if !s.contains_key(oid) {
        Err(Error::MissingChild)
    } else {
        match check_record(oid, s[oid]) {
            Err(e) => Err(e),
            Ok((k, p)) => if k != sub {
                Err(Error::WrongChildKind)
            } else {
                Ok(p)
            },
        }
    }
}

/// The payloads of the children `ids`, in order, joined; or the error of the
/// first child that fails.
pub open spec fn gather(s: StoreView, sub: Kind, ids: Seq<Seq<u8>>) -> Result<Seq<u8>, Error>
    decreases ids.len(),
{
    if ids.len() == 0 {
        Ok(Seq::empty())
    } else {
        match gather(s, sub, ids.drop_last()) {
            Err(e) => Err(e),
            Ok(a) => match child_payload(s, sub, ids.last()) {
                Err(e) => Err(e),
                Ok(p) => Ok(a + p),
            },
        }
    }
}

/// The bytes that an object of kind `k` with payload `p` stands for, reading
/// at most `n` levels of index.
pub open spec fn interpret(s: StoreView, k: Kind, p: Seq<u8>, n: nat) -> Result<Seq<u8>, Error>
    decreases n,
{
    match k {
        Kind::Piece => Ok(p),
        Kind::Tree => Err(Error::TreeNotAllowed),
        Kind::Blob => if n == 0 {
            Err(Error::TooDeep)
        } else {
            match parse_index(p) {
                Err(e) => Err(e),
                Ok((sub, ids)) => match gather(s, sub, ids) {
                    Err(e) => Err(e),
                    Ok(a) => interpret(s, sub, a, (n - 1) as nat),
                },
            }
        },
    }
}

/// Where reading a blob starts: at a stored object, or at an object already
/// in hand.
pub enum ReadStart {
    /// The object stored under this id.
    Stored(Seq<u8>),
    /// An object of this kind with this payload.
    InHand(Kind, Seq<u8>),
}

/// What reading a blob from `start` yields: nothing when the stored object
/// is absent, else the bytes it stands for.
pub open spec fn blob_read(s: StoreView, start: ReadStart) -> Result<Option<Seq<u8>>, Error> {
    match start {
        ReadStart::Stored(oid) => if !s.contains_key(oid) {
            Ok(None)
        } else {
            match check_record(oid, s[oid]) {
                Err(e) => Err(e),
                Ok((k, p)) => some_of(interpret(s, k, p, MAX_DEPTH as nat)),
            }
        },
        ReadStart::InHand(k, p) => some_of(interpret(s, k, p, MAX_DEPTH as nat)),
    }
}

/// `r`, with its value wrapped as present.
pub open spec fn some_of(r: Result<Seq<u8>, Error>) -> Result<Option<Seq<u8>>, Error> {
    match r {
        Err(e) => Err(e),
        Ok(v) => Ok(Some(v)),
    }
}

/// Whether store `s` holds, under each id that was fetched, the record that
/// was handed over for it, and nothing under an id reported absent.
pub open spec fn agrees(s: StoreView, fed: Seq<(Seq<u8>, Option<Seq<u8>>)>) -> bool {
    forall|i: int| 0 <= i < fed.len() ==> #[trigger] agrees_one(s, fed[i])
}

/// Whether store `s` holds what one fetch reported.
pub open spec fn agrees_one(s: StoreView, f: (Seq<u8>, Option<Seq<u8>>)) -> bool {
    match f.1 {
        Some(rec) => s.contains_key(f.0) && s[f.0] == rec,
        None => !s.contains_key(f.0),
    }
}

/// A failure among the first children is the failure of them all.
pub proof fn lemma_gather_prefix_err(s: StoreView, sub: Kind, ids: Seq<Seq<u8>>, j: int)
    requires
        0 <= j <= ids.len(),
        gather(s, sub, ids.take(j)) is Err,
    ensures
        gather(s, sub, ids) == gather(s, sub, ids.take(j)),
    decreases ids.len() - j,
{
    if j < ids.len() {
        assert(ids.take(j + 1).drop_last() =~= ids.take(j));
        assert(gather(s, sub, ids.take(j + 1)) == gather(s, sub, ids.take(j)));
        lemma_gather_prefix_err(s, sub, ids, j + 1);
    } else {
        assert(ids.take(j) =~= ids);
    }
}

/// Gathering one child more adds that child's payload, or fails with it.
pub proof fn lemma_gather_step(s: StoreView, sub: Kind, ids: Seq<Seq<u8>>, j: int)
    requires
        0 <= j < ids.len(),
    ensures
        gather(s, sub, ids.take(j + 1)) == match gather(s, sub, ids.take(j)) {
            Err(e) => Err(e),
            Ok(a) => match child_payload(s, sub, ids[j]) {
                Err(e) => Err(e),
                Ok(p) => Ok(a + p),
            },
        },
{
    assert(ids.take(j + 1).drop_last() =~= ids.take(j));
    assert(ids.take(j + 1).last() == ids[j]);
}

/// Agreeing with one fetch more is agreeing with the earlier ones and with it.
pub proof fn lemma_agrees_push(
    s: StoreView,
    fed: Seq<(Seq<u8>, Option<Seq<u8>>)>,
    f: (Seq<u8>, Option<Seq<u8>>),
)
    requires
        agrees(s, fed.push(f)),
    ensures
        agrees(s, fed),
        agrees_one(s, f),
{
    assert forall|i: int| 0 <= i < fed.len() implies #[trigger] agrees_one(s, fed[i]) by {
        assert(fed.push(f)[i] == fed[i]);
    }
    assert(fed.push(f)[fed.len() as int] == f);
}

/// When child `j` fails, after the children before it were read, reading all
/// of the children fails the same way.
pub proof fn lemma_child_fails(s: StoreView, sub: Kind, ids: Seq<Seq<u8>>, j: int, acc: Seq<u8>, e: Error)
    requires
        0 <= j < ids.len(),
        gather(s, sub, ids.take(j)) == Ok::<Seq<u8>, Error>(acc),
        child_payload(s, sub, ids[j]) == Err::<Seq<u8>, Error>(e),
    ensures
        gather(s, sub, ids) == Err::<Seq<u8>, Error>(e),
{
    lemma_gather_step(s, sub, ids, j);
    lemma_gather_prefix_err(s, sub, ids, j + 1);
}

/// The bytes of a fetched record, if one was found.
pub open spec fn found_bytes(record: Option<Vec<u8>>) -> Option<Seq<u8>> {
    match record {
        Some(v) => Some(v@),
        None => None,
    }
}

/// What a blob read from the children `ids` of kind `sub` on yields, with
/// `levels` further levels of index allowed.
pub open spec fn children_read(s: StoreView, sub: Kind, ids: Seq<Seq<u8>>, levels: nat) -> Result<
    Option<Seq<u8>>,
    Error,
> {
    match gather(s, sub, ids) {
        Err(e) => Err(e),
        Ok(a) => some_of(interpret(s, sub, a, levels)),
    }
}

/// Whether budget `a` lies below budget `b` in lexicographic order.
pub open spec fn lex_below(a: (nat, nat), b: (nat, nat)) -> bool {
    a.0 < b.0 || (a.0 == b.0 && a.1 < b.1)
}

/// What reading a blob asks of its caller next.
#[derive(Debug)]
pub enum BlobStep {
    /// Fetch the record stored under this id and feed it to the reader.
    Fetch(Oid),
    /// The bytes of the blob.
    Done(Vec<u8>),
    /// The object the read started at is not in the store.
    Absent,
}

enum Phase {
    Root(Oid),
    Children { sub: Kind, index: Vec<u8>, next: usize, acc: Vec<u8>, levels: usize },
    Finished,
}

/// Reads a blob back, one fetched record at a time.
///
/// The reader never touches the store: each step names the id it needs, and
/// the caller feeds back the record stored under it, or reports it absent.
/// Each record is checked against its id. The result is what the blob reads
/// as in any store that holds what was fed.
pub struct BlobReader {
    start: Ghost<ReadStart>,
    fed: Ghost<Seq<(Seq<u8>, Option<Seq<u8>>)>>,
    phase: Phase,
}

impl BlobReader {
    /// Where this read started.
    pub closed spec fn start(&self) -> ReadStart {
        self.start@
    }

    /// The ids fetched so far, each with the record fed for it.
    pub closed spec fn fed(&self) -> Seq<(Seq<u8>, Option<Seq<u8>>)> {
        self.fed@
    }

    /// Whether the reader waits for a record.
    pub closed spec fn is_waiting(&self) -> bool {
        !(self.phase is Finished)
    }

    /// The id whose record the reader waits for.
    pub closed spec fn wanted(&self) -> Seq<u8> {
        match self.phase {
            Phase::Root(oid) => oid@,
            Phase::Children { index, next, .. } => index_entries(index@)[next as int],
            Phase::Finished => Seq::empty(),
        }
    }

    /// What is left of the read, which every fetch lowers in lexicographic
    /// order: the levels of index still allowed, then the children still to
    /// fetch at this level.
    pub closed spec fn budget(&self) -> (nat, nat) {
        match self.phase {
            Phase::Root(_) => ((MAX_DEPTH + 1) as nat, 0),
            Phase::Children { index, next, levels, .. } => (
                levels as nat,
                (index_entries(index@).len() - next) as nat,
            ),
            Phase::Finished => (0, 0),
        }
    }

    /// Whether the reader's state accounts for what it has been fed.
    pub closed spec fn wf(&self) -> bool {
        match self.phase {
            Phase::Root(oid) => self.start@ == ReadStart::Stored(oid@),
            Phase::Children { sub, index, next, acc, levels } => {
                &&& parse_index(index@) == Ok::<(Kind, Seq<Seq<u8>>), Error>(
                    (sub, index_entries(index@)),
                )
                &&& next < index_entries(index@).len()
                &&& levels < MAX_DEPTH
                &&& forall|s: StoreView|
                    #[trigger] agrees(s, self.fed@) ==> gather(
                        s,
                        sub,
                        index_entries(index@).take(next as int),
                    ) == Ok::<Seq<u8>, Error>(acc@) && blob_read(s, self.start@) == children_read(
                        s,
                        sub,
                        index_entries(index@),
                        levels as nat,
                    )
            },
            Phase::Finished => true,
        }
    }

    /// Whether step `r` is what the reader's state and what it was fed call
    /// for: a fetch of the id it now waits for, or the result of the read in
    /// every store that agrees with what was fed.
    pub open spec fn settled(&self, r: Result<BlobStep, Error>) -> bool {
        match r {
            Ok(BlobStep::Fetch(o)) => self.is_waiting() && self.wanted() == o@,
            Ok(BlobStep::Done(d)) => !self.is_waiting() && forall|s: StoreView|
                #[trigger] agrees(s, self.fed()) ==> blob_read(s, self.start()) == Ok::<
                    Option<Seq<u8>>,
                    Error,
                >(Some(d@)),
            Ok(BlobStep::Absent) => !self.is_waiting() && forall|s: StoreView|
                #[trigger] agrees(s, self.fed()) ==> blob_read(s, self.start()) == Ok::<
                    Option<Seq<u8>>,
                    Error,
                >(None),
            Err(e) => !self.is_waiting() && forall|s: StoreView|
                #[trigger] agrees(s, self.fed()) ==> blob_read(s, self.start()) == Err::<
                    Option<Seq<u8>>,
                    Error,
                >(e),
        }
    }

    /// Starts reading the blob stored under `oid`; the first record to fetch
    /// is the one under `oid`.
    pub fn new(oid: Oid) -> (r: BlobReader)
        ensures
            r.wf(),
            r.start() == ReadStart::Stored(oid@),
            r.fed() == Seq::<(Seq<u8>, Option<Seq<u8>>)>::empty(),
            r.is_waiting(),
            r.wanted() == oid@,
    {
        BlobReader {
            start: Ghost(ReadStart::Stored(oid@)),
            fed: Ghost(Seq::empty()),
            phase: Phase::Root(oid),
        }
    }

    /// Starts reading the bytes that an object of kind `kind` holding
    /// `payload` stands for.
    pub fn resume(kind: Kind, payload: Vec<u8>) -> (r: (BlobReader, Result<BlobStep, Error>))
        ensures
            r.0.wf(),
            r.0.start() == ReadStart::InHand(kind, payload@),
            r.0.fed() == Seq::<(Seq<u8>, Option<Seq<u8>>)>::empty(),
            r.0.settled(r.1),
            r.1 is Ok && r.1->Ok_0 is Fetch ==> r.0.budget().0 < MAX_DEPTH,
    {
        let mut reader = BlobReader {
            start: Ghost(ReadStart::InHand(kind, payload@)),
            fed: Ghost(Seq::empty()),
            phase: Phase::Finished,
        };
        let step = reader.settle(kind, payload, MAX_DEPTH);
        (reader, step)
    }

    /// Works through an object of kind `kind` holding `payload` until a
    /// record is needed or the read is over.
    fn settle(&mut self, kind: Kind, payload: Vec<u8>, levels: usize) -> (r: Result<BlobStep, Error>)
        requires
            levels <= MAX_DEPTH,
            forall|s: StoreView|
                #[trigger] agrees(s, old(self).fed@) ==> blob_read(s, old(self).start@) == some_of(
                    interpret(s, kind, payload@, levels as nat),
                ),
        ensures
            final(self).wf(),
            final(self).start@ == old(self).start@,
            final(self).fed@ == old(self).fed@,
            final(self).settled(r),
            r is Ok && r->Ok_0 is Fetch ==> final(self).budget().0 < levels,
    {
        let mut k = kind;
        let mut p = payload;
        let mut n = levels;
        loop
            invariant
                n <= levels,
                levels <= MAX_DEPTH,
                self.start@ == old(self).start@,
                self.fed@ == old(self).fed@,
                forall|s: StoreView|
                    #[trigger] agrees(s, self.fed@) ==> blob_read(s, self.start@) == some_of(
                        interpret(s, k, p@, n as nat),
                    ),
            decreases n,
        {
            match k {
                Kind::Piece => {
                    self.phase = Phase::Finished;
                    return Ok(BlobStep::Done(p));
                },
                Kind::Tree => {
                    self.phase = Phase::Finished;
                    return Err(Error::TreeNotAllowed);
                },
                Kind::Blob => {
                    if n == 0 {
                        self.phase = Phase::Finished;
                        return Err(Error::TooDeep);
                    }
                    let sub = match parse_index_header(p.as_slice()) {
                        Ok(sub) => sub,
                        Err(e) => {
                            self.phase = Phase::Finished;
                            return Err(e);
                        },
                    };
                    let count = (p.len() - KIND_LEN) / OID_LEN;
                    proof {
                        assert(parse_index(p@) == Ok::<(Kind, Seq<Seq<u8>>), Error>(
                            (sub, index_entries(p@)),
                        ));
                        assert(index_entries(p@).len() == count);
                    }
                    if count == 0 {
                        proof {
                            assert(index_entries(p@) =~= Seq::<Seq<u8>>::empty());
                        }
                        k = sub;
                        p = Vec::new();
                        n = n - 1;
                    } else {
                        assert(KIND_LEN + OID_LEN <= p.len()) by (nonlinear_arith)
                            requires
                                count == (p.len() - 8) / 64,
                                count > 0,
                        ;
                        let first = Oid::from_bytes(&p.as_slice()[KIND_LEN..KIND_LEN + OID_LEN]);
                        let ghost ids = index_entries(p@);
                        proof {
                            assert(first@ == ids[0]);
                            assert(ids.take(0) =~= Seq::<Seq<u8>>::empty());
                        }
                        let acc: Vec<u8> = Vec::new();
                        self.phase = Phase::Children { sub, index: p, next: 0, acc, levels: n - 1 };
                        return Ok(BlobStep::Fetch(first));
                    }
                },
            }
        }
    }
    /// Hands the reader the record stored under the id it waits for, or
    /// `None` when the store holds no such record, and works on until another
    /// record is needed or the read is over.
    pub fn feed(&mut self, record: Option<Vec<u8>>) -> (r: Result<BlobStep, Error>)
        requires
            old(self).wf(),
            old(self).is_waiting(),
        ensures
            final(self).wf(),
            final(self).start() == old(self).start(),
            final(self).fed() == old(self).fed().push((old(self).wanted(), found_bytes(record))),
            final(self).settled(r),
            r is Ok && r->Ok_0 is Fetch ==> lex_below(final(self).budget(), old(self).budget()),
    {
        let ghost old_fed = self.fed@;
        let ghost f = (self.wanted(), found_bytes(record));
        let mut phase = Phase::Finished;
        core::mem::swap(&mut phase, &mut self.phase);
        self.fed = Ghost(self.fed@.push(f));
        match phase {
            Phase::Root(oid) => {
                let rec = match record {
                    None => {
                        proof {
                            assert forall|s: StoreView| #[trigger] agrees(s, self.fed@) implies blob_read(
                                s,
                                self.start@,
                            ) == Ok::<Option<Seq<u8>>, Error>(None) by {
                                lemma_agrees_push(s, old_fed, f);
                            }
                        }
                        return Ok(BlobStep::Absent);
                    },
                    Some(rec) => rec,
                };
                match Object::from_record(oid, rec.as_slice()) {
                    Err(e) => {
                        proof {
                            assert forall|s: StoreView| #[trigger] agrees(s, self.fed@) implies blob_read(
                                s,
                                self.start@,
                            ) == Err::<Option<Seq<u8>>, Error>(e) by {
                                lemma_agrees_push(s, old_fed, f);
                            }
                        }
                        Err(e)
                    },
                    Ok(obj) => {
                        let k = obj.kind();
                        let p = obj.into_payload();
                        proof {
                            assert forall|s: StoreView| #[trigger] agrees(s, self.fed@) implies blob_read(
                                s,
                                self.start@,
                            ) == some_of(interpret(s, k, p@, MAX_DEPTH as nat)) by {
                                lemma_agrees_push(s, old_fed, f);
                            }
                        }
                        self.settle(k, p, MAX_DEPTH)
                    },
                }
            },
            Phase::Children { sub, index, next, acc, levels } => {
                let ghost ids = index_entries(index@);
                let count = (index.len() - KIND_LEN) / OID_LEN;
                assert(KIND_LEN + OID_LEN * next + OID_LEN <= index.len()) by (nonlinear_arith)
                    requires
                        count == (index.len() - 8) / 64,
                        next < count,
                ;
                let at = KIND_LEN + OID_LEN * next;
                let oid = Oid::from_bytes(&index.as_slice()[at..at + OID_LEN]);
                assert(oid@ == ids[next as int]);
                let rec = match record {
                    None => {
                        proof {
                            assert forall|s: StoreView| #[trigger] agrees(s, self.fed@) implies blob_read(
                                s,
                                self.start@,
                            ) == Err::<Option<Seq<u8>>, Error>(Error::MissingChild) by {
                                lemma_agrees_push(s, old_fed, f);
                                lemma_child_fails(s, sub, ids, next as int, acc@, Error::MissingChild);
                            }
                        }
                        return Err(Error::MissingChild);
                    },
                    Some(rec) => rec,
                };
                let obj = match Object::from_record(oid, rec.as_slice()) {
                    Err(e) => {
                        proof {
                            assert forall|s: StoreView| #[trigger] agrees(s, self.fed@) implies blob_read(
                                s,
                                self.start@,
                            ) == Err::<Option<Seq<u8>>, Error>(e) by {
                                lemma_agrees_push(s, old_fed, f);
                                lemma_child_fails(s, sub, ids, next as int, acc@, e);
                            }
                        }
                        return Err(e);
                    },
                    Ok(obj) => obj,
                };
                if obj.kind() != sub {
                    proof {
                        assert forall|s: StoreView| #[trigger] agrees(s, self.fed@) implies blob_read(
                            s,
                            self.start@,
                        ) == Err::<Option<Seq<u8>>, Error>(Error::WrongChildKind) by {
                            lemma_agrees_push(s, old_fed, f);
                            lemma_child_fails(s, sub, ids, next as int, acc@, Error::WrongChildKind);
                        }
                    }
                    return Err(Error::WrongChildKind);
                }
                let ghost old_acc = acc@;
                let mut acc = acc;
                append_bytes(&mut acc, obj.payload());
                let next = next + 1;
                proof {
                    assert forall|s: StoreView| #[trigger] agrees(s, self.fed@) implies gather(
                        s,
                        sub,
                        ids.take(next as int),
                    ) == Ok::<Seq<u8>, Error>(acc@) && blob_read(s, self.start@) == children_read(
                        s,
                        sub,
                        ids,
                        levels as nat,
                    ) by {
                        lemma_agrees_push(s, old_fed, f);
                        lemma_gather_step(s, sub, ids, next - 1);
                    }
                }
                if next < count {
                    assert(KIND_LEN + OID_LEN * next + OID_LEN <= index.len()) by (nonlinear_arith)
                        requires
                            count == (index.len() - 8) / 64,
                            next < count,
                    ;
                    let at = KIND_LEN + OID_LEN * next;
                    let want = Oid::from_bytes(&index.as_slice()[at..at + OID_LEN]);
                    assert(want@ == ids[next as int]);
                    self.phase = Phase::Children { sub, index, next, acc, levels };
                    Ok(BlobStep::Fetch(want))
                } else {
                    proof {
                        assert(ids.take(next as int) =~= ids);
                        assert forall|s: StoreView| #[trigger] agrees(s, self.fed@) implies blob_read(
                            s,
                            self.start@,
                        ) == some_of(interpret(s, sub, acc@, levels as nat)) by {}
                    }
                    self.settle(sub, acc, levels)
                }
            },
            Phase::Finished => {
                proof {
                    assert(false);
                }
                Ok(BlobStep::Absent)
            },
        }
    }
}

} // verus!
