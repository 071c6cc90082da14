use crate::record::append_bytes;
use rand::Rng;
use vstd::prelude::*;

verus! {

/// How many random characters follow the prefix of a temporary directory's
/// name.
pub const TEMP_SUFFIX_LEN: usize = 10;

/// How many ASCII letters there are, upper and lower case together.
const LETTER_COUNT: u8 = 52;

/// Whether `c` is an ASCII letter.
pub open spec fn is_ascii_letter(c: u8) -> bool {
    (0x41 <= c <= 0x5a) || (0x61 <= c <= 0x7a)
}

/// Relies on rand's `thread_rng` sampled with `Uniform::new(0, bound)`, which
/// draws each value from `0..bound` and panics when that range is empty.
#[verifier::external_body]
fn random_below(bound: u8, n: usize) -> (r: Vec<u8>)
    requires
        bound > 0,
    ensures
        r@.len() == n,
        forall|i: int| 0 <= i < r@.len() ==> #[trigger] r@[i] < bound,
{
    rand::thread_rng().sample_iter(rand::distributions::Uniform::new(0u8, bound)).take(n).collect()
}

/// The ASCII letter numbered `v`: upper case first, then lower case.
fn letter(v: u8) -> (r: u8)
    requires
        v < LETTER_COUNT,
    ensures
        is_ascii_letter(r),
{
    if v < 26 {
        0x41 + v
    } else {
        0x61 + (v - 26)
    }
}

/// A fresh name for a temporary directory: `prefix` followed by random ASCII
/// letters.
pub fn tempdir_name(prefix: &[u8]) -> (r: Vec<u8>)
    ensures
        r@.len() == prefix@.len() + TEMP_SUFFIX_LEN,
        r@.subrange(0, prefix@.len() as int) == prefix@,
        forall|i: int| prefix@.len() <= i < r@.len() ==> is_ascii_letter(#[trigger] r@[i]),
{
    let draws = random_below(LETTER_COUNT, TEMP_SUFFIX_LEN);
    let mut name: Vec<u8> = Vec::new();
    append_bytes(&mut name, prefix);
    let mut i: usize = 0;
    while i < draws.len()
        invariant
            draws@.len() == TEMP_SUFFIX_LEN,
            forall|j: int| 0 <= j < draws@.len() ==> #[trigger] draws@[j] < LETTER_COUNT,
            0 <= i <= draws@.len(),
            name@.len() == prefix@.len() + i,
            name@.subrange(0, prefix@.len() as int) == prefix@,
            forall|j: int| prefix@.len() <= j < name@.len() ==> is_ascii_letter(#[trigger] name@[j]),
        decreases draws@.len() - i,
    {
        let c = letter(draws[i]);
        let ghost before = name@;
        name.push(c);
        proof {
            assert(name@.subrange(0, prefix@.len() as int) =~= before.subrange(0, prefix@.len() as int));
            assert forall|j: int| prefix@.len() <= j < name@.len() implies is_ascii_letter(
                #[trigger] name@[j],
            ) by {
                if j < before.len() {
                    assert(name@[j] == before[j]);
                }
            }
        }
        i = i + 1;
    }
    name
}

/// A step of opening a directory that may not exist yet.
#[derive(Debug, Clone, Copy, PartialEq, Eq, Structural)]
pub enum DirStep {
    /// Open the directory.
    Open,
    /// Create the directory.
    Create,
    /// Open the directory once more, after trying to create it.
    Reopen,
    /// Draw a new name and create a directory under it.
    Rename,
    /// The directory is open.
    Done,
    /// Give up, passing on the error of the last attempt.
    Fail,
}

/// How an attempt to open or create a directory ended.
#[derive(Debug, Clone, Copy, PartialEq, Eq, Structural)]
pub enum DirOutcome {
    /// The attempt worked.
    Succeeded,
    /// Creating failed because the name is taken.
    AlreadyExists,
    /// The attempt failed for any other reason.
    Failed,
}

/// The next step of opening a directory that may have to be created, when
/// others may create it at the same time. Opening comes first; if it fails,
/// the directory is created, and whether that succeeds or finds the
/// directory already there, it is opened again. Any other failure of
/// creating, or a failure of the second opening, is final.
pub fn open_or_create_next(step: DirStep, outcome: DirOutcome) -> (r: DirStep)
    requires
        step is Open || step is Create || step is Reopen,
    ensures
        step is Open ==> r == if outcome is Succeeded {
            DirStep::Done
        } else {
            DirStep::Create
        },
        step is Create ==> r == if outcome is Failed {
            DirStep::Fail
        } else {
            DirStep::Reopen
        },
        step is Reopen ==> r == if outcome is Succeeded {
            DirStep::Done
        } else {
            DirStep::Fail
        },
{
    match step {
        DirStep::Open => match outcome {
            DirOutcome::Succeeded => DirStep::Done,
            _ => DirStep::Create,
        },
        DirStep::Create => match outcome {
            DirOutcome::Failed => DirStep::Fail,
            _ => DirStep::Reopen,
        },
        _ => match outcome {
            DirOutcome::Succeeded => DirStep::Done,
            _ => DirStep::Fail,
        },
    }
}

/// The next step of making a fresh temporary directory. The directory is
/// created under a new name; a name that is taken calls for another name,
/// never for using the existing directory. Once created, it is opened.
pub fn tempdir_next(step: DirStep, outcome: DirOutcome) -> (r: DirStep)
    requires
        step is Create || step is Reopen,
    ensures
        step is Create ==> r == match outcome {
            DirOutcome::Succeeded => DirStep::Reopen,
            DirOutcome::AlreadyExists => DirStep::Rename,
            DirOutcome::Failed => DirStep::Fail,
        },
        step is Reopen ==> r == if outcome is Succeeded {
            DirStep::Done
        } else {
            DirStep::Fail
        },
{
    match step {
        DirStep::Create => match outcome {
            DirOutcome::Succeeded => DirStep::Reopen,
            DirOutcome::AlreadyExists => DirStep::Rename,
            DirOutcome::Failed => DirStep::Fail,
        },
        _ => match outcome {
            DirOutcome::Succeeded => DirStep::Done,
            _ => DirStep::Fail,
        },
    }
}

} // verus!
