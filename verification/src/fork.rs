//! Forking a repository: the append-only progress log and the copy rule.
//!
//! A fork's progress lives in an append-only log file: every state change
//! appends one serialized record, and a reader replays the log and
//! returns the last complete record, so reader/writer races need no
//! lock. The fork copy itself excludes the `.oxen/workspaces`
//! subdirectory.

use vstd::prelude::*;
use vstd::string::StrSliceExecFns;
use crate::codec::{enc_u64, enc_str, get_bytes, get_u8, get_u64, put_str, put_u8, put_u64};
use crate::error::{OxenError, OxenErrorKind};
use crate::text::string_from_utf8;

verus! {

/// The fork status log location inside the destination repository.
pub const FORK_STATUS_FILE: &'static str = ".oxen/fork_status.toml";

pub const FORK_TAG_STARTED: u8 = 1;

pub const FORK_TAG_COUNTING: u8 = 2;

pub const FORK_TAG_IN_PROGRESS: u8 = 3;

pub const FORK_TAG_COMPLETE: u8 = 4;

pub const FORK_TAG_FAILED: u8 = 5;

/// The states a fork passes through; `InProgress` carries a whole
/// percentage.
#[derive(Debug)]
pub enum ForkStatus {
    Started,
    Counting(u64),
    InProgress(u8),
    Complete,
    Failed(String),
}

/// Ghost mirror of [`ForkStatus`].
#[verifier::ext_equal]
pub enum ForkStatusView {
    Started,
    Counting(u64),
    InProgress(u8),
    Complete,
    Failed(Seq<char>),
}

impl View for ForkStatus {
    type V = ForkStatusView;

    open spec fn view(&self) -> ForkStatusView {
        match self {
            ForkStatus::Started => ForkStatusView::Started,
            ForkStatus::Counting(n) => ForkStatusView::Counting(*n),
            ForkStatus::InProgress(p) => ForkStatusView::InProgress(*p),
            ForkStatus::Complete => ForkStatusView::Complete,
            ForkStatus::Failed(m) => ForkStatusView::Failed(m@),
        }
    }
}

impl Clone for ForkStatus {
    fn clone(&self) -> (res: Self)
        ensures
            res@ == self@,
    {
        match self {
            ForkStatus::Started => ForkStatus::Started,
            ForkStatus::Counting(n) => ForkStatus::Counting(*n),
            ForkStatus::InProgress(p) => ForkStatus::InProgress(*p),
            ForkStatus::Complete => ForkStatus::Complete,
            ForkStatus::Failed(m) => ForkStatus::Failed(m.clone()),
        }
    }
}

/// The byte record one status appends to the log: a tag byte and the
/// state's payload, strings length-prefixed UTF-8.
pub open spec fn fork_record_bytes(v: ForkStatusView) -> Seq<u8> {
    match v {
        ForkStatusView::Started => seq![FORK_TAG_STARTED],
        ForkStatusView::Counting(n) => seq![FORK_TAG_COUNTING] + enc_u64(n),
        ForkStatusView::InProgress(p) => seq![FORK_TAG_IN_PROGRESS, p],
        ForkStatusView::Complete => seq![FORK_TAG_COMPLETE],
        ForkStatusView::Failed(m) => seq![FORK_TAG_FAILED] + enc_str(m),
    }
}

/// Serialize one status record for appending to the log.
pub fn encode_fork_status(s: &ForkStatus) -> (r: Vec<u8>)
    ensures
        r@ == fork_record_bytes(s@),
{
    let mut buf: Vec<u8> = Vec::new();
    match s {
        ForkStatus::Started => {
            put_u8(&mut buf, FORK_TAG_STARTED);
            proof {
                assert(buf@ =~= fork_record_bytes(s@));
            }
        },
        ForkStatus::Counting(n) => {
            put_u8(&mut buf, FORK_TAG_COUNTING);
            put_u64(&mut buf, *n);
            proof {
                assert(buf@ =~= fork_record_bytes(s@));
            }
        },
        ForkStatus::InProgress(p) => {
            put_u8(&mut buf, FORK_TAG_IN_PROGRESS);
            put_u8(&mut buf, *p);
            proof {
                assert(buf@ =~= fork_record_bytes(s@));
            }
        },
        ForkStatus::Complete => {
            put_u8(&mut buf, FORK_TAG_COMPLETE);
            proof {
                assert(buf@ =~= fork_record_bytes(s@));
            }
        },
        ForkStatus::Failed(m) => {
            put_u8(&mut buf, FORK_TAG_FAILED);
            put_str(&mut buf, m.as_str());
            proof {
                assert(buf@ =~= fork_record_bytes(s@));
            }
        },
    }
    buf
}

/// What parsing one record at a position yields.
pub enum ParseOutcome {
    /// A complete record and the position after it.
    Rec(ForkStatusView, int),
    /// The buffer ends here or mid-record: a write is still in flight.
    Truncated,
    /// An unknown tag: the log is corrupt.
    Bad,
}

/// Parse one record of the log at `pos`.
pub open spec fn spec_parse_record(bytes: Seq<u8>, pos: int) -> ParseOutcome {
    if pos >= bytes.len() {
        ParseOutcome::Truncated
    } else {
        let tag = bytes[pos];
        if tag == FORK_TAG_STARTED {
            ParseOutcome::Rec(ForkStatusView::Started, pos + 1)
        } else if tag == FORK_TAG_COMPLETE {
            ParseOutcome::Rec(ForkStatusView::Complete, pos + 1)
        } else if tag == FORK_TAG_IN_PROGRESS {
            if pos + 2 <= bytes.len() {
                ParseOutcome::Rec(ForkStatusView::InProgress(bytes[pos + 1]), pos + 2)
            } else {
                ParseOutcome::Truncated
            }
        } else if tag == FORK_TAG_COUNTING {
            if pos + 9 <= bytes.len() {
                ParseOutcome::Rec(
                    ForkStatusView::Counting(
                        vstd::bytes::spec_u64_from_le_bytes(bytes.subrange(pos + 1, pos + 9)),
                    ),
                    pos + 9,
                )
            } else {
                ParseOutcome::Truncated
            }
        } else if tag == FORK_TAG_FAILED {
            if pos + 9 <= bytes.len() {
                let n = vstd::bytes::spec_u64_from_le_bytes(bytes.subrange(pos + 1, pos + 9));
                if pos + 9 + n <= bytes.len() {
                    if vstd::utf8::valid_utf8(bytes.subrange(pos + 9, pos + 9 + n)) {
                        ParseOutcome::Rec(
                            ForkStatusView::Failed(
                                vstd::utf8::decode_utf8(bytes.subrange(pos + 9, pos + 9 + n)),
                            ),
                            pos + 9 + n,
                        )
                    } else {
                        ParseOutcome::Bad
                    }
                } else {
                    ParseOutcome::Truncated
                }
            } else {
                ParseOutcome::Truncated
            }
        } else {
            ParseOutcome::Bad
        }
    }
}

/// Replaying the log from `pos`: the last complete record, `None` when
/// none follows, or an error on a corrupt record.
pub open spec fn spec_replay(bytes: Seq<u8>, pos: int) -> Result<Option<ForkStatusView>, ()>
    decreases bytes.len() - pos,
        when 0 <= pos
{
    match spec_parse_record(bytes, pos) {
        ParseOutcome::Rec(v, p2) => if p2 > pos {
            match spec_replay(bytes, p2) {
                Ok(None) => Ok(Some(v)),
                Ok(Some(w)) => Ok(Some(w)),
                Err(()) => Err(()),
            }
        } else {
            Err(())
        },
        ParseOutcome::Truncated => Ok(None),
        ParseOutcome::Bad => Err(()),
    }
}

/// Parse one record of the log at `pos`.
fn parse_record(buf: &Vec<u8>, pos: usize) -> (r: Result<Option<(ForkStatus, usize)>, OxenError>)
    ensures
        match r {
            Ok(Some((v, p2))) => spec_parse_record(buf@, pos as int) == ParseOutcome::Rec(
                v@,
                p2 as int,
            ) && p2 > pos,
            Ok(None) => spec_parse_record(buf@, pos as int) is Truncated,
            Err(e) => spec_parse_record(buf@, pos as int) is Bad && e.spec_kind()
                == OxenErrorKind::Corrupted,
        },
{
    let (tag, p1) = match get_u8(buf, pos) {
        Some(t) => t,
        None => {
            return Ok(None);
        },
    };
    if tag == FORK_TAG_STARTED {
        Ok(Some((ForkStatus::Started, p1)))
    } else if tag == FORK_TAG_COMPLETE {
        Ok(Some((ForkStatus::Complete, p1)))
    } else if tag == FORK_TAG_IN_PROGRESS {
        match get_u8(buf, p1) {
            Some((p, p2)) => Ok(Some((ForkStatus::InProgress(p), p2))),
            None => Ok(None),
        }
    } else if tag == FORK_TAG_COUNTING {
        match get_u64(buf, p1) {
            Some((n, p2)) => Ok(Some((ForkStatus::Counting(n), p2))),
            None => Ok(None),
        }
    } else if tag == FORK_TAG_FAILED {
        let (n, p2) = match get_u64(buf, p1) {
            Some(x) => x,
            None => {
                return Ok(None);
            },
        };
        if n > buf.len() as u64 {
            return Ok(None);
        }
        let (mbytes, p3) = match get_bytes(buf, p2, n as usize) {
            Some(x) => x,
            None => {
                return Ok(None);
            },
        };
        match string_from_utf8(mbytes) {
            Ok(m) => Ok(Some((ForkStatus::Failed(m), p3))),
            Err(_) => Err(OxenError::Corrupted(String::new())),
        }
    } else {
        Err(OxenError::Corrupted(String::new()))
    }
}

/// Replay the whole log and return its last complete record.
///
/// A truncated trailing record means a writer is mid-append and simply
/// ends the replay; an unknown tag is a corrupt log.
pub fn replay_fork_log(log: &Vec<u8>) -> (r: Result<Option<ForkStatus>, OxenError>)
    ensures
        match r {
            Ok(Some(s)) => spec_replay(log@, 0) == Ok::<Option<ForkStatusView>, ()>(Some(s@)),
            Ok(None) => spec_replay(log@, 0) == Ok::<Option<ForkStatusView>, ()>(
                None::<ForkStatusView>,
            ),
            Err(e) => spec_replay(log@, 0) == Err::<Option<ForkStatusView>, ()>(()) && e.spec_kind()
                == OxenErrorKind::Corrupted,
        },
{
    let mut pos: usize = 0;
    let mut last: Option<ForkStatus> = None;
    loop
        invariant
            pos <= log@.len(),
            spec_replay(log@, 0) == ({
                let rest = spec_replay(log@, pos as int);
                match last {
                    Some(c) => match rest {
                        Ok(None) => Ok::<Option<ForkStatusView>, ()>(Some(c@)),
                        Ok(Some(w)) => Ok::<Option<ForkStatusView>, ()>(Some(w)),
                        Err(()) => Err::<Option<ForkStatusView>, ()>(()),
                    },
                    None => rest,
                }
            }),
        decreases log@.len() - pos,
    {
        match parse_record(log, pos) {
            Ok(Some((v, p2))) => {
                last = Some(v);
                pos = p2;
                if pos > log.len() {
                    proof {
                        assert(false);
                    }
                    return Err(OxenError::Corrupted(String::new()));
                }
            },
            Ok(None) => {
                return Ok(last);
            },
            Err(e) => {
                return Err(e);
            },
        }
    }
}

/// The whole percentage a fork copy has reached: `copied` of `total`
/// files, reading an empty copy as already complete.
pub fn fork_progress_percent(copied: u64, total: u64) -> (p: u8)
    ensures
        total == 0 ==> p == 100,
        total > 0 && copied >= total ==> p == 100,
        total > 0 && copied < total ==> p as int == (copied as int) * 100 / (total as int),
{
    if total == 0 {
        100
    } else if copied >= total {
        100
    } else {
        proof {
            assert(((copied as int) * 100) / (total as int) < 100 && ((copied as int) * 100) / (
            total as int) >= 0) by (nonlinear_arith)
                requires
                    0 < total,
                    0 <= copied < total,
            ;
        }
        let p128: u128 = (copied as u128) * 100 / (total as u128);
        p128 as u8
    }
}

/// Whether a relative path lies in the `.oxen/workspaces` subtree,
/// which a fork never copies. Deliberately this names only the
/// repository's own workspaces directory at the top of the tree; a
/// directory of the same name nested deeper is ordinary content.
pub open spec fn excluded_from_fork(p: Seq<char>) -> bool {
    p.len() >= 16 && p.subrange(0, 16) == ".oxen/workspaces"@ && (p.len() == 16 || p[16] == '/')
}

/// Whether this path is skipped by the fork copy.
///
/// Deliberately only the repository's own `.oxen/workspaces` at the
/// top of the copied tree: a directory of that name nested deeper is
/// ordinary content and is copied.
pub fn is_workspaces_path(path: &str) -> (r: bool)
    ensures
        r == excluded_from_fork(path@),
{
    let n = path.unicode_len();
    if n < 16 {
        return false;
    }
    let pre = path.substring_char(0, 16);
    if !crate::text::str_eq(pre, ".oxen/workspaces") {
        proof {
            assert(pre@ == path@.subrange(0, 16));
        }
        return false;
    }
    if n == 16 {
        return true;
    }
    let c = path.get_char(16);
    c == '/'
}

/// The relative paths a fork copies: everything but the workspaces
/// subtree. This is the structural half of the fork worker; walking and
/// copying the files is I/O around it.
pub fn fork_copy_plan(paths: &Vec<String>) -> (keep: Vec<String>)
    ensures
        keep.deep_view() == paths.deep_view().filter(|p: Seq<char>| !excluded_from_fork(p)),
{
    let ghost pv = paths.deep_view();
    let ghost pred = |p: Seq<char>| !excluded_from_fork(p);
    let mut keep: Vec<String> = Vec::new();
    let mut i: usize = 0;
    proof {
        assert(pv.subrange(0, 0) =~= Seq::<Seq<char>>::empty());
        assert(keep.deep_view() =~= pv.subrange(0, 0).filter(pred));
    }
    while i < paths.len()
        invariant
            i <= paths@.len(),
            pv == paths.deep_view(),
            pv.len() == paths@.len(),
            pred == (|p: Seq<char>| !excluded_from_fork(p)),
            keep.deep_view() == pv.subrange(0, i as int).filter(pred),
        decreases paths@.len() - i,
    {
        proof {
            let sub = pv.subrange(0, (i + 1) as int);
            assert(sub.drop_last() =~= pv.subrange(0, i as int));
            assert(sub.last() == pv[i as int]);
            sub.drop_last().lemma_filter_push(sub.last(), pred);
            assert(sub =~= sub.drop_last().push(sub.last()));
            assert(pv[i as int] == paths@[i as int]@);
        }
        if !is_workspaces_path(paths[i].as_str()) {
            let ghost pre = keep.deep_view();
            keep.push(paths[i].clone());
            proof {
                assert(keep.deep_view() =~= pre.push(pv[i as int]));
            }
        }
        proof {
            assert(keep.deep_view() =~= pv.subrange(0, (i + 1) as int).filter(pred));
        }
        i = i + 1;
    }
    proof {
        assert(pv.subrange(0, pv.len() as int) =~= pv);
    }
    keep
}

/// What a fork start reports: the destination and the state's name.
#[derive(Debug)]
pub struct ForkStartResponse {
    pub repository: String,
    pub fork_status: String,
}

/// What a status poll reports: the destination, the state's name, the
/// count or percentage if one is carried, and the failure message if any.
#[derive(Debug)]
pub struct ForkStatusResponse {
    pub repository: String,
    pub status: String,
    pub progress: Option<u64>,
    pub error: Option<String>,
}

/// The wire name of a fork state.
pub fn fork_status_name(s: &ForkStatus) -> (r: &'static str)
    ensures
        (s@ is Started ==> r@ == "started"@),
        (s@ is Counting ==> r@ == "counting"@),
        (s@ is InProgress ==> r@ == "in_progress"@),
        (s@ is Complete ==> r@ == "complete"@),
        (s@ is Failed ==> r@ == "failed"@),
{
    match s {
        ForkStatus::Started => "started",
        ForkStatus::Counting(_) => "counting",
        ForkStatus::InProgress(_) => "in_progress",
        ForkStatus::Complete => "complete",
        ForkStatus::Failed(_) => "failed",
    }
}

/// Replay a destination's fork log into a status report.
///
/// Succeeds exactly when the replay yields a record: the report then
/// names that record's state, carries its count or percentage if it has
/// one (and no progress otherwise), and its message only when it is a
/// failure. An empty or still-empty log is `NotFound`; a log with an
/// unknown tag is `Corrupted`.
pub fn get_fork_status(repo_path: &str, log: &Vec<u8>) -> (r: Result<
    ForkStatusResponse,
    OxenError,
>)
    ensures
        match r {
            Ok(resp) => resp.repository@ == repo_path@ && ({
                match spec_replay(log@, 0) {
                    Ok(Some(v)) => ({
                        &&& (v is Started ==> resp.status@ == "started"@ && resp.progress is None)
                        &&& (v is Counting ==> resp.status@ == "counting"@ && resp.progress
                            == Some(v->Counting_0))
                        &&& (v is InProgress ==> resp.status@ == "in_progress"@ && resp.progress
                            == Some(v->InProgress_0 as u64))
                        &&& (v is Complete ==> resp.status@ == "complete"@ && resp.progress
                            is None)
                        &&& (v is Failed ==> resp.status@ == "failed"@ && resp.progress is None
                            && resp.error is Some && resp.error->0@ == v->Failed_0)
                        &&& (!(v is Failed) ==> resp.error is None)
                    }),
                    _ => false,
                }
            }),
            Err(e) => (e.spec_kind() == OxenErrorKind::NotFound && spec_replay(log@, 0) == Ok::<
                Option<ForkStatusView>,
                (),
            >(None::<ForkStatusView>)) || (e.spec_kind() == OxenErrorKind::Corrupted
                && spec_replay(log@, 0) == Err::<Option<ForkStatusView>, ()>(())),
        },
{
    let status = match replay_fork_log(log) {
        Ok(Some(s)) => s,
        Ok(None) => {
            return Err(OxenError::NotFound(String::new()));
        },
        Err(e) => {
            return Err(e);
        },
    };
    let name = fork_status_name(&status);
    let progress: Option<u64> = match &status {
        ForkStatus::Counting(n) => Some(*n),
        ForkStatus::InProgress(p) => Some(*p as u64),
        _ => None,
    };
    let error: Option<String> = match status {
        ForkStatus::Failed(m) => Some(m),
        _ => None,
    };
    Ok(
        ForkStatusResponse {
            repository: repo_path.to_owned(),
            status: name.to_owned(),
            progress,
            error,
        },
    )
}

/// Encoding one record and replaying it yields that record: the log
/// format is faithful for every state.
pub proof fn lemma_fork_record_round_trip(v: ForkStatusView)
    requires
        v is Failed ==> vstd::utf8::encode_utf8(v->Failed_0).len() <= u64::MAX,
    ensures
        spec_replay(fork_record_bytes(v), 0) == Ok::<Option<ForkStatusView>, ()>(Some(v)),
{
    let bytes = fork_record_bytes(v);
    match v {
        ForkStatusView::Started => {
            assert(spec_parse_record(bytes, 0) == ParseOutcome::Rec(v, 1));
        },
        ForkStatusView::Complete => {
            assert(spec_parse_record(bytes, 0) == ParseOutcome::Rec(v, 1));
        },
        ForkStatusView::InProgress(p) => {
            assert(bytes.len() == 2);
            assert(bytes[1] == p);
            assert(spec_parse_record(bytes, 0) == ParseOutcome::Rec(v, 2));
        },
        ForkStatusView::Counting(n) => {
            vstd::bytes::lemma_auto_spec_u64_to_from_le_bytes();
            assert(bytes.len() == 9);
            assert(bytes.subrange(1, 9) =~= enc_u64(n));
            assert(spec_parse_record(bytes, 0) == ParseOutcome::Rec(v, 9));
        },
        ForkStatusView::Failed(m) => {
            vstd::bytes::lemma_auto_spec_u64_to_from_le_bytes();
            let mb = vstd::utf8::encode_utf8(m);
            assert(enc_u64(mb.len() as u64).len() == 8);
            assert(bytes =~= seq![FORK_TAG_FAILED] + enc_u64(mb.len() as u64) + mb);
            assert(bytes.len() == 9 + mb.len());
            assert(bytes.subrange(1, 9) =~= enc_u64(mb.len() as u64));
            let n = vstd::bytes::spec_u64_from_le_bytes(bytes.subrange(1, 9));
            assert(n == mb.len() as u64);
            assert(n == mb.len());
            assert(bytes.subrange(9, 9 + mb.len() as int) =~= mb);
            vstd::utf8::encode_utf8_valid_utf8(m);
            vstd::utf8::encode_utf8_decode_utf8(m);
            assert(spec_parse_record(bytes, 0) == ParseOutcome::Rec(v, bytes.len() as int));
        },
    }
    assert(spec_parse_record(bytes, bytes.len() as int) is Truncated);
    assert(spec_replay(bytes, bytes.len() as int) == Ok::<Option<ForkStatusView>, ()>(
        None::<ForkStatusView>,
    ));
}

} // verus!
