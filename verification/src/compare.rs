//! Comparing two tabular files by row hashes and schema fields.
//!
//! The dataframes themselves are outside this engine; what it decides is
//! pure: given each side's row-hash column and field lists, which rows
//! and columns were added or removed.

use vstd::prelude::*;
use crate::repo::LocalRepository;

verus! {

/// Whether some string of the list spells `s`.
pub open spec fn seq_contains_str(ss: Seq<Seq<char>>, s: Seq<char>) -> bool {
    exists|j: int| 0 <= j < ss.len() && ss[j] == s
}

/// The positions in `of` whose entry does not occur in `not_in`,
/// ascending.
pub open spec fn spec_missing_indices(of: Seq<Seq<char>>, not_in: Seq<Seq<char>>) -> Seq<u32> {
    Seq::new(of.len(), |i: int| i as u32).filter(|ix: u32| !seq_contains_str(not_in, of[ix as int]))
}

/// Whether the list holds this string.
fn contains_str(ss: &Vec<String>, s: &str) -> (r: bool)
    ensures
        r == seq_contains_str(ss.deep_view(), s@),
{
    let mut i: usize = 0;
    while i < ss.len()
        invariant
            i <= ss@.len(),
            forall|j: int| 0 <= j < i ==> ss.deep_view()[j] != s@,
        decreases ss@.len() - i,
    {
        proof {
            assert(ss.deep_view()[i as int] == ss@[i as int]@);
        }
        if crate::text::str_eq(ss[i].as_str(), s) {
            return true;
        }
        i = i + 1;
    }
    false
}

/// The row positions of `of` whose hash is absent from `not_in`,
/// ascending — the added rows when `of` is the new side, the removed
/// rows when it is the old one.
pub fn missing_row_indices(of: &Vec<String>, not_in: &Vec<String>) -> (r: Result<
    Vec<u32>,
    crate::error::OxenError,
>)
    ensures
        match r {
            Ok(ixs) => of@.len() <= u32::MAX && ixs@ == spec_missing_indices(
                of.deep_view(),
                not_in.deep_view(),
            ),
            Err(e) => of@.len() > u32::MAX && e.spec_kind()
                == crate::error::OxenErrorKind::InvalidArgument,
        },
{
    if of.len() as u64 > u32::MAX as u64 {
        return Err(crate::error::OxenError::InvalidArgument(String::new()));
    }
    let ghost ov = of.deep_view();
    let ghost base = Seq::new(ov.len(), |i: int| i as u32);
    let ghost pred = |ix: u32| !seq_contains_str(not_in.deep_view(), ov[ix as int]);
    let mut out: Vec<u32> = Vec::new();
    let mut i: usize = 0;
    proof {
        assert(base.subrange(0, 0) =~= Seq::<u32>::empty());
        assert(out@ =~= base.subrange(0, 0).filter(pred));
    }
    while i < of.len()
        invariant
            i <= of@.len(),
            of@.len() <= u32::MAX,
            ov == of.deep_view(),
            ov.len() == of@.len(),
            base == Seq::new(ov.len(), |j: int| j as u32),
            pred == (|ix: u32| !seq_contains_str(not_in.deep_view(), ov[ix as int])),
            out@ == base.subrange(0, i as int).filter(pred),
        decreases of@.len() - i,
    {
        proof {
            let sub = base.subrange(0, (i + 1) as int);
            assert(sub.drop_last() =~= base.subrange(0, i as int));
            assert(sub.last() == base[i as int]);
            assert(base[i as int] == i as u32);
            sub.drop_last().lemma_filter_push(sub.last(), pred);
            assert(sub =~= sub.drop_last().push(sub.last()));
            assert(ov[i as int] == of@[i as int]@);
        }
        if !contains_str(not_in, of[i].as_str()) {
            let ghost pre = out@;
            out.push(i as u32);
            proof {
                assert(out@ =~= pre.push(i as u32));
            }
        }
        proof {
            assert(out@ =~= base.subrange(0, (i + 1) as int).filter(pred));
        }
        i = i + 1;
    }
    proof {
        assert(base.subrange(0, base.len() as int) =~= base);
    }
    Ok(out)
}

/// The added and removed row positions between two row-hash columns:
/// added rows are in `head` only, removed rows in `base` only, each
/// ascending.
pub fn compute_new_row_indices(base_hashes: &Vec<String>, head_hashes: &Vec<String>) -> (r: Result<
    (Vec<u32>, Vec<u32>),
    crate::error::OxenError,
>)
    ensures
        match r {
            Ok(p) => base_hashes@.len() <= u32::MAX && head_hashes@.len() <= u32::MAX && p.0@
                == spec_missing_indices(head_hashes.deep_view(), base_hashes.deep_view()) && p.1@
                == spec_missing_indices(base_hashes.deep_view(), head_hashes.deep_view()),
            Err(e) => e.spec_kind() == crate::error::OxenErrorKind::InvalidArgument,
        },
{
    let added = match missing_row_indices(head_hashes, base_hashes) {
        Ok(v) => v,
        Err(e) => {
            return Err(e);
        },
    };
    let removed = match missing_row_indices(base_hashes, head_hashes) {
        Ok(v) => v,
        Err(e) => {
            return Err(e);
        },
    };
    Ok((added, removed))
}

/// The fields of `head` that `base` lacks, in order.
pub fn added_fields(base: &Vec<String>, head: &Vec<String>) -> (r: Vec<String>)
    ensures
        r.deep_view() == head.deep_view().filter(
            |f: Seq<char>| !seq_contains_str(base.deep_view(), f),
        ),
{
    let ghost hv = head.deep_view();
    let ghost pred = |f: Seq<char>| !seq_contains_str(base.deep_view(), f);
    let mut out: Vec<String> = Vec::new();
    let mut i: usize = 0;
    proof {
        assert(hv.subrange(0, 0) =~= Seq::<Seq<char>>::empty());
        assert(out.deep_view() =~= hv.subrange(0, 0).filter(pred));
    }
    while i < head.len()
        invariant
            i <= head@.len(),
            hv == head.deep_view(),
            hv.len() == head@.len(),
            pred == (|f: Seq<char>| !seq_contains_str(base.deep_view(), f)),
            out.deep_view() == hv.subrange(0, i as int).filter(pred),
        decreases head@.len() - i,
    {
        proof {
            let sub = hv.subrange(0, (i + 1) as int);
            assert(sub.drop_last() =~= hv.subrange(0, i as int));
            assert(sub.last() == hv[i as int]);
            sub.drop_last().lemma_filter_push(sub.last(), pred);
            assert(sub =~= sub.drop_last().push(sub.last()));
            assert(hv[i as int] == head@[i as int]@);
        }
        if !contains_str(base, head[i].as_str()) {
            let ghost pre = out.deep_view();
            out.push(head[i].clone());
            proof {
                assert(out.deep_view() =~= pre.push(hv[i as int]));
            }
        }
        proof {
            assert(out.deep_view() =~= hv.subrange(0, (i + 1) as int).filter(pred));
        }
        i = i + 1;
    }
    proof {
        assert(hv.subrange(0, hv.len() as int) =~= hv);
    }
    out
}

/// The fields of `base` that `head` lacks, in order.
pub fn removed_fields(base: &Vec<String>, head: &Vec<String>) -> (r: Vec<String>)
    ensures
        r.deep_view() == base.deep_view().filter(
            |f: Seq<char>| !seq_contains_str(head.deep_view(), f),
        ),
{
    added_fields(head, base)
}

/// Where a comparison's cached artifacts live:
/// `<repo>/.oxen/cache/compares/<compare-id>`.
pub fn get_compare_dir(repo: &LocalRepository, compare_id: &str) -> (r: String)
    ensures
        r@ == repo.path@ + "/.oxen/cache/compares/"@ + compare_id@,
{
    let a = crate::text::str_concat(repo.path.as_str(), "/.oxen/cache/compares/");
    let r = crate::text::str_concat(a.as_str(), compare_id);
    proof {
        assert(r@ =~= repo.path@ + "/.oxen/cache/compares/"@ + compare_id@);
    }
    r
}

} // verus!
