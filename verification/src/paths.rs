//! Relative repository paths.
//!
//! A path is a `/`-separated list of non-empty segments; the empty path
//! (or `.`) names the repository root. Contracts speak of a path as its
//! sequence of segment character sequences.

use vstd::prelude::*;
use vstd::string::StrSliceExecFns;
use crate::error::{OxenError, OxenErrorKind};

verus! {

/// A single path segment: non-empty, and free of separators.
pub open spec fn seg_ok(seg: Seq<char>) -> bool {
    seg.len() > 0 && forall|i: int| 0 <= i < seg.len() ==> seg[i] != '/'
}

/// The string a segment list spells: segments joined by `/`.
pub open spec fn spec_join(ss: Seq<Seq<char>>) -> Seq<char>
    decreases ss.len(),
{
    if ss.len() == 0 {
        Seq::empty()
    } else if ss.len() == 1 {
        ss[0]
    } else {
        spec_join(ss.drop_last()) + seq!['/'] + ss.last()
    }
}

/// Whether `ss` is a segmentation of the path string `s`.
pub open spec fn is_path_form(ss: Seq<Seq<char>>, s: Seq<char>) -> bool {
    &&& ss.len() > 0
    &&& forall|i: int| 0 <= i < ss.len() ==> seg_ok(#[trigger] ss[i])
    &&& spec_join(ss) == s
}

/// Whether a non-empty path string is well-formed: no leading, trailing
/// or doubled separator.
pub open spec fn valid_path_chars(s: Seq<char>) -> bool {
    &&& s.len() > 0
    &&& s[0] != '/'
    &&& s.last() != '/'
    &&& forall|i: int| 0 <= i < s.len() - 1 ==> !(#[trigger] s[i] == '/' && s[i + 1] == '/')
}

/// Whether a string names the repository root.
pub open spec fn is_root_path(s: Seq<char>) -> bool {
    s.len() == 0 || s =~= seq!['.']
}

/// Split a path into its segments.
///
/// The empty path and `.` name the root and yield no segments. Any other
/// well-formed path yields its non-empty segments, which joined by `/`
/// spell the path again. A path with a leading, trailing or doubled
/// separator is rejected as `InvalidArgument`.
pub fn split_path(path: &str) -> (r: Result<Vec<String>, OxenError>)
    ensures
        match r {
            Ok(segs) => if is_root_path(path@) {
                segs.deep_view().len() == 0
            } else {
                valid_path_chars(path@) && is_path_form(segs.deep_view(), path@)
            },
            Err(e) => !is_root_path(path@) && !valid_path_chars(path@) && e.spec_kind()
                == OxenErrorKind::InvalidArgument,
        },
{
    let n = path.unicode_len();
    let mut segs: Vec<String> = Vec::new();
    if n == 0 {
        return Ok(segs);
    }
    if n == 1 && path.get_char(0) == '.' {
        proof {
            assert(path@ =~= seq!['.']);
        }
        return Ok(segs);
    }
    // reject a leading or trailing separator up front
    if path.get_char(0) == '/' || path.get_char(n - 1) == '/' {
        return Err(OxenError::InvalidArgument(String::new()));
    }
    let ghost s = path@;
    let mut start: usize = 0;
    let mut i: usize = 0;
    while i < n
        invariant
            path@ == s,
            n == s.len(),
            s.len() > 0,
            s[0] != '/',
            s.last() != '/',
            start <= i <= n,
            // the current segment (from start) has no separator so far
            forall|j: int| start <= j < i ==> s[j] != '/',
            // before the first separator, no segments are collected
            segs.deep_view().len() == 0 <==> start == 0,
            // every collected segment is well formed
            forall|j: int| 0 <= j < segs.deep_view().len() ==> seg_ok(#[trigger] segs.deep_view()[j]),
            // the collected segments spell the prefix before `start`
            start > 0 ==> segs.deep_view().len() > 0 && s[start - 1] == '/' && spec_join(
                segs.deep_view(),
            ) == s.subrange(0, start - 1),
            // no doubled separators seen so far
            forall|j: int| 0 <= j < i - 1 ==> !(#[trigger] s[j] == '/' && s[j + 1] == '/'),
        decreases n - i,
    {
        let c = path.get_char(i);
        if c == '/' {
            if start == i {
                // empty segment: leading or doubled separator
                proof {
                    if start == 0 {
                        assert(s[0] == '/');
                        assert(false);
                    } else {
                        assert(s[start - 1] == '/' && s[start as int] == '/');
                    }
                }
                return Err(OxenError::InvalidArgument(String::new()));
            }
            let seg = path.substring_char(start, i).to_owned();
            let ghost old_segs = segs.deep_view();
            segs.push(seg);
            proof {
                assert(segs.deep_view() =~= old_segs.push(seg@));
                assert(seg@ =~= s.subrange(start as int, i as int));
                assert(seg_ok(seg@));
                let dv = segs.deep_view();
                assert(dv.drop_last() =~= old_segs);
                if old_segs.len() == 0 {
                    assert(spec_join(dv) == seg@);
                    assert(s.subrange(0, i as int) =~= seg@);
                } else {
                    assert(spec_join(dv) == spec_join(old_segs) + seq!['/'] + seg@);
                    assert(s.subrange(0, i as int) =~= s.subrange(0, start - 1) + seq!['/']
                        + s.subrange(start as int, i as int));
                }
                assert(spec_join(segs.deep_view()) == s.subrange(0, i as int));
            }
            start = i + 1;
        }
        i = i + 1;
    }
    // final segment
    proof {
        if start == n {
            assert(s[n - 1] == '/');
            assert(false);
        }
    }
    let seg = path.substring_char(start, n).to_owned();
    let ghost old_segs = segs.deep_view();
    segs.push(seg);
    proof {
        assert(segs.deep_view() =~= old_segs.push(seg@));
        assert(seg@ =~= s.subrange(start as int, n as int));
        assert(seg_ok(seg@));
        let dv = segs.deep_view();
        assert(dv.drop_last() =~= old_segs);
        if old_segs.len() == 0 {
            assert(start == 0);
            assert(spec_join(dv) == seg@);
            assert(seg@ =~= s);
        } else {
            assert(spec_join(dv) == spec_join(old_segs) + seq!['/'] + seg@);
            assert(s =~= s.subrange(0, start - 1) + seq!['/'] + s.subrange(start as int, n as int));
        }
        assert(spec_join(segs.deep_view()) == s);
        assert(is_path_form(segs.deep_view(), s));
    }
    Ok(segs)
}

/// Byte-wise lexicographic order on character sequences (by scalar value).
pub open spec fn chars_le(a: Seq<char>, b: Seq<char>) -> bool
    decreases a.len(),
{
    if a.len() == 0 {
        true
    } else if b.len() == 0 {
        false
    } else if a[0] != b[0] {
        (a[0] as u32) < (b[0] as u32)
    } else {
        chars_le(a.drop_first(), b.drop_first())
    }
}

/// The order is total: of two sequences, one is below the other.
pub proof fn lemma_chars_le_total(a: Seq<char>, b: Seq<char>)
    ensures
        chars_le(a, b) || chars_le(b, a),
    decreases a.len(),
{
    if a.len() > 0 && b.len() > 0 {
        if a[0] == b[0] {
            lemma_chars_le_total(a.drop_first(), b.drop_first());
        } else {
            vstd::utf8::char_u32_cast(a[0], a[0] as u32);
            vstd::utf8::char_u32_cast(b[0], b[0] as u32);
            assert((a[0] as u32) != (b[0] as u32));
        }
    }
}

/// The order is transitive.
pub proof fn lemma_chars_le_trans(a: Seq<char>, b: Seq<char>, c: Seq<char>)
    requires
        chars_le(a, b),
        chars_le(b, c),
    ensures
        chars_le(a, c),
    decreases a.len(),
{
    if a.len() > 0 && b.len() > 0 && c.len() > 0 {
        if a[0] == b[0] && b[0] == c[0] {
            lemma_chars_le_trans(a.drop_first(), b.drop_first(), c.drop_first());
        }
    }
}

/// Compare two strings in the order of [`chars_le`].
pub fn str_le(a: &str, b: &str) -> (r: bool)
    ensures
        r == chars_le(a@, b@),
{
    let na = a.unicode_len();
    let nb = b.unicode_len();
    proof {
        assert(a@.subrange(0, a@.len() as int) =~= a@);
        assert(b@.subrange(0, b@.len() as int) =~= b@);
    }
    let mut i: usize = 0;
    loop
        invariant
            na == a@.len(),
            nb == b@.len(),
            i <= na,
            i <= nb,
            // equal so far
            forall|j: int| 0 <= j < i ==> a@[j] == b@[j],
            chars_le(a@, b@) == chars_le(a@.subrange(i as int, na as int), b@.subrange(
                i as int,
                nb as int,
            )),
        decreases na - i,
    {
        if i >= na {
            proof {
                assert(a@.subrange(i as int, na as int).len() == 0);
            }
            return true;
        }
        if i >= nb {
            proof {
                assert(b@.subrange(i as int, nb as int).len() == 0);
                assert(a@.subrange(i as int, na as int).len() > 0);
            }
            return false;
        }
        let ca = a.get_char(i);
        let cb = b.get_char(i);
        proof {
            let sa = a@.subrange(i as int, na as int);
            let sb = b@.subrange(i as int, nb as int);
            assert(sa[0] == a@[i as int]);
            assert(sb[0] == b@[i as int]);
            assert(sa.drop_first() =~= a@.subrange(i + 1, na as int));
            assert(sb.drop_first() =~= b@.subrange(i + 1, nb as int));
        }
        if ca != cb {
            return (ca as u32) < (cb as u32);
        }
        i = i + 1;
    }
}

} // verus!
