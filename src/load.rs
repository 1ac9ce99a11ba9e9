//! Dictionaries from the contents of record files: leading comment lines
//! are skipped before the records are read.
use vstd::prelude::*;

use crate::dict::{built_from_src, built_from_src_dst, Dict, DictError};
use crate::records::{tsv_records, Extractor};
use crate::text::{chars_of, push_char};

verus! {

/// Whether `t` starts with the two characters that mark a comment line.
pub open spec fn is_comment(t: Seq<char>) -> bool {
    t.len() >= 2 && t[0] == '#' && t[1] == ' '
}

/// The position of the first line break in `t`.
pub open spec fn first_break(t: Seq<char>) -> Option<int>
    decreases t.len(),
{
    if t.len() == 0 {
        None
    } else if t[0] == '\n' {
        Some(0)
    } else {
        match first_break(t.skip(1)) {
            Some(i) => Some(i + 1),
            None => None,
        }
    }
}

/// `t` without its leading comment lines.
pub open spec fn skip_comments(t: Seq<char>) -> Seq<char>
    decreases t.len(),
{
    if is_comment(t) {
        match first_break(t) {
            Some(i) => if 0 <= i < t.len() {
                skip_comments(t.skip(i + 1))
            } else {
                Seq::empty()
            },
            None => Seq::empty(),
        }
    } else {
        t
    }
}

/// The lines of `t` joined by `\n`: each `\r\n` becomes `\n` and a line break
/// at the very end is dropped.
pub open spec fn joined_lines(t: Seq<char>) -> Seq<char>
    decreases t.len(),
{
    if t.len() == 0 {
        Seq::empty()
    } else if t.len() == 1 && t[0] == '\n' {
        Seq::empty()
    } else if t.len() >= 2 && t[0] == '\r' && t[1] == '\n' {
        if t.len() == 2 {
            Seq::empty()
        } else {
            seq!['\n'] + joined_lines(t.skip(2))
        }
    } else {
        seq![t[0]] + joined_lines(t.skip(1))
    }
}

/// The records that a file holds once its leading comment lines are skipped.
pub open spec fn content_records(content: Seq<char>) -> Seq<char> {
    joined_lines(skip_comments(content))
}

proof fn lemma_first_break(t: Seq<char>, p: int)
    requires
        0 <= p <= t.len(),
        forall|q: int| 0 <= q < p ==> t[q] != '\n',
    ensures
        first_break(t) == match first_break(t.skip(p)) {
            Some(i) => Some(i + p),
            None => None::<int>,
        },
    decreases p,
{
    if p == 0 {
        assert(t.skip(0) =~= t);
        match first_break(t) {
            Some(i) => {},
            None => {},
        }
    } else {
        assert(t.skip(1).skip(p - 1) =~= t.skip(p));
        lemma_first_break(t.skip(1), p - 1);
    }
}

/// The contents of a record file without its leading comment lines (lines
/// that start with `# `), its lines joined by `\n`.
pub fn skip_comment_lines(content: &str) -> (r: String)
    ensures
        r@ == content_records(content@),
{
    let cs = chars_of(content);
    let n = cs.len();
    let mut p: usize = 0;
    proof {
        assert(cs@.skip(0) =~= cs@);
    }
    // Skip the comment lines.
    while n - p >= 2 && cs[p] == '#' && cs[p + 1] == ' '
        invariant
            n == cs.len(),
            cs@ == content@,
            p <= n,
            skip_comments(cs@) == skip_comments(cs@.skip(p as int)),
        decreases n - p,
    {
        let ghost t = cs@.skip(p as int);
        assert(t[0] == cs@[p as int] && t[1] == cs@[p + 1]);
        assert(is_comment(t));
        let mut q: usize = p;
        while q < n && cs[q] != '\n'
            invariant
                p <= q <= n,
                n == cs.len(),
                forall|k: int| p <= k < q ==> cs@[k] != '\n',
            decreases n - q,
        {
            q = q + 1;
        }
        proof {
            assert forall|k: int| 0 <= k < q - p implies t[k] != '\n' by {
                assert(t[k] == cs@[p + k]);
            }
            lemma_first_break(t, q - p);
            assert(t.skip(q - p) =~= cs@.skip(q as int));
        }
        if q == n {
            proof {
                assert(cs@.skip(q as int) =~= Seq::<char>::empty());
                assert(first_break(t) is None);
                assert(skip_comments(t) == Seq::<char>::empty());
                assert(joined_lines(Seq::<char>::empty()) == Seq::<char>::empty());
            }
            return String::new();
        }
        proof {
            assert(cs@.skip(q as int)[0] == '\n');
            assert(t.skip(q - p + 1) =~= cs@.skip(q + 1));
        }
        p = q + 1;
    }
    proof {
        assert(!is_comment(cs@.skip(p as int)));
    }
    // Join the remaining lines.
    let ghost rest = cs@.skip(p as int);
    let mut out = String::new();
    let mut i: usize = p;
    proof {
        assert(cs@.skip(i as int) =~= rest);
    }
    while i < n
        invariant
            n == cs.len(),
            cs@ == content@,
            p <= i <= n,
            rest == cs@.skip(p as int),
            skip_comments(cs@) == rest,
            joined_lines(rest) == out@ + joined_lines(cs@.skip(i as int)),
        decreases n - i,
    {
        let ghost t = cs@.skip(i as int);
        let ghost before = out@;
        let c = cs[i];
        assert(t[0] == c);
        if n - i == 1 && c == '\n' {
            i = i + 1;
        } else if n - i >= 2 && c == '\r' && cs[i + 1] == '\n' {
            assert(t[1] == cs@[i + 1]);
            if n - i == 2 {
                i = i + 2;
            } else {
                push_char(&mut out, '\n');
                assert(t.skip(2) =~= cs@.skip(i + 2));
                assert(before + (seq!['\n'] + joined_lines(t.skip(2))) =~= out@ + joined_lines(t.skip(2)));
                i = i + 2;
            }
        } else {
            if n - i >= 2 {
                assert(t[1] == cs@[i + 1]);
            }
            push_char(&mut out, c);
            assert(t.skip(1) =~= cs@.skip(i + 1));
            assert(before + (seq![c] + joined_lines(t.skip(1))) =~= out@ + joined_lines(t.skip(1)));
            i = i + 1;
        }
        proof {
            if i == n {
                assert(cs@.skip(i as int) =~= Seq::<char>::empty());
            }
        }
    }
    proof {
        assert(cs@.skip(n as int) =~= Seq::<char>::empty());
        assert(out@ + Seq::<char>::empty() =~= out@);
    }
    out
}

/// Builds a dictionary from the contents of a source file, whose records
/// have the layout of [`Extractor::source_rows`].
pub fn dict_from_src(content: &str) -> (r: Result<Dict, DictError>)
    ensures
        match tsv_records(content_records(content@)) {
            Some(rows) => built_from_src(3, rows, r),
            None => r matches Err(DictError::Parse(None)),
        },
{
    let src = skip_comment_lines(content);
    Dict::from_src(src.as_str(), &Extractor::source_rows())
}

/// Builds a dictionary from the contents of a source file and a destination
/// file, whose records have the layout of [`Extractor::source_rows`].
pub fn dict_from_src_dst(src_content: &str, dst_content: &str) -> (r: Result<Dict, DictError>)
    ensures
        match (tsv_records(content_records(src_content@)), tsv_records(content_records(dst_content@))) {
            (Some(s), Some(t)) => built_from_src_dst(3, s, t, r),
            _ => r matches Err(DictError::Parse(None)),
        },
{
    let src = skip_comment_lines(src_content);
    let dst = skip_comment_lines(dst_content);
    Dict::from_src_dst(src.as_str(), dst.as_str(), &Extractor::source_rows())
}

} // verus!
