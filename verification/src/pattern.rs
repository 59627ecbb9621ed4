//! Wildcard path patterns.
//!
//! A pattern is a sequence of characters in which `*` matches any run of
//! characters (including an empty one) and every other character matches
//! itself.  Exclusion rules are written as such patterns and evaluated
//! against candidate directory and file paths.
use vstd::prelude::*;

verus! {

/// Does the pattern `p` match the whole text `s`?
pub open spec fn glob_match(p: Seq<char>, s: Seq<char>) -> bool
    decreases p.len() + s.len(),
{
    if p.len() == 0 {
        s.len() == 0
    } else if p[0] == '*' {
        glob_match(p.skip(1), s) || (s.len() > 0 && glob_match(p, s.skip(1)))
    } else {
        s.len() > 0 && p[0] == s[0] && glob_match(p.skip(1), s.skip(1))
    }
}

/// Decides `glob_match` by filling a table of suffix matches: `row[jj]`
/// holds whether the pattern suffix starting at `ii` matches the text
/// suffix starting at `jj`, with the empty text suffix kept aside in
/// `row_end`; rows are computed for `ii` from the pattern's end down to 0.
pub fn glob_matches(pattern: &Vec<char>, text: &Vec<char>) -> (r: bool)
    ensures
        r == glob_match(pattern@, text@),
{
    let plen = pattern.len();
    let slen = text.len();
    let mut row: Vec<bool> = Vec::new();
    let mut row_end: bool = true;
    let mut jj: usize = 0;
    while jj < slen
        invariant
            jj <= slen,
            row@.len() == jj,
            forall|w: int| 0 <= w < jj ==> row@[w] == false,
        decreases slen - jj,
    {
        row.push(false);
        jj = jj + 1;
    }
    proof {
        assert forall|w: int| 0 <= w < slen implies row@[w] == glob_match(
            pattern@.skip(plen as int),
            text@.skip(w),
        ) by {
            assert(pattern@.skip(plen as int).len() == 0);
            assert(text@.skip(w).len() == text@.len() - w);
        };
        assert(text@.skip(slen as int).len() == 0);
    }
    let mut ii: usize = plen;
    while ii > 0
        invariant
            ii <= plen,
            plen == pattern@.len(),
            slen == text@.len(),
            row@.len() == slen,
            row_end == glob_match(pattern@.skip(ii as int), text@.skip(slen as int)),
            forall|w: int|
                0 <= w < slen ==> row@[w] == glob_match(pattern@.skip(ii as int), text@.skip(w)),
        decreases ii,
    {
        ii = ii - 1;
        let star = pattern[ii] == '*';
        let ghost prev = row@;
        let ghost prev_end = row_end;
        let next_end: bool = if star {
            row_end
        } else {
            false
        };
        proof {
            let ps = pattern@.skip(ii as int);
            assert(ps.len() == plen - ii);
            assert(ps[0] == pattern@[ii as int]);
            assert(ps.skip(1) =~= pattern@.skip(ii + 1 as int));
            assert(text@.skip(slen as int).len() == 0);
            assert(next_end == glob_match(ps, text@.skip(slen as int)));
        }
        let mut next: Vec<bool> = Vec::new();
        let mut w: usize = 0;
        while w < slen
            invariant
                w <= slen,
                next@.len() == w,
            decreases slen - w,
        {
            next.push(false);
            w = w + 1;
        }
        let mut jj: usize = slen;
        while jj > 0
            invariant
                jj <= slen,
                ii < plen == pattern@.len(),
                slen == text@.len(),
                star == (pattern@[ii as int] == '*'),
                row@ == prev,
                row_end == prev_end,
                prev.len() == slen,
                next@.len() == slen,
                prev_end == glob_match(pattern@.skip(ii + 1 as int), text@.skip(slen as int)),
                next_end == glob_match(pattern@.skip(ii as int), text@.skip(slen as int)),
                forall|t: int|
                    0 <= t < slen ==> prev[t] == glob_match(
                        pattern@.skip(ii + 1 as int),
                        text@.skip(t),
                    ),
                forall|t: int|
                    jj <= t < slen ==> next@[t] == glob_match(
                        pattern@.skip(ii as int),
                        text@.skip(t),
                    ),
            decreases jj,
        {
            jj = jj - 1;
            let below: bool = if jj + 1 < slen {
                next[jj + 1]
            } else {
                next_end
            };
            let right: bool = if jj + 1 < slen {
                row[jj + 1]
            } else {
                row_end
            };
            let value: bool = if star {
                row[jj] || below
            } else {
                pattern[ii] == text[jj] && right
            };
            next.set(jj, value);
            proof {
                let ps = pattern@.skip(ii as int);
                assert(ps.len() == plen - ii);
                assert(ps[0] == pattern@[ii as int]);
                assert(ps.skip(1) =~= pattern@.skip(ii + 1 as int));
                let ss = text@.skip(jj as int);
                assert(ss.len() == slen - jj);
                assert(ss[0] == text@[jj as int]);
                assert(ss.skip(1) =~= text@.skip(jj + 1 as int));
                assert(value == glob_match(ps, ss));
            }
        }
        row = next;
        row_end = next_end;
    }
    proof {
        assert(pattern@.skip(0) =~= pattern@);
        assert(text@.skip(0) =~= text@);
    }
    if slen == 0 {
        row_end
    } else {
        row[0]
    }
}

} // verus!
