//! The path expression parser: splits a dot-notation string into its key
//! segments, purely lexically, with no quoting or escaping.

use vstd::prelude::*;
use vstd::string::StrSliceExecFns;
use vstd::string::StringExecFns;
use crate::error::TomlerError;
use crate::tree::segs_view;

verus! {

/// Split a character sequence on a separator. Splitting the empty sequence
/// yields one empty segment, like `str::split`.
pub open spec fn split_on(s: Seq<char>, sep: char) -> Seq<Seq<char>>
    decreases s.len(),
{
    if s.len() == 0 {
        seq![Seq::<char>::empty()]
    } else if s[0] == sep {
        seq![Seq::<char>::empty()] + split_on(s.subrange(1, s.len() as int), sep)
    } else {
        let r = split_on(s.subrange(1, s.len() as int), sep);
        r.update(0, seq![s[0]] + r[0])
    }
}

/// A split has at least one segment.
pub proof fn lemma_split_len(s: Seq<char>, sep: char)
    ensures
        split_on(s, sep).len() >= 1,
    decreases s.len(),
{
    if s.len() > 0 {
        lemma_split_len(s.subrange(1, s.len() as int), sep);
    }
}

/// Splitting a sequence without the separator yields that one segment.
pub proof fn lemma_split_nosep(s: Seq<char>, sep: char)
    requires
        forall|l: int| 0 <= l < s.len() ==> s[l] != sep,
    ensures
        split_on(s, sep) =~~= seq![s],
    decreases s.len(),
{
    if s.len() > 0 {
        let rest = s.subrange(1, s.len() as int);
        lemma_split_nosep(rest, sep);
        assert(split_on(s, sep) =~~= seq![seq![s[0]] + rest]);
        assert(seq![s[0]] + rest =~= s);
    }
}

/// Splitting at the first separator: the prefix before it is the first
/// segment, and the rest splits on its own.
pub proof fn lemma_split_at_first(s: Seq<char>, sep: char, j: int)
    requires
        0 <= j < s.len(),
        s[j] == sep,
        forall|l: int| 0 <= l < j ==> s[l] != sep,
    ensures
        split_on(s, sep) =~~= seq![s.subrange(0, j)] + split_on(
            s.subrange(j + 1, s.len() as int),
            sep,
        ),
    decreases s.len(),
{
    let rest = s.subrange(1, s.len() as int);
    if j == 0 {
        assert(split_on(s, sep) =~~= seq![Seq::<char>::empty()] + split_on(rest, sep));
        assert(s.subrange(0, 0) =~= Seq::<char>::empty());
        assert(s.subrange(1, s.len() as int) =~= rest);
    } else {
        assert forall|l: int| 0 <= l < j - 1 implies rest[l] != sep by {
            assert(rest[l] == s[l + 1]);
        }
        assert(rest[j - 1] == sep);
        lemma_split_at_first(rest, sep, j - 1);
        let r = split_on(rest, sep);
        lemma_split_len(rest.subrange(j, rest.len() as int), sep);
        assert(r[0] == rest.subrange(0, j - 1));
        assert(seq![s[0]] + rest.subrange(0, j - 1) =~= s.subrange(0, j));
        assert(rest.subrange(j, rest.len() as int) =~= s.subrange(j + 1, s.len() as int));
        assert(split_on(s, sep) =~~= seq![s.subrange(0, j)] + split_on(
            s.subrange(j + 1, s.len() as int),
            sep,
        ));
    }
}

/// Split a string on a separator character, like `str::split`.
pub fn split_char(s: &str, sep: char) -> (r: Vec<String>)
    ensures
        segs_view(r@) =~~= split_on(s@, sep),
        r@.len() >= 1,
{
    let n = s.unicode_len();
    let mut out: Vec<String> = Vec::new();
    let mut start: usize = 0;
    let mut i: usize = 0;
    proof {
        assert(s@.subrange(0, n as int) =~= s@);
        assert(segs_view(out@) =~= Seq::<Seq<char>>::empty());
    }
    while i < n
        invariant
            n == s@.len(),
            start <= i <= n,
            forall|l: int| start <= l < i ==> s@[l] != sep,
            split_on(s@, sep) =~~= segs_view(out@) + split_on(
                s@.subrange(start as int, n as int),
                sep,
            ),
        decreases n - i,
    {
        if s.get_char(i) == sep {
            let seg = String::from_str(s.substring_char(start, i));
            out.push(seg);
            proof {
                let tail = s@.subrange(start as int, n as int);
                assert(tail[i - start] == sep);
                assert forall|l: int| 0 <= l < i - start implies tail[l] != sep by {
                    assert(tail[l] == s@[start + l]);
                }
                lemma_split_at_first(tail, sep, i - start);
                assert(tail.subrange(0, i - start) =~= s@.subrange(start as int, i as int));
                assert(tail.subrange(i - start + 1, tail.len() as int) =~= s@.subrange(
                    i as int + 1,
                    n as int,
                ));
                assert(segs_view(out@) =~~= segs_view(out@.subrange(0, out@.len() - 1)) + seq![
                    s@.subrange(start as int, i as int),
                ]);
            }
            start = i + 1;
        }
        i += 1;
    }
    let last = String::from_str(s.substring_char(start, n));
    out.push(last);
    proof {
        let tail = s@.subrange(start as int, n as int);
        assert forall|l: int| 0 <= l < tail.len() implies tail[l] != sep by {
            assert(tail[l] == s@[start + l]);
        }
        lemma_split_nosep(tail, sep);
        assert(segs_view(out@) =~~= segs_view(out@.subrange(0, out@.len() - 1)) + seq![tail]);
    }
    out
}

/// Parse a dot-notation path expression into its segments.
///
/// Fails with `EmptyPath` exactly when the input is empty. Segments may be
/// empty when the input has consecutive, leading or trailing dots; they are
/// passed through unchanged.
pub fn parse_path(key: &str) -> (r: Result<Vec<String>, TomlerError>)
    ensures
        match r {
            Ok(segs) => key@.len() > 0 && segs@.len() >= 1 && segs_view(segs@) =~~= split_on(
                key@,
                '.',
            ),
            Err(e) => e == TomlerError::EmptyPath && key@.len() == 0,
        },
{
    if key.unicode_len() == 0 {
        Err(TomlerError::EmptyPath)
    } else {
        Ok(split_char(key, '.'))
    }
}

} // verus!
