//! The segmenter: splitting a line into its first space-delimited token and
//! the remainder, with a run of separating spaces collapsed into one
//! boundary.

use vstd::prelude::*;

verus! {

/// Index of the first occurrence of `c` in `s`, or `s.len()` when `c` does
/// not occur at all.
pub open spec fn find_idx(s: Seq<char>, c: char) -> int
    decreases s.len(),
{
    if s.len() == 0 {
        0
    } else if s[0] == c {
        0
    } else {
        1 + find_idx(s.skip(1), c)
    }
}

/// `find_idx(s, c)` lies between `0` and `s.len()`, every character before
/// it differs from `c`, and it points at `c` whenever it is a proper index.
pub proof fn lemma_find_idx(s: Seq<char>, c: char)
    ensures
        0 <= find_idx(s, c) <= s.len(),
        forall|i: int| 0 <= i < find_idx(s, c) ==> s[i] != c,
        find_idx(s, c) < s.len() ==> s[find_idx(s, c)] == c,
    decreases s.len(),
{
    if s.len() == 0 {
    } else if s[0] == c {
    } else {
        lemma_find_idx(s.skip(1), c);
        assert forall|i: int| 0 <= i < find_idx(s, c) implies s[i] != c by {
            if i >= 1 {
                assert(s.skip(1)[i - 1] != c);
            }
        }
        if find_idx(s, c) < s.len() {
            assert(s[find_idx(s, c)] == s.skip(1)[find_idx(s.skip(1), c)]);
        }
    }
}

/// A position before which `c` does not occur and which holds `c` (or is the
/// end) is exactly `find_idx(s, c)`.
pub proof fn lemma_find_idx_at(s: Seq<char>, c: char, n: int)
    requires
        0 <= n <= s.len(),
        forall|i: int| 0 <= i < n ==> s[i] != c,
        n < s.len() ==> s[n] == c,
    ensures
        find_idx(s, c) == n,
    decreases s.len(),
{
    if s.len() == 0 {
    } else if s[0] == c {
        assert(n == 0);
    } else {
        assert(n >= 1);
        assert forall|i: int| 0 <= i < n - 1 implies s.skip(1)[i] != c by {
            assert(s[i + 1] != c);
        }
        lemma_find_idx_at(s.skip(1), c, n - 1);
    }
}

/// Number of leading spaces of `s`.
pub open spec fn skip_count(s: Seq<char>) -> int
    decreases s.len(),
{
    if s.len() > 0 && s[0] == ' ' {
        1 + skip_count(s.skip(1))
    } else {
        0
    }
}

/// `skip_count(s)` counts exactly the leading run of spaces.
pub proof fn lemma_skip_count(s: Seq<char>)
    ensures
        0 <= skip_count(s) <= s.len(),
        forall|i: int| 0 <= i < skip_count(s) ==> s[i] == ' ',
        skip_count(s) < s.len() ==> s[skip_count(s)] != ' ',
    decreases s.len(),
{
    if s.len() > 0 && s[0] == ' ' {
        lemma_skip_count(s.skip(1));
        assert forall|i: int| 0 <= i < skip_count(s) implies s[i] == ' ' by {
            if i >= 1 {
                assert(s.skip(1)[i - 1] == ' ');
            }
        }
        if skip_count(s) < s.len() {
            assert(s[skip_count(s)] == s.skip(1)[skip_count(s.skip(1))]);
        }
    }
}

/// A position up to which everything is a space and which holds a non-space
/// (or is the end) is exactly `skip_count(s)`.
pub proof fn lemma_skip_count_at(s: Seq<char>, n: int)
    requires
        0 <= n <= s.len(),
        forall|i: int| 0 <= i < n ==> s[i] == ' ',
        n < s.len() ==> s[n] != ' ',
    ensures
        skip_count(s) == n,
    decreases s.len(),
{
    if s.len() > 0 && s[0] == ' ' {
        assert(n >= 1);
        assert forall|i: int| 0 <= i < n - 1 implies s.skip(1)[i] == ' ' by {
            assert(s[i + 1] == ' ');
        }
        lemma_skip_count_at(s.skip(1), n - 1);
    } else {
        assert(n == 0);
    }
}

/// `s` with its leading run of spaces removed.
pub open spec fn skip_spaces(s: Seq<char>) -> Seq<char> {
    s.skip(skip_count(s))
}

/// The segmenter on a string `s`: the token before the first space and the
/// remainder after the separating run of spaces, or `None` when `s` holds no
/// space at all.
pub open spec fn spec_segment(s: Seq<char>) -> Option<(Seq<char>, Seq<char>)> {
    let n = find_idx(s, ' ');
    if n == s.len() {
        None
    } else {
        Some((s.take(n), skip_spaces(s.skip(n))))
    }
}

/// A successful segmentation leaves a strictly shorter remainder.
pub proof fn lemma_segment_decreases(s: Seq<char>)
    requires
        spec_segment(s) is Some,
    ensures
        spec_segment(s).unwrap().1.len() < s.len(),
{
    let n = find_idx(s, ' ');
    lemma_find_idx(s, ' ');
    let tail = s.skip(n);
    lemma_skip_count(tail);
    assert(tail[0] == ' ');
    assert(skip_count(tail) >= 1);
}

/// Index of the first occurrence of `c` in `s`, or the character length of
/// `s` when `c` does not occur.
pub fn find_char(s: &str, c: char) -> (n: usize)
    ensures
        n as int == find_idx(s@, c),
        n <= s@.len(),
{
    let len = s.unicode_len();
    let mut i: usize = 0;
    while i < len
        invariant
            0 <= i <= len,
            len == s@.len(),
            forall|k: int| 0 <= k < i ==> s@[k] != c,
        decreases len - i,
    {
        if s.get_char(i) == c {
            proof {
                lemma_find_idx_at(s@, c, i as int);
            }
            return i;
        }
        i = i + 1;
    }
    proof {
        lemma_find_idx_at(s@, c, len as int);
    }
    len
}

/// Whether `c` occurs anywhere in `s`.
pub fn contains_char(s: &str, c: char) -> (r: bool)
    ensures
        r == s@.contains(c),
{
    let n = find_char(s, c);
    let len = s.unicode_len();
    proof {
        lemma_find_idx(s@, c);
        if (n as int) < s@.len() {
            assert(s@[n as int] == c);
            assert(s@.contains(c));
        } else {
            assert forall|i: int| 0 <= i < s@.len() implies s@[i] != c by {}
            assert(!s@.contains(c));
        }
    }
    n < len
}

/// Whether two string slices hold the same characters.
pub fn str_eq(a: &str, b: &str) -> (r: bool)
    ensures
        r == (a@ == b@),
{
    let alen = a.unicode_len();
    let blen = b.unicode_len();
    if alen != blen {
        return false;
    }
    let mut i: usize = 0;
    while i < alen
        invariant
            0 <= i <= alen,
            alen == a@.len(),
            alen == b@.len(),
            forall|k: int| 0 <= k < i ==> a@[k] == b@[k],
        decreases alen - i,
    {
        if a.get_char(i) != b.get_char(i) {
            return false;
        }
        i = i + 1;
    }
    proof {
        assert(a@ =~= b@);
    }
    true
}

/// The segmenter of the wire grammar: the first space-delimited token of
/// `line` and the remainder with the separating run of spaces stripped, or
/// `None` when `line` holds no space.
pub fn next_segment<'a>(line: &'a str) -> (r: Option<(&'a str, &'a str)>)
    ensures
        (r is Some) == (spec_segment(line@) is Some),
        r matches Some(p) ==> spec_segment(line@) == Some((p.0@, p.1@)),
{
    let len = line.unicode_len();
    let n = find_char(line, ' ');
    if n == len {
        None
    } else {
        let token = line.substring_char(0, n);
        let mut j: usize = n;
        while j < len && line.get_char(j) == ' '
            invariant
                n <= j <= len,
                len == line@.len(),
                forall|k: int| n <= k < j ==> line@[k] == ' ',
            decreases len - j,
        {
            j = j + 1;
        }
        let rest = line.substring_char(j, len);
        proof {
            lemma_find_idx(line@, ' ');
            assert(token@ =~= line@.take(n as int));
            let tail = line@.skip(n as int);
            assert forall|k: int| 0 <= k < j - n implies tail[k] == ' ' by {
                assert(line@[k + n] == ' ');
            }
            if (j as int) < len as int {
                assert(tail[j - n] == line@[j as int]);
            }
            lemma_skip_count_at(tail, j - n);
            assert(rest@ =~= skip_spaces(tail));
        }
        Some((token, rest))
    }
}

/// The segmenter's other behavior, for call sites where no space boundary
/// means "the whole string is the token": the remainder is then empty.
pub fn next_token<'a>(line: &'a str) -> (r: (&'a str, &'a str))
    ensures
        spec_segment(line@) matches Some(p) ==> (r.0@, r.1@) == p,
        spec_segment(line@) is None ==> r.0@ == line@ && r.1@.len() == 0,
{
    match next_segment(line) {
        Some(p) => p,
        None => {
            proof {
                reveal_strlit("");
            }
            (line, "")
        },
    }
}

} // verus!
