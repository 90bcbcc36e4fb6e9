//! The wire grammar, stated over sequences of characters: what one line of
//! IRC text parses to, stage by stage (tags, prefix, command, parameters).

use vstd::prelude::*;
use crate::segment::{find_idx, skip_spaces, spec_segment};
use crate::segment::{lemma_find_idx, lemma_segment_decreases};

verus! {

/// Why a line fails to parse.
#[derive(Debug, Clone, Copy, PartialEq, Eq, Structural)]
pub enum ParseError {
    /// The line is empty.
    EmptyInput,
    /// The tag and prefix sections consumed the whole line, or the line
    /// starts with a space, so no command token can be found.
    MissingCommand,
    /// An `@`-introduced tag section holds no token, or one of its tokens
    /// has a zero-length key.
    MalformedTagSection,
}

/// The tags of a message: key and optional value, in insertion order, with
/// pairwise distinct keys.
pub type SpecTags = Seq<(Seq<char>, Option<Seq<char>>)>;

/// A message, as the grammar sees it. The optional raw text a parsed message
/// retains is not part of this model.
#[verifier::ext_equal]
pub ghost struct SpecMessage {
    pub tags: SpecTags,
    pub prefix: Option<Seq<char>>,
    pub command: Option<Seq<char>>,
    pub params: Seq<Seq<char>>,
}

/// The pieces of `s` between occurrences of `;` (empty pieces included).
pub open spec fn split_semi(s: Seq<char>) -> Seq<Seq<char>>
    decreases s.len(),
{
    let n = find_idx(s, ';');
    if n == s.len() {
        seq![s]
    } else {
        proof {
            lemma_find_idx(s, ';');
        }
        seq![s.take(n)] + split_semi(s.skip(n + 1))
    }
}

/// The non-empty elements of `tokens`, in order.
pub open spec fn nonempty_tokens(tokens: Seq<Seq<char>>) -> Seq<Seq<char>>
    decreases tokens.len(),
{
    if tokens.len() == 0 {
        Seq::empty()
    } else if tokens[0].len() > 0 {
        seq![tokens[0]] + nonempty_tokens(tokens.drop_first())
    } else {
        nonempty_tokens(tokens.drop_first())
    }
}

/// The tag tokens of a tag section: the non-empty pieces between `;`s.
pub open spec fn tag_tokens(section: Seq<char>) -> Seq<Seq<char>> {
    nonempty_tokens(split_semi(section))
}

/// How `nonempty_tokens` acts on a list with a given head.
pub proof fn lemma_nonempty_tokens_cons(t: Seq<char>, rest: Seq<Seq<char>>)
    ensures
        t.len() > 0 ==> nonempty_tokens(seq![t] + rest) == seq![t] + nonempty_tokens(rest),
        t.len() == 0 ==> nonempty_tokens(seq![t] + rest) == nonempty_tokens(rest),
{
    let s = seq![t] + rest;
    assert(s[0] == t);
    assert(s.len() == 1 + rest.len());
    assert(s.drop_first() =~= rest);
}

/// One tag token split on its first `=`: the key alone when no `=` occurs
/// (the value is absent, not a default string), else the key before the
/// first `=` and the value after it, verbatim.
pub open spec fn spec_parse_tag(t: Seq<char>) -> (Seq<char>, Option<Seq<char>>) {
    let n = find_idx(t, '=');
    if n == t.len() {
        (t, None)
    } else {
        (t.take(n), Some(t.skip(n + 1)))
    }
}

/// A tag section is well-formed when it yields at least one token and no
/// token has a zero-length key (a token never starts with `=`).
pub open spec fn tags_section_ok(section: Seq<char>) -> bool {
    let tokens = tag_tokens(section);
    tokens.len() > 0 && forall|i: int| 0 <= i < tokens.len() ==> tokens[i][0] != '='
}

/// Position of the first pair of `tags` whose key is `k`, or `tags.len()`
/// when no pair has that key.
pub open spec fn tags_find(tags: SpecTags, k: Seq<char>) -> int
    decreases tags.len(),
{
    if tags.len() == 0 {
        0
    } else if tags[0].0 == k {
        0
    } else {
        1 + tags_find(tags.drop_first(), k)
    }
}

/// `tags_find` lies between `0` and `tags.len()`, every pair before it has a
/// different key, and it points at `k` whenever it is a proper index.
pub proof fn lemma_tags_find(tags: SpecTags, k: Seq<char>)
    ensures
        0 <= tags_find(tags, k) <= tags.len(),
        forall|i: int| 0 <= i < tags_find(tags, k) ==> tags[i].0 != k,
        tags_find(tags, k) < tags.len() ==> tags[tags_find(tags, k)].0 == k,
    decreases tags.len(),
{
    if tags.len() == 0 {
    } else if tags[0].0 == k {
    } else {
        lemma_tags_find(tags.drop_first(), k);
        assert forall|i: int| 0 <= i < tags_find(tags, k) implies tags[i].0 != k by {
            if i >= 1 {
                assert(tags.drop_first()[i - 1].0 != k);
            }
        }
        if tags_find(tags, k) < tags.len() {
            assert(tags[tags_find(tags, k)].0
                == tags.drop_first()[tags_find(tags.drop_first(), k)].0);
        }
    }
}

/// A position before which `k` does not occur as a key and which holds `k`
/// (or is the end) is exactly `tags_find(tags, k)`.
pub proof fn lemma_tags_find_at(tags: SpecTags, k: Seq<char>, n: int)
    requires
        0 <= n <= tags.len(),
        forall|i: int| 0 <= i < n ==> tags[i].0 != k,
        n < tags.len() ==> tags[n].0 == k,
    ensures
        tags_find(tags, k) == n,
    decreases tags.len(),
{
    if tags.len() == 0 {
    } else if tags[0].0 == k {
        assert(n == 0);
    } else {
        assert(n >= 1);
        assert forall|i: int| 0 <= i < n - 1 implies tags.drop_first()[i].0 != k by {
            assert(tags[i + 1].0 != k);
        }
        lemma_tags_find_at(tags.drop_first(), k, n - 1);
    }
}

/// Insert a tag: overwrite the value in place when the key is present, else
/// append the pair. The last occurrence of a key therefore wins.
pub open spec fn tags_insert(tags: SpecTags, k: Seq<char>, v: Option<Seq<char>>) -> SpecTags {
    let i = tags_find(tags, k);
    if i < tags.len() {
        tags.update(i, (k, v))
    } else {
        tags.push((k, v))
    }
}

/// The tags obtained by inserting the parsed `tokens` in order, starting
/// from `acc`.
pub open spec fn spec_tags_from(acc: SpecTags, tokens: Seq<Seq<char>>) -> SpecTags
    decreases tokens.len(),
{
    if tokens.len() == 0 {
        acc
    } else {
        let p = spec_parse_tag(tokens[0]);
        spec_tags_from(tags_insert(acc, p.0, p.1), tokens.drop_first())
    }
}

/// The tags a list of tag tokens parses to.
pub open spec fn spec_tags(tokens: Seq<Seq<char>>) -> SpecTags {
    spec_tags_from(Seq::empty(), tokens)
}

/// How `spec_tags_from` acts on a token list with a given head.
pub proof fn lemma_tags_from_cons(acc: SpecTags, t: Seq<char>, rest: Seq<Seq<char>>)
    ensures
        spec_tags_from(acc, seq![t] + rest) == spec_tags_from(
            tags_insert(acc, spec_parse_tag(t).0, spec_parse_tag(t).1),
            rest,
        ),
{
    let s = seq![t] + rest;
    assert(s[0] == t);
    assert(s.drop_first() =~= rest);
}

/// The keys of `tags` are pairwise distinct.
pub open spec fn tags_keys_distinct(tags: SpecTags) -> bool {
    forall|i: int, j: int| 0 <= i < j < tags.len() ==> tags[i].0 != tags[j].0
}

/// The parameter section: middle parameters are space-delimited tokens; a
/// remainder whose first character is `:` ends the list with everything
/// after the `:` as one final parameter, verbatim.
pub open spec fn spec_params(s: Seq<char>) -> Seq<Seq<char>>
    decreases s.len(),
{
    if s.len() == 0 {
        Seq::empty()
    } else if s[0] == ':' {
        seq![s.skip(1)]
    } else {
        match spec_segment(s) {
            None => seq![s],
            Some(p) => {
                if p.1.len() == 0 {
                    seq![p.0]
                } else {
                    proof {
                        lemma_segment_decreases(s);
                    }
                    seq![p.0] + spec_params(p.1)
                }
            },
        }
    }
}

/// The command stage and everything after it: the remaining text `s` must
/// yield a non-empty command token; what follows is the parameter section.
pub open spec fn spec_parse_command(
    tags: SpecTags,
    prefix: Option<Seq<char>>,
    s: Seq<char>,
) -> Result<SpecMessage, ParseError> {
    if s.len() == 0 {
        Err(ParseError::MissingCommand)
    } else {
        match spec_segment(s) {
            None => Ok(
                SpecMessage { tags, prefix, command: Some(s), params: Seq::empty() },
            ),
            Some(p) => {
                if p.0.len() == 0 {
                    Err(ParseError::MissingCommand)
                } else {
                    Ok(SpecMessage { tags, prefix, command: Some(p.0), params: spec_params(p.1) })
                }
            },
        }
    }
}

/// The prefix stage and everything after it: a leading `:` introduces the
/// sender prefix, which must be followed by a space boundary.
pub open spec fn spec_parse_after_tags(tags: SpecTags, s: Seq<char>) -> Result<
    SpecMessage,
    ParseError,
> {
    if s.len() > 0 && s[0] == ':' {
        match spec_segment(s.skip(1)) {
            None => Err(ParseError::MissingCommand),
            Some(p) => spec_parse_command(tags, Some(p.0), p.1),
        }
    } else {
        spec_parse_command(tags, None, s)
    }
}

/// What one line of wire text parses to: a leading `@` introduces the tag
/// section, which must be followed by a space boundary and be well-formed;
/// then the prefix, command and parameter stages. Parsing is all-or-nothing:
/// an error at any stage is the result of the whole parse.
pub open spec fn spec_parse(s: Seq<char>) -> Result<SpecMessage, ParseError> {
    if s.len() == 0 {
        Err(ParseError::EmptyInput)
    } else if s[0] == '@' {
        match spec_segment(s.skip(1)) {
            None => Err(ParseError::MissingCommand),
            Some(p) => {
                if tags_section_ok(p.0) {
                    spec_parse_after_tags(spec_tags(tag_tokens(p.0)), p.1)
                } else {
                    Err(ParseError::MalformedTagSection)
                }
            },
        }
    } else {
        spec_parse_after_tags(Seq::empty(), s)
    }
}

} // verus!
