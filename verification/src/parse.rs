//! The parse direction of the message assembler: driving the segmenter
//! across the four grammar sections to build a message value, in the
//! borrowing mode and, by copying the result, in the owned mode.

use vstd::prelude::*;
use crate::grammar::{
    lemma_nonempty_tokens_cons, lemma_tags_find_at, lemma_tags_from_cons, nonempty_tokens,
    spec_parse, spec_parse_after_tags, spec_parse_command, spec_parse_tag, spec_params, spec_tags,
    spec_tags_from, split_semi, tag_tokens, tags_find, tags_insert, tags_section_ok, ParseError,
    SpecMessage, SpecTags,
};
use crate::message::{
    lemma_view_params_push, lemma_view_tags_push, lemma_view_tags_update, view_opt, view_params,
    view_tags, IrcMessage, IrcMessageRef,
};
use crate::segment::{
    find_char, lemma_segment_decreases, next_segment, next_token, spec_segment, str_eq,
};

verus! {

broadcast use vstd::seq_lib::group_seq_lib_default;

/// One tag token split on its first `=`, as slices of the token.
fn parse_tag_token<'a>(t: &'a str) -> (r: (&'a str, Option<&'a str>))
    ensures
        (r.0@, view_opt(r.1)) == spec_parse_tag(t@),
{
    let len = t.unicode_len();
    let n = find_char(t, '=');
    if n == len {
        (t, None)
    } else {
        let k = t.substring_char(0, n);
        let v = t.substring_char(n + 1, len);
        proof {
            assert(k@ =~= t@.take(n as int));
            assert(v@ =~= t@.skip(n + 1));
        }
        (k, Some(v))
    }
}

/// Position of the first pair of `tags` whose key is `key`, or the length
/// when no pair has that key.
fn tags_find_exec<'a>(tags: &Vec<(&'a str, Option<&'a str>)>, key: &str) -> (i: usize)
    ensures
        i as int == tags_find(view_tags(tags@), key@),
        i <= tags@.len(),
{
    let mut i: usize = 0;
    while i < tags.len()
        invariant
            0 <= i <= tags@.len(),
            forall|k: int| 0 <= k < i ==> view_tags(tags@)[k].0 != key@,
        decreases tags@.len() - i,
    {
        if str_eq(tags[i].0, key) {
            proof {
                lemma_tags_find_at(view_tags(tags@), key@, i as int);
            }
            return i;
        }
        i = i + 1;
    }
    proof {
        lemma_tags_find_at(view_tags(tags@), key@, tags@.len() as int);
    }
    i
}

/// Insert a tag pair: overwrite the value in place when the key is already
/// present, else append the pair, so the last occurrence of a key wins.
fn tags_insert_exec<'a>(tags: &mut Vec<(&'a str, Option<&'a str>)>, k: &'a str, v: Option<&'a str>)
    ensures
        view_tags(final(tags)@) == tags_insert(view_tags(old(tags)@), k@, view_opt(v)),
{
    let i = tags_find_exec(tags, k);
    if i < tags.len() {
        tags[i] = (k, v);
        proof {
            lemma_view_tags_update(old(tags)@, i as int, (k, v));
        }
    } else {
        tags.push((k, v));
        proof {
            lemma_view_tags_push(old(tags)@, (k, v));
        }
    }
}

/// Parse the text between `@` and the first space boundary: split it on `;`
/// into tokens (empty tokens dropped), split each token on its first `=`,
/// and insert the pairs in order. A section with no token, or with a token
/// whose key is zero-length, is malformed.
fn parse_tags_section<'a>(section: &'a str) -> (r: Result<
    Vec<(&'a str, Option<&'a str>)>,
    ParseError,
>)
    ensures
        (r is Ok) == tags_section_ok(section@),
        r matches Ok(tags) ==> view_tags(tags@) == spec_tags(tag_tokens(section@)),
        r matches Err(e) ==> e == ParseError::MalformedTagSection,
{
    let mut tags: Vec<(&'a str, Option<&'a str>)> = Vec::new();
    let mut rest: &'a str = section;
    let mut seen: bool = false;
    let ghost mut done: Seq<Seq<char>> = Seq::empty();
    proof {
        assert(view_tags(tags@) =~= Seq::<(Seq<char>, Option<Seq<char>>)>::empty());
        assert(done + tag_tokens(rest@) =~= tag_tokens(section@));
    }
    loop
        invariant
            tag_tokens(section@) == done + tag_tokens(rest@),
            seen == (done.len() > 0),
            forall|i: int| 0 <= i < done.len() ==> (#[trigger] done[i]).len() > 0 && done[i][0]
                != '=',
            spec_tags_from(view_tags(tags@), tag_tokens(rest@)) == spec_tags(
                tag_tokens(section@),
            ),
        decreases rest@.len(),
    {
        let len = rest.unicode_len();
        let n = find_char(rest, ';');
        if n == len {
            // the remainder is the final raw token
            proof {
                assert(split_semi(rest@) == seq![rest@]);
            }
            if rest.is_empty() {
                proof {
                    assert(seq![rest@] + Seq::<Seq<char>>::empty() =~= seq![rest@]);
                    lemma_nonempty_tokens_cons(rest@, Seq::empty());
                    assert(nonempty_tokens(Seq::<Seq<char>>::empty()) == Seq::<Seq<char>>::empty());
                    assert(tag_tokens(rest@) == Seq::<Seq<char>>::empty());
                    assert(tag_tokens(section@) =~= done);
                }
                if seen {
                    return Ok(tags);
                } else {
                    return Err(ParseError::MalformedTagSection);
                }
            } else {
                proof {
                    assert(seq![rest@] + Seq::<Seq<char>>::empty() =~= seq![rest@]);
                    lemma_nonempty_tokens_cons(rest@, Seq::empty());
                    assert(nonempty_tokens(Seq::<Seq<char>>::empty()) == Seq::<Seq<char>>::empty());
                    assert(tag_tokens(rest@) == seq![rest@]);
                }
                if rest.get_char(0) == '=' {
                    proof {
                        assert(tag_tokens(section@)[done.len() as int] == rest@);
                        assert(!tags_section_ok(section@));
                    }
                    return Err(ParseError::MalformedTagSection);
                }
                let (tk, tv) = parse_tag_token(rest);
                let ghost acc = view_tags(tags@);
                tags_insert_exec(&mut tags, tk, tv);
                proof {
                    assert(seq![rest@] + Seq::<Seq<char>>::empty() =~= seq![rest@]);
                    lemma_tags_from_cons(acc, rest@, Seq::empty());
                    done = done + seq![rest@];
                    assert(tag_tokens(section@) =~= done);
                    assert(tags_section_ok(section@));
                }
                return Ok(tags);
            }
        } else {
            let tok = rest.substring_char(0, n);
            let new_rest = rest.substring_char(n + 1, len);
            proof {
                assert(tok@ =~= rest@.take(n as int));
                assert(new_rest@ =~= rest@.skip(n + 1));
                assert(split_semi(rest@) == seq![tok@] + split_semi(new_rest@));
                lemma_nonempty_tokens_cons(tok@, split_semi(new_rest@));
            }
            if !tok.is_empty() {
                if tok.get_char(0) == '=' {
                    proof {
                        assert(tag_tokens(rest@)[0] == tok@);
                        assert(tag_tokens(section@)[done.len() as int] == tok@);
                        assert(!tags_section_ok(section@));
                    }
                    return Err(ParseError::MalformedTagSection);
                }
                let (tk, tv) = parse_tag_token(tok);
                let ghost acc = view_tags(tags@);
                tags_insert_exec(&mut tags, tk, tv);
                seen = true;
                proof {
                    lemma_tags_from_cons(acc, tok@, tag_tokens(new_rest@));
                    assert(tag_tokens(rest@) == seq![tok@] + tag_tokens(new_rest@));
                    let done_prev = done;
                    done = done + seq![tok@];
                    assert(tag_tokens(section@) =~= done + tag_tokens(new_rest@));
                    assert forall|i: int| 0 <= i < done.len() implies (#[trigger] done[i]).len()
                        > 0 && done[i][0] != '=' by {
                        if i < done_prev.len() {
                            assert(done[i] == done_prev[i]);
                            assert(done_prev[i].len() > 0 && done_prev[i][0] != '=');
                        } else {
                            assert(done[i] == tok@);
                            assert(tok@.len() > 0 && tok@[0] != '=');
                        }
                    }
                }
            } else {
                proof {
                    assert(tag_tokens(rest@) == tag_tokens(new_rest@));
                }
            }
            rest = new_rest;
        }
    }
}

impl IrcMessage {
    /// Parse one line of wire text into a message with owned fields; the
    /// structural result is field for field the one of
    /// [`IrcMessage::parse_ref`].
    pub fn parse_own(line: &str) -> (r: Result<IrcMessage, ParseError>)
        ensures
            (r is Ok) == (spec_parse(line@) is Ok),
            r matches Ok(m) ==> spec_parse(line@) == Ok::<SpecMessage, ParseError>(m@) && m.raw@
                == line@,
            r matches Err(e) ==> spec_parse(line@) == Err::<SpecMessage, ParseError>(e),
    {
        match IrcMessage::parse_ref(line) {
            Ok(m) => Ok(m.to_message()),
            Err(e) => Err(e),
        }
    }

    /// Parse one line of wire text into a message borrowing from `line`
    /// (zero-copy). The four stages run in order: a tag section introduced
    /// by `@`, a prefix introduced by `:`, the mandatory command token, and
    /// the parameters. Any failure aborts the whole parse with an error and
    /// no partial message.
    pub fn parse_ref<'a>(line: &'a str) -> (r: Result<IrcMessageRef<'a>, ParseError>)
        ensures
            (r is Ok) == (spec_parse(line@) is Ok),
            r matches Ok(m) ==> spec_parse(line@) == Ok::<SpecMessage, ParseError>(m@) && m.raw@
                == line@,
            r matches Err(e) ==> spec_parse(line@) == Err::<SpecMessage, ParseError>(e),
    {
        let len = line.unicode_len();
        if len == 0 {
            return Err(ParseError::EmptyInput);
        }
        // TAGS
        let (tags, rest1): (Vec<(&'a str, Option<&'a str>)>, &'a str) = if line.get_char(0)
            == '@' {
            let after = line.substring_char(1, len);
            proof {
                assert(after@ =~= line@.skip(1));
            }
            match next_segment(after) {
                None => {
                    return Err(ParseError::MissingCommand);
                },
                Some((section, rest)) => {
                    match parse_tags_section(section) {
                        Err(e) => {
                            return Err(e);
                        },
                        Ok(t) => (t, rest),
                    }
                },
            }
        } else {
            let t: Vec<(&'a str, Option<&'a str>)> = Vec::new();
            proof {
                assert(view_tags(t@) =~= Seq::<(Seq<char>, Option<Seq<char>>)>::empty());
            }
            (t, line)
        };
        let ghost gtags: SpecTags = view_tags(tags@);
        proof {
            assert(spec_parse(line@) == spec_parse_after_tags(gtags, rest1@));
        }
        // PREFIX
        let (prefix, rest2): (Option<&'a str>, &'a str) = if !rest1.is_empty() && rest1.get_char(0)
            == ':' {
            let rlen = rest1.unicode_len();
            let after = rest1.substring_char(1, rlen);
            proof {
                assert(after@ =~= rest1@.skip(1));
            }
            match next_segment(after) {
                None => {
                    return Err(ParseError::MissingCommand);
                },
                Some((pfx, rest)) => (Some(pfx), rest),
            }
        } else {
            (None, rest1)
        };
        proof {
            assert(spec_parse(line@) == spec_parse_command(gtags, view_opt(prefix), rest2@));
        }
        // COMMAND
        if rest2.is_empty() {
            return Err(ParseError::MissingCommand);
        }
        match next_segment(rest2) {
            None => {
                let m = IrcMessageRef {
                    raw: line,
                    tags,
                    prefix,
                    command: Some(rest2),
                    params: Vec::new(),
                };
                proof {
                    assert(view_params(m.params@) =~= Seq::<Seq<char>>::empty());
                    assert(m@ =~= (SpecMessage {
                        tags: gtags,
                        prefix: view_opt(prefix),
                        command: Some(rest2@),
                        params: Seq::empty(),
                    }));
                }
                Ok(m)
            },
            Some((cmd, rest3)) => {
                if cmd.is_empty() {
                    return Err(ParseError::MissingCommand);
                }
                // PARAMS
                let mut params: Vec<&'a str> = Vec::new();
                let mut rest: &'a str = rest3;
                proof {
                    assert(view_params(params@) =~= Seq::<Seq<char>>::empty());
                }
                while !rest.is_empty()
                    invariant_except_break
                        spec_params(rest3@) == view_params(params@) + spec_params(rest@),
                    ensures
                        spec_params(rest3@) == view_params(params@),
                    decreases rest@.len(),
                {
                    if rest.get_char(0) == ':' {
                        let rlen = rest.unicode_len();
                        let tail = rest.substring_char(1, rlen);
                        let ghost snap = params@;
                        params.push(tail);
                        proof {
                            lemma_view_params_push(snap, tail);
                            assert(tail@ =~= rest@.skip(1));
                            assert(spec_params(rest@) == seq![rest@.skip(1)]);
                            assert(view_params(snap) + spec_params(rest@) =~= view_params(
                                params@,
                            ));
                        }
                        break;
                    }
                    let (tok, tail) = next_token(rest);
                    let ghost snap = params@;
                    params.push(tok);
                    proof {
                        lemma_view_params_push(snap, tok);
                        if spec_segment(rest@) is None {
                            assert(tok@ == rest@);
                            assert(spec_params(rest@) == seq![rest@]);
                        } else {
                            lemma_segment_decreases(rest@);
                            if tail@.len() == 0 {
                                assert(spec_params(rest@) == seq![tok@]);
                            } else {
                                assert(spec_params(rest@) == seq![tok@] + spec_params(tail@));
                            }
                        }
                        assert(view_params(snap) + spec_params(rest@) =~= view_params(params@)
                            + spec_params(tail@));
                    }
                    rest = tail;
                }
                let m = IrcMessageRef { raw: line, tags, prefix, command: Some(cmd), params };
                proof {
                    assert(m@ =~= (SpecMessage {
                        tags: gtags,
                        prefix: view_opt(prefix),
                        command: Some(cmd@),
                        params: spec_params(rest3@),
                    }));
                }
                Ok(m)
            },
        }
    }
}

} // verus!
