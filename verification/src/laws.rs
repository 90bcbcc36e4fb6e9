//! The laws of the parser and the serializer: what parsing guarantees on
//! whole classes of inputs, and how the two directions compose.

use vstd::prelude::*;
use crate::grammar::{
    lemma_nonempty_tokens_cons, lemma_tags_find_at, lemma_tags_from_cons, nonempty_tokens,
    spec_parse, spec_parse_after_tags, spec_parse_command, spec_parse_tag, spec_params, spec_tags,
    spec_tags_from, split_semi, tag_tokens, tags_find, tags_insert, tags_keys_distinct,
    tags_section_ok, ParseError, SpecMessage, SpecTags,
};
use crate::render::{render_params, render_tag, render_tags, spaces, spec_format, spec_format_gapped};
use crate::segment::{lemma_find_idx_at, lemma_skip_count_at, skip_spaces, spec_segment};

verus! {

broadcast use vstd::seq_lib::group_seq_lib_default;

/// A token that can stand bare on the wire: non-empty and space-free.
pub open spec fn wf_token(t: Seq<char>) -> bool {
    t.len() > 0 && !t.contains(' ')
}

/// A tag the serializer can render so that parsing reads it back: the key is
/// non-empty and free of spaces, `;` and `=`; the value, when present, is
/// free of spaces and `;` (it may contain `=`).
pub open spec fn wf_tag(t: (Seq<char>, Option<Seq<char>>)) -> bool {
    &&& t.0.len() > 0
    &&& !t.0.contains(' ')
    &&& !t.0.contains(';')
    &&& !t.0.contains('=')
    &&& (t.1 matches Some(v) ==> !v.contains(' ') && !v.contains(';'))
}

/// A message the serializer can render so that parsing reads it back: every
/// tag well-formed, keys distinct, the prefix free of spaces, the command a
/// present bare token that cannot be mistaken for a prefix (when there is no
/// prefix to consume the `:`) or a tag section (when it opens the line),
/// every parameter non-empty, and no parameter but the last containing a
/// space or starting with `:`.
pub open spec fn wf_message(m: SpecMessage) -> bool {
    &&& forall|i: int| 0 <= i < m.tags.len() ==> wf_tag(#[trigger] m.tags[i])
    &&& tags_keys_distinct(m.tags)
    &&& (m.prefix matches Some(p) ==> !p.contains(' '))
    &&& m.command is Some
    &&& (m.command matches Some(c) ==> wf_token(c))
    &&& (m.prefix is None ==> m.command.unwrap()[0] != ':')
    &&& (m.tags.len() == 0 && m.prefix is None ==> m.command.unwrap()[0] != '@')
    &&& forall|i: int| 0 <= i < m.params.len() ==> (#[trigger] m.params[i]).len() > 0
    &&& forall|i: int|
        0 <= i < m.params.len() - 1 ==> !(#[trigger] m.params[i]).contains(' ')
            && m.params[i][0] != ':'
}

/// A line that is one bare command token (no leading `@` or `:`, no space)
/// parses to exactly that command: no tags, no prefix, no parameters.
pub proof fn lemma_bare_command(s: Seq<char>)
    requires
        s.len() > 0,
        s[0] != '@',
        s[0] != ':',
        !s.contains(' '),
    ensures
        spec_parse(s) == Ok::<SpecMessage, ParseError>(
            SpecMessage {
                tags: Seq::empty(),
                prefix: None,
                command: Some(s),
                params: Seq::empty(),
            },
        ),
{
    lemma_segment_none(s);
}

/// A parameter remainder whose first character is `:` yields exactly one
/// final parameter: the rest of the remainder, verbatim, embedded spaces and
/// further colons included.
pub proof fn lemma_trailing_verbatim(r: Seq<char>)
    requires
        r.len() > 0,
        r[0] == ':',
    ensures
        spec_params(r) == seq![r.skip(1)],
        spec_params(r).last() == r.skip(1),
{
}

/// A middle parameter token passes through the parameter stage unchanged,
/// whatever remainder follows it, so the rule above applies at every
/// position of the parameter list.
pub proof fn lemma_params_middle_step(t: Seq<char>, k: nat, r: Seq<char>)
    requires
        wf_token(t),
        t[0] != ':',
        k >= 1,
        r.len() > 0,
        r[0] != ' ',
    ensures
        spec_params(t + spaces(k) + r) == seq![t] + spec_params(r),
{
    lemma_segment_token(t, k, r);
    let s = t + spaces(k) + r;
    assert(s[0] == t[0]);
    assert(s.len() > 0);
}

/// A tag token without `=` parses to an absent value, and the same key
/// explicitly assigned a value (even an empty or "true" one) parses to that
/// value: absence and assignment are distinct outcomes.
pub proof fn lemma_tag_value_absent_vs_assigned(k: Seq<char>, v: Seq<char>)
    requires
        !k.contains('='),
    ensures
        spec_parse_tag(k) == (k, Option::<Seq<char>>::None),
        spec_parse_tag(k + seq!['='] + v) == (k, Some(v)),
        spec_parse_tag(k + seq!['='] + v).1 != spec_parse_tag(k).1,
{
    assert forall|i: int| 0 <= i < k.len() implies k[i] != '=' by {
        if k[i] == '=' {
            assert(k.contains('='));
        }
    }
    lemma_find_idx_at(k, '=', k.len() as int);
    let t = k + seq!['='] + v;
    assert forall|i: int| 0 <= i < k.len() implies t[i] != '=' by {
        assert(t[i] == k[i]);
    }
    assert(t[k.len() as int] == '=');
    lemma_find_idx_at(t, '=', k.len() as int);
    assert(t.take(k.len() as int) =~= k);
    assert(t.skip(k.len() as int + 1) =~= v);
}

/// Inserting a pair into tags with pairwise distinct keys keeps the keys
/// pairwise distinct.
pub proof fn lemma_tags_insert_distinct(tags: SpecTags, k: Seq<char>, v: Option<Seq<char>>)
    requires
        tags_keys_distinct(tags),
    ensures
        tags_keys_distinct(tags_insert(tags, k, v)),
{
    crate::grammar::lemma_tags_find(tags, k);
    let i = tags_find(tags, k);
    if i < tags.len() {
        let t2 = tags.update(i, (k, v));
        assert forall|a: int, b: int| 0 <= a < b < t2.len() implies t2[a].0 != t2[b].0 by {
            assert(tags[a].0 != tags[b].0);
        }
    } else {
        let t2 = tags.push((k, v));
        assert forall|a: int, b: int| 0 <= a < b < t2.len() implies t2[a].0 != t2[b].0 by {
            if b < tags.len() {
                assert(tags[a].0 != tags[b].0);
            } else {
                assert(t2[b].0 == k);
                assert(tags[a].0 != k);
            }
        }
    }
}

/// Folding tag tokens into tags with pairwise distinct keys keeps the keys
/// pairwise distinct.
pub proof fn lemma_tags_from_distinct(acc: SpecTags, tokens: Seq<Seq<char>>)
    requires
        tags_keys_distinct(acc),
    ensures
        tags_keys_distinct(spec_tags_from(acc, tokens)),
    decreases tokens.len(),
{
    if tokens.len() > 0 {
        let p = spec_parse_tag(tokens[0]);
        lemma_tags_insert_distinct(acc, p.0, p.1);
        lemma_tags_from_distinct(tags_insert(acc, p.0, p.1), tokens.drop_first());
    }
}

/// The tag-key set of a successfully parsed message has no duplicates: the
/// last occurrence of a key in the source wins and leaves one pair.
pub proof fn lemma_parse_tags_distinct(s: Seq<char>)
    requires
        spec_parse(s) is Ok,
    ensures
        tags_keys_distinct(spec_parse(s).unwrap().tags),
{
    let e: SpecTags = Seq::empty();
    assert(tags_keys_distinct(e));
    if s.len() > 0 && s[0] == '@' {
        match spec_segment(s.skip(1)) {
            None => {},
            Some(p) => {
                lemma_tags_from_distinct(e, tag_tokens(p.0));
            },
        }
    }
}

/// The rendered tokens of a tag list, in order.
pub open spec fn tag_token_list(tags: SpecTags) -> Seq<Seq<char>>
    decreases tags.len(),
{
    if tags.len() == 0 {
        Seq::empty()
    } else {
        seq![render_tag(tags[0])] + tag_token_list(tags.drop_first())
    }
}

/// Length and elements of `tag_token_list`.
pub proof fn lemma_tag_token_list(tags: SpecTags)
    ensures
        tag_token_list(tags).len() == tags.len(),
        forall|i: int| 0 <= i < tags.len() ==> tag_token_list(tags)[i] == render_tag(tags[i]),
    decreases tags.len(),
{
    if tags.len() > 0 {
        lemma_tag_token_list(tags.drop_first());
        assert forall|i: int| 0 <= i < tags.len() implies tag_token_list(tags)[i] == render_tag(
            tags[i],
        ) by {
            if i >= 1 {
                assert(tag_token_list(tags)[i] == tag_token_list(tags.drop_first())[i - 1]);
                assert(tags.drop_first()[i - 1] == tags[i]);
            }
        }
    }
}

/// A well-formed tag renders to a non-empty token free of spaces and `;`,
/// not starting with `=`, and that token parses back to the tag itself.
pub proof fn lemma_render_tag(t: (Seq<char>, Option<Seq<char>>))
    requires
        wf_tag(t),
    ensures
        render_tag(t).len() > 0,
        !render_tag(t).contains(' '),
        !render_tag(t).contains(';'),
        render_tag(t)[0] != '=',
        spec_parse_tag(render_tag(t)) == t,
{
    let rt = render_tag(t);
    match t.1 {
        None => {
            assert forall|i: int| 0 <= i < t.0.len() implies t.0[i] != '=' by {
                if t.0[i] == '=' {
                    assert(t.0.contains('='));
                }
            }
            lemma_find_idx_at(rt, '=', rt.len() as int);
            assert(t == (t.0, t.1));
        },
        Some(v) => {
            let n = t.0.len() as int;
            assert forall|i: int| 0 <= i < n implies rt[i] != '=' by {
                assert(rt[i] == t.0[i]);
                if t.0[i] == '=' {
                    assert(t.0.contains('='));
                }
            }
            assert(rt[n] == '=');
            lemma_find_idx_at(rt, '=', n);
            assert(rt.take(n) =~= t.0);
            assert(rt.skip(n + 1) =~= v);
            assert(t == (t.0, t.1));
            assert(rt[0] == t.0[0]);
            if t.0[0] == '=' {
                assert(t.0.contains('='));
            }
            if rt.contains(' ') {
                let i = choose|i: int| 0 <= i < rt.len() && rt[i] == ' ';
                if i < n {
                    assert(t.0[i] == ' ');
                    assert(t.0.contains(' '));
                } else if i > n {
                    assert(v[i - n - 1] == ' ');
                    assert(v.contains(' '));
                }
            }
            if rt.contains(';') {
                let i = choose|i: int| 0 <= i < rt.len() && rt[i] == ';';
                if i < n {
                    assert(t.0[i] == ';');
                    assert(t.0.contains(';'));
                } else if i > n {
                    assert(v[i - n - 1] == ';');
                    assert(v.contains(';'));
                }
            }
        },
    }
}

/// Rendered well-formed tags hold no space anywhere.
pub proof fn lemma_render_tags_no_space(tags: SpecTags)
    requires
        forall|i: int| 0 <= i < tags.len() ==> wf_tag(#[trigger] tags[i]),
    ensures
        !render_tags(tags).contains(' '),
    decreases tags.len(),
{
    if tags.len() == 0 {
        if render_tags(tags).contains(' ') {
            let i = choose|i: int| 0 <= i < render_tags(tags).len() && render_tags(tags)[i] == ' ';
        }
    } else {
        lemma_render_tag(tags[0]);
        let rt = render_tag(tags[0]);
        let rest = render_tags(tags.drop_first());
        assert forall|i: int| 0 <= i < tags.drop_first().len() implies wf_tag(
            #[trigger] tags.drop_first()[i],
        ) by {
            assert(tags.drop_first()[i] == tags[i + 1]);
        }
        lemma_render_tags_no_space(tags.drop_first());
        let s = render_tags(tags);
        if s.contains(' ') {
            let i = choose|i: int| 0 <= i < s.len() && s[i] == ' ';
            if i < rt.len() {
                assert(rt[i] == ' ');
                assert(rt.contains(' '));
            } else if i > rt.len() {
                assert(rest[i - rt.len() - 1] == ' ');
                assert(rest.contains(' '));
            }
        }
    }
}

/// The rendered tag section splits on `;` back into the rendered tokens,
/// followed by one empty piece for the final `;`.
pub proof fn lemma_split_render_tags(tags: SpecTags)
    requires
        forall|i: int| 0 <= i < tags.len() ==> wf_tag(#[trigger] tags[i]),
    ensures
        split_semi(render_tags(tags)) == tag_token_list(tags) + seq![Seq::<char>::empty()],
    decreases tags.len(),
{
    if tags.len() == 0 {
        assert(render_tags(tags) == Seq::<char>::empty());
        assert(split_semi(Seq::<char>::empty()) == seq![Seq::<char>::empty()]);
        assert(tag_token_list(tags) + seq![Seq::<char>::empty()] =~= seq![Seq::<char>::empty()]);
    } else {
        lemma_render_tag(tags[0]);
        let rt = render_tag(tags[0]);
        let rest = render_tags(tags.drop_first());
        let s = render_tags(tags);
        let n = rt.len() as int;
        assert forall|i: int| 0 <= i < n implies s[i] != ';' by {
            assert(s[i] == rt[i]);
            if rt[i] == ';' {
                assert(rt.contains(';'));
            }
        }
        assert(s[n] == ';');
        lemma_find_idx_at(s, ';', n);
        assert(s.take(n) =~= rt);
        assert(s.skip(n + 1) =~= rest);
        assert forall|i: int| 0 <= i < tags.drop_first().len() implies wf_tag(
            #[trigger] tags.drop_first()[i],
        ) by {
            assert(tags.drop_first()[i] == tags[i + 1]);
        }
        lemma_split_render_tags(tags.drop_first());
        assert(split_semi(s) == seq![rt] + split_semi(rest));
        assert(split_semi(s) =~= tag_token_list(tags) + seq![Seq::<char>::empty()]);
    }
}

/// Dropping empty pieces from a list of non-empty tokens plus one final
/// empty piece leaves exactly the tokens.
pub proof fn lemma_nonempty_tokens_all(tokens: Seq<Seq<char>>)
    requires
        forall|i: int| 0 <= i < tokens.len() ==> (#[trigger] tokens[i]).len() > 0,
    ensures
        nonempty_tokens(tokens + seq![Seq::<char>::empty()]) == tokens,
    decreases tokens.len(),
{
    if tokens.len() == 0 {
        assert(tokens + seq![Seq::<char>::empty()] =~= seq![Seq::<char>::empty()]
            + Seq::<Seq<char>>::empty());
        lemma_nonempty_tokens_cons(Seq::<char>::empty(), Seq::<Seq<char>>::empty());
        assert(nonempty_tokens(Seq::<Seq<char>>::empty()) == Seq::<Seq<char>>::empty());
        assert(tokens =~= Seq::<Seq<char>>::empty());
    } else {
        let t0 = tokens[0];
        let tail = tokens.drop_first();
        assert(tokens + seq![Seq::<char>::empty()] =~= seq![t0] + (tail + seq![
            Seq::<char>::empty(),
        ]));
        lemma_nonempty_tokens_cons(t0, tail + seq![Seq::<char>::empty()]);
        assert forall|i: int| 0 <= i < tail.len() implies (#[trigger] tail[i]).len() > 0 by {
            assert(tail[i] == tokens[i + 1]);
        }
        lemma_nonempty_tokens_all(tail);
        assert(seq![t0] + tail =~= tokens);
    }
}

/// The rendered tag section, filtered of its empty final piece, is exactly
/// the rendered token list.
pub proof fn lemma_tag_tokens_render(tags: SpecTags)
    requires
        forall|i: int| 0 <= i < tags.len() ==> wf_tag(#[trigger] tags[i]),
    ensures
        tag_tokens(render_tags(tags)) == tag_token_list(tags),
{
    lemma_split_render_tags(tags);
    lemma_tag_token_list(tags);
    assert forall|i: int| 0 <= i < tag_token_list(tags).len() implies (#[trigger] tag_token_list(
        tags,
    )[i]).len() > 0 by {
        lemma_render_tag(tags[i]);
    }
    lemma_nonempty_tokens_all(tag_token_list(tags));
}

/// Folding the rendered tokens of a distinct-keyed tag list onto an
/// accumulator sharing no key appends the tags in order.
pub proof fn lemma_tags_from_render(acc: SpecTags, tags: SpecTags)
    requires
        forall|i: int| 0 <= i < tags.len() ==> wf_tag(#[trigger] tags[i]),
        tags_keys_distinct(tags),
        forall|i: int, j: int|
            0 <= i < acc.len() && 0 <= j < tags.len() ==> acc[i].0 != tags[j].0,
    ensures
        spec_tags_from(acc, tag_token_list(tags)) == acc + tags,
    decreases tags.len(),
{
    if tags.len() == 0 {
        assert(tag_token_list(tags) == Seq::<Seq<char>>::empty());
        assert(acc + tags =~= acc);
    } else {
        let t0 = tags[0];
        lemma_render_tag(t0);
        lemma_tags_from_cons(acc, render_tag(t0), tag_token_list(tags.drop_first()));
        assert forall|i: int| 0 <= i < acc.len() implies acc[i].0 != t0.0 by {}
        lemma_tags_find_at(acc, t0.0, acc.len() as int);
        assert(t0 == (t0.0, t0.1));
        let acc2 = acc.push(t0);
        assert(tags_insert(acc, spec_parse_tag(render_tag(t0)).0, spec_parse_tag(render_tag(t0)).1)
            == acc2);
        assert forall|i: int| 0 <= i < tags.drop_first().len() implies wf_tag(
            #[trigger] tags.drop_first()[i],
        ) by {
            assert(tags.drop_first()[i] == tags[i + 1]);
        }
        assert forall|i: int, j: int|
            0 <= i < j < tags.drop_first().len() implies tags.drop_first()[i].0
            != tags.drop_first()[j].0 by {
            assert(tags[i + 1].0 != tags[j + 1].0);
        }
        assert forall|i: int, j: int|
            0 <= i < acc2.len() && 0 <= j < tags.drop_first().len() implies acc2[i].0
            != tags.drop_first()[j].0 by {
            assert(tags.drop_first()[j] == tags[j + 1]);
            if i < acc.len() {
                assert(acc[i].0 != tags[j + 1].0);
            } else {
                assert(acc2[i] == t0);
                assert(tags[0].0 != tags[j + 1].0);
            }
        }
        lemma_tags_from_render(acc2, tags.drop_first());
        assert(acc2 + tags.drop_first() =~= acc + tags);
    }
}

/// Tag section round trip: a non-empty, well-formed, distinct-keyed tag list
/// renders to a space-free section that is well-formed and parses back to
/// the same tag list, order included.
pub proof fn lemma_tags_round_trip(tags: SpecTags)
    requires
        tags.len() > 0,
        forall|i: int| 0 <= i < tags.len() ==> wf_tag(#[trigger] tags[i]),
        tags_keys_distinct(tags),
    ensures
        !render_tags(tags).contains(' '),
        tags_section_ok(render_tags(tags)),
        spec_tags(tag_tokens(render_tags(tags))) == tags,
{
    lemma_render_tags_no_space(tags);
    lemma_tag_tokens_render(tags);
    lemma_tag_token_list(tags);
    let tokens = tag_tokens(render_tags(tags));
    assert forall|i: int| 0 <= i < tokens.len() implies tokens[i][0] != '=' by {
        lemma_render_tag(tags[i]);
    }
    let e: SpecTags = Seq::empty();
    lemma_tags_from_render(e, tags);
    assert(e + tags =~= tags);
}

/// A space-free string has no space boundary: segmentation finds nothing.
pub proof fn lemma_segment_none(t: Seq<char>)
    requires
        !t.contains(' '),
    ensures
        spec_segment(t) is None,
{
    assert forall|i: int| 0 <= i < t.len() implies t[i] != ' ' by {
        if t[i] == ' ' {
            assert(t.contains(' '));
        }
    }
    lemma_find_idx_at(t, ' ', t.len() as int);
}

/// Segmenting a space-free token, a separating run of `k` spaces and a
/// remainder that does not start with a space yields exactly the token and
/// the remainder, whatever `k` is: runs of spaces collapse into one
/// boundary.
pub proof fn lemma_segment_token(t: Seq<char>, k: nat, r: Seq<char>)
    requires
        !t.contains(' '),
        k >= 1,
        r.len() > 0 ==> r[0] != ' ',
    ensures
        spec_segment(t + spaces(k) + r) == Some((t, r)),
{
    let s = t + spaces(k) + r;
    let n = t.len() as int;
    assert forall|i: int| 0 <= i < n implies s[i] != ' ' by {
        assert(s[i] == t[i]);
        if t[i] == ' ' {
            assert(t.contains(' '));
        }
    }
    assert(s[n] == ' ');
    lemma_find_idx_at(s, ' ', n);
    assert(s.take(n) =~= t);
    let tail = s.skip(n);
    assert(tail =~= spaces(k) + r);
    assert forall|i: int| 0 <= i < k implies tail[i] == ' ' by {
        assert(tail[i] == spaces(k)[i]);
    }
    if r.len() > 0 {
        assert(tail[k as int] == r[0]);
    }
    lemma_skip_count_at(tail, k as int);
    assert(skip_spaces(tail) =~= r);
}

/// The rendered parameter section of non-empty parameters starts with a
/// non-space character (a bare parameter's first character, or `:`).
pub proof fn lemma_render_params_head(ps: Seq<Seq<char>>, gap: nat)
    requires
        ps.len() > 0,
        ps[0].len() > 0,
        ps.len() > 1 ==> !ps[0].contains(' '),
    ensures
        render_params(ps, gap).len() > 0,
        render_params(ps, gap)[0] != ' ',
{
    let r = render_params(ps, gap);
    if ps[0].contains(' ') || (ps.len() == 1 && ps[0].len() > 0 && ps[0][0] == ':') {
        assert(r[0] == ':');
    } else if ps.len() == 1 {
        assert(r[0] == ps[0][0]);
        if ps[0][0] == ' ' {
            assert(ps[0].contains(' '));
        }
    } else {
        assert(r[0] == ps[0][0]);
        if ps[0][0] == ' ' {
            assert(ps[0].contains(' '));
        }
    }
}

/// Parameter section round trip: rendering non-empty parameters, of which
/// only the last may contain a space or start with `:`, with any gap width
/// and (when the last parameter is emitted bare) any trailing padding, and
/// parsing the text back yields exactly the parameters.
pub proof fn lemma_params_round_trip(ps: Seq<Seq<char>>, gap: nat, pad: nat)
    requires
        gap >= 1,
        ps.len() > 0,
        forall|i: int| 0 <= i < ps.len() ==> (#[trigger] ps[i]).len() > 0,
        forall|i: int|
            0 <= i < ps.len() - 1 ==> !(#[trigger] ps[i]).contains(' ') && ps[i][0] != ':',
        pad > 0 ==> !ps.last().contains(' ') && ps.last()[0] != ':',
    ensures
        spec_params(render_params(ps, gap) + spaces(pad)) == ps,
    decreases ps.len(),
{
    let s = render_params(ps, gap) + spaces(pad);
    let p0 = ps[0];
    if ps.len() == 1 {
        assert(ps.last() == p0);
        if p0.contains(' ') || p0[0] == ':' {
            assert(pad == 0);
            assert(s =~= seq![':'] + p0);
            assert(s[0] == ':');
            assert(s.skip(1) =~= p0);
            assert(spec_params(s) == seq![p0]);
            assert(seq![p0] =~= ps);
        } else {
            assert(render_params(ps, gap) == p0);
            assert(s[0] == p0[0]);
            if pad == 0 {
                assert(s =~= p0);
                lemma_segment_none(p0);
                assert(spec_params(s) == seq![s]);
                assert(seq![s] =~= ps);
            } else {
                let e = Seq::<char>::empty();
                assert(p0 + spaces(pad) + e =~= s);
                lemma_segment_token(p0, pad, e);
                assert(spec_segment(s) == Some((p0, e)));
                assert(spec_params(s) == seq![p0]);
                assert(seq![p0] =~= ps);
            }
        }
    } else {
        assert(!p0.contains(' ') && p0[0] != ':');
        let tail = ps.drop_first();
        let rest_r = render_params(tail, gap) + spaces(pad);
        assert(render_params(ps, gap) == p0 + spaces(gap) + render_params(tail, gap));
        assert(s =~= p0 + spaces(gap) + rest_r);
        assert(tail[0] == ps[1]);
        if tail.len() > 1 {
            assert(!ps[1].contains(' '));
        }
        lemma_render_params_head(tail, gap);
        assert(rest_r[0] == render_params(tail, gap)[0]);
        lemma_segment_token(p0, gap, rest_r);
        assert(s[0] == p0[0]);
        assert forall|i: int| 0 <= i < tail.len() implies (#[trigger] tail[i]).len() > 0 by {
            assert(tail[i] == ps[i + 1]);
        }
        assert forall|i: int| 0 <= i < tail.len() - 1 implies !(#[trigger] tail[i]).contains(' ')
            && tail[i][0] != ':' by {
            assert(tail[i] == ps[i + 1]);
        }
        assert(tail.last() == ps.last());
        lemma_params_round_trip(tail, gap, pad);
        assert(spec_params(s) == seq![p0] + tail);
        assert(seq![p0] + tail =~= ps);
    }
}

/// The whole round trip, generalized over whitespace: rendering a
/// well-formed message with `gap` spaces at every section boundary and `pad`
/// trailing spaces (padding only when no parameter is emitted as trailing)
/// and parsing the text back yields exactly the message. Runs of separating
/// spaces therefore never change what is parsed.
#[verifier::rlimit(50)]
pub proof fn lemma_parse_format_gapped(m: SpecMessage, gap: nat, pad: nat)
    requires
        wf_message(m),
        gap >= 1,
        pad > 0 ==> m.params.len() == 0 || (!m.params.last().contains(' ') && m.params.last()[0]
            != ':'),
    ensures
        spec_parse(spec_format_gapped(m, gap) + spaces(pad)) == Ok::<SpecMessage, ParseError>(m),
{
    let w = spec_format_gapped(m, gap) + spaces(pad);
    let c = m.command.unwrap();
    // the text the command stage sees, and what it parses to
    let rest1 = if m.params.len() > 0 {
        c + spaces(gap) + (render_params(m.params, gap) + spaces(pad))
    } else {
        c + spaces(pad)
    };
    if m.params.len() == 0 {
        if pad == 0 {
            assert(rest1 =~= c);
            lemma_segment_none(c);
        } else {
            let e = Seq::<char>::empty();
            assert(c + spaces(pad) + e =~= rest1);
            lemma_segment_token(c, pad, e);
            assert(spec_segment(rest1) == Some((c, e)));
        }
        assert(spec_parse_command(m.tags, m.prefix, rest1) == Ok::<SpecMessage, ParseError>(
            SpecMessage { tags: m.tags, prefix: m.prefix, command: Some(c), params: Seq::empty() },
        ));
        assert(m =~= (SpecMessage {
            tags: m.tags,
            prefix: m.prefix,
            command: Some(c),
            params: Seq::empty(),
        }));
    } else {
        let pr = render_params(m.params, gap) + spaces(pad);
        lemma_render_params_head(m.params, gap);
        assert(pr[0] == render_params(m.params, gap)[0]);
        lemma_segment_token(c, gap, pr);
        lemma_params_round_trip(m.params, gap, pad);
        assert(rest1[0] == c[0]);
        assert(spec_parse_command(m.tags, m.prefix, rest1) == Ok::<SpecMessage, ParseError>(
            SpecMessage { tags: m.tags, prefix: m.prefix, command: Some(c), params: m.params },
        ));
        assert(m =~= (SpecMessage {
            tags: m.tags,
            prefix: m.prefix,
            command: Some(c),
            params: m.params,
        }));
    }
    assert(rest1.len() > 0 && rest1[0] == c[0]);
    assert(c[0] != ' ') by {
        if c[0] == ' ' {
            assert(c.contains(' '));
        }
    }
    // the text the prefix stage sees
    let rest0 = match m.prefix {
        None => rest1,
        Some(p) => seq![':'] + p + spaces(gap) + rest1,
    };
    match m.prefix {
        None => {
            assert(spec_parse_after_tags(m.tags, rest0) == spec_parse_command(
                m.tags,
                m.prefix,
                rest1,
            ));
        },
        Some(p) => {
            assert(rest0[0] == ':');
            assert(rest0.skip(1) =~= p + spaces(gap) + rest1);
            lemma_segment_token(p, gap, rest1);
            assert(spec_parse_after_tags(m.tags, rest0) == spec_parse_command(
                m.tags,
                Some(p),
                rest1,
            ));
        },
    }
    assert(spec_parse_after_tags(m.tags, rest0) == Ok::<SpecMessage, ParseError>(m));
    assert(rest0.len() > 0 && rest0[0] != ' ') by {
        match m.prefix {
            None => {
                assert(rest0[0] == c[0]);
            },
            Some(p) => {
                assert(rest0[0] == ':');
            },
        }
    }
    // the whole line
    if m.tags.len() > 0 {
        lemma_tags_round_trip(m.tags);
        assert(w =~= seq!['@'] + render_tags(m.tags) + spaces(gap) + rest0);
        assert(w[0] == '@');
        assert(w.skip(1) =~= render_tags(m.tags) + spaces(gap) + rest0);
        lemma_segment_token(render_tags(m.tags), gap, rest0);
        assert(spec_parse(w) == spec_parse_after_tags(
            spec_tags(tag_tokens(render_tags(m.tags))),
            rest0,
        ));
    } else {
        assert(w =~= rest0);
        assert(w[0] != '@') by {
            match m.prefix {
                None => {
                    assert(w[0] == c[0]);
                },
                Some(p) => {
                    assert(w[0] == ':');
                },
            }
        }
        assert(m.tags =~= Seq::<(Seq<char>, Option<Seq<char>>)>::empty());
        assert(spec_parse(w) == spec_parse_after_tags(m.tags, rest0));
    }
}

/// Round-trip law: rendering a well-formed message (every parameter
/// non-empty, none but the last containing a space or starting with `:`, the
/// command a present bare token not opening another section, the prefix free
/// of spaces, tag keys distinct and tag text free of the section's
/// delimiters) and parsing the text back yields a message equal in tags
/// (order included), prefix, command and parameters.
pub proof fn lemma_round_trip(m: SpecMessage)
    requires
        wf_message(m),
    ensures
        spec_parse(spec_format(m)) == Ok::<SpecMessage, ParseError>(m),
{
    assert(spec_format_gapped(m, 1) + spaces(0) =~= spec_format_gapped(m, 1));
    lemma_parse_format_gapped(m, 1, 0);
}

/// Whitespace-collapsing idempotence: widening every separating boundary of
/// a rendered well-formed message to any run of spaces, and padding the end
/// of the line (when no parameter is emitted as trailing), never changes the
/// parsed result against the single-space-separated rendering.
pub proof fn lemma_whitespace_collapse(m: SpecMessage, gap: nat, pad: nat)
    requires
        wf_message(m),
        gap >= 1,
        pad > 0 ==> m.params.len() == 0 || (!m.params.last().contains(' ') && m.params.last()[0]
            != ':'),
    ensures
        spec_parse(spec_format_gapped(m, gap) + spaces(pad)) == spec_parse(spec_format(m)),
{
    lemma_parse_format_gapped(m, gap, pad);
    lemma_round_trip(m);
}

} // verus!
