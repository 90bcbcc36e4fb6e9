//! The serialize direction of the message assembler: rendering a message
//! back to wire text. A best-effort reconstruction: redundant whitespace and
//! equals-versus-bare tag choices of an original line are not preserved.

use vstd::prelude::*;
use crate::grammar::{SpecMessage, SpecTags};
use crate::message::IrcMessage;
use crate::segment::contains_char;

verus! {

broadcast use vstd::seq_lib::group_seq_lib_default;

/// `n` spaces.
pub open spec fn spaces(n: nat) -> Seq<char> {
    Seq::new(n, |i: int| ' ')
}

/// One tag rendered: the key alone when the value is absent, else the key,
/// `=`, and the value.
pub open spec fn render_tag(t: (Seq<char>, Option<Seq<char>>)) -> Seq<char> {
    match t.1 {
        None => t.0,
        Some(v) => t.0 + seq!['='] + v,
    }
}

/// The body of the tag section: every tag, in order, each followed by `;`.
pub open spec fn render_tags(tags: SpecTags) -> Seq<char>
    decreases tags.len(),
{
    if tags.len() == 0 {
        Seq::empty()
    } else {
        render_tag(tags[0]) + seq![';'] + render_tags(tags.drop_first())
    }
}

/// Appending one tag appends its rendering.
pub proof fn lemma_render_tags_snoc(tags: SpecTags, t: (Seq<char>, Option<Seq<char>>))
    ensures
        render_tags(tags.push(t)) == render_tags(tags) + render_tag(t) + seq![';'],
    decreases tags.len(),
{
    if tags.len() == 0 {
        reveal_with_fuel(render_tags, 2);
        assert(tags.push(t)[0] == t);
        assert(tags.push(t).drop_first() =~= Seq::<(Seq<char>, Option<Seq<char>>)>::empty());
        assert(render_tags(tags.push(t)) =~= render_tags(tags) + render_tag(t) + seq![';']);
    } else {
        lemma_render_tags_snoc(tags.drop_first(), t);
        assert(tags.push(t).drop_first() =~= tags.drop_first().push(t));
        assert(tags.push(t)[0] == tags[0]);
        assert(render_tags(tags.push(t)) =~= render_tags(tags) + render_tag(t) + seq![';']);
    }
}

/// The parameter section with `gap` spaces between bare parameters. A
/// parameter containing a space, or a final parameter whose first character
/// is `:`, is emitted as `:` plus the parameter verbatim and ends the
/// section at once (later parameters, if any, are dropped); every other
/// parameter is emitted bare.
pub open spec fn render_params(ps: Seq<Seq<char>>, gap: nat) -> Seq<char>
    decreases ps.len(),
{
    if ps.len() == 0 {
        Seq::empty()
    } else if ps[0].contains(' ') || (ps.len() == 1 && ps[0].len() > 0 && ps[0][0] == ':') {
        seq![':'] + ps[0]
    } else if ps.len() == 1 {
        ps[0]
    } else {
        ps[0] + spaces(gap) + render_params(ps.drop_first(), gap)
    }
}

/// The whole line with `gap` spaces at every section boundary: the tag
/// section when there are tags, the prefix when there is one, the command,
/// and the parameter section, each boundary emitted only when a later
/// section follows.
pub open spec fn spec_format_gapped(m: SpecMessage, gap: nat) -> Seq<char> {
    let tags_part = if m.tags.len() > 0 {
        seq!['@'] + render_tags(m.tags) + (if m.prefix is Some || m.command is Some
            || m.params.len() > 0 {
            spaces(gap)
        } else {
            Seq::empty()
        })
    } else {
        Seq::empty()
    };
    let prefix_part = match m.prefix {
        None => Seq::empty(),
        Some(p) => seq![':'] + p + (if m.command is Some || m.params.len() > 0 {
            spaces(gap)
        } else {
            Seq::empty()
        }),
    };
    let command_part = match m.command {
        None => Seq::empty(),
        Some(c) => c + (if m.params.len() > 0 {
            spaces(gap)
        } else {
            Seq::empty()
        }),
    };
    tags_part + prefix_part + command_part + render_params(m.params, gap)
}

/// The wire text of a message: one space at each section boundary.
pub open spec fn spec_format(m: SpecMessage) -> Seq<char> {
    spec_format_gapped(m, 1)
}

impl IrcMessage {
    /// Render the message back to wire text: `@` and the tags (each followed
    /// by `;`), `:` and the prefix, the command, then the parameters, with
    /// one space at each boundary. A parameter containing a space, or a
    /// final parameter starting with `:`, is emitted as a trailing parameter
    /// behind `:`.
    pub fn format(&self) -> (r: String)
        ensures
            r@ == spec_format(self@),
    {
        let ghost m = self@;
        let ghost spec_tags_part = if m.tags.len() > 0 {
            seq!['@'] + render_tags(m.tags) + (if m.prefix is Some || m.command is Some
                || m.params.len() > 0 {
                spaces(1)
            } else {
                Seq::<char>::empty()
            })
        } else {
            Seq::<char>::empty()
        };
        let ghost spec_prefix_part = match m.prefix {
            None => Seq::<char>::empty(),
            Some(p) => seq![':'] + p + (if m.command is Some || m.params.len() > 0 {
                spaces(1)
            } else {
                Seq::<char>::empty()
            }),
        };
        let ghost spec_command_part = match m.command {
            None => Seq::<char>::empty(),
            Some(c) => c + (if m.params.len() > 0 {
                spaces(1)
            } else {
                Seq::<char>::empty()
            }),
        };
        let mut out = String::new();
        // TAGS
        if self.tags.len() > 0 {
            out.append("@");
            proof {
                reveal_strlit("@");
                assert(m.tags.take(0) =~= Seq::<(Seq<char>, Option<Seq<char>>)>::empty());
                assert(out@ =~= seq!['@'] + render_tags(m.tags.take(0)));
            }
            let mut i: usize = 0;
            while i < self.tags.len()
                invariant
                    0 <= i <= self.tags@.len(),
                    m == self@,
                    m.tags.len() == self.tags@.len(),
                    out@ == seq!['@'] + render_tags(m.tags.take(i as int)),
                decreases self.tags@.len() - i,
            {
                let ghost before = out@;
                out.append(self.tags[i].0.as_str());
                match &self.tags[i].1 {
                    None => {
                        out.append(";");
                    },
                    Some(v) => {
                        out.append("=");
                        out.append(v.as_str());
                        out.append(";");
                    },
                }
                proof {
                    reveal_strlit(";");
                    reveal_strlit("=");
                    assert((";")@ =~= seq![';']);
                    assert(("=")@ =~= seq!['=']);
                    lemma_render_tags_snoc(m.tags.take(i as int), m.tags[i as int]);
                    assert(m.tags.take(i + 1) =~= m.tags.take(i as int).push(m.tags[i as int]));
                    assert(out@ =~= before + render_tag(m.tags[i as int]) + seq![';']);
                    assert(out@ =~= seq!['@'] + render_tags(m.tags.take(i + 1)));
                }
                i = i + 1;
            }
            proof {
                assert(m.tags.take(m.tags.len() as int) =~= m.tags);
            }
            if self.prefix.is_some() || self.command.is_some() || self.params.len() > 0 {
                out.append(" ");
                proof {
                    reveal_strlit(" ");
                    assert((" ")@ =~= spaces(1));
                }
            }
        }
        proof {
            assert(out@ =~= spec_tags_part);
        }
        // PREFIX
        match &self.prefix {
            None => {},
            Some(p) => {
                out.append(":");
                out.append(p.as_str());
                if self.command.is_some() || self.params.len() > 0 {
                    out.append(" ");
                }
                proof {
                    reveal_strlit(":");
                    reveal_strlit(" ");
                    assert((":")@ =~= seq![':']);
                    assert((" ")@ =~= spaces(1));
                }
            },
        }
        proof {
            assert(out@ =~= spec_tags_part + spec_prefix_part);
        }
        // COMMAND
        match &self.command {
            None => {},
            Some(c) => {
                out.append(c.as_str());
                if self.params.len() > 0 {
                    out.append(" ");
                    proof {
                        reveal_strlit(" ");
                        assert((" ")@ =~= spaces(1));
                    }
                }
            },
        }
        let ghost command_done = out@;
        proof {
            assert(command_done =~= spec_tags_part + spec_prefix_part + spec_command_part);
            assert(m.params.skip(0) =~= m.params);
        }
        // PARAMS
        let mut i: usize = 0;
        while i < self.params.len()
            invariant_except_break
                0 <= i <= self.params@.len(),
                m == self@,
                m.params.len() == self.params@.len(),
                command_done + render_params(m.params, 1) == out@ + render_params(
                    m.params.skip(i as int),
                    1,
                ),
            ensures
                out@ == command_done + render_params(m.params, 1),
            decreases self.params@.len() - i,
        {
            let ghost before = out@;
            let has_space = contains_char(self.params[i].as_str(), ' ');
            let is_last = i + 1 == self.params.len();
            let colon_first = !self.params[i].as_str().is_empty() && self.params[i].as_str()
                .get_char(0) == ':';
            proof {
                assert(m.params.skip(i as int)[0] == m.params[i as int]);
                assert(m.params.skip(i as int).len() == m.params.len() - i);
            }
            if has_space || (is_last && colon_first) {
                out.append(":");
                out.append(self.params[i].as_str());
                proof {
                    reveal_strlit(":");
                    assert((":")@ =~= seq![':']);
                    assert(render_params(m.params.skip(i as int), 1) == seq![':']
                        + m.params[i as int]);
                    assert(out@ =~= before + render_params(m.params.skip(i as int), 1));
                }
                break;
            }
            out.append(self.params[i].as_str());
            if i + 1 != self.params.len() {
                out.append(" ");
                proof {
                    reveal_strlit(" ");
                    assert((" ")@ =~= spaces(1));
                    assert(m.params.skip(i as int).drop_first() =~= m.params.skip(i + 1));
                    assert(render_params(m.params.skip(i as int), 1) == m.params[i as int]
                        + spaces(1) + render_params(m.params.skip(i + 1), 1));
                    assert(out@ + render_params(m.params.skip(i + 1), 1) =~= before
                        + render_params(m.params.skip(i as int), 1));
                }
            } else {
                proof {
                    assert(m.params.skip(i + 1) =~= Seq::<Seq<char>>::empty());
                    assert(render_params(m.params.skip(i as int), 1) == m.params[i as int]);
                    assert(out@ + render_params(m.params.skip(i + 1), 1) =~= before
                        + render_params(m.params.skip(i as int), 1));
                }
            }
            i = i + 1;
        }
        proof {
            assert(spec_format(m) == spec_tags_part + spec_prefix_part + spec_command_part
                + render_params(m.params, 1));
        }
        out
    }
}

} // verus!
