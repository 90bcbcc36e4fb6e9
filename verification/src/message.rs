//! The message data model, in both ownership modes: an owned form whose
//! fields are independently allocated copies, and a borrowing form whose
//! fields are slices of the parsed line. Both share the same mathematical
//! view, a [`SpecMessage`].

use vstd::prelude::*;
use vstd::string::StringExecFns;
use crate::grammar::{SpecMessage, SpecTags, tags_find};
use crate::segment::str_eq;

verus! {

/// A parsed message with owned fields, free to outlive the input line.
///
/// `tags` keeps its pairs in insertion order; after a parse its keys are
/// pairwise distinct (the last occurrence of a key wins).
#[derive(Debug, PartialEq, Eq, Clone)]
pub struct IrcMessage {
    /// The original input text, retained verbatim.
    pub raw: String,
    /// Key and optional value of each message tag. A tag written without
    /// `=` has value `None`; it is not conflated with the string "true".
    pub tags: Vec<(String, Option<String>)>,
    /// The sender identity, present only when the line carries a `:` token
    /// before the command.
    pub prefix: Option<String>,
    /// The verb or numeric. The parser never returns a message without one;
    /// the field is optional so that a caller assembling a message
    /// programmatically can omit it for serialization.
    pub command: Option<String>,
    /// The parameters, in order. Only the last may contain spaces.
    pub params: Vec<String>,
}

/// A parsed message whose fields borrow from the input line (zero-copy); it
/// cannot outlive that line. Field for field it parses identically to
/// [`IrcMessage`].
#[derive(Debug, PartialEq, Eq, Clone)]
pub struct IrcMessageRef<'a> {
    /// The original input text.
    pub raw: &'a str,
    /// Key and optional value of each message tag.
    pub tags: Vec<(&'a str, Option<&'a str>)>,
    /// The sender identity, if any.
    pub prefix: Option<&'a str>,
    /// The verb or numeric.
    pub command: Option<&'a str>,
    /// The parameters, in order.
    pub params: Vec<&'a str>,
}

/// The view of an optional string-like value.
pub open spec fn view_opt<T: View<V = Seq<char>>>(o: Option<T>) -> Option<Seq<char>> {
    match o {
        None => None,
        Some(s) => Some(s@),
    }
}

/// The view of a parameter list.
pub open spec fn view_params<T: View<V = Seq<char>>>(ps: Seq<T>) -> Seq<Seq<char>> {
    ps.map_values(|p: T| p@)
}

/// The view of a tag list.
pub open spec fn view_tags<T: View<V = Seq<char>>>(ts: Seq<(T, Option<T>)>) -> SpecTags {
    ts.map_values(|t: (T, Option<T>)| (t.0@, view_opt(t.1)))
}

/// Pushing a parameter commutes with taking views.
pub proof fn lemma_view_params_push<T: View<V = Seq<char>>>(s: Seq<T>, x: T)
    ensures
        view_params(s.push(x)) == view_params(s).push(x@),
{
    assert(view_params(s.push(x)) =~= view_params(s).push(x@));
}

/// Pushing a tag pair commutes with taking views.
pub proof fn lemma_view_tags_push<T: View<V = Seq<char>>>(
    s: Seq<(T, Option<T>)>,
    x: (T, Option<T>),
)
    ensures
        view_tags(s.push(x)) == view_tags(s).push((x.0@, view_opt(x.1))),
{
    assert(view_tags(s.push(x)) =~= view_tags(s).push((x.0@, view_opt(x.1))));
}

/// Updating a tag pair in place commutes with taking views.
pub proof fn lemma_view_tags_update<T: View<V = Seq<char>>>(
    s: Seq<(T, Option<T>)>,
    i: int,
    x: (T, Option<T>),
)
    requires
        0 <= i < s.len(),
    ensures
        view_tags(s.update(i, x)) == view_tags(s).update(i, (x.0@, view_opt(x.1))),
{
    assert(view_tags(s.update(i, x)) =~= view_tags(s).update(i, (x.0@, view_opt(x.1))));
}

impl View for IrcMessage {
    type V = SpecMessage;

    open spec fn view(&self) -> SpecMessage {
        SpecMessage {
            tags: view_tags(self.tags@),
            prefix: view_opt(self.prefix),
            command: view_opt(self.command),
            params: view_params(self.params@),
        }
    }
}

impl<'a> View for IrcMessageRef<'a> {
    type V = SpecMessage;

    open spec fn view(&self) -> SpecMessage {
        SpecMessage {
            tags: view_tags(self.tags@),
            prefix: view_opt(self.prefix),
            command: view_opt(self.command),
            params: view_params(self.params@),
        }
    }
}

impl<'a> IrcMessageRef<'a> {
    /// The same message with owned fields: every slice is copied into its
    /// own allocation, so the result may outlive the input line.
    pub fn to_message(&self) -> (m: IrcMessage)
        ensures
            m@ == self@,
            m.raw@ == self.raw@,
    {
        let mut tags: Vec<(String, Option<String>)> = Vec::new();
        let mut i: usize = 0;
        while i < self.tags.len()
            invariant
                0 <= i <= self.tags.len(),
                view_tags(tags@) =~= view_tags(self.tags@).take(i as int),
            decreases self.tags.len() - i,
        {
            let (k, v) = self.tags[i];
            let v_owned: Option<String> = match v {
                None => None,
                Some(s) => Some(String::from_str(s)),
            };
            let ghost snap = tags@;
            tags.push((String::from_str(k), v_owned));
            proof {
                assert(snap.len() == i) by {
                    assert(view_tags(snap).len() == i);
                }
                assert forall|n: int| 0 <= n < i + 1 implies view_tags(tags@)[n] == view_tags(
                    self.tags@,
                ).take(i + 1)[n] by {
                    if n < i {
                        assert(tags@[n] == snap[n]);
                        assert(view_tags(snap)[n] == view_tags(self.tags@).take(i as int)[n]);
                    }
                }
                assert(view_tags(tags@) =~= view_tags(self.tags@).take(i + 1));
            }
            i = i + 1;
        }
        let mut params: Vec<String> = Vec::new();
        let mut j: usize = 0;
        while j < self.params.len()
            invariant
                0 <= j <= self.params.len(),
                view_params(params@) =~= view_params(self.params@).take(j as int),
            decreases self.params.len() - j,
        {
            let ghost snap = params@;
            params.push(String::from_str(self.params[j]));
            proof {
                assert(snap.len() == j) by {
                    assert(view_params(snap).len() == j);
                }
                assert forall|n: int| 0 <= n < j + 1 implies view_params(params@)[n]
                    == view_params(self.params@).take(j + 1)[n] by {
                    if n < j {
                        assert(params@[n] == snap[n]);
                        assert(view_params(snap)[n] == view_params(self.params@).take(j as int)[n]);
                    }
                }
                assert(view_params(params@) =~= view_params(self.params@).take(j + 1));
            }
            j = j + 1;
        }
        let prefix: Option<String> = match self.prefix {
            None => None,
            Some(p) => Some(String::from_str(p)),
        };
        let command: Option<String> = match self.command {
            None => None,
            Some(c) => Some(String::from_str(c)),
        };
        let m = IrcMessage { raw: String::from_str(self.raw), tags, prefix, command, params };
        proof {
            assert(view_tags(m.tags@) =~= view_tags(self.tags@));
            assert(view_params(m.params@) =~= view_params(self.params@));
            assert(m@ =~= self@);
        }
        m
    }
}

impl IrcMessage {
    /// The value of the tag named `key`: `None` when the tag is absent,
    /// `Some(None)` when it is present without a value, `Some(Some(v))` when
    /// it is present with value `v`.
    pub fn tag_value(&self, key: &str) -> (r: Option<Option<String>>)
        ensures
            ({
                let i = tags_find(self@.tags, key@);
                if i < self@.tags.len() {
                    r matches Some(v) && view_opt(v) == self@.tags[i].1
                } else {
                    r is None
                }
            }),
    {
        let mut i: usize = 0;
        while i < self.tags.len()
            invariant
                0 <= i <= self.tags.len(),
                forall|k: int| 0 <= k < i ==> view_tags(self.tags@)[k].0 != key@,
            decreases self.tags.len() - i,
        {
            if str_eq(self.tags[i].0.as_str(), key) {
                proof {
                    crate::grammar::lemma_tags_find_at(self@.tags, key@, i as int);
                }
                let v: Option<String> = match &self.tags[i].1 {
                    None => None,
                    Some(s) => Some(s.clone()),
                };
                return Some(v);
            }
            i = i + 1;
        }
        proof {
            crate::grammar::lemma_tags_find_at(self@.tags, key@, self.tags@.len() as int);
        }
        None
    }

    /// The value of the tag named `key`, with a caller-visible default
    /// substituted: a tag present without a value reads as the literal
    /// string "true". Callers that must distinguish an absent value from an
    /// explicit "true" use [`IrcMessage::tag_value`] instead.
    pub fn tag_value_or_true(&self, key: &str) -> (r: Option<String>)
        ensures
            ({
                let i = tags_find(self@.tags, key@);
                if i < self@.tags.len() {
                    match self@.tags[i].1 {
                        Some(v) => r matches Some(s) && s@ == v,
                        None => r matches Some(s) && s@ == "true"@,
                    }
                } else {
                    r is None
                }
            }),
    {
        match self.tag_value(key) {
            None => None,
            Some(None) => Some(String::from_str("true")),
            Some(Some(v)) => Some(v),
        }
    }
}

} // verus!
