//! The token model the parsers work on.
//!
//! A macro receives its input as a tree of tokens: identifiers, punctuation,
//! literals and delimited groups, each with the source span it came from.
//! The parsers of this crate only ever read a token's kind, its text, the
//! delimiter and contents of a group, the character and spacing of a
//! punctuation mark, and where its span starts and ends; this module holds
//! exactly that, as plain values.
use vstd::prelude::*;

verus! {

/// A position in the source: line and column, as the compiler reports them.
#[derive(Clone, Copy, Debug, PartialEq, Eq, Structural)]
pub struct LineColumn {
    pub line: usize,
    pub column: usize,
}

/// The region of source a token was read from.
#[derive(Clone, Copy, Debug, PartialEq, Eq, Structural)]
pub struct Span {
    pub start: LineColumn,
    pub end: LineColumn,
}

/// How a group is delimited: `( )`, `{ }`, `[ ]`, or invisibly.
#[derive(Clone, Copy, Debug, PartialEq, Eq, Structural)]
pub enum Delimiter {
    Parenthesis,
    Brace,
    Bracket,
    Invisible,
}

/// Whether a punctuation mark is immediately followed by another one
/// (`Joint`, as the `~` of `~=`) or not (`Alone`).
#[derive(Clone, Copy, Debug, PartialEq, Eq, Structural)]
pub enum Spacing {
    Alone,
    Joint,
}

/// One token tree of a macro's input.
///
/// `text` of a group is how the group prints, delimiters and contents
/// included; `text` of a literal is its source text (quotes included).
#[derive(Debug)]
pub enum TokenTree {
    Group { delimiter: Delimiter, stream: Vec<TokenTree>, text: String, span: Span },
    Ident { name: String, span: Span },
    Punct { ch: char, spacing: Spacing, span: Span },
    Literal { text: String, span: Span },
}

/// The span of a token.
pub open spec fn span_of(t: TokenTree) -> Span {
    match t {
        TokenTree::Group { span, .. } => span,
        TokenTree::Ident { span, .. } => span,
        TokenTree::Punct { span, .. } => span,
        TokenTree::Literal { span, .. } => span,
    }
}

/// How a token prints.
pub open spec fn token_text(t: TokenTree) -> Seq<char> {
    match t {
        TokenTree::Group { text, .. } => text@,
        TokenTree::Ident { name, .. } => name@,
        TokenTree::Punct { ch, .. } => seq![ch],
        TokenTree::Literal { text, .. } => text@,
    }
}

/// Two tokens are adjacent when the first ends exactly where the second starts.
pub open spec fn adjacent(a: TokenTree, b: TokenTree) -> bool {
    span_of(a).end == span_of(b).start
}

/// The number of token trees in a stream, counting the contents of groups.
pub open spec fn stream_size(s: Seq<TokenTree>) -> nat
    decreases s,
{
    if s.len() == 0 {
        0
    } else {
        tree_size(s[0]) + stream_size(s.subrange(1, s.len() as int))
    }
}

/// The number of token trees in a tree, itself included.
pub open spec fn tree_size(t: TokenTree) -> nat
    decreases t,
{
    match t {
        TokenTree::Group { stream, .. } => 1 + stream_size(stream@),
        _ => 1,
    }
}

/// Dropping tokens off the front of a stream shrinks it, strictly when at
/// least one token goes.
pub proof fn lemma_skip_size(s: Seq<TokenTree>, n: int)
    requires
        0 <= n <= s.len(),
    ensures
        stream_size(s.skip(n)) <= stream_size(s),
        n > 0 ==> stream_size(s.skip(n)) < stream_size(s),
    decreases n,
{
    if n > 0 {
        let t = s.subrange(1, s.len() as int);
        lemma_skip_size(t, n - 1);
        assert(t.skip(n - 1) =~= s.skip(n));
        assert(tree_size(s[0]) >= 1);
        assert(stream_size(s) == tree_size(s[0]) + stream_size(t));
    } else {
        assert(s.skip(0) =~= s);
    }
}

/// The contents of a group of a stream are smaller than the stream.
pub proof fn lemma_group_size(s: Seq<TokenTree>, k: int)
    requires
        0 <= k < s.len(),
        s[k] is Group,
    ensures
        stream_size(s[k]->Group_stream@) < stream_size(s),
    decreases k,
{
    if k > 0 {
        let t = s.subrange(1, s.len() as int);
        assert(t[k - 1] == s[k]);
        lemma_group_size(t, k - 1);
        assert(stream_size(s) == tree_size(s[0]) + stream_size(t));
    } else {
        assert(tree_size(s[0]) == 1 + stream_size(s[0]->Group_stream@));
    }
}

/// The text of a single character, by std's `ToString` for `char`.
/// Trusted: std documents that a `char` displays as itself, so the string
/// holds exactly that one character.
#[verifier::external_body]
pub(crate) fn char_to_string(c: char) -> (res: String)
    ensures
        res@ == seq![c],
{
    c.to_string()
}

} // verus!
