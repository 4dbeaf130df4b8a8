//! Parsers for single tokens.
use crate::parser_types::{presult_dv, presult_view, within, ErrorKind, PResult, SResult, TokenParser};
use crate::tokens::{char_to_string, token_text, Delimiter, Spacing, TokenTree};
use vstd::prelude::*;

verus! {

/// An identifier, yielding its name.
pub open spec fn spec_parse_ident(s: Seq<TokenTree>) -> SResult<Seq<char>> {
    if s.len() == 0 {
        Err(ErrorKind::Eof)
    } else {
        match s[0] {
            TokenTree::Ident { name, .. } => Ok((1, name@)),
            _ => Err(ErrorKind::TakeTill1),
        }
    }
}

pub fn parse_ident(input: &[TokenTree]) -> (res: PResult<String>)
    ensures
        presult_dv(res) == spec_parse_ident(input@),
        within(res, input@.len()),
{
    if input.len() == 0 {
        return Err(ErrorKind::Eof);
    }
    match &input[0] {
        TokenTree::Ident { name, .. } => Ok((1, name.clone())),
        _ => Err(ErrorKind::TakeTill1),
    }
}

/// A punctuation mark, optionally of a given spacing and a given character;
/// yields the character.
pub open spec fn spec_parse_punct(s: Seq<TokenTree>, spacing: Option<Spacing>, ch: Option<char>) -> SResult<char> {
    if s.len() == 0 {
        Err(ErrorKind::Eof)
    } else {
        match s[0] {
            TokenTree::Punct { ch: c, spacing: sp, .. } => {
                if (spacing is None || spacing == Some(sp)) && (ch is None || ch == Some(c)) {
                    Ok((1, c))
                } else {
                    Err(ErrorKind::TakeTill1)
                }
            },
            _ => Err(ErrorKind::TakeTill1),
        }
    }
}

pub fn parse_punct(input: &[TokenTree], spacing: Option<Spacing>, ch: Option<char>) -> (res: PResult<char>)
    ensures
        presult_dv(res) == spec_parse_punct(input@, spacing, ch),
        within(res, input@.len()),
{
    if input.len() == 0 {
        return Err(ErrorKind::Eof);
    }
    match &input[0] {
        TokenTree::Punct { ch: c, spacing: sp, .. } => {
            let spacing_ok = match spacing {
                Some(want) => want == *sp,
                None => true,
            };
            let ch_ok = match ch {
                Some(want) => want == *c,
                None => true,
            };
            if spacing_ok && ch_ok {
                Ok((1, *c))
            } else {
                Err(ErrorKind::TakeTill1)
            }
        },
        _ => Err(ErrorKind::TakeTill1),
    }
}

/// `parse_punct` with fixed arguments, as a parser value.
pub struct PunctParser {
    pub spacing: Option<Spacing>,
    pub ch: Option<char>,
}

impl TokenParser for PunctParser {
    type Output = char;

    open spec fn spec_parse(&self, s: Seq<TokenTree>) -> SResult<char> {
        spec_parse_punct(s, self.spacing, self.ch)
    }

    fn parse(&self, input: &[TokenTree]) -> (res: PResult<char>) {
        parse_punct(input, self.spacing, self.ch)
    }
}

/// Is the token a punctuation mark?
pub open spec fn is_punct(t: TokenTree) -> bool {
    t is Punct
}

/// Is the token a punctuation mark joined to the one after it?
pub open spec fn is_joint_punct(t: TokenTree) -> bool {
    t matches TokenTree::Punct { spacing: Spacing::Joint, .. }
}

/// The length of the run of joined punctuation marks that starts a stream
/// whose first token is a punctuation mark.
pub open spec fn grouped_len(s: Seq<TokenTree>) -> nat
    decreases s.len(),
{
    if s.len() >= 2 && is_joint_punct(s[0]) && is_punct(s[1]) {
        1 + grouped_len(s.drop_first())
    } else {
        1
    }
}

/// The character of a punctuation mark.
pub open spec fn punct_char(t: TokenTree) -> char {
    match t {
        TokenTree::Punct { ch, .. } => ch,
        _ => ' ',
    }
}

/// A run of joined punctuation marks (such as the `~` and `=` of `~=`),
/// yielding their characters.
pub open spec fn spec_parse_grouped_puncts(s: Seq<TokenTree>) -> SResult<Seq<char>> {
    if s.len() == 0 {
        Err(ErrorKind::Eof)
    } else if !is_punct(s[0]) {
        Err(ErrorKind::TakeTill1)
    } else {
        let n = grouped_len(s);
        Ok((n, Seq::new(n, |i: int| punct_char(s[i]))))
    }
}

/// Does the run of joined punctuation marks go on past position `i - 1`?
fn run_continues(input: &[TokenTree], i: usize) -> (res: bool)
    requires
        1 <= i <= input@.len(),
    ensures
        res == (i < input@.len() && is_joint_punct(input@[i - 1]) && is_punct(input@[i as int])),
{
    if i >= input.len() {
        return false;
    }
    let joint = match &input[i - 1] {
        TokenTree::Punct { spacing: Spacing::Joint, .. } => true,
        _ => false,
    };
    let next = match &input[i] {
        TokenTree::Punct { .. } => true,
        _ => false,
    };
    joint && next
}

pub fn parse_grouped_puncts(input: &[TokenTree]) -> (res: PResult<Vec<char>>)
    ensures
        presult_view(res) == spec_parse_grouped_puncts(input@),
        within(res, input@.len()),
{
    if input.len() == 0 {
        return Err(ErrorKind::Eof);
    }
    let first = match &input[0] {
        TokenTree::Punct { ch, .. } => *ch,
        _ => {
            return Err(ErrorKind::TakeTill1);
        },
    };
    let ghost s = input@;
    let mut chars: Vec<char> = Vec::new();
    chars.push(first);
    let mut i: usize = 1;
    proof {
        assert(s.skip(0) =~= s);
    }
    while run_continues(input, i)
        invariant
            s == input@,
            1 <= i <= s.len(),
            grouped_len(s) == (i - 1) + grouped_len(s.skip(i - 1)),
            chars@.len() == i,
            forall|j: int| 0 <= j < i ==> chars@[j] == punct_char(#[trigger] s[j]),
        decreases s.len() - i,
    {
        let c = match &input[i] {
            TokenTree::Punct { ch, .. } => *ch,
            _ => ' ',
        };
        proof {
            let t = s.skip(i - 1);
            assert(t[0] == s[i - 1]);
            assert(t[1] == s[i as int]);
            assert(t.drop_first() =~= s.skip(i as int));
        }
        chars.push(c);
        i = i + 1;
    }
    proof {
        let t = s.skip(i - 1);
        assert(t[0] == s[i - 1]);
        if i < s.len() {
            assert(t[1] == s[i as int]);
        }
        assert(grouped_len(t) == 1);
        assert(chars@ =~= Seq::new(grouped_len(s), |j: int| punct_char(s[j])));
    }
    Ok((i, chars))
}

/// Any token, yielding how it prints.
pub open spec fn spec_parse_any(s: Seq<TokenTree>) -> SResult<Seq<char>> {
    if s.len() == 0 {
        Err(ErrorKind::Eof)
    } else {
        Ok((1, token_text(s[0])))
    }
}

pub fn parse_any(input: &[TokenTree]) -> (res: PResult<String>)
    ensures
        presult_dv(res) == spec_parse_any(input@),
        within(res, input@.len()),
{
    if input.len() == 0 {
        return Err(ErrorKind::Eof);
    }
    let text = match &input[0] {
        TokenTree::Group { text, .. } => text.clone(),
        TokenTree::Ident { name, .. } => name.clone(),
        TokenTree::Punct { ch, .. } => char_to_string(*ch),
        TokenTree::Literal { text, .. } => text.clone(),
    };
    Ok((1, text))
}

/// `parse_any` as a parser value.
pub struct AnyToken;

impl TokenParser for AnyToken {
    type Output = String;

    open spec fn spec_parse(&self, s: Seq<TokenTree>) -> SResult<Seq<char>> {
        spec_parse_any(s)
    }

    fn parse(&self, input: &[TokenTree]) -> (res: PResult<String>) {
        parse_any(input)
    }
}

/// A group, optionally with a given delimiter; yields its contents.
pub open spec fn spec_parse_group_with_delimiter(s: Seq<TokenTree>, delimiter: Option<Delimiter>) -> SResult<Seq<TokenTree>> {
    if s.len() == 0 {
        Err(ErrorKind::Eof)
    } else {
        match s[0] {
            TokenTree::Group { delimiter: d, stream, .. } => {
                if delimiter is None || delimiter == Some(d) {
                    Ok((1, stream@))
                } else {
                    Err(ErrorKind::TakeTill1)
                }
            },
            _ => Err(ErrorKind::TakeTill1),
        }
    }
}

/// Parse and yield the contents of a group, if that group is the first item
/// of the input.
pub fn parse_group_with_delimiter<'a>(input: &'a [TokenTree], delimiter: Option<Delimiter>) -> (res: PResult<&'a [TokenTree]>)
    ensures
        presult_view(res) == spec_parse_group_with_delimiter(input@, delimiter),
        within(res, input@.len()),
{
    if input.len() == 0 {
        return Err(ErrorKind::Eof);
    }
    match &input[0] {
        TokenTree::Group { delimiter: d, stream, .. } => {
            let delimiter_ok = match delimiter {
                Some(want) => want == *d,
                None => true,
            };
            if delimiter_ok {
                Ok((1, stream.as_slice()))
            } else {
                Err(ErrorKind::TakeTill1)
            }
        },
        _ => Err(ErrorKind::TakeTill1),
    }
}

/// A literal (yielding its source text) or an identifier (yielding its name).
pub open spec fn spec_parse_literal_or_ident(s: Seq<TokenTree>) -> SResult<Seq<char>> {
    if s.len() == 0 {
        Err(ErrorKind::Eof)
    } else {
        match s[0] {
            TokenTree::Literal { text, .. } => Ok((1, text@)),
            TokenTree::Ident { name, .. } => Ok((1, name@)),
            _ => Err(ErrorKind::TakeTill1),
        }
    }
}

pub fn parse_literal_or_ident(input: &[TokenTree]) -> (res: PResult<String>)
    ensures
        presult_dv(res) == spec_parse_literal_or_ident(input@),
        within(res, input@.len()),
{
    if input.len() == 0 {
        return Err(ErrorKind::Eof);
    }
    match &input[0] {
        TokenTree::Literal { text, .. } => Ok((1, text.clone())),
        TokenTree::Ident { name, .. } => Ok((1, name.clone())),
        _ => Err(ErrorKind::TakeTill1),
    }
}

} // verus!
