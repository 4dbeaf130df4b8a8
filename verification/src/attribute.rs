//! Attribute selectors: `[name]` or `[name<relation>value]`.
use crate::parser_types::{presult_dv, within, ErrorKind, PResult, SResult, TokenParser};
use crate::primitives::{
    parse_group_with_delimiter, parse_grouped_puncts, parse_ident, parse_literal_or_ident,
    spec_parse_group_with_delimiter, spec_parse_grouped_puncts, spec_parse_ident,
    spec_parse_literal_or_ident, spec_parse_punct, parse_punct,
};
use crate::tokens::{char_to_string, token_text, Delimiter, TokenTree};
use crate::types::{
    relation_symbol, relation_value, spec_relation_from, AttributeModifier, AttributeRelation, SpecAttributeModifier,
    SpecAttributeRelation,
};
use crate::rule::PropertyNamePart;
use crate::text::{join, join_strings};
use crate::util::{alt, ensure_consumed, many_0_joint, spec_alt, spec_ensure_consumed, spec_many_0_joint};
use vstd::prelude::*;

verus! {

/// The relation symbol of an attribute selector: a run of joined
/// punctuation marks (`=`, `~=`, ...), as text.
pub open spec fn spec_parse_attribute_symbol(s: Seq<TokenTree>) -> SResult<Seq<char>> {
    spec_parse_grouped_puncts(s)
}

fn parse_attribute_symbol(input: &[TokenTree]) -> (res: PResult<String>)
    ensures
        presult_dv(res) == spec_parse_attribute_symbol(input@),
        within(res, input@.len()),
{
    let (n, punct_vec) = parse_grouped_puncts(input)?;
    let mut text = String::new();
    let mut i: usize = 0;
    while i < punct_vec.len()
        invariant
            i <= punct_vec@.len(),
            text@ == punct_vec@.take(i as int),
        decreases punct_vec@.len() - i,
    {
        let piece = char_to_string(punct_vec[i]);
        text.append(piece.as_str());
        proof {
            assert(punct_vec@.take(i + 1) =~= punct_vec@.take(i as int) + seq![punct_vec@[i as int]]);
        }
        i = i + 1;
    }
    proof {
        assert(punct_vec@.take(i as int) =~= punct_vec@);
    }
    Ok((n, text))
}

/// An attribute name, as text: an identifier, which in the extended form
/// goes on with identifiers and `-` written with no gap between them (like
/// `data-kind`).
pub open spec fn spec_parse_attribute_name(s: Seq<TokenTree>, extended: bool) -> SResult<Seq<char>> {
    match spec_parse_ident(s) {
        Ok(r) => if !extended {
            Ok(r)
        } else {
            match spec_many_0_joint(PropertyNamePart, s) {
                Ok((n, parts)) => Ok((n, join(parts, Seq::empty()))),
                Err(e) => Err(e),
            }
        },
        Err(e) => Err(e),
    }
}

fn parse_attribute_name(input: &[TokenTree], extended: bool) -> (res: PResult<String>)
    ensures
        presult_dv(res) == spec_parse_attribute_name(input@, extended),
        within(res, input@.len()),
{
    let first = parse_ident(input)?;
    if !extended {
        return Ok(first);
    }
    let (n, parts) = many_0_joint(&PropertyNamePart, input)?;
    proof {
        reveal_strlit("");
        assert(""@ =~= Seq::<char>::empty());
    }
    Ok((n, join_strings(&parts, "")))
}

/// The relation symbol as a single punctuation mark, as text.
pub open spec fn spec_parse_single_symbol(s: Seq<TokenTree>) -> SResult<Seq<char>> {
    match spec_parse_punct(s, None, None) {
        Ok((n, c)) => Ok((n, seq![c])),
        Err(e) => Err(e),
    }
}

fn parse_single_symbol(input: &[TokenTree]) -> (res: PResult<String>)
    ensures
        presult_dv(res) == spec_parse_single_symbol(input@),
        within(res, input@.len()),
{
    let (n, c) = parse_punct(input, None, None)?;
    Ok((n, char_to_string(c)))
}

/// The inside of `[name]`: an attribute name (extended or not) and nothing
/// after it.
pub open spec fn spec_contents_without_relation(s: Seq<TokenTree>, extended: bool) -> SResult<SpecAttributeModifier> {
    match spec_parse_attribute_name(s, extended) {
        Ok((n, name)) => match spec_ensure_consumed(s.skip(n as int)) {
            Ok((m, _)) => Ok((n + m, SpecAttributeModifier { attribute: name, relation: None })),
            Err(e) => Err(e),
        },
        Err(e) => Err(e),
    }
}

/// Parser value for the inside of `[name]`.
pub struct ContentsWithoutRelation {
    /// Whether names may hold dashes.
    pub extended: bool,
}

impl TokenParser for ContentsWithoutRelation {
    type Output = AttributeModifier;

    open spec fn spec_parse(&self, s: Seq<TokenTree>) -> SResult<SpecAttributeModifier> {
        spec_contents_without_relation(s, self.extended)
    }

    fn parse(&self, input: &[TokenTree]) -> (res: PResult<AttributeModifier>) {
        let (n, name) = parse_attribute_name(input, self.extended)?;
        let rest = &input[n..input.len()];
        let (m, _) = ensure_consumed(rest)?;
        Ok((n + m, AttributeModifier { attribute: name, relation: None }))
    }
}

/// The inside of `[name<symbol>value]`: an attribute name, a relation symbol
/// (in the extended form a run of joined punctuation marks, else a single one), a literal or
/// identifier, and nothing after them; the symbol must be a known relation.
pub open spec fn spec_contents_with_relation(s: Seq<TokenTree>, extended: bool) -> SResult<SpecAttributeModifier> {
    match spec_parse_attribute_name(s, extended) {
        Ok((n1, name)) => {
            let s1 = s.skip(n1 as int);
            match (if extended { spec_parse_attribute_symbol(s1) } else { spec_parse_single_symbol(s1) }) {
                Ok((n2, symbol)) => {
                    let s2 = s1.skip(n2 as int);
                    match spec_parse_literal_or_ident(s2) {
                        Ok((n3, rhs)) => match spec_relation_from(symbol, rhs) {
                            Some(relation) => match spec_ensure_consumed(s2.skip(n3 as int)) {
                                Ok((n4, _)) => Ok((
                                    n1 + n2 + n3 + n4,
                                    SpecAttributeModifier { attribute: name, relation: Some(relation) },
                                )),
                                Err(e) => Err(e),
                            },
                            None => Err(ErrorKind::TakeTill1),
                        },
                        Err(e) => Err(e),
                    }
                },
                Err(e) => Err(e),
            }
        },
        Err(e) => Err(e),
    }
}

/// Parser value for the inside of `[name<symbol>value]`.
pub struct ContentsWithRelation {
    /// Whether names may hold dashes and the symbol may be a run of joined
    /// punctuation marks (else a single identifier and a single mark).
    pub extended: bool,
}

impl TokenParser for ContentsWithRelation {
    type Output = AttributeModifier;

    open spec fn spec_parse(&self, s: Seq<TokenTree>) -> SResult<SpecAttributeModifier> {
        spec_contents_with_relation(s, self.extended)
    }

    fn parse(&self, input: &[TokenTree]) -> (res: PResult<AttributeModifier>) {
        let (n1, attribute) = parse_attribute_name(input, self.extended)?;
        let rest1 = &input[n1..input.len()];
        let (n2, symbol) = if self.extended {
            parse_attribute_symbol(rest1)?
        } else {
            parse_single_symbol(rest1)?
        };
        let rest2 = &rest1[n2..rest1.len()];
        let (n3, rhs) = parse_literal_or_ident(rest2)?;
        let relation = match AttributeRelation::from_strings(symbol.as_str(), rhs) {
            Some(relation) => relation,
            None => {
                return Err(ErrorKind::TakeTill1);
            },
        };
        let rest3 = &rest2[n3..rest2.len()];
        let (n4, _) = ensure_consumed(rest3)?;
        Ok((n1 + n2 + n3 + n4, AttributeModifier { attribute, relation: Some(relation) }))
    }
}

/// A bracketed group holding either form of attribute selector; the whole
/// group is one token.
pub open spec fn spec_parse_attribute_selector_with(s: Seq<TokenTree>, extended: bool) -> SResult<SpecAttributeModifier> {
    match spec_parse_group_with_delimiter(s, Some(Delimiter::Bracket)) {
        Ok((n, contents)) => match spec_alt(ContentsWithoutRelation { extended }, ContentsWithRelation { extended }, contents) {
            Ok((_, x)) => Ok((n, x)),
            Err(e) => Err(e),
        },
        Err(e) => Err(e),
    }
}

pub(crate) fn parse_attribute_selector_with(input: &[TokenTree], extended: bool) -> (res: PResult<AttributeModifier>)
    ensures
        presult_dv(res) == spec_parse_attribute_selector_with(input@, extended),
        within(res, input@.len()),
{
    let (n, contents) = parse_group_with_delimiter(input, Some(Delimiter::Bracket))?;
    let (_m, x) = alt(&ContentsWithoutRelation { extended }, &ContentsWithRelation { extended }, contents)?;
    Ok((n, x))
}

/// An attribute selector in the extended form: names may hold dashes, and
/// the relation symbol may be several joined marks.
pub open spec fn spec_parse_attribute_selector(s: Seq<TokenTree>) -> SResult<SpecAttributeModifier> {
    spec_parse_attribute_selector_with(s, true)
}

pub fn parse_attribute_selector(input: &[TokenTree]) -> (res: PResult<AttributeModifier>)
    ensures
        presult_dv(res) == spec_parse_attribute_selector(input@),
        within(res, input@.len()),
{
    parse_attribute_selector_with(input, true)
}

/// Can the token stand as an attribute value: is it an identifier or a
/// literal?
pub open spec fn is_value_token(t: TokenTree) -> bool {
    t is Ident || t is Literal
}

/// Do the tokens inside the brackets write `r`: an attribute name, the
/// relation's symbol, and one identifier or literal whose text is the
/// relation's value?
pub open spec fn writes_relation(c: Seq<TokenTree>, extended: bool, r: SpecAttributeRelation) -> bool {
    spec_parse_attribute_name(c, extended) matches Ok((n1, _))
        && (if extended {
            spec_parse_attribute_symbol(c.skip(n1 as int))
        } else {
            spec_parse_single_symbol(c.skip(n1 as int))
        }) matches Ok((n2, symbol))
        && symbol == relation_symbol(r)
        && n1 + n2 + 1 == c.len()
        && is_value_token(c[(n1 + n2) as int])
        && token_text(c[(n1 + n2) as int]) == relation_value(r)
}

/// In either form, a relation whose value is a single identifier is read
/// just as one whose value is a literal: the name, the relation's symbol and
/// one identifier or literal give that relation, with the token's text as
/// its value.
pub proof fn lemma_contents_value_token(c: Seq<TokenTree>, extended: bool, r: SpecAttributeRelation)
    requires
        writes_relation(c, extended, r),
    ensures
        spec_parse_attribute_name(c, extended) matches Ok((_, name))
            && spec_contents_with_relation(c, extended)
            == Ok::<(nat, SpecAttributeModifier), ErrorKind>((c.len(), SpecAttributeModifier { attribute: name, relation: Some(r) })),
{
    if let Ok((n1, name)) = spec_parse_attribute_name(c, extended) {
        let s1 = c.skip(n1 as int);
        if let Ok((n2, symbol)) = (if extended { spec_parse_attribute_symbol(s1) } else { spec_parse_single_symbol(s1) }) {
            let s2 = s1.skip(n2 as int);
            assert(s2.len() == 1);
            assert(s2[0] == c[(n1 + n2) as int]);
            assert(spec_parse_literal_or_ident(s2) == Ok::<(nat, Seq<char>), ErrorKind>((1, relation_value(r))));
            assert(spec_relation_from(symbol, relation_value(r)) == Some(r));
            assert(s2.skip(1).len() == 0);
        }
    }
}

/// The same for a whole bracketed attribute selector: `[n <symbol> v]` with
/// `v` an identifier or a literal gives the relation with `v`'s text, taking
/// the one bracket token.
pub proof fn lemma_attribute_selector_value_token(s: Seq<TokenTree>, extended: bool, r: SpecAttributeRelation)
    requires
        s.len() > 0,
        s[0] matches TokenTree::Group { delimiter: Delimiter::Bracket, stream, .. }
            && writes_relation(stream@, extended, r),
    ensures
        s[0] matches TokenTree::Group { stream, .. }
            && spec_parse_attribute_name(stream@, extended) matches Ok((_, name))
            && spec_parse_attribute_selector_with(s, extended)
            == Ok::<(nat, SpecAttributeModifier), ErrorKind>((1, SpecAttributeModifier { attribute: name, relation: Some(r) })),
{
    if let TokenTree::Group { stream, .. } = s[0] {
        let c = stream@;
        lemma_contents_value_token(c, extended, r);
        if let Ok((n1, _)) = spec_parse_attribute_name(c, extended) {
            assert(c.skip(n1 as int).len() > 0);
            assert(spec_contents_without_relation(c, extended) is Err);
        }
    }
}

} // verus!
