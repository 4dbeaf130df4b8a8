//! Modifiers: what may follow an element name in a simple selector.
use crate::attribute::{parse_attribute_selector, spec_parse_attribute_selector};
use crate::class::{parse_class_selector, spec_parse_class_selector};
use crate::id::{parse_id_selector, spec_parse_id_selector};
use crate::parser_types::{presult_dv, within, PResult, SResult, TokenParser};
use crate::tokens::TokenTree;
use crate::types::{Modifier, SpecModifier};
use vstd::prelude::*;

verus! {

/// An attribute selector, else a class selector, else an id selector.
pub open spec fn spec_parse_modifier(s: Seq<TokenTree>) -> SResult<SpecModifier> {
    match spec_parse_attribute_selector(s) {
        Ok((n, a)) => Ok((n, SpecModifier::Attribute(a))),
        Err(_) => match spec_parse_class_selector(s) {
            Ok((n, c)) => Ok((n, SpecModifier::Class(c))),
            Err(_) => match spec_parse_id_selector(s) {
                Ok((n, i)) => Ok((n, SpecModifier::Id(i))),
                Err(e) => Err(e),
            },
        },
    }
}

pub fn parse_modifier(input: &[TokenTree]) -> (res: PResult<Modifier>)
    ensures
        presult_dv(res) == spec_parse_modifier(input@),
        within(res, input@.len()),
{
    match parse_attribute_selector(input) {
        Ok((n, attribute_selector)) => Ok((n, Modifier::Attribute(attribute_selector))),
        Err(_) => match parse_class_selector(input) {
            Ok((n, class)) => Ok((n, Modifier::Class(class))),
            Err(_) => match parse_id_selector(input) {
                Ok((n, id)) => Ok((n, Modifier::Id(id))),
                Err(e) => Err(e),
            },
        },
    }
}

/// `parse_modifier` as a parser value.
pub struct ModifierParser;

impl TokenParser for ModifierParser {
    type Output = Modifier;

    open spec fn spec_parse(&self, s: Seq<TokenTree>) -> SResult<SpecModifier> {
        spec_parse_modifier(s)
    }

    fn parse(&self, input: &[TokenTree]) -> (res: PResult<Modifier>) {
        parse_modifier(input)
    }
}

} // verus!
