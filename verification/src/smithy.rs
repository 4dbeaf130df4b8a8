//! The parsers of the smithy flavour of the macro: attribute selectors in the
//! plain form, and selector lists.
use crate::attribute::{parse_attribute_selector_with, spec_parse_attribute_selector_with};
use crate::parser_types::{presult_dv, within, PResult, SResult};
use crate::tokens::TokenTree;
use crate::types::{AttributeModifier, SpecAttributeModifier, SpecSelector, Selector};
use vstd::prelude::*;

verus! {

/// An attribute selector in the plain form: its name is one identifier and
/// its relation symbol one punctuation mark.
pub open spec fn spec_parse_attribute(s: Seq<TokenTree>) -> SResult<SpecAttributeModifier> {
    spec_parse_attribute_selector_with(s, false)
}

pub fn parse_attribute(input: &[TokenTree]) -> (res: PResult<AttributeModifier>)
    ensures
        presult_dv(res) == spec_parse_attribute(input@),
        within(res, input@.len()),
{
    parse_attribute_selector_with(input, false)
}

/// Nested selectors separated by commas, the same list the scoped parser
/// reads: any number of them each followed by its comma, then a last one.
pub open spec fn spec_parse_nested_selector_list(s: Seq<TokenTree>) -> SResult<Seq<Seq<SpecSelector>>> {
    crate::selector::spec_parse_nested_selector_list(s)
}

pub fn parse_nested_selector_list(input: &[TokenTree]) -> (res: PResult<Vec<Vec<Selector>>>)
    ensures
        presult_dv(res) == spec_parse_nested_selector_list(input@),
        within(res, input@.len()),
{
    crate::selector::parse_nested_selector_list(input)
}

} // verus!
