//! Selectors: simple ones, nested ones, and comma-separated lists of them.
use crate::modifier::ModifierParser;
use crate::parser_types::{presult_dv, within, ErrorKind, PResult, SResult, TokenParser};
use crate::primitives::{parse_ident, parse_punct, spec_parse_ident, spec_parse_punct};
use crate::tokens::{Spacing, TokenTree};
use crate::types::{Selector, SpecSelector};
use crate::util::{lemma_many_0_none, lemma_many_0_step, lemma_many_rest_within, many_0, many_0_joint, spec_many_0, spec_many_0_joint};
use vstd::prelude::*;

verus! {

/// An optional element name, then modifiers for as long as they follow one
/// another without a gap.
pub open spec fn spec_parse_selector(s: Seq<TokenTree>) -> SResult<SpecSelector> {
    let (n, element) = match spec_parse_ident(s) {
        Ok((n, name)) => (n, Some(name)),
        Err(_) => (0nat, None),
    };
    match spec_many_0_joint(ModifierParser, s.skip(n as int)) {
        Ok((m, modifiers)) => Ok((n + m, SpecSelector { element, modifiers })),
        Err(e) => Err(e),
    }
}

fn parse_selector(input: &[TokenTree]) -> (res: PResult<Selector>)
    ensures
        presult_dv(res) == spec_parse_selector(input@),
        within(res, input@.len()),
{
    let (n, element) = match parse_ident(input) {
        Ok((n, name)) => (n, Some(name)),
        Err(_) => (0, None),
    };
    let rest = &input[n..input.len()];
    let (m, modifiers) = many_0_joint(&ModifierParser, rest)?;
    Ok((n + m, Selector { element, modifiers }))
}

/// `parse_selector` as a parser value.
pub struct SelectorParser;

impl TokenParser for SelectorParser {
    type Output = Selector;

    open spec fn spec_parse(&self, s: Seq<TokenTree>) -> SResult<SpecSelector> {
        spec_parse_selector(s)
    }

    fn parse(&self, input: &[TokenTree]) -> (res: PResult<Selector>) {
        parse_selector(input)
    }
}

/// Simple selectors one after the other, each inside the one before
/// (`body .foo`).
pub open spec fn spec_parse_nested_selector(s: Seq<TokenTree>) -> SResult<Seq<SpecSelector>> {
    spec_many_0(SelectorParser, s)
}

pub fn parse_nested_selector(input: &[TokenTree]) -> (res: PResult<Vec<Selector>>)
    ensures
        presult_dv(res) == spec_parse_nested_selector(input@),
        within(res, input@.len()),
{
    many_0(&SelectorParser, input)
}

/// A nested selector followed by a comma that stands alone; yields the
/// nested selector.
pub open spec fn spec_nested_selector_then_comma(s: Seq<TokenTree>) -> SResult<Seq<SpecSelector>> {
    match spec_parse_nested_selector(s) {
        Ok((n, selectors)) => match spec_parse_punct(s.skip(n as int), Some(Spacing::Alone), Some(',')) {
            Ok((m, _)) => Ok((n + m, selectors)),
            Err(e) => Err(e),
        },
        Err(e) => Err(e),
    }
}

/// Parser value for a nested selector and its comma.
pub struct NestedSelectorThenComma;

impl TokenParser for NestedSelectorThenComma {
    type Output = Vec<Selector>;

    open spec fn spec_parse(&self, s: Seq<TokenTree>) -> SResult<Seq<SpecSelector>> {
        spec_nested_selector_then_comma(s)
    }

    fn parse(&self, input: &[TokenTree]) -> (res: PResult<Vec<Selector>>) {
        let (n, selectors) = parse_nested_selector(input)?;
        let rest = &input[n..input.len()];
        let (m, _comma) = parse_punct(rest, Some(Spacing::Alone), Some(','))?;
        Ok((n + m, selectors))
    }
}

/// Nested selectors separated by commas: any number of them each followed by
/// its comma, then a last one.
pub open spec fn spec_parse_nested_selector_list(s: Seq<TokenTree>) -> SResult<Seq<Seq<SpecSelector>>> {
    match spec_many_0(NestedSelectorThenComma, s) {
        Ok((n, lists)) => match spec_parse_nested_selector(s.skip(n as int)) {
            Ok((m, last)) => Ok((n + m, lists.push(last))),
            Err(e) => Err(e),
        },
        Err(e) => Err(e),
    }
}

/// A nested selector and its comma consume at least the comma, and never
/// more tokens than there are.
proof fn lemma_then_comma_consumes(s: Seq<TokenTree>)
    ensures
        spec_nested_selector_then_comma(s) matches Ok((n, _)) ==> 1 <= n <= s.len(),
{
    lemma_many_rest_within(SelectorParser, s);
}

/// A selector list is read entry by entry: where it starts with a nested
/// selector and its comma, it is that nested selector followed by the list
/// after the comma, so every comma-separated entry is kept, however many
/// there are; where it does not, it is the one nested selector that is there.
pub proof fn lemma_selector_list_step(s: Seq<TokenTree>)
    ensures
        spec_nested_selector_then_comma(s) matches Ok((n, first)) ==> spec_parse_nested_selector_list(s)
            == (match spec_parse_nested_selector_list(s.skip(n as int)) {
                Ok((m, rest)) => Ok((n + m, seq![first] + rest)),
                Err(e) => Err(e),
            }),
        spec_nested_selector_then_comma(s) is Err ==> spec_parse_nested_selector_list(s)
            == (match spec_parse_nested_selector(s) {
                Ok((m, last)) => Ok((m, seq![last])),
                Err(e) => Err(e),
            }),
{
    lemma_then_comma_consumes(s);
    match spec_nested_selector_then_comma(s) {
        Ok((n, first)) => {
            let t = s.skip(n as int);
            lemma_then_comma_consumes(t);
            lemma_many_0_step(NestedSelectorThenComma, s);
            lemma_many_rest_within(NestedSelectorThenComma, t);
            if let Ok((m1, vs)) = spec_many_0(NestedSelectorThenComma, t) {
                assert(t.skip(m1 as int) =~= s.skip((n + m1) as int));
                if let Ok((m2, last)) = spec_parse_nested_selector(t.skip(m1 as int)) {
                    assert((seq![first] + vs).push(last) =~= seq![first] + vs.push(last));
                }
            }
        },
        Err(_) => {
            lemma_many_0_none(NestedSelectorThenComma, s);
            assert(s.skip(0) =~= s);
            if let Ok((m, last)) = spec_parse_nested_selector(s) {
                assert(Seq::<Seq<SpecSelector>>::empty().push(last) =~= seq![last]);
            }
        },
    }
}

pub fn parse_nested_selector_list(input: &[TokenTree]) -> (res: PResult<Vec<Vec<Selector>>>)
    ensures
        presult_dv(res) == spec_parse_nested_selector_list(input@),
        within(res, input@.len()),
{
    let (n, mut nested_selectors) = many_0(&NestedSelectorThenComma, input)?;
    let rest = &input[n..input.len()];
    let (m, nested_selector) = parse_nested_selector(rest)?;
    let ghost before = nested_selectors.deep_view();
    let ghost last = nested_selector.deep_view();
    nested_selectors.push(nested_selector);
    proof {
        assert(nested_selectors.deep_view() =~= before.push(last));
    }
    Ok((n + m, nested_selectors))
}

} // verus!
