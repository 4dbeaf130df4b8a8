//! Class selectors: `.name`.
use crate::parser_types::{presult_dv, within, PResult, SResult};
use crate::primitives::{parse_ident, parse_punct, spec_parse_ident, spec_parse_punct};
use crate::tokens::TokenTree;
use vstd::prelude::*;

verus! {

/// A `.` and an identifier; yields the identifier's name.
pub open spec fn spec_parse_class_selector(s: Seq<TokenTree>) -> SResult<Seq<char>> {
    match spec_parse_punct(s, None, Some('.')) {
        Ok((n, _)) => match spec_parse_ident(s.skip(n as int)) {
            Ok((m, name)) => Ok((n + m, name)),
            Err(e) => Err(e),
        },
        Err(e) => Err(e),
    }
}

pub fn parse_class_selector(input: &[TokenTree]) -> (res: PResult<String>)
    ensures
        presult_dv(res) == spec_parse_class_selector(input@),
        within(res, input@.len()),
{
    let (n, _punct) = parse_punct(input, None, Some('.'))?;
    let rest = &input[n..input.len()];
    let (m, name) = parse_ident(rest)?;
    Ok((n + m, name))
}

} // verus!
