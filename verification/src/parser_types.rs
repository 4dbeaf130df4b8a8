//! The result type shared by every parser.
use vstd::prelude::*;

verus! {

/// Why a parser did not match.
///
/// Every failure is an ordinary miss: a choice that meets one tries its next
/// alternative, a repetition that meets one stops. Running out of tokens is
/// such a miss too (`Eof`): a macro's input is always complete, so there is
/// nothing more to wait for.
#[derive(Clone, Copy, Debug, PartialEq, Eq, Structural)]
pub enum ErrorKind {
    /// The first token is not of the kind the parser looks for.
    TakeTill1,
    /// A repetition matched nothing at all, or a search ran off the end.
    Many0,
    /// There are no tokens left.
    Eof,
}

/// A parser's outcome: the number of tokens it consumed and what it built.
pub type PResult<T> = Result<(usize, T), ErrorKind>;

/// The mathematical counterpart of `PResult`.
pub type SResult<V> = Result<(nat, V), ErrorKind>;

/// The model of an outcome: the consumed count as a number, the value by its
/// deep view.
pub open spec fn presult_dv<T: DeepView>(r: PResult<T>) -> SResult<T::V> {
    match r {
        Ok((n, v)) => Ok((n as nat, v.deep_view())),
        Err(e) => Err(e),
    }
}

/// The model of an outcome whose value is taken by its (shallow) view.
pub open spec fn presult_view<T: View>(r: PResult<T>) -> SResult<T::V> {
    match r {
        Ok((n, v)) => Ok((n as nat, v@)),
        Err(e) => Err(e),
    }
}

/// An outcome that consumed no more than the tokens it was given.
pub open spec fn within<T>(r: PResult<T>, len: nat) -> bool {
    match r {
        Ok((n, _)) => n <= len,
        Err(_) => true,
    }
}

/// A parser over token trees, with its meaning as a function on sequences.
pub trait TokenParser {
    type Output: DeepView;

    /// What the parser yields on a sequence of tokens.
    spec fn spec_parse(&self, s: Seq<crate::tokens::TokenTree>) -> SResult<<Self::Output as DeepView>::V>;

    fn parse(&self, input: &[crate::tokens::TokenTree]) -> (res: PResult<Self::Output>)
        ensures
            presult_dv(res) == self.spec_parse(input@),
            within(res, input@.len()),
    ;
}

} // verus!
