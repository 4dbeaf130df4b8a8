//! Combinators: repetition, choice, search, and the end-of-input check.
use crate::parser_types::{presult_dv, within, ErrorKind, PResult, SResult, TokenParser};
use crate::tokens::{adjacent, TokenTree};
use vstd::prelude::*;

verus! {

/// Succeeds, consuming nothing, exactly when no tokens are left.
pub open spec fn spec_ensure_consumed(s: Seq<TokenTree>) -> SResult<()> {
    if s.len() == 0 {
        Ok((0, ()))
    } else {
        Err(ErrorKind::TakeTill1)
    }
}

pub fn ensure_consumed(rest: &[TokenTree]) -> (res: PResult<()>)
    ensures
        presult_dv(res) == spec_ensure_consumed(rest@),
        within(res, rest@.len()),
{
    if rest.len() != 0 {
        Err(ErrorKind::TakeTill1)
    } else {
        Ok((0, ()))
    }
}

/// For each token but the last: is it adjacent to the token after it?
pub fn to_adjacency_vec(input: &[TokenTree]) -> (res: Vec<bool>)
    ensures
        res@.len() == if input@.len() == 0 { 0 } else { input@.len() - 1 },
        forall|i: int| 0 <= i < res@.len() ==> res@[i] == adjacent(input@[i], #[trigger] input@[i + 1]),
{
    let mut res: Vec<bool> = Vec::new();
    let mut i: usize = 0;
    while input.len() > 0 && i < input.len() - 1
        invariant
            i <= input@.len(),
            input@.len() > 0 ==> i < input@.len(),
            res@.len() == i,
            forall|j: int| 0 <= j < i ==> res@[j] == adjacent(input@[j], #[trigger] input@[j + 1]),
        decreases input@.len() - i,
    {
        let end = span_end(&input[i]);
        let start = span_start(&input[i + 1]);
        res.push(end == start);
        i = i + 1;
    }
    res
}

fn span_end(t: &TokenTree) -> (res: crate::tokens::LineColumn)
    ensures
        res == crate::tokens::span_of(*t).end,
{
    match t {
        TokenTree::Group { span, .. } => span.end,
        TokenTree::Ident { span, .. } => span.end,
        TokenTree::Punct { span, .. } => span.end,
        TokenTree::Literal { span, .. } => span.end,
    }
}

fn span_start(t: &TokenTree) -> (res: crate::tokens::LineColumn)
    ensures
        res == crate::tokens::span_of(*t).start,
{
    match t {
        TokenTree::Group { span, .. } => span.start,
        TokenTree::Ident { span, .. } => span.start,
        TokenTree::Punct { span, .. } => span.start,
        TokenTree::Literal { span, .. } => span.start,
    }
}

/// The matches of `p`, one after the other, from the start of `s` for as
/// long as `p` matches and consumes something.
pub open spec fn spec_many_rest<P: TokenParser>(p: P, s: Seq<TokenTree>) -> (nat, Seq<<P::Output as DeepView>::V>)
    decreases s.len(),
{
    match p.spec_parse(s) {
        Ok((n, v)) => {
            if 0 < n <= s.len() {
                let (m, vs) = spec_many_rest(p, s.skip(n as int));
                (n + m, seq![v] + vs)
            } else {
                (0, seq![])
            }
        },
        Err(_) => (0, seq![]),
    }
}

/// Zero or more matches of `p`; fails only when the first match consumes
/// nothing.
pub open spec fn spec_many_0<P: TokenParser>(p: P, s: Seq<TokenTree>) -> SResult<Seq<<P::Output as DeepView>::V>> {
    match p.spec_parse(s) {
        Ok((n, _)) => if n == 0 {
            Err(ErrorKind::Many0)
        } else {
            Ok(spec_many_rest(p, s))
        },
        Err(_) => Ok(spec_many_rest(p, s)),
    }
}

/// A repetition never consumes more tokens than it is given.
pub proof fn lemma_many_rest_within<P: TokenParser>(p: P, s: Seq<TokenTree>)
    ensures
        spec_many_rest(p, s).0 <= s.len(),
        spec_many_0(p, s) matches Ok((n, _)) ==> n <= s.len(),
    decreases s.len(),
{
    if let Ok((n, _)) = p.spec_parse(s) {
        if 0 < n <= s.len() {
            lemma_many_rest_within(p, s.skip(n as int));
        }
    }
}

/// Where `p` first matches consuming some tokens, and its next match does not
/// consume nothing, the repetition is that match followed by the repetition
/// after it.
pub proof fn lemma_many_0_step<P: TokenParser>(p: P, s: Seq<TokenTree>)
    requires
        p.spec_parse(s) matches Ok((n, _)) && 0 < n <= s.len()
            && !(p.spec_parse(s.skip(n as int)) matches Ok((k, _)) && k == 0),
    ensures
        p.spec_parse(s) matches Ok((n, v)) && spec_many_0(p, s) == (match spec_many_0(p, s.skip(n as int)) {
            Ok((m, vs)) => Ok((n + m, seq![v] + vs)),
            Err(e) => Err(e),
        }),
{
}

/// Where `p` does not match, the repetition matches nothing.
pub proof fn lemma_many_0_none<P: TokenParser>(p: P, s: Seq<TokenTree>)
    requires
        p.spec_parse(s) is Err,
    ensures
        spec_many_0(p, s) == Ok::<(nat, Seq<<P::Output as DeepView>::V>), ErrorKind>((0, seq![])),
{
}

proof fn lemma_skip_skip(s: Seq<TokenTree>, a: int, b: int)
    requires
        0 <= a,
        0 <= b,
        a + b <= s.len(),
    ensures
        s.skip(a).skip(b) == s.skip(a + b),
{
    assert(s.skip(a).skip(b) =~= s.skip(a + b));
}

pub fn many_0<P: TokenParser>(p: &P, input: &[TokenTree]) -> (res: PResult<Vec<P::Output>>)
    ensures
        presult_dv(res) == spec_many_0(*p, input@),
        within(res, input@.len()),
{
    let ghost s = input@;
    let mut acc: Vec<P::Output> = Vec::new();
    let mut pos: usize = 0;
    proof {
        assert(s.skip(0) =~= s);
    }
    loop
        invariant
            s == input@,
            pos <= s.len(),
            acc@.len() == 0 <==> pos == 0,
            pos > 0 ==> !(p.spec_parse(s) matches Ok((n, _)) && n == 0),
            pos > 0 ==> ({
                let (m, vs) = spec_many_rest(*p, s.skip(pos as int));
                spec_many_rest(*p, s) == ((pos + m) as nat, acc.deep_view() + vs)
            }),
        decreases s.len() - pos,
    {
        let rest = &input[pos..input.len()];
        assert(rest@ == s.skip(pos as int));
        match p.parse(rest) {
            Ok((n, v)) => {
                if n == 0 {
                    if pos > 0 {
                        proof {
                            assert(s == s.skip(0));
                        }
                        return Ok((pos, acc));
                    }
                    proof {
                        assert(s.skip(0) =~= s);
                    }
                    return Err(ErrorKind::Many0);
                }
                proof {
                    assert(s.skip(0) =~= s);
                }
                let ghost old_acc = acc.deep_view();
                let ghost vd = v.deep_view();
                proof {
                    lemma_skip_skip(s, pos as int, n as int);
                }
                acc.push(v);
                proof {
                    assert(acc.deep_view() =~= old_acc.push(vd));
                    let (m, vs) = spec_many_rest(*p, s.skip(pos + n));
                    assert(spec_many_rest(*p, s.skip(pos as int)) == ((n + m) as nat, seq![vd] + vs));
                    assert(old_acc + (seq![vd] + vs) =~= acc.deep_view() + vs);
                    if pos == 0 {
                        assert(old_acc =~= Seq::<<P::Output as DeepView>::V>::empty());
                        assert(acc.deep_view() + vs =~= seq![vd] + vs);
                    }
                }
                pos = pos + n;
            },
            Err(_) => {
                proof {
                    assert(s.skip(0) =~= s);
                    assert(spec_many_rest(*p, s.skip(pos as int)) == (0nat, Seq::<<P::Output as DeepView>::V>::empty()));
                    assert(acc.deep_view() =~= acc.deep_view() + seq![]);
                    if pos == 0 {
                        assert(acc.deep_view() =~= Seq::<<P::Output as DeepView>::V>::empty());
                    }
                }
                return Ok((pos, acc));
            },
        }
    }
}

/// Like `spec_many_rest`, but after each match it goes on only when the last
/// token consumed is adjacent to the token that follows it.
pub open spec fn spec_joint_rest<P: TokenParser>(p: P, s: Seq<TokenTree>) -> (nat, Seq<<P::Output as DeepView>::V>)
    decreases s.len(),
{
    match p.spec_parse(s) {
        Ok((n, v)) => {
            if 0 < n <= s.len() {
                if n < s.len() && adjacent(s[n - 1], s[n as int]) {
                    let (m, vs) = spec_joint_rest(p, s.skip(n as int));
                    (n + m, seq![v] + vs)
                } else {
                    (n, seq![v])
                }
            } else {
                (0, seq![])
            }
        },
        Err(_) => (0, seq![]),
    }
}

/// Like `many_0`, except it only continues to match while adjacent matches
/// have adjacent spans: it stops after a match whose last token does not end
/// where the next token starts.
pub open spec fn spec_many_0_joint<P: TokenParser>(p: P, s: Seq<TokenTree>) -> SResult<Seq<<P::Output as DeepView>::V>> {
    match p.spec_parse(s) {
        Ok((n, _)) => if n == 0 {
            Err(ErrorKind::Many0)
        } else {
            Ok(spec_joint_rest(p, s))
        },
        Err(_) => Ok(spec_joint_rest(p, s)),
    }
}

pub fn many_0_joint<P: TokenParser>(p: &P, input: &[TokenTree]) -> (res: PResult<Vec<P::Output>>)
    ensures
        presult_dv(res) == spec_many_0_joint(*p, input@),
        within(res, input@.len()),
{
    let ghost s = input@;
    let adjacency_vec = to_adjacency_vec(input);
    let mut acc: Vec<P::Output> = Vec::new();
    let mut pos: usize = 0;
    proof {
        assert(s.skip(0) =~= s);
    }
    loop
        invariant
            s == input@,
            pos <= s.len(),
            adjacency_vec@.len() == if s.len() == 0 { 0 } else { s.len() - 1 },
            forall|i: int| 0 <= i < adjacency_vec@.len() ==> adjacency_vec@[i] == adjacent(s[i], #[trigger] s[i + 1]),
            acc@.len() == 0 <==> pos == 0,
            pos > 0 ==> !(p.spec_parse(s) matches Ok((n, _)) && n == 0),
            pos > 0 ==> ({
                let (m, vs) = spec_joint_rest(*p, s.skip(pos as int));
                spec_joint_rest(*p, s) == ((pos + m) as nat, acc.deep_view() + vs)
            }),
        decreases s.len() - pos,
    {
        let rest = &input[pos..input.len()];
        assert(rest@ == s.skip(pos as int));
        match p.parse(rest) {
            Ok((n, v)) => {
                if n == 0 {
                    if pos > 0 {
                        return Ok((pos, acc));
                    }
                    proof {
                        assert(s.skip(0) =~= s);
                    }
                    return Err(ErrorKind::Many0);
                }
                proof {
                    assert(s.skip(0) =~= s);
                }
                let ghost old_acc = acc.deep_view();
                let ghost vd = v.deep_view();
                let ghost old_pos = pos;
                proof {
                    lemma_skip_skip(s, pos as int, n as int);
                }
                acc.push(v);
                pos = pos + n;
                proof {
                    assert(acc.deep_view() =~= old_acc.push(vd));
                }
                let go_on = pos < input.len() && adjacency_vec[pos - 1];
                proof {
                    let t = s.skip(old_pos as int);
                    if pos < s.len() {
                        assert(t[n - 1] == s[pos - 1]);
                        assert(t[n as int] == s[pos as int]);
                        assert(adjacency_vec@[pos - 1] == adjacent(s[pos - 1], s[pos - 1 + 1]));
                    }
                }
                if !go_on {
                    proof {
                        assert(spec_joint_rest(*p, s.skip(old_pos as int)) == (n as nat, seq![vd]));
                        assert(acc.deep_view() =~= old_acc + seq![vd]);
                        if old_pos == 0 {
                            assert(old_acc =~= Seq::<<P::Output as DeepView>::V>::empty());
                            assert(acc.deep_view() =~= seq![vd]);
                        }
                    }
                    return Ok((pos, acc));
                }
                proof {
                    let (m, vs) = spec_joint_rest(*p, s.skip(pos as int));
                    assert(spec_joint_rest(*p, s.skip(old_pos as int)) == ((n + m) as nat, seq![vd] + vs));
                    assert(old_acc + (seq![vd] + vs) =~= acc.deep_view() + vs);
                    if old_pos == 0 {
                        assert(old_acc =~= Seq::<<P::Output as DeepView>::V>::empty());
                        assert(acc.deep_view() + vs =~= seq![vd] + vs);
                    }
                }
            },
            Err(_) => {
                proof {
                    assert(s.skip(0) =~= s);
                    assert(spec_joint_rest(*p, s.skip(pos as int)) == (0nat, Seq::<<P::Output as DeepView>::V>::empty()));
                    assert(acc.deep_view() =~= acc.deep_view() + seq![]);
                    if pos == 0 {
                        assert(acc.deep_view() =~= Seq::<<P::Output as DeepView>::V>::empty());
                    }
                }
                return Ok((pos, acc));
            },
        }
    }
}

/// The first parser's outcome if it matches, else the second's.
pub open spec fn spec_alt<P: TokenParser, Q: TokenParser<Output = P::Output>>(p: P, q: Q, s: Seq<TokenTree>) -> SResult<<P::Output as DeepView>::V> {
    match p.spec_parse(s) {
        Ok(r) => Ok(r),
        Err(_) => q.spec_parse(s),
    }
}

pub fn alt<P: TokenParser, Q: TokenParser<Output = P::Output>>(p: &P, q: &Q, input: &[TokenTree]) -> (res: PResult<P::Output>)
    ensures
        presult_dv(res) == spec_alt(*p, *q, input@),
        within(res, input@.len()),
{
    match p.parse(input) {
        Ok(r) => Ok(r),
        Err(_) => q.parse(input),
    }
}

/// Searches for the first position at which `p` matches; yields the number
/// of tokens skipped to get there and `p`'s value, having consumed the
/// skipped tokens and `p`'s match.
pub open spec fn spec_take_until_and_match<P: TokenParser>(p: P, s: Seq<TokenTree>) -> SResult<(nat, <P::Output as DeepView>::V)>
    decreases s.len(),
{
    if s.len() == 0 {
        Err(ErrorKind::Many0)
    } else {
        match p.spec_parse(s) {
            Ok((n, v)) => Ok((n, (0nat, v))),
            Err(_) => match spec_take_until_and_match(p, s.drop_first()) {
                Ok((m, (k, v))) => Ok((m + 1, (k + 1, v))),
                Err(e) => Err(e),
            },
        }
    }
}

pub fn take_until_and_match<P: TokenParser>(predicate: &P, input: &[TokenTree]) -> (res: PResult<(usize, P::Output)>)
    ensures
        spec_take_until_and_match(*predicate, input@) == (match res {
            Ok((n, (k, t))) => Ok((n as nat, (k as nat, t.deep_view()))),
            Err(e) => Err(e),
        }),
        within(res, input@.len()),
        res matches Ok((n, (k, _))) ==> k <= n,
{
    let ghost s = input@;
    let mut skipped: usize = 0;
    proof {
        assert(s.skip(0) =~= s);
    }
    loop
        invariant
            s == input@,
            skipped <= s.len(),
            spec_take_until_and_match(*predicate, s) == (match spec_take_until_and_match(*predicate, s.skip(skipped as int)) {
                Ok((m, (k, v))) => Ok(((m + skipped) as nat, ((k + skipped) as nat, v))),
                Err(e) => Err(e),
            }),
        decreases s.len() - skipped,
    {
        if skipped == input.len() {
            return Err(ErrorKind::Many0);
        }
        let rest = &input[skipped..input.len()];
        assert(rest@ == s.skip(skipped as int));
        match predicate.parse(rest) {
            Ok((n, t)) => {
                return Ok((skipped + n, (skipped, t)));
            },
            Err(_) => {
                proof {
                    assert(s.skip(skipped as int).drop_first() =~= s.skip(skipped + 1));
                }
                skipped = skipped + 1;
            },
        }
    }
}

} // verus!
