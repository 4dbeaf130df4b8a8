//! Joining pieces of text.
use vstd::prelude::*;

verus! {

/// The pieces one after the other, with `sep` between each two of them.
pub open spec fn join(parts: Seq<Seq<char>>, sep: Seq<char>) -> Seq<char>
    decreases parts.len(),
{
    if parts.len() == 0 {
        Seq::empty()
    } else if parts.len() == 1 {
        parts[0]
    } else {
        join(parts.drop_last(), sep) + sep + parts.last()
    }
}

/// Joins strings with a separator, as `[String]::join` does.
pub fn join_strings(parts: &Vec<String>, sep: &str) -> (res: String)
    ensures
        res@ == join(parts.deep_view(), sep@),
{
    let ghost pieces = parts.deep_view();
    let mut res = String::new();
    let mut i: usize = 0;
    while i < parts.len()
        invariant
            pieces == parts.deep_view(),
            i <= parts@.len(),
            res@ == join(pieces.take(i as int), sep@),
        decreases parts@.len() - i,
    {
        if i > 0 {
            res.append(sep);
        }
        res.append(parts[i].as_str());
        proof {
            let next = pieces.take(i + 1);
            assert(next.drop_last() =~= pieces.take(i as int));
            assert(next.last() == parts@[i as int]@);
            if i == 0 {
                assert(res@ =~= next[0]);
            }
        }
        i = i + 1;
    }
    proof {
        assert(pieces.take(i as int) =~= pieces);
    }
    res
}

/// Does `piece` stand in `text` from position `i` on?
pub open spec fn occurs_at(text: Seq<char>, piece: Seq<char>, i: int) -> bool {
    0 <= i && i + piece.len() <= text.len() && text.subrange(i, i + piece.len()) == piece
}

/// Does `text` hold `piece` somewhere, as a run of consecutive characters?
pub open spec fn text_contains(text: Seq<char>, piece: Seq<char>) -> bool {
    exists|i: int| #[trigger] occurs_at(text, piece, i)
}

/// A text holds each of the pieces it is made of.
pub proof fn lemma_contains_part(a: Seq<char>, b: Seq<char>, c: Seq<char>)
    ensures
        text_contains(a + b + c, b),
        text_contains(a + b, a),
        text_contains(a + b, b),
{
    assert((a + b + c).subrange(a.len() as int, (a.len() + b.len()) as int) =~= b);
    assert(occurs_at(a + b + c, b, a.len() as int));
    assert((a + b).subrange(0, a.len() as int) =~= a);
    assert(occurs_at(a + b, a, 0));
    assert((a + b).subrange(a.len() as int, (a.len() + b.len()) as int) =~= b);
    assert(occurs_at(a + b, b, a.len() as int));
}

/// What a piece of a text holds, the text holds too.
pub proof fn lemma_contains_trans(x: Seq<char>, y: Seq<char>, z: Seq<char>)
    requires
        text_contains(x, y),
        text_contains(y, z),
    ensures
        text_contains(x, z),
{
    let i = choose|i: int| #[trigger] occurs_at(x, y, i);
    let j = choose|j: int| #[trigger] occurs_at(y, z, j);
    assert(x.subrange(i + j, i + j + z.len()) =~= y.subrange(j, j + z.len()));
    assert(occurs_at(x, z, i + j));
}

/// Pieces joined with nothing between them hold each piece.
pub proof fn lemma_join_contains(parts: Seq<Seq<char>>, i: int)
    requires
        0 <= i < parts.len(),
    ensures
        text_contains(join(parts, Seq::empty()), parts[i]),
    decreases parts.len(),
{
    if parts.len() == 1 {
        assert(join(parts, Seq::empty()).subrange(0, parts[0].len() as int) =~= parts[0]);
        assert(occurs_at(join(parts, Seq::empty()), parts[0], 0));
    } else {
        let init = parts.drop_last();
        assert(join(parts, Seq::empty()) =~= join(init, Seq::empty()) + parts.last());
        lemma_contains_part(join(init, Seq::empty()), parts.last(), Seq::empty());
        if i < parts.len() - 1 {
            lemma_join_contains(init, i);
            lemma_contains_trans(join(parts, Seq::empty()), join(init, Seq::empty()), parts[i]);
        }
    }
}

} // verus!
