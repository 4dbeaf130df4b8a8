//! What the `css!` and `static_css!` macros compute: parse the style sheet,
//! give every class and id a scoped name, and write the style sheet out
//! under those names.
use crate::names::{
    generated_name, has_key, into_hashmap, keys, lemma_into_hashmap, lemma_generated_names_distinct, rule_set_has, NameKind,
    NameMap,
};
use crate::rule::{parse_rule_set, spec_parse_rule, spec_parse_rule_set};
use crate::stylesheet::{rule_set_css, rule_set_names_mapped, NameSeq};
use crate::tokens::TokenTree;
use crate::types::{relation_text, spec_relation_from, SpecRule};
use crate::util::ensure_consumed;
use vstd::prelude::*;

verus! {

/// What the macros build their output from.
#[derive(Debug)]
pub struct ScopedCss {
    /// Each class name with its scoped name.
    pub classes: NameMap,
    /// Each id name with its scoped name.
    pub ids: NameMap,
    /// The style sheet, under the scoped names.
    pub css: String,
}

/// Why a macro input was refused.
#[derive(Debug, Clone, Copy, PartialEq, Eq, Structural)]
pub enum CssError {
    /// Something that is not a rule follows the rules.
    LeftOverTokens,
}

/// The scoped names of the names a style sheet uses: each used name once,
/// paired with `<keyword>_<prefix>_<i>` at position `i`.
pub open spec fn scoped_names(
    map: NameSeq,
    rules: Seq<SpecRule>,
    kind: NameKind,
    keyword: Seq<char>,
    prefix: Seq<char>,
) -> bool {
    &&& keys(map).no_duplicates()
    &&& forall|n: Seq<char>| #[trigger] has_key(map, n) <==> rule_set_has(rules, kind, n)
    &&& forall|i: int| 0 <= i < map.len() ==> (#[trigger] map[i]).1 == generated_name(keyword, prefix, i as nat)
}

/// A rule always consumes at least its brace group.
pub proof fn lemma_rule_consumes(s: Seq<TokenTree>)
    ensures
        spec_parse_rule(s) matches Ok((n, _)) ==> n > 0,
{
}

/// Parsing a rule set never fails: it reads as many rules as it can.
pub proof fn lemma_parse_rule_set_total(s: Seq<TokenTree>)
    ensures
        spec_parse_rule_set(s) is Ok,
{
    lemma_rule_consumes(s);
}

/// The maps built from the names a rule set uses cover every name it uses,
/// so the style sheet can always be written under them.
pub proof fn lemma_generated_maps_cover(
    rules: Seq<SpecRule>,
    class_names: Seq<Seq<char>>,
    id_names: Seq<Seq<char>>,
    classes: NameSeq,
    ids: NameSeq,
)
    requires
        forall|n: Seq<char>| #[trigger] class_names.contains(n) <==> rule_set_has(rules, NameKind::Class, n),
        forall|n: Seq<char>| #[trigger] id_names.contains(n) <==> rule_set_has(rules, NameKind::Id, n),
        classes.len() == class_names.len(),
        ids.len() == id_names.len(),
        forall|i: int| 0 <= i < classes.len() ==> (#[trigger] classes[i]).0 == class_names[i],
        forall|i: int| 0 <= i < ids.len() ==> (#[trigger] ids[i]).0 == id_names[i],
    ensures
        rule_set_names_mapped(rules, classes, ids),
        forall|n: Seq<char>| #[trigger] has_key(classes, n) <==> rule_set_has(rules, NameKind::Class, n),
        forall|n: Seq<char>| #[trigger] has_key(ids, n) <==> rule_set_has(rules, NameKind::Id, n),
{
    assert forall|n: Seq<char>| #[trigger] has_key(classes, n) <==> rule_set_has(rules, NameKind::Class, n) by {
        if rule_set_has(rules, NameKind::Class, n) {
            assert(class_names.contains(n));
            let i = choose|i: int| 0 <= i < class_names.len() && class_names[i] == n;
            assert(classes[i].0 == n);
        }
        if has_key(classes, n) {
            let i = choose|i: int| 0 <= i < classes.len() && (#[trigger] classes[i]).0 == n;
            assert(class_names[i] == n);
            assert(class_names.contains(n));
        }
    }
    assert forall|n: Seq<char>| #[trigger] has_key(ids, n) <==> rule_set_has(rules, NameKind::Id, n) by {
        if rule_set_has(rules, NameKind::Id, n) {
            assert(id_names.contains(n));
            let i = choose|i: int| 0 <= i < id_names.len() && id_names[i] == n;
            assert(ids[i].0 == n);
        }
        if has_key(ids, n) {
            let i = choose|i: int| 0 <= i < ids.len() && (#[trigger] ids[i]).0 == n;
            assert(id_names[i] == n);
            assert(id_names.contains(n));
        }
    }
}

/// No two names get the same scoped name: names of one kind differ in their
/// position, and class names and id names differ in their first letter.
pub proof fn lemma_scoped_names_distinct(prefix: Seq<char>, i: nat, j: nat)
    ensures
        i != j ==> generated_name(seq!['c', 'l'], prefix, i) != generated_name(seq!['c', 'l'], prefix, j),
        i != j ==> generated_name(seq!['i', 'd'], prefix, i) != generated_name(seq!['i', 'd'], prefix, j),
        generated_name(seq!['c', 'l'], prefix, i) != generated_name(seq!['i', 'd'], prefix, j),
{
    if i != j {
        lemma_generated_names_distinct(seq!['c', 'l'], prefix, i, j);
        lemma_generated_names_distinct(seq!['i', 'd'], prefix, i, j);
    }
    assert(generated_name(seq!['c', 'l'], prefix, i)[0] == 'c');
    assert(generated_name(seq!['i', 'd'], prefix, j)[0] == 'i');
}

/// In what `scope_css` builds, no two names share a scoped name: not two
/// classes, not two ids, not a class and an id.
pub proof fn lemma_scoped_css_names_distinct(
    classes: NameSeq,
    ids: NameSeq,
    rules: Seq<SpecRule>,
    prefix: Seq<char>,
)
    requires
        scoped_names(classes, rules, NameKind::Class, seq!['c', 'l'], prefix),
        scoped_names(ids, rules, NameKind::Id, seq!['i', 'd'], prefix),
    ensures
        forall|i: int, j: int| 0 <= i < j < classes.len() ==> (#[trigger] classes[i]).1 != (#[trigger] classes[j]).1,
        forall|i: int, j: int| 0 <= i < j < ids.len() ==> (#[trigger] ids[i]).1 != (#[trigger] ids[j]).1,
        forall|i: int, j: int| 0 <= i < classes.len() && 0 <= j < ids.len() ==> (#[trigger] classes[i]).1 != (#[trigger] ids[j]).1,
{
    assert forall|i: int, j: int| 0 <= i < j < classes.len() implies (#[trigger] classes[i]).1 != (#[trigger] classes[j]).1 by {
        lemma_scoped_names_distinct(prefix, i as nat, j as nat);
    }
    assert forall|i: int, j: int| 0 <= i < j < ids.len() implies (#[trigger] ids[i]).1 != (#[trigger] ids[j]).1 by {
        lemma_scoped_names_distinct(prefix, i as nat, j as nat);
    }
    assert forall|i: int, j: int| 0 <= i < classes.len() && 0 <= j < ids.len() implies (#[trigger] classes[i]).1 != (#[trigger] ids[j]).1 by {
        lemma_scoped_names_distinct(prefix, i as nat, j as nat);
    }
}

/// An attribute relation reads back as it was written: its symbol, then
/// its value.
pub proof fn lemma_relation_round_trip(symbol: Seq<char>, value: Seq<char>)
    requires
        spec_relation_from(symbol, value) is Some,
    ensures
        relation_text(spec_relation_from(symbol, value).unwrap()) == symbol + value,
{
}

/// Parses a style sheet and scopes its names with `prefix`: the compute part
/// of the `css!` and `static_css!` macros.
///
/// Fails exactly when tokens are left after the last rule.
pub fn scope_css(input: &[TokenTree], prefix: &str) -> (res: Result<ScopedCss, CssError>)
    ensures
        match spec_parse_rule_set(input@) {
            Ok((n, rules)) => if n < input@.len() {
                res == Err::<ScopedCss, CssError>(CssError::LeftOverTokens)
            } else {
                res matches Ok(out) && {
                    &&& scoped_names(out.classes.deep_view(), rules, NameKind::Class, seq!['c', 'l'], prefix@)
                    &&& scoped_names(out.ids.deep_view(), rules, NameKind::Id, seq!['i', 'd'], prefix@)
                    &&& out.css@ == rule_set_css(rules, out.classes.deep_view(), out.ids.deep_view())
                }
            },
            Err(_) => false,
        },
{
    proof {
        lemma_parse_rule_set_total(input@);
    }
    let (n, rule_set) = match parse_rule_set(input) {
        Ok(r) => r,
        Err(_) => {
            return Err(CssError::LeftOverTokens);
        },
    };
    let rest = &input[n..input.len()];
    if ensure_consumed(rest).is_err() {
        return Err(CssError::LeftOverTokens);
    }
    let (class_names, id_names) = rule_set.classes_and_ids();
    proof {
        reveal_strlit("cl");
        reveal_strlit("id");
        assert("cl"@ =~= seq!['c', 'l']);
        assert("id"@ =~= seq!['i', 'd']);
    }
    let classes = into_hashmap(&class_names, prefix, "cl");
    let ids = into_hashmap(&id_names, prefix, "id");
    proof {
        lemma_into_hashmap(class_names.deep_view(), seq!['c', 'l'], prefix@);
        lemma_into_hashmap(id_names.deep_view(), seq!['i', 'd'], prefix@);
        lemma_generated_maps_cover(
            rule_set.deep_view(),
            class_names.deep_view(),
            id_names.deep_view(),
            classes.deep_view(),
            ids.deep_view(),
        );
    }
    let css = rule_set.as_css_string(&classes, &ids);
    Ok(ScopedCss { classes, ids, css })
}

} // verus!
