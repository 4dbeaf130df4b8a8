//! Properties, rules and rule sets.
use crate::parser_types::{presult_dv, within, ErrorKind, PResult, SResult, TokenParser};
use crate::primitives::{
    parse_group_with_delimiter, parse_ident, parse_punct, spec_parse_group_with_delimiter,
    spec_parse_ident, spec_parse_punct, AnyToken, PunctParser,
};
use crate::selector::{parse_nested_selector_list, spec_parse_nested_selector_list};
use crate::text::{join, join_strings};
use crate::tokens::{adjacent, char_to_string, lemma_group_size, lemma_skip_size, stream_size, token_text, Delimiter, TokenTree};
use crate::names::{has_key, insert_pair, keys, lemma_props_insert_keys, lemma_props_insert_lookup, lookup, props_insert};
use crate::types::{PropertyBlock, Rule, RuleOrProperty, RuleSet, SpecRule, SpecRuleOrProperty, lemma_nested_rules_dv};
use crate::util::{
    ensure_consumed, lemma_many_0_none, lemma_many_0_step, many_0, many_0_joint, spec_ensure_consumed, spec_joint_rest, spec_many_0, spec_many_0_joint, spec_many_rest,
    spec_take_until_and_match, take_until_and_match,
};
use vstd::prelude::*;

verus! {

/* -------- PROPERTIES -------- */

/// One piece of a property name: an identifier or a `-`.
pub open spec fn spec_property_name_part(s: Seq<TokenTree>) -> SResult<Seq<char>> {
    match spec_parse_ident(s) {
        Ok(r) => Ok(r),
        Err(_) => match spec_parse_punct(s, None, Some('-')) {
            Ok((n, c)) => Ok((n, seq![c])),
            Err(e) => Err(e),
        },
    }
}

/// Parser value for one piece of a property name.
pub struct PropertyNamePart;

impl TokenParser for PropertyNamePart {
    type Output = String;

    open spec fn spec_parse(&self, s: Seq<TokenTree>) -> SResult<Seq<char>> {
        spec_property_name_part(s)
    }

    fn parse(&self, input: &[TokenTree]) -> (res: PResult<String>) {
        match parse_ident(input) {
            Ok(r) => Ok(r),
            Err(_) => {
                let (n, c) = parse_punct(input, None, Some('-'))?;
                Ok((n, char_to_string(c)))
            },
        }
    }
}

/// Tokens that follow one another without a gap, as the texts of the tokens.
pub struct ValueGroup;

impl TokenParser for ValueGroup {
    type Output = Vec<String>;

    open spec fn spec_parse(&self, s: Seq<TokenTree>) -> SResult<Seq<Seq<char>>> {
        spec_many_0_joint(AnyToken, s)
    }

    fn parse(&self, input: &[TokenTree]) -> (res: PResult<Vec<String>>) {
        many_0_joint(&AnyToken, input)
    }
}

/// The `;` that ends a property.
pub open spec fn semicolon() -> PunctParser {
    PunctParser { spacing: None, ch: Some(';') }
}

/// A property: its name (pieces written without gaps, like
/// `background-color`), a `:`, and its value up to the first `;`.
///
/// The value is written as its gap-free groups of tokens, separated by one
/// space each (`1px solid red`).
pub open spec fn spec_parse_property(s: Seq<TokenTree>) -> SResult<(Seq<char>, Seq<char>)> {
    match spec_many_0_joint(PropertyNamePart, s) {
        Ok((n1, parts)) => {
            let s1 = s.skip(n1 as int);
            match spec_parse_punct(s1, None, Some(':')) {
                Ok((n2, _)) => {
                    let s2 = s1.skip(n2 as int);
                    match spec_take_until_and_match(semicolon(), s2) {
                        Ok((n3, (k, _))) => match spec_many_0(ValueGroup, s2.take(k as int)) {
                            Ok((_, groups)) => Ok((
                                n1 + n2 + n3,
                                (
                                    join(parts, Seq::empty()),
                                    value_text(groups),
                                ),
                            )),
                            Err(e) => Err(e),
                        },
                        Err(e) => Err(e),
                    }
                },
                Err(e) => Err(e),
            }
        },
        Err(e) => Err(e),
    }
}

/// The text of a property value: each group's texts run together, the groups
/// separated by single spaces.
pub open spec fn value_text(groups: Seq<Seq<Seq<char>>>) -> Seq<char> {
    join(groups.map_values(|g: Seq<Seq<char>>| join(g, Seq::empty())), seq![' '])
}

/// The texts of tokens, in order.
pub open spec fn token_texts(s: Seq<TokenTree>) -> Seq<Seq<char>> {
    s.map_values(|t: TokenTree| token_text(t))
}

/// How many tokens, from the first, follow one another with no gap between
/// them.
pub open spec fn run_len(s: Seq<TokenTree>) -> nat
    decreases s.len(),
{
    if s.len() >= 2 && adjacent(s[0], s[1]) {
        1 + run_len(s.drop_first())
    } else {
        1
    }
}

/// A stream cut at each gap: its longest runs of tokens with no gap inside.
pub open spec fn gap_free_runs(s: Seq<TokenTree>) -> Seq<Seq<TokenTree>>
    decreases s.len(),
{
    let k = run_len(s);
    if s.len() > 0 && 0 < k <= s.len() {
        seq![s.take(k as int)] + gap_free_runs(s.skip(k as int))
    } else {
        Seq::empty()
    }
}

/// The texts of each run's tokens.
pub open spec fn run_texts(runs: Seq<Seq<TokenTree>>) -> Seq<Seq<Seq<char>>> {
    runs.map_values(|run: Seq<TokenTree>| token_texts(run))
}

/// A run of gap-free tokens read from a non-empty stream takes at least its
/// first token, and holds the full texts of the tokens it takes.
proof fn lemma_joint_run(s: Seq<TokenTree>)
    requires
        s.len() > 0,
    ensures
        ({
            let (n, texts) = spec_joint_rest(AnyToken, s);
            1 <= n <= s.len() && n == run_len(s) && texts == token_texts(s.take(n as int))
        }),
    decreases s.len(),
{
    if 1 < s.len() && adjacent(s[0], s[1]) {
        let t = s.skip(1);
        assert(t =~= s.drop_first());
        assert(t[0] == s[1]);
        lemma_joint_run(t);
        let (m, texts) = spec_joint_rest(AnyToken, t);
        assert(token_texts(s.take((1 + m) as int)) =~= seq![token_text(s[0])] + token_texts(t.take(m as int)));
    } else {
        assert(token_texts(s.take(1)) =~= seq![token_text(s[0])]);
    }
}

proof fn lemma_value_groups_rest(s: Seq<TokenTree>)
    ensures
        ({
            let (n, groups) = spec_many_rest(ValueGroup, s);
            &&& n == s.len()
            &&& groups == run_texts(gap_free_runs(s))
            &&& groups.flatten() == token_texts(s)
            &&& forall|i: int| 0 <= i < groups.len() ==> (#[trigger] groups[i]).len() > 0
        }),
    decreases s.len(),
{
    if s.len() == 0 {
        assert(token_texts(s) =~= Seq::<Seq<char>>::empty());
    } else {
        lemma_joint_run(s);
        let (n, texts) = spec_joint_rest(AnyToken, s);
        let t = s.skip(n as int);
        lemma_value_groups_rest(t);
        let (m, groups) = spec_many_rest(ValueGroup, t);
        let all = seq![texts] + groups;
        assert(all.drop_first() =~= groups);
        assert(gap_free_runs(s) == seq![s.take(n as int)] + gap_free_runs(t));
        assert(run_texts(gap_free_runs(s)) =~= seq![token_texts(s.take(n as int))] + run_texts(gap_free_runs(t)));
        assert(token_texts(s) =~= token_texts(s.take(n as int)) + token_texts(t));
        assert forall|i: int| 0 <= i < all.len() implies (#[trigger] all[i]).len() > 0 by {
            if i > 0 {
                assert(all[i] == groups[i - 1]);
            }
        }
    }
}

/// Reading a property value group by group keeps every token: the groups
/// take all the tokens, each group is a longest gap-free run of them, and
/// together they hold each token's full text in order (a group token's text
/// is its delimiters and contents).
pub proof fn lemma_value_groups(s: Seq<TokenTree>)
    ensures
        s.len() > 0 ==> (spec_many_0(ValueGroup, s) matches Ok((n, groups))
            && n == s.len()
            && groups == run_texts(gap_free_runs(s))
            && groups.flatten() == token_texts(s)
            && forall|i: int| 0 <= i < groups.len() ==> (#[trigger] groups[i]).len() > 0),
{
    lemma_value_groups_rest(s);
    if s.len() > 0 {
        lemma_joint_run(s);
    }
}

/// Can the token stand in a property name: is it an identifier or a `-`?
pub open spec fn is_name_token(t: TokenTree) -> bool {
    t is Ident || t matches TokenTree::Punct { ch: '-', .. }
}

/// A run of gap-free name pieces takes identifiers and dashes only, and holds
/// the full texts of the tokens it takes.
proof fn lemma_name_run(s: Seq<TokenTree>)
    ensures
        ({
            let (n, texts) = spec_joint_rest(PropertyNamePart, s);
            &&& n <= s.len()
            &&& texts == token_texts(s.take(n as int))
            &&& forall|i: int| 0 <= i < n ==> is_name_token(#[trigger] s[i])
        }),
    decreases s.len(),
{
    if let Ok((n, v)) = spec_property_name_part(s) {
        assert(n == 1 && v == token_text(s[0]) && is_name_token(s[0]));
        if 1 < s.len() && adjacent(s[0], s[1]) {
            let t = s.skip(1);
            lemma_name_run(t);
            let (m, texts) = spec_joint_rest(PropertyNamePart, t);
            assert(token_texts(s.take((1 + m) as int)) =~= seq![token_text(s[0])] + token_texts(t.take(m as int)));
            assert forall|i: int| 0 <= i < 1 + m implies is_name_token(#[trigger] s[i]) by {
                if i > 0 {
                    assert(s[i] == t[i - 1]);
                }
            }
        } else {
            assert(token_texts(s.take(1)) =~= seq![token_text(s[0])]);
        }
    } else {
        assert(token_texts(s.take(0)) =~= Seq::<Seq<char>>::empty());
    }
}

/// The tokens of a property's name: the gap-free identifiers and dashes it
/// starts with.
pub open spec fn property_name_tokens(s: Seq<TokenTree>) -> Seq<TokenTree> {
    match spec_many_0_joint(PropertyNamePart, s) {
        Ok((n, _)) => s.take(n as int),
        Err(_) => Seq::empty(),
    }
}

/// A parsed property's name is the texts of its name tokens run together,
/// each token an identifier or a `-` (`background-color`), and a `:`
/// follows them.
pub proof fn lemma_property_name_text(s: Seq<TokenTree>)
    ensures
        spec_parse_property(s) matches Ok((_, (name, _))) ==> {
            let tokens = property_name_tokens(s);
            &&& name == join(token_texts(tokens), Seq::empty())
            &&& forall|i: int| 0 <= i < tokens.len() ==> is_name_token(#[trigger] tokens[i])
            &&& tokens.len() < s.len() && s[tokens.len() as int] matches TokenTree::Punct { ch: ':', .. }
        },
{
    lemma_name_run(s);
    if let Ok((n, _)) = spec_many_0_joint(PropertyNamePart, s) {
        let tokens = s.take(n as int);
        assert forall|i: int| 0 <= i < tokens.len() implies is_name_token(#[trigger] tokens[i]) by {
            assert(tokens[i] == s[i]);
        }
        if spec_parse_property(s) is Ok {
            assert(s.skip(n as int)[0] == s[n as int]);
        }
    }
}

/// The tokens of a property's value: those between its colon and the first
/// `;` after it.
pub open spec fn property_value_tokens(s: Seq<TokenTree>) -> Seq<TokenTree> {
    match spec_many_0_joint(PropertyNamePart, s) {
        Ok((n1, _)) => {
            let s1 = s.skip(n1 as int);
            match spec_parse_punct(s1, None, Some(':')) {
                Ok((n2, _)) => {
                    let s2 = s1.skip(n2 as int);
                    match spec_take_until_and_match(semicolon(), s2) {
                        Ok((_, (k, _))) => s2.take(k as int),
                        Err(_) => Seq::empty(),
                    }
                },
                Err(_) => Seq::empty(),
            }
        },
        Err(_) => Seq::empty(),
    }
}

/// A parsed property's value holds every token between its colon and its
/// semicolon, in order and whole (a parenthesised group as its delimiters and
/// contents): the tokens fall into their longest runs with no gap inside,
/// and the value is the runs' texts, each run's run together, the runs
/// joined by single spaces.
pub proof fn lemma_property_value_text(s: Seq<TokenTree>)
    ensures
        spec_parse_property(s) matches Ok((_, (_, value)))
            ==> value == value_text(run_texts(gap_free_runs(property_value_tokens(s)))),
        spec_parse_property(s) matches Ok((_, (_, value))) ==> exists|groups: Seq<Seq<Seq<char>>>|
            #![trigger groups.flatten()]
            groups.flatten() == token_texts(property_value_tokens(s))
            && value == value_text(groups)
            && forall|i: int| 0 <= i < groups.len() ==> (#[trigger] groups[i]).len() > 0,
{
    let v = property_value_tokens(s);
    lemma_value_groups(v);
    if let Ok((_, (_, value))) = spec_parse_property(s) {
        if v.len() == 0 {
            assert(spec_many_0(ValueGroup, v) is Err);
        }
        if let Ok((_, groups)) = spec_many_0(ValueGroup, v) {
            assert(groups.flatten() == token_texts(v));
        }
    }
}

fn join_value_groups(grouped_property_values: &Vec<Vec<String>>) -> (res: String)
    ensures
        res@ == value_text(grouped_property_values.deep_view()),
{
    let ghost groups = grouped_property_values.deep_view();
    let mut texts: Vec<String> = Vec::new();
    let mut i: usize = 0;
    proof {
        assert(texts.deep_view() =~= groups.take(0).map_values(|g: Seq<Seq<char>>| join(g, Seq::empty())));
    }
    while i < grouped_property_values.len()
        invariant
            groups == grouped_property_values.deep_view(),
            i <= groups.len(),
            texts.deep_view() == groups.take(i as int).map_values(|g: Seq<Seq<char>>| join(g, Seq::empty())),
        decreases groups.len() - i,
    {
        proof {
            reveal_strlit("");
            assert(""@ =~= Seq::<char>::empty());
        }
        let text = join_strings(&grouped_property_values[i], "");
        let ghost before = texts.deep_view();
        texts.push(text);
        proof {
            assert(groups[i as int] == grouped_property_values@[i as int].deep_view());
            assert(texts.deep_view() =~= before.push(text@));
            assert(groups.take(i + 1).map_values(|g: Seq<Seq<char>>| join(g, Seq::empty()))
                =~= before.push(join(groups[i as int], Seq::empty())));
        }
        i = i + 1;
    }
    proof {
        assert(groups.take(i as int) =~= groups);
        reveal_strlit(" ");
        assert(" "@ =~= seq![' ']);
    }
    join_strings(&texts, " ")
}

fn parse_property(input: &[TokenTree]) -> (res: PResult<(String, String)>)
    ensures
        presult_dv(res) == spec_parse_property(input@),
        within(res, input@.len()),
{
    let (n1, parts) = many_0_joint(&PropertyNamePart, input)?;
    proof {
        reveal_strlit("");
        assert(""@ =~= Seq::<char>::empty());
    }
    let property_name = join_strings(&parts, "");
    let rest1 = &input[n1..input.len()];
    let (n2, _colon) = parse_punct(rest1, None, Some(':'))?;
    let rest2 = &rest1[n2..rest1.len()];
    let (n3, (k, _semicolon)) = take_until_and_match(&PunctParser { spacing: None, ch: Some(';') }, rest2)?;
    let property_values = &rest2[0..k];
    let (_rest, grouped_property_values) = many_0(&ValueGroup, property_values)?;
    let property_values_string = join_value_groups(&grouped_property_values);
    Ok((n1 + n2 + n3, (property_name, property_values_string)))
}

/* -------- THE INSIDE OF A RULE -------- */

/// Adds one item to a block: a rule goes after the nested rules, a property
/// is set.
pub open spec fn block_step(
    block: (Seq<(Seq<char>, Seq<char>)>, Seq<SpecRule>),
    item: SpecRuleOrProperty,
) -> (Seq<(Seq<char>, Seq<char>)>, Seq<SpecRule>) {
    match item {
        SpecRuleOrProperty::Rule(r) => (block.0, block.1.push(r)),
        SpecRuleOrProperty::Property((k, v)) => (props_insert(block.0, k, v), block.1),
    }
}

/// The properties and the nested rules of a rule's block, from its items in
/// order: later values of a property replace earlier ones.
pub open spec fn fold_block(items: Seq<SpecRuleOrProperty>) -> (Seq<(Seq<char>, Seq<char>)>, Seq<SpecRule>)
    decreases items.len(),
{
    if items.len() == 0 {
        (Seq::empty(), Seq::empty())
    } else {
        block_step(fold_block(items.drop_last()), items.last())
    }
}

/// A block never holds two properties of the same name.
pub proof fn lemma_fold_block_keys(items: Seq<SpecRuleOrProperty>)
    ensures
        keys(fold_block(items).0).no_duplicates(),
    decreases items.len(),
{
    if items.len() == 0 {
        assert(keys(Seq::<(Seq<char>, Seq<char>)>::empty()) =~= Seq::<Seq<char>>::empty());
    } else {
        lemma_fold_block_keys(items.drop_last());
        if let SpecRuleOrProperty::Property((k, v)) = items.last() {
            lemma_props_insert_keys(fold_block(items.drop_last()).0, k, v);
        }
    }
}

/// The properties of a parsed rule have distinct names.
pub proof fn lemma_rule_properties_distinct(s: Seq<TokenTree>)
    ensures
        spec_parse_rule(s) matches Ok((_, r)) ==> keys(r.properties).no_duplicates(),
{
    if let Ok((n1, _)) = spec_parse_nested_selector_list(s) {
        if n1 < s.len() {
            if let Ok((_, contents)) = spec_parse_group_with_delimiter(s.skip(n1 as int), Some(Delimiter::Brace)) {
                if let Ok((_, items)) = spec_rule_or_property_list(contents) {
                    lemma_fold_block_keys(items);
                }
            }
        }
    }
}

/// The rule an item holds, if it is a rule.
pub open spec fn item_rule(item: SpecRuleOrProperty) -> Option<SpecRule> {
    match item {
        SpecRuleOrProperty::Rule(r) => Some(r),
        SpecRuleOrProperty::Property(_) => None,
    }
}

/// The rules among a block's items, in the order they come.
pub open spec fn rule_items(items: Seq<SpecRuleOrProperty>) -> Seq<SpecRule> {
    items.filter_map(|item: SpecRuleOrProperty| item_rule(item))
}

/// A block's nested rules are exactly its rule items, in the order they come,
/// whatever properties stand before, between or after them.
pub proof fn lemma_block_nested_rules(items: Seq<SpecRuleOrProperty>)
    ensures
        fold_block(items).1 == rule_items(items),
    decreases items.len(),
{
    if items.len() > 0 {
        lemma_block_nested_rules(items.drop_last());
        if let SpecRuleOrProperty::Rule(r) = items.last() {
            assert(rule_items(items) =~= rule_items(items.drop_last()).push(r));
        }
    }
}

/// Does the item set the property named `name`?
pub open spec fn sets_property(item: SpecRuleOrProperty, name: Seq<char>) -> bool {
    item matches SpecRuleOrProperty::Property((key, _)) && key == name
}

/// The value a property item gives.
pub open spec fn item_value(item: SpecRuleOrProperty) -> Seq<char> {
    match item {
        SpecRuleOrProperty::Property((_, value)) => value,
        SpecRuleOrProperty::Rule(_) => Seq::empty(),
    }
}

/// A block has a property exactly when one of its items sets it, and the
/// property's value is the one the last such item gives: later values
/// replace earlier ones, and rules between them change nothing.
#[verifier::rlimit(30)]
pub proof fn lemma_block_properties(items: Seq<SpecRuleOrProperty>, name: Seq<char>)
    ensures
        has_key(fold_block(items).0, name) <==> exists|i: int| 0 <= i < items.len() && #[trigger] sets_property(items[i], name),
        forall|i: int|
            0 <= i < items.len() && #[trigger] sets_property(items[i], name)
                && (forall|j: int| i < j < items.len() ==> !sets_property(items[j], name))
                ==> lookup(fold_block(items).0, name) == item_value(items[i]),
    decreases items.len(),
{
    if items.len() == 0 {
        assert(!has_key(Seq::<(Seq<char>, Seq<char>)>::empty(), name));
    } else {
        let init = items.drop_last();
        let last = items.last();
        lemma_block_properties(init, name);
        let before = fold_block(init).0;
        assert forall|i: int| 0 <= i < init.len() implies init[i] == items[i] by {}
        if let SpecRuleOrProperty::Property((key, value)) = last {
            lemma_props_insert_lookup(before, key, value, name);
        }
        assert(has_key(fold_block(items).0, name) <==> exists|i: int| 0 <= i < items.len() && #[trigger] sets_property(items[i], name)) by {
            if exists|i: int| 0 <= i < items.len() && #[trigger] sets_property(items[i], name) {
                let i = choose|i: int| 0 <= i < items.len() && #[trigger] sets_property(items[i], name);
                if i < init.len() {
                    assert(sets_property(init[i], name));
                }
            }
            if exists|i: int| 0 <= i < init.len() && #[trigger] sets_property(init[i], name) {
                let i = choose|i: int| 0 <= i < init.len() && #[trigger] sets_property(init[i], name);
                assert(sets_property(items[i], name));
            }
            if sets_property(last, name) {
                assert(sets_property(items[items.len() - 1], name));
            }
        }
        assert forall|i: int|
            0 <= i < items.len() && #[trigger] sets_property(items[i], name)
                && (forall|j: int| i < j < items.len() ==> !sets_property(items[j], name))
            implies lookup(fold_block(items).0, name) == item_value(items[i]) by {
            if i < init.len() {
                assert(!sets_property(items[items.len() - 1], name));
                assert(sets_property(init[i], name));
                assert forall|j: int| i < j < init.len() implies !sets_property(init[j], name) by {
                    assert(!sets_property(items[j], name));
                }
                assert(has_key(before, name));
            }
        }
    }
}

/// The items written between a rule's braces, when its selector list and its
/// brace group parse.
pub open spec fn rule_contents_items(s: Seq<TokenTree>) -> Option<Seq<SpecRuleOrProperty>> {
    match spec_parse_nested_selector_list(s) {
        Ok((n1, _)) => if n1 < s.len() {
            match spec_parse_group_with_delimiter(s.skip(n1 as int), Some(Delimiter::Brace)) {
                Ok((_, contents)) => match spec_rule_or_property_list(contents) {
                    Ok((_, items)) => Some(items),
                    Err(_) => None,
                },
                Err(_) => None,
            }
        } else {
            None
        },
        Err(_) => None,
    }
}

/// Every rule written inside a parsed rule's braces is one of its nested
/// rules, in the order written, also where properties come before it; its
/// properties are those its items set, as `lemma_block_properties` tells.
pub proof fn lemma_parsed_rule_nested_rules(s: Seq<TokenTree>)
    ensures
        spec_parse_rule(s) matches Ok((_, r)) ==> (rule_contents_items(s) matches Some(items)
            && r.nested_rules == rule_items(items)
            && r.properties == fold_block(items).0),
{
    if let Ok((n1, _)) = spec_parse_nested_selector_list(s) {
        if n1 < s.len() {
            if let Ok((_, contents)) = spec_parse_group_with_delimiter(s.skip(n1 as int), Some(Delimiter::Brace)) {
                if let Ok((_, items)) = spec_rule_or_property_list(contents) {
                    lemma_block_nested_rules(items);
                }
            }
        }
    }
}

proof fn lemma_fold_push(items: Seq<SpecRuleOrProperty>, item: SpecRuleOrProperty)
    ensures
        fold_block(items.push(item)) == block_step(fold_block(items), item),
{
    assert(items.push(item).drop_last() =~= items);
}

fn add_item(properties: &mut Vec<(String, String)>, nested_rules: &mut Vec<Rule>, item: RuleOrProperty)
    ensures
        (final(properties).deep_view(), final(nested_rules).deep_view())
            == block_step((old(properties).deep_view(), old(nested_rules).deep_view()), item.deep_view()),
{
    match item {
        RuleOrProperty::Rule(rule) => {
            let ghost before = nested_rules.deep_view();
            let ghost rdv = rule.deep_view();
            nested_rules.push(rule);
            proof {
                assert(nested_rules.deep_view() =~= before.push(rdv));
            }
        },
        RuleOrProperty::Property((key, value)) => {
            insert_pair(properties, key, value);
        },
    }
}

proof fn lemma_rest_step(s: Seq<TokenTree>, pos: int, n: int, item: SpecRuleOrProperty)
    requires
        0 <= pos,
        0 < n,
        pos + n <= s.len(),
        spec_parse_rule_or_property(s.skip(pos)) == Ok::<(nat, SpecRuleOrProperty), ErrorKind>((n as nat, item)),
    ensures
        ({
            let (m, vs) = spec_rule_or_property_rest(s.skip(pos + n));
            spec_rule_or_property_rest(s.skip(pos)) == ((n + m) as nat, seq![item] + vs)
        }),
{
    assert(s.skip(pos).skip(n) =~= s.skip(pos + n));
}

/// Rules and properties, one after the other (`spec_many_rest` for
/// `spec_parse_rule_or_property`).
pub open spec fn spec_rule_or_property_rest(s: Seq<TokenTree>) -> (nat, Seq<SpecRuleOrProperty>)
    decreases stream_size(s), 2nat,
{
    match spec_parse_rule_or_property(s) {
        Ok((n, v)) => {
            if 0 < n <= s.len() {
                proof {
                    lemma_skip_size(s, n as int);
                }
                let (m, vs) = spec_rule_or_property_rest(s.skip(n as int));
                (n + m, seq![v] + vs)
            } else {
                (0, Seq::empty())
            }
        },
        Err(_) => (0, Seq::empty()),
    }
}

/// Zero or more rules and properties (`spec_many_0` for
/// `spec_parse_rule_or_property`).
pub open spec fn spec_rule_or_property_list(s: Seq<TokenTree>) -> SResult<Seq<SpecRuleOrProperty>>
    decreases stream_size(s), 3nat,
{
    match spec_parse_rule_or_property(s) {
        Ok((n, _)) => if n == 0 {
            Err(ErrorKind::Many0)
        } else {
            Ok(spec_rule_or_property_rest(s))
        },
        Err(_) => Ok(spec_rule_or_property_rest(s)),
    }
}

/// A property, else a rule.
pub open spec fn spec_parse_rule_or_property(s: Seq<TokenTree>) -> SResult<SpecRuleOrProperty>
    decreases stream_size(s), 1nat,
{
    match spec_parse_property(s) {
        Ok((n, p)) => Ok((n, SpecRuleOrProperty::Property(p))),
        Err(_) => match spec_parse_rule(s) {
            Ok((n, r)) => Ok((n, SpecRuleOrProperty::Rule(r))),
            Err(e) => Err(e),
        },
    }
}

/// A rule: a selector list, then a brace group whose contents are entirely
/// properties and rules.
pub open spec fn spec_parse_rule(s: Seq<TokenTree>) -> SResult<SpecRule>
    decreases stream_size(s), 0nat,
{
    match spec_parse_nested_selector_list(s) {
        Ok((n1, selectors)) => {
            if n1 >= s.len() {
                Err(ErrorKind::Eof)
            } else {
                match spec_parse_group_with_delimiter(s.skip(n1 as int), Some(Delimiter::Brace)) {
                    Ok((n2, contents)) => {
                        proof {
                            assert(s.skip(n1 as int)[0] == s[n1 as int]);
                            lemma_group_size(s, n1 as int);
                        }
                        match spec_rule_or_property_list(contents) {
                            Ok((m, items)) => match spec_ensure_consumed(contents.skip(m as int)) {
                                Ok(_) => {
                                    let (properties, nested_rules) = fold_block(items);
                                    Ok((n1 + n2, SpecRule { selectors, properties, nested_rules }))
                                },
                                Err(e) => Err(e),
                            },
                            Err(e) => Err(e),
                        }
                    },
                    Err(e) => Err(e),
                }
            }
        },
        Err(e) => Err(e),
    }
}

fn parse_rule_or_property(input: &[TokenTree]) -> (res: PResult<RuleOrProperty>)
    ensures
        presult_dv(res) == spec_parse_rule_or_property(input@),
        within(res, input@.len()),
    decreases stream_size(input@), 1nat,
{
    match parse_property(input) {
        Ok((n, property)) => Ok((n, RuleOrProperty::Property(property))),
        Err(_) => match parse_rule(input) {
            Ok((n, rule)) => Ok((n, RuleOrProperty::Rule(rule))),
            Err(e) => Err(e),
        },
    }
}

/// The contents of a rule's braces, folded into a property block as they are
/// parsed.
#[verifier::rlimit(80)]
fn parse_block(input: &[TokenTree]) -> (res: PResult<PropertyBlock>)
    ensures
        match spec_rule_or_property_list(input@) {
            Ok((n, items)) => res matches Ok((m, b)) && m == n
                && b.properties.deep_view() == fold_block(items).0
                && b.nested_rules.deep_view() == fold_block(items).1,
            Err(e) => res == Err::<(usize, PropertyBlock), ErrorKind>(e),
        },
        within(res, input@.len()),
    decreases stream_size(input@), 3nat,
{
    let ghost s = input@;
    let mut properties: Vec<(String, String)> = Vec::new();
    let mut nested_rules: Vec<Rule> = Vec::new();
    let mut pos: usize = 0;
    let ghost mut items: Seq<SpecRuleOrProperty> = Seq::empty();
    proof {
        assert(s.skip(0) =~= s);
        assert(properties.deep_view() =~= Seq::<(Seq<char>, Seq<char>)>::empty());
        assert(nested_rules.deep_view() =~= Seq::<SpecRule>::empty());
    }
    loop
        invariant
            s == input@,
            pos <= s.len(),
            items.len() == 0 <==> pos == 0,
            pos > 0 ==> !(spec_parse_rule_or_property(s) matches Ok((n, _)) && n == 0),
            pos > 0 ==> ({
                let (m, vs) = spec_rule_or_property_rest(s.skip(pos as int));
                spec_rule_or_property_rest(s) == ((pos + m) as nat, items + vs)
            }),
            properties.deep_view() == fold_block(items).0,
            nested_rules.deep_view() == fold_block(items).1,
        decreases s.len() - pos,
    {
        let rest = &input[pos..input.len()];
        assert(rest@ == s.skip(pos as int));
        proof {
            lemma_skip_size(s, pos as int);
        }
        match parse_rule_or_property(rest) {
            Ok((n, item)) => {
                if n == 0 {
                    proof {
                        assert(s.skip(0) =~= s);
                    }
                    if pos > 0 {
                        return Ok((pos, PropertyBlock { properties, nested_rules }));
                    }
                    return Err(ErrorKind::Many0);
                }
                proof {
                    assert(s.skip(0) =~= s);
                    lemma_rest_step(s, pos as int, n as int, item.deep_view());
                }
                let ghost old_items = items;
                let ghost item_dv = item.deep_view();
                add_item(&mut properties, &mut nested_rules, item);
                proof {
                    items = old_items.push(item_dv);
                    lemma_fold_push(old_items, item_dv);
                    let (m, vs) = spec_rule_or_property_rest(s.skip(pos + n));
                    assert(old_items + (seq![item_dv] + vs) =~= items + vs);
                    if pos == 0 {
                        assert(items + vs =~= seq![item_dv] + vs);
                    }
                }
                pos = pos + n;
            },
            Err(_) => {
                proof {
                    assert(s.skip(0) =~= s);
                    assert(items + Seq::<SpecRuleOrProperty>::empty() =~= items);
                }
                return Ok((pos, PropertyBlock { properties, nested_rules }));
            },
        }
    }
}

pub fn parse_rule(input: &[TokenTree]) -> (res: PResult<Rule>)
    ensures
        presult_dv(res) == spec_parse_rule(input@),
        within(res, input@.len()),
        res matches Ok((_, r)) ==> keys(r.property_block.properties.deep_view()).no_duplicates(),
    decreases stream_size(input@), 0nat,
{
    let (n1, nested_selector_list) = parse_nested_selector_list(input)?;
    if n1 >= input.len() {
        return Err(ErrorKind::Eof);
    }
    let rest = &input[n1..input.len()];
    let (n2, group_contents) = parse_group_with_delimiter(rest, Some(Delimiter::Brace))?;
    proof {
        assert(rest@[0] == input@[n1 as int]);
        lemma_group_size(input@, n1 as int);
    }
    let (m, property_block) = match parse_block(group_contents) {
        Ok(r) => r,
        Err(e) => {
            return Err(e);
        },
    };
    let inner_rest = &group_contents[m..group_contents.len()];
    let _ = ensure_consumed(inner_rest)?;
    let rule = Rule { nested_selector_list, property_block };
    proof {
        lemma_nested_rules_dv(rule);
        lemma_rule_properties_distinct(input@);
    }
    Ok((n1 + n2, rule))
}

/// `parse_rule` as a parser value.
pub struct RuleParser;

impl TokenParser for RuleParser {
    type Output = Rule;

    open spec fn spec_parse(&self, s: Seq<TokenTree>) -> SResult<SpecRule> {
        spec_parse_rule(s)
    }

    fn parse(&self, input: &[TokenTree]) -> (res: PResult<Rule>) {
        parse_rule(input)
    }
}

/// Rules, one after the other.
pub open spec fn spec_parse_rule_set(s: Seq<TokenTree>) -> SResult<Seq<SpecRule>> {
    spec_many_0(RuleParser, s)
}

pub fn parse_rule_set(input: &[TokenTree]) -> (res: PResult<RuleSet>)
    ensures
        presult_dv(res) == spec_parse_rule_set(input@),
        within(res, input@.len()),
{
    let (n, rules) = many_0(&RuleParser, input)?;
    Ok((n, RuleSet(rules)))
}

/// A rule consumes at least its brace group, and no more tokens than there are.
proof fn lemma_rule_within(s: Seq<TokenTree>)
    ensures
        spec_parse_rule(s) matches Ok((n, _)) ==> 0 < n <= s.len(),
{
}

/// A rule set is read rule by rule: where a rule stands first, the set is
/// that rule followed by the rule set after it, so no rule is dropped; where
/// none does, the set is empty and consumes nothing.
pub proof fn lemma_rule_set_step(s: Seq<TokenTree>)
    ensures
        spec_parse_rule(s) matches Ok((n, r)) ==> spec_parse_rule_set(s)
            == (match spec_parse_rule_set(s.skip(n as int)) {
                Ok((m, rest)) => Ok((n + m, seq![r] + rest)),
                Err(e) => Err(e),
            }),
        spec_parse_rule(s) is Err ==> spec_parse_rule_set(s) == Ok::<(nat, Seq<SpecRule>), ErrorKind>((0, seq![])),
{
    lemma_rule_within(s);
    match spec_parse_rule(s) {
        Ok((n, _)) => {
            lemma_rule_within(s.skip(n as int));
            lemma_many_0_step(RuleParser, s);
        },
        Err(_) => {
            lemma_many_0_none(RuleParser, s);
        },
    }
}

} // verus!
