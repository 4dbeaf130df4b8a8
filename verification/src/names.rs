//! The class and id names a style sheet uses, and their replacements.
use crate::tokens::char_to_string;
use crate::types::{Modifier, Rule, RuleSet, Selector, SpecModifier, SpecRule, SpecSelector, lemma_nested_rules_dv};
use vstd::prelude::*;

verus! {

/// Class names or id names.
pub enum NameKind {
    Class,
    Id,
}

/// Does the modifier name `name` as a class (or as an id)?
pub open spec fn modifier_names(m: SpecModifier, kind: NameKind, name: Seq<char>) -> bool {
    match m {
        SpecModifier::Class(c) => kind is Class && c == name,
        SpecModifier::Id(i) => kind is Id && i == name,
        SpecModifier::Attribute(_) => false,
    }
}

pub open spec fn selector_has(s: SpecSelector, kind: NameKind, name: Seq<char>) -> bool {
    exists|k: int| 0 <= k < s.modifiers.len() && modifier_names(#[trigger] s.modifiers[k], kind, name)
}

pub open spec fn nested_selector_has(ns: Seq<SpecSelector>, kind: NameKind, name: Seq<char>) -> bool {
    exists|j: int| 0 <= j < ns.len() && selector_has(#[trigger] ns[j], kind, name)
}

pub open spec fn selector_list_has(list: Seq<Seq<SpecSelector>>, kind: NameKind, name: Seq<char>) -> bool {
    exists|i: int| 0 <= i < list.len() && nested_selector_has(#[trigger] list[i], kind, name)
}

/// Does a selector of the rule, or of a rule nested in it at any depth, use
/// `name` as a class (or as an id)?
pub open spec fn rule_has(r: SpecRule, kind: NameKind, name: Seq<char>) -> bool
    decreases r,
{
    selector_list_has(r.selectors, kind, name)
        || exists|i: int| 0 <= i < r.nested_rules.len() && rule_has(#[trigger] r.nested_rules[i], kind, name)
}

/// Does a rule of the set use `name` as a class (or as an id)?
pub open spec fn rule_set_has(rules: Seq<SpecRule>, kind: NameKind, name: Seq<char>) -> bool {
    exists|i: int| 0 <= i < rules.len() && rule_has(#[trigger] rules[i], kind, name)
}

/// Adds a name unless it is already there.
fn add_name(names: &mut Vec<String>, name: &String)
    ensures
        final(names).deep_view() == if old(names).deep_view().contains(name@) {
            old(names).deep_view()
        } else {
            old(names).deep_view().push(name@)
        },
{
    let ghost before = names.deep_view();
    let mut i: usize = 0;
    while i < names.len()
        invariant
            before == names.deep_view(),
            i <= names@.len(),
            forall|j: int| 0 <= j < i ==> before[j] != name@,
        decreases names@.len() - i,
    {
        if names[i] == *name {
            proof {
                assert(before[i as int] == name@);
            }
            return;
        }
        i = i + 1;
    }
    names.push(name.clone());
    proof {
        assert(names.deep_view() =~= before.push(name@));
    }
}

/// The names gathered so far: exactly those already there and those of the
/// given kind that `has` holds for, with none twice.
pub open spec fn gathered(
    after: Seq<Seq<char>>,
    before: Seq<Seq<char>>,
    has: spec_fn(Seq<char>) -> bool,
) -> bool {
    &&& before.no_duplicates() ==> after.no_duplicates()
    &&& forall|name: Seq<char>| #[trigger] after.contains(name) <==> before.contains(name) || has(name)
}

proof fn lemma_add_name(before: Seq<Seq<char>>, name: Seq<char>)
    ensures
        gathered(
            if before.contains(name) { before } else { before.push(name) },
            before,
            |n: Seq<char>| n == name,
        ),
{
    let after = if before.contains(name) { before } else { before.push(name) };
    if !before.contains(name) {
        assert forall|n: Seq<char>| before.contains(n) || n == name implies #[trigger] after.contains(n) by {
            if n == name {
                assert(after[before.len() as int] == name);
            } else if before.contains(n) {
                let k = choose|k: int| 0 <= k < before.len() && before[k] == n;
                assert(after[k] == n);
            }
        }
        assert forall|n: Seq<char>| #[trigger] after.contains(n) implies before.contains(n) || n == name by {
            let k = choose|k: int| 0 <= k < after.len() && after[k] == n;
            if k < before.len() {
                assert(before[k] == n);
            }
        }
    }
}

fn collect_modifier(modifier: &Modifier, classes: &mut Vec<String>, ids: &mut Vec<String>)
    ensures
        gathered(final(classes).deep_view(), old(classes).deep_view(), |n: Seq<char>| modifier_names(modifier.deep_view(), NameKind::Class, n)),
        gathered(final(ids).deep_view(), old(ids).deep_view(), |n: Seq<char>| modifier_names(modifier.deep_view(), NameKind::Id, n)),
{
    let ghost classes0 = classes.deep_view();
    let ghost ids0 = ids.deep_view();
    match modifier {
        Modifier::Class(class) => {
            add_name(classes, class);
            proof {
                lemma_add_name(classes0, class@);
            }
        },
        Modifier::Id(id) => {
            add_name(ids, id);
            proof {
                lemma_add_name(ids0, id@);
            }
        },
        Modifier::Attribute(_) => {},
    }
}

fn collect_selector(selector: &Selector, classes: &mut Vec<String>, ids: &mut Vec<String>)
    ensures
        gathered(final(classes).deep_view(), old(classes).deep_view(), |n: Seq<char>| selector_has(selector.deep_view(), NameKind::Class, n)),
        gathered(final(ids).deep_view(), old(ids).deep_view(), |n: Seq<char>| selector_has(selector.deep_view(), NameKind::Id, n)),
{
    let ghost sel = selector.deep_view();
    let ghost classes0 = classes.deep_view();
    let ghost ids0 = ids.deep_view();
    let mut k: usize = 0;
    while k < selector.modifiers.len()
        invariant
            sel == selector.deep_view(),
            k <= sel.modifiers.len(),
            gathered(classes.deep_view(), classes0, |n: Seq<char>| exists|k2: int| 0 <= k2 < k && modifier_names(#[trigger] sel.modifiers[k2], NameKind::Class, n)),
            gathered(ids.deep_view(), ids0, |n: Seq<char>| exists|k2: int| 0 <= k2 < k && modifier_names(#[trigger] sel.modifiers[k2], NameKind::Id, n)),
        decreases sel.modifiers.len() - k,
    {
        let ghost c1 = classes.deep_view();
        let ghost i1 = ids.deep_view();
        assert(sel.modifiers[k as int] == selector.modifiers@[k as int].deep_view());
        collect_modifier(&selector.modifiers[k], classes, ids);
        proof {
            lemma_gathered_trans(classes.deep_view(), c1, classes0,
                |n: Seq<char>| exists|k2: int| 0 <= k2 < k && modifier_names(#[trigger] sel.modifiers[k2], NameKind::Class, n),
                |n: Seq<char>| modifier_names(sel.modifiers[k as int], NameKind::Class, n),
                |n: Seq<char>| exists|k2: int| 0 <= k2 < k + 1 && modifier_names(#[trigger] sel.modifiers[k2], NameKind::Class, n));
            lemma_gathered_trans(ids.deep_view(), i1, ids0,
                |n: Seq<char>| exists|k2: int| 0 <= k2 < k && modifier_names(#[trigger] sel.modifiers[k2], NameKind::Id, n),
                |n: Seq<char>| modifier_names(sel.modifiers[k as int], NameKind::Id, n),
                |n: Seq<char>| exists|k2: int| 0 <= k2 < k + 1 && modifier_names(#[trigger] sel.modifiers[k2], NameKind::Id, n));
        }
        k = k + 1;
    }
}

proof fn lemma_gathered_trans(
    c: Seq<Seq<char>>,
    a: Seq<Seq<char>>,
    b: Seq<Seq<char>>,
    f: spec_fn(Seq<char>) -> bool,
    g: spec_fn(Seq<char>) -> bool,
    h: spec_fn(Seq<char>) -> bool,
)
    requires
        gathered(a, b, f),
        gathered(c, a, g),
        forall|n: Seq<char>| #[trigger] h(n) == (f(n) || g(n)),
    ensures
        gathered(c, b, h),
{
    assert forall|n: Seq<char>| #[trigger] c.contains(n) <==> b.contains(n) || h(n) by {
        assert(c.contains(n) <==> a.contains(n) || g(n));
        assert(a.contains(n) <==> b.contains(n) || f(n));
    }
}

proof fn lemma_gathered_nothing(a: Seq<Seq<char>>, f: spec_fn(Seq<char>) -> bool)
    requires
        forall|n: Seq<char>| !#[trigger] f(n),
    ensures
        gathered(a, a, f),
{
}

fn collect_nested_selector(nested: &Vec<Selector>, classes: &mut Vec<String>, ids: &mut Vec<String>)
    ensures
        gathered(final(classes).deep_view(), old(classes).deep_view(), |n: Seq<char>| nested_selector_has(nested.deep_view(), NameKind::Class, n)),
        gathered(final(ids).deep_view(), old(ids).deep_view(), |n: Seq<char>| nested_selector_has(nested.deep_view(), NameKind::Id, n)),
{
    let ghost ns = nested.deep_view();
    let ghost classes0 = classes.deep_view();
    let ghost ids0 = ids.deep_view();
    let mut j: usize = 0;
    while j < nested.len()
        invariant
            ns == nested.deep_view(),
            j <= ns.len(),
            gathered(classes.deep_view(), classes0, |n: Seq<char>| exists|j2: int| 0 <= j2 < j && selector_has(#[trigger] ns[j2], NameKind::Class, n)),
            gathered(ids.deep_view(), ids0, |n: Seq<char>| exists|j2: int| 0 <= j2 < j && selector_has(#[trigger] ns[j2], NameKind::Id, n)),
        decreases ns.len() - j,
    {
        let ghost c1 = classes.deep_view();
        let ghost i1 = ids.deep_view();
        assert(ns[j as int] == nested@[j as int].deep_view());
        collect_selector(&nested[j], classes, ids);
        proof {
            lemma_gathered_trans(classes.deep_view(), c1, classes0,
                |n: Seq<char>| exists|j2: int| 0 <= j2 < j && selector_has(#[trigger] ns[j2], NameKind::Class, n),
                |n: Seq<char>| selector_has(ns[j as int], NameKind::Class, n),
                |n: Seq<char>| exists|j2: int| 0 <= j2 < j + 1 && selector_has(#[trigger] ns[j2], NameKind::Class, n));
            lemma_gathered_trans(ids.deep_view(), i1, ids0,
                |n: Seq<char>| exists|j2: int| 0 <= j2 < j && selector_has(#[trigger] ns[j2], NameKind::Id, n),
                |n: Seq<char>| selector_has(ns[j as int], NameKind::Id, n),
                |n: Seq<char>| exists|j2: int| 0 <= j2 < j + 1 && selector_has(#[trigger] ns[j2], NameKind::Id, n));
        }
        j = j + 1;
    }
}

fn collect_selector_list(list: &Vec<Vec<Selector>>, classes: &mut Vec<String>, ids: &mut Vec<String>)
    ensures
        gathered(final(classes).deep_view(), old(classes).deep_view(), |n: Seq<char>| selector_list_has(list.deep_view(), NameKind::Class, n)),
        gathered(final(ids).deep_view(), old(ids).deep_view(), |n: Seq<char>| selector_list_has(list.deep_view(), NameKind::Id, n)),
{
    let ghost l = list.deep_view();
    let ghost classes0 = classes.deep_view();
    let ghost ids0 = ids.deep_view();
    let mut i: usize = 0;
    while i < list.len()
        invariant
            l == list.deep_view(),
            i <= l.len(),
            gathered(classes.deep_view(), classes0, |n: Seq<char>| exists|i2: int| 0 <= i2 < i && nested_selector_has(#[trigger] l[i2], NameKind::Class, n)),
            gathered(ids.deep_view(), ids0, |n: Seq<char>| exists|i2: int| 0 <= i2 < i && nested_selector_has(#[trigger] l[i2], NameKind::Id, n)),
        decreases l.len() - i,
    {
        let ghost c1 = classes.deep_view();
        let ghost i1 = ids.deep_view();
        assert(l[i as int] == list@[i as int].deep_view());
        collect_nested_selector(&list[i], classes, ids);
        proof {
            lemma_gathered_trans(classes.deep_view(), c1, classes0,
                |n: Seq<char>| exists|i2: int| 0 <= i2 < i && nested_selector_has(#[trigger] l[i2], NameKind::Class, n),
                |n: Seq<char>| nested_selector_has(l[i as int], NameKind::Class, n),
                |n: Seq<char>| exists|i2: int| 0 <= i2 < i + 1 && nested_selector_has(#[trigger] l[i2], NameKind::Class, n));
            lemma_gathered_trans(ids.deep_view(), i1, ids0,
                |n: Seq<char>| exists|i2: int| 0 <= i2 < i && nested_selector_has(#[trigger] l[i2], NameKind::Id, n),
                |n: Seq<char>| nested_selector_has(l[i as int], NameKind::Id, n),
                |n: Seq<char>| exists|i2: int| 0 <= i2 < i + 1 && nested_selector_has(#[trigger] l[i2], NameKind::Id, n));
        }
        i = i + 1;
    }
}

fn collect_rule(rule: &Rule, classes: &mut Vec<String>, ids: &mut Vec<String>)
    ensures
        gathered(final(classes).deep_view(), old(classes).deep_view(), |n: Seq<char>| rule_has(rule.deep_view(), NameKind::Class, n)),
        gathered(final(ids).deep_view(), old(ids).deep_view(), |n: Seq<char>| rule_has(rule.deep_view(), NameKind::Id, n)),
    decreases rule,
{
    let ghost r = rule.deep_view();
    proof {
        lemma_nested_rules_dv(*rule);
    }
    let ghost classes0 = classes.deep_view();
    let ghost ids0 = ids.deep_view();
    collect_selector_list(&rule.nested_selector_list, classes, ids);
    let ghost classes1 = classes.deep_view();
    let ghost ids1 = ids.deep_view();
    let mut i: usize = 0;
    proof {
        lemma_gathered_nothing(classes1, |n: Seq<char>| exists|i2: int| 0 <= i2 < 0 && rule_has(#[trigger] r.nested_rules[i2], NameKind::Class, n));
        lemma_gathered_nothing(ids1, |n: Seq<char>| exists|i2: int| 0 <= i2 < 0 && rule_has(#[trigger] r.nested_rules[i2], NameKind::Id, n));
    }
    while i < rule.property_block.nested_rules.len()
        invariant
            r == rule.deep_view(),
            r.nested_rules == rule.property_block.nested_rules.deep_view(),
            i <= r.nested_rules.len(),
            gathered(classes.deep_view(), classes1, |n: Seq<char>| exists|i2: int| 0 <= i2 < i && rule_has(#[trigger] r.nested_rules[i2], NameKind::Class, n)),
            gathered(ids.deep_view(), ids1, |n: Seq<char>| exists|i2: int| 0 <= i2 < i && rule_has(#[trigger] r.nested_rules[i2], NameKind::Id, n)),
        decreases r.nested_rules.len() - i,
    {
        let ghost c1 = classes.deep_view();
        let ghost i1 = ids.deep_view();
        assert(r.nested_rules[i as int] == rule.property_block.nested_rules@[i as int].deep_view());
        collect_rule(&rule.property_block.nested_rules[i], classes, ids);
        proof {
            lemma_gathered_trans(classes.deep_view(), c1, classes1,
                |n: Seq<char>| exists|i2: int| 0 <= i2 < i && rule_has(#[trigger] r.nested_rules[i2], NameKind::Class, n),
                |n: Seq<char>| rule_has(r.nested_rules[i as int], NameKind::Class, n),
                |n: Seq<char>| exists|i2: int| 0 <= i2 < i + 1 && rule_has(#[trigger] r.nested_rules[i2], NameKind::Class, n));
            lemma_gathered_trans(ids.deep_view(), i1, ids1,
                |n: Seq<char>| exists|i2: int| 0 <= i2 < i && rule_has(#[trigger] r.nested_rules[i2], NameKind::Id, n),
                |n: Seq<char>| rule_has(r.nested_rules[i as int], NameKind::Id, n),
                |n: Seq<char>| exists|i2: int| 0 <= i2 < i + 1 && rule_has(#[trigger] r.nested_rules[i2], NameKind::Id, n));
        }
        i = i + 1;
    }
    proof {
        lemma_gathered_trans(classes.deep_view(), classes1, classes0,
            |n: Seq<char>| selector_list_has(r.selectors, NameKind::Class, n),
            |n: Seq<char>| exists|i2: int| 0 <= i2 < r.nested_rules.len() && rule_has(#[trigger] r.nested_rules[i2], NameKind::Class, n),
            |n: Seq<char>| rule_has(r, NameKind::Class, n));
        lemma_gathered_trans(ids.deep_view(), ids1, ids0,
            |n: Seq<char>| selector_list_has(r.selectors, NameKind::Id, n),
            |n: Seq<char>| exists|i2: int| 0 <= i2 < r.nested_rules.len() && rule_has(#[trigger] r.nested_rules[i2], NameKind::Id, n),
            |n: Seq<char>| rule_has(r, NameKind::Id, n));
    }
}

impl Rule {
    /// The class names and the id names the rule's selectors use, nested
    /// rules included; each list holds every such name once.
    pub fn classes_and_ids(&self) -> (res: (Vec<String>, Vec<String>))
        ensures
            res.0.deep_view().no_duplicates(),
            res.1.deep_view().no_duplicates(),
            forall|name: Seq<char>| #[trigger] res.0.deep_view().contains(name) <==> rule_has(self.deep_view(), NameKind::Class, name),
            forall|name: Seq<char>| #[trigger] res.1.deep_view().contains(name) <==> rule_has(self.deep_view(), NameKind::Id, name),
    {
        let mut classes: Vec<String> = Vec::new();
        let mut ids: Vec<String> = Vec::new();
        proof {
            assert(classes.deep_view() =~= Seq::<Seq<char>>::empty());
            assert(ids.deep_view() =~= Seq::<Seq<char>>::empty());
        }
        collect_rule(self, &mut classes, &mut ids);
        (classes, ids)
    }
}

impl RuleSet {
    /// The class names and the id names the style sheet uses; each list holds
    /// every such name once.
    pub fn classes_and_ids(&self) -> (res: (Vec<String>, Vec<String>))
        ensures
            res.0.deep_view().no_duplicates(),
            res.1.deep_view().no_duplicates(),
            forall|name: Seq<char>| #[trigger] res.0.deep_view().contains(name) <==> rule_set_has(self.deep_view(), NameKind::Class, name),
            forall|name: Seq<char>| #[trigger] res.1.deep_view().contains(name) <==> rule_set_has(self.deep_view(), NameKind::Id, name),
    {
        let ghost rules = self.deep_view();
        let mut classes: Vec<String> = Vec::new();
        let mut ids: Vec<String> = Vec::new();
        proof {
            assert(classes.deep_view() =~= Seq::<Seq<char>>::empty());
            assert(ids.deep_view() =~= Seq::<Seq<char>>::empty());
        }
        let mut i: usize = 0;
        while i < self.0.len()
            invariant
                rules == self.deep_view(),
                i <= rules.len(),
                gathered(classes.deep_view(), Seq::empty(), |n: Seq<char>| exists|i2: int| 0 <= i2 < i && rule_has(#[trigger] rules[i2], NameKind::Class, n)),
                gathered(ids.deep_view(), Seq::empty(), |n: Seq<char>| exists|i2: int| 0 <= i2 < i && rule_has(#[trigger] rules[i2], NameKind::Id, n)),
            decreases rules.len() - i,
        {
            let ghost c1 = classes.deep_view();
            let ghost i1 = ids.deep_view();
            assert(rules[i as int] == self.0@[i as int].deep_view());
            collect_rule(&self.0[i], &mut classes, &mut ids);
            proof {
                lemma_gathered_trans(classes.deep_view(), c1, Seq::empty(),
                    |n: Seq<char>| exists|i2: int| 0 <= i2 < i && rule_has(#[trigger] rules[i2], NameKind::Class, n),
                    |n: Seq<char>| rule_has(rules[i as int], NameKind::Class, n),
                    |n: Seq<char>| exists|i2: int| 0 <= i2 < i + 1 && rule_has(#[trigger] rules[i2], NameKind::Class, n));
                lemma_gathered_trans(ids.deep_view(), i1, Seq::empty(),
                    |n: Seq<char>| exists|i2: int| 0 <= i2 < i && rule_has(#[trigger] rules[i2], NameKind::Id, n),
                    |n: Seq<char>| rule_has(rules[i as int], NameKind::Id, n),
                    |n: Seq<char>| exists|i2: int| 0 <= i2 < i + 1 && rule_has(#[trigger] rules[i2], NameKind::Id, n));
            }
            i = i + 1;
        }
        proof {
            assert(Seq::<Seq<char>>::empty().no_duplicates());
        }
        (classes, ids)
    }
}

/// Where the first pair with the given name stands, or the length if none does.
pub open spec fn key_index(props: Seq<(Seq<char>, Seq<char>)>, key: Seq<char>) -> nat
    decreases props.len(),
{
    if props.len() == 0 {
        0
    } else if props[0].0 == key {
        0
    } else {
        1 + key_index(props.drop_first(), key)
    }
}

pub proof fn lemma_key_index(props: Seq<(Seq<char>, Seq<char>)>, key: Seq<char>, i: int)
    requires
        0 <= i <= props.len(),
        forall|j: int| 0 <= j < i ==> props[j].0 != key,
        i == props.len() || props[i].0 == key,
    ensures
        key_index(props, key) == i,
    decreases i,
{
    if i > 0 {
        let t = props.drop_first();
        assert forall|j: int| 0 <= j < i - 1 implies t[j].0 != key by {
            assert(t[j] == props[j + 1]);
        }
        if i < props.len() {
            assert(t[i - 1] == props[i]);
        }
        lemma_key_index(t, key, i - 1);
    }
}

/// Sets a pair: replaces the value of the pair with that name if there is
/// one, else adds the pair at the end (as inserting into a map does).
pub open spec fn props_insert(props: Seq<(Seq<char>, Seq<char>)>, key: Seq<char>, value: Seq<char>) -> Seq<(Seq<char>, Seq<char>)> {
    let i = key_index(props, key);
    if i < props.len() {
        props.update(i as int, (key, value))
    } else {
        props.push((key, value))
    }
}

/// The names of the pairs.
pub open spec fn keys(map: Seq<(Seq<char>, Seq<char>)>) -> Seq<Seq<char>> {
    map.map_values(|p: (Seq<char>, Seq<char>)| p.0)
}

/// Setting a pair keeps the names distinct, and adds its name.
pub proof fn lemma_props_insert_keys(props: Seq<(Seq<char>, Seq<char>)>, key: Seq<char>, value: Seq<char>)
    ensures
        keys(props).no_duplicates() ==> keys(props_insert(props, key, value)).no_duplicates(),
        forall|n: Seq<char>| #[trigger] keys(props_insert(props, key, value)).contains(n) <==> keys(props).contains(n) || n == key,
        !keys(props).contains(key) ==> props_insert(props, key, value) == props.push((key, value)),
{
    lemma_key_index_bound(props, key);
    let i = key_index(props, key);
    let after = props_insert(props, key, value);
    if i < props.len() {
        assert(keys(after) =~= keys(props).update(i as int, key));
        assert(keys(props)[i as int] == key);
        assert(keys(props).update(i as int, key) =~= keys(props));
        if !keys(props).contains(key) {
            assert(keys(props)[i as int] == key);
        }
    } else {
        assert(keys(after) =~= keys(props).push(key));
        assert forall|j: int| 0 <= j < props.len() implies props[j].0 != key by {
            lemma_key_index_first(props, key, j);
        }
        assert(!keys(props).contains(key)) by {
            if keys(props).contains(key) {
                let j = choose|j: int| 0 <= j < keys(props).len() && keys(props)[j] == key;
                assert(props[j].0 == key);
            }
        }
        assert forall|n: Seq<char>| #[trigger] keys(after).contains(n) <==> keys(props).contains(n) || n == key by {
            if n == key {
                assert(keys(after)[props.len() as int] == key);
            }
            if keys(props).contains(n) {
                let j = choose|j: int| 0 <= j < keys(props).len() && keys(props)[j] == n;
                assert(keys(after)[j] == n);
            }
            if keys(after).contains(n) {
                let j = choose|j: int| 0 <= j < keys(after).len() && keys(after)[j] == n;
                if j < props.len() {
                    assert(keys(props)[j] == n);
                }
            }
        }
    }
}

proof fn lemma_key_index_bound(props: Seq<(Seq<char>, Seq<char>)>, key: Seq<char>)
    ensures
        key_index(props, key) <= props.len(),
        key_index(props, key) < props.len() ==> props[key_index(props, key) as int].0 == key,
    decreases props.len(),
{
    if props.len() > 0 && props[0].0 != key {
        lemma_key_index_bound(props.drop_first(), key);
    }
}

proof fn lemma_key_index_first(props: Seq<(Seq<char>, Seq<char>)>, key: Seq<char>, j: int)
    requires
        0 <= j < key_index(props, key),
        key_index(props, key) <= props.len(),
    ensures
        props[j].0 != key,
    decreases j,
{
    if j > 0 {
        lemma_key_index_bound(props.drop_first(), key);
        lemma_key_index_first(props.drop_first(), key, j - 1);
    }
}

/// A name has a pair exactly when it is among the names of the pairs.
proof fn lemma_has_key_keys(map: Seq<(Seq<char>, Seq<char>)>, key: Seq<char>)
    ensures
        has_key(map, key) <==> keys(map).contains(key),
{
    if has_key(map, key) {
        let i = choose|i: int| 0 <= i < map.len() && (#[trigger] map[i]).0 == key;
        assert(keys(map)[i] == key);
    }
    if keys(map).contains(key) {
        let i = choose|i: int| 0 <= i < keys(map).len() && keys(map)[i] == key;
        assert(map[i].0 == key);
    }
}

/// Setting a pair: the name set has a pair afterwards, with the value given;
/// any other name keeps whether it has a pair, and the value it had.
pub proof fn lemma_props_insert_lookup(props: Seq<(Seq<char>, Seq<char>)>, key: Seq<char>, value: Seq<char>, other: Seq<char>)
    ensures
        has_key(props_insert(props, key, value), other) <==> has_key(props, other) || other == key,
        lookup(props_insert(props, key, value), key) == value,
        other != key && has_key(props, other) ==> lookup(props_insert(props, key, value), other) == lookup(props, other),
{
    let after = props_insert(props, key, value);
    lemma_props_insert_keys(props, key, value);
    lemma_has_key_keys(props, other);
    lemma_has_key_keys(after, other);
    lemma_key_index_bound(props, key);
    let i = key_index(props, key);
    assert forall|j: int| 0 <= j < i implies props[j].0 != key by {
        lemma_key_index_first(props, key, j);
    }
    assert(after.len() >= props.len());
    assert forall|j: int| 0 <= j < props.len() implies (#[trigger] after[j]).0 == props[j].0 by {}
    assert(after[i as int].0 == key);
    lemma_key_index(after, key, i as int);
    if other != key && has_key(props, other) {
        lemma_key_index_bound(props, other);
        let j = key_index(props, other);
        assert forall|x: int| 0 <= x < j implies props[x].0 != other by {
            lemma_key_index_first(props, other, x);
        }
        if j == props.len() {
            let w = choose|x: int| 0 <= x < props.len() && (#[trigger] props[x]).0 == other;
            assert(props[w].0 != other);
        }
        assert(j < props.len());
        assert(j != i);
        assert forall|x: int| 0 <= x < j implies after[x].0 != other by {}
        lemma_key_index(after, other, j as int);
        assert(after[j as int] == props[j as int]);
    }
}

pub(crate) fn insert_pair(properties: &mut Vec<(String, String)>, key: String, value: String)
    ensures
        final(properties).deep_view() == props_insert(old(properties).deep_view(), key@, value@),
{
    let ghost props = properties.deep_view();
    let mut i: usize = 0;
    while i < properties.len() && !(properties[i].0 == key)
        invariant
            props == properties.deep_view(),
            i <= properties@.len(),
            forall|j: int| 0 <= j < i ==> props[j].0 != key@,
        decreases properties@.len() - i,
    {
        i = i + 1;
    }
    proof {
        lemma_key_index(props, key@, i as int);
    }
    let ghost entry = (key@, value@);
    if i < properties.len() {
        properties.set(i, (key, value));
        proof {
            assert(properties.deep_view() =~= props.update(i as int, entry));
        }
    } else {
        properties.push((key, value));
        proof {
            assert(properties.deep_view() =~= props.push(entry));
        }
    }
}

/// A map from names to what replaces them, as (name, replacement) pairs.
pub type NameMap = Vec<(String, String)>;

/// Does some pair have the given name?
pub open spec fn has_key(map: Seq<(Seq<char>, Seq<char>)>, key: Seq<char>) -> bool {
    exists|i: int| 0 <= i < map.len() && (#[trigger] map[i]).0 == key
}

/// What the map gives for a name: the replacement of the first pair with
/// that name.
pub open spec fn lookup(map: Seq<(Seq<char>, Seq<char>)>, key: Seq<char>) -> Seq<char> {
    map[key_index(map, key) as int].1
}

pub fn lookup_name<'a>(map: &'a NameMap, key: &String) -> (res: &'a String)
    requires
        has_key(map.deep_view(), key@),
    ensures
        res@ == lookup(map.deep_view(), key@),
{
    let ghost m = map.deep_view();
    let mut i: usize = 0;
    while i < map.len() && !(map[i].0 == *key)
        invariant
            m == map.deep_view(),
            i <= m.len(),
            has_key(m, key@),
            forall|j: int| 0 <= j < i ==> m[j].0 != key@,
        decreases m.len() - i,
    {
        i = i + 1;
    }
    proof {
        if i == m.len() {
            let j = choose|j: int| 0 <= j < m.len() && (#[trigger] m[j]).0 == key@;
            assert(m[j].0 != key@);
        }
        lemma_key_index(m, key@, i as int);
    }
    &map[i].1
}

/// A decimal digit.
pub open spec fn digit(d: nat) -> char {
    if d == 0 {
        '0'
    } else if d == 1 {
        '1'
    } else if d == 2 {
        '2'
    } else if d == 3 {
        '3'
    } else if d == 4 {
        '4'
    } else if d == 5 {
        '5'
    } else if d == 6 {
        '6'
    } else if d == 7 {
        '7'
    } else if d == 8 {
        '8'
    } else {
        '9'
    }
}

/// A number written in decimal, without leading zeros.
pub open spec fn decimal(n: nat) -> Seq<char>
    decreases n,
{
    if n < 10 {
        seq![digit(n)]
    } else {
        decimal(n / 10).push(digit(n % 10))
    }
}

fn digit_char(d: u64) -> (c: char)
    requires
        d < 10,
    ensures
        c == digit(d as nat),
{
    if d == 0 {
        '0'
    } else if d == 1 {
        '1'
    } else if d == 2 {
        '2'
    } else if d == 3 {
        '3'
    } else if d == 4 {
        '4'
    } else if d == 5 {
        '5'
    } else if d == 6 {
        '6'
    } else if d == 7 {
        '7'
    } else if d == 8 {
        '8'
    } else {
        '9'
    }
}

/// A number written in decimal.
pub fn decimal_text(n: u64) -> (res: String)
    ensures
        res@ == decimal(n as nat),
    decreases n,
{
    if n < 10 {
        char_to_string(digit_char(n))
    } else {
        let mut res = decimal_text(n / 10);
        let last = char_to_string(digit_char(n % 10));
        res.append(last.as_str());
        res
    }
}

/// The hash of a text by std's `DefaultHasher`.
pub uninterp spec fn text_hash(text: Seq<char>) -> u64;

/// Hashes a text with std's `DefaultHasher::new()` (`Hash` for `str`, then
/// `finish`). Trusted: a `DefaultHasher` made by `new` always starts from
/// the same fixed keys, so the hash depends on the text alone; std does not
/// say which algorithm it is, so only that is stated.
#[verifier::external_body]
fn hash_text(text: &str) -> (res: u64)
    ensures
        res == text_hash(text@),
{
    let mut hasher = std::collections::hash_map::DefaultHasher::new();
    std::hash::Hash::hash(text, &mut hasher);
    std::hash::Hasher::finish(&hasher)
}

/// The prefix of the scoped names for a macro input, from the input's text:
/// its hash, in decimal. The same text always gives the same prefix.
pub fn get_prefix(input_text: &str) -> (res: String)
    ensures
        res@ == decimal(text_hash(input_text@) as nat),
{
    decimal_text(hash_text(input_text))
}

/// The replacement name for the `i`-th name: `<keyword>_<prefix>_<i>`.
pub open spec fn generated_name(keyword: Seq<char>, prefix: Seq<char>, i: nat) -> Seq<char> {
    keyword + seq!['_'] + prefix + seq!['_'] + decimal(i)
}

/// The map built from names, each name set in turn to its replacement
/// `<keyword>_<prefix>_<i>` for position `i`: a name given twice keeps the
/// place of its first and the replacement of its last.
pub open spec fn spec_into_hashmap(items: Seq<Seq<char>>, keyword: Seq<char>, prefix: Seq<char>) -> Seq<(Seq<char>, Seq<char>)>
    decreases items.len(),
{
    if items.len() == 0 {
        Seq::empty()
    } else {
        props_insert(
            spec_into_hashmap(items.drop_last(), keyword, prefix),
            items.last(),
            generated_name(keyword, prefix, (items.len() - 1) as nat),
        )
    }
}

/// Pairs each name with its replacement, `<keyword>_<prefix>_<i>` for the
/// `i`-th name.
pub fn into_hashmap(items: &Vec<String>, prefix: &str, keyword: &str) -> (res: NameMap)
    ensures
        res.deep_view() == spec_into_hashmap(items.deep_view(), keyword@, prefix@),
{
    let ghost names = items.deep_view();
    let mut res: NameMap = Vec::new();
    let mut i: usize = 0;
    proof {
        assert(names.take(0) =~= Seq::<Seq<char>>::empty());
        assert(res.deep_view() =~= Seq::<(Seq<char>, Seq<char>)>::empty());
    }
    while i < items.len()
        invariant
            names == items.deep_view(),
            i <= names.len(),
            res.deep_view() == spec_into_hashmap(names.take(i as int), keyword@, prefix@),
        decreases names.len() - i,
    {
        proof {
            reveal_strlit("_");
            assert("_"@ =~= seq!['_']);
        }
        let mut value = String::from_str(keyword);
        value.append("_");
        value.append(prefix);
        value.append("_");
        let number = decimal_text(i as u64);
        value.append(number.as_str());
        proof {
            assert(value@ =~= generated_name(keyword@, prefix@, i as nat));
            let next = names.take(i + 1);
            assert(next.drop_last() =~= names.take(i as int));
            assert(next.last() == items@[i as int]@);
        }
        insert_pair(&mut res, items[i].clone(), value);
        i = i + 1;
    }
    proof {
        assert(names.take(i as int) =~= names);
    }
    res
}

/// Built from distinct names, the map pairs the `i`-th name with the
/// `i`-th replacement; in any case no name appears twice in it.
pub proof fn lemma_into_hashmap(items: Seq<Seq<char>>, keyword: Seq<char>, prefix: Seq<char>)
    ensures
        keys(spec_into_hashmap(items, keyword, prefix)).no_duplicates(),
        forall|n: Seq<char>| #[trigger] keys(spec_into_hashmap(items, keyword, prefix)).contains(n) <==> items.contains(n),
        items.no_duplicates() ==> {
            let map = spec_into_hashmap(items, keyword, prefix);
            &&& map.len() == items.len()
            &&& forall|i: int| 0 <= i < map.len() ==> #[trigger] map[i] == (items[i], generated_name(keyword, prefix, i as nat))
        },
    decreases items.len(),
{
    if items.len() > 0 {
        let init = items.drop_last();
        lemma_into_hashmap(init, keyword, prefix);
        let before = spec_into_hashmap(init, keyword, prefix);
        lemma_props_insert_keys(before, items.last(), generated_name(keyword, prefix, (items.len() - 1) as nat));
        assert forall|n: Seq<char>| #[trigger] items.contains(n) <==> init.contains(n) || n == items.last() by {
            if items.contains(n) {
                let j = choose|j: int| 0 <= j < items.len() && items[j] == n;
                if j < init.len() {
                    assert(init[j] == n);
                }
            }
            if init.contains(n) {
                let j = choose|j: int| 0 <= j < init.len() && init[j] == n;
                assert(items[j] == n);
            }
        }
        if items.no_duplicates() {
            assert(init.no_duplicates());
            assert(!init.contains(items.last())) by {
                if init.contains(items.last()) {
                    let j = choose|j: int| 0 <= j < init.len() && init[j] == items.last();
                    assert(items[j] == items[items.len() - 1]);
                }
            }
        }
    } else {
        assert(keys(Seq::<(Seq<char>, Seq<char>)>::empty()) =~= Seq::<Seq<char>>::empty());
    }
}

proof fn lemma_digit_injective(a: nat, b: nat)
    requires
        a < 10,
        b < 10,
        digit(a) == digit(b),
    ensures
        a == b,
{
}

proof fn lemma_decimal_len(n: nat)
    ensures
        n < 10 ==> decimal(n).len() == 1,
        n >= 10 ==> decimal(n).len() >= 2,
    decreases n,
{
    if n >= 10 {
        lemma_decimal_len(n / 10);
    }
}

/// Different numbers are written differently.
pub proof fn lemma_decimal_injective(a: nat, b: nat)
    requires
        decimal(a) == decimal(b),
    ensures
        a == b,
    decreases a,
{
    lemma_decimal_len(a);
    lemma_decimal_len(b);
    if a < 10 && b < 10 {
        assert(decimal(a)[0] == digit(a));
        assert(decimal(b)[0] == digit(b));
        lemma_digit_injective(a, b);
    } else if a >= 10 && b >= 10 {
        let da = decimal(a);
        let db = decimal(b);
        assert(da.last() == digit(a % 10));
        assert(db.last() == digit(b % 10));
        lemma_digit_injective(a % 10, b % 10);
        assert(da.drop_last() =~= decimal(a / 10));
        assert(db.drop_last() =~= decimal(b / 10));
        lemma_decimal_injective(a / 10, b / 10);
    }
}

/// The number a decimal digit stands for.
pub open spec fn digit_value(c: char) -> nat {
    if c == '1' {
        1
    } else if c == '2' {
        2
    } else if c == '3' {
        3
    } else if c == '4' {
        4
    } else if c == '5' {
        5
    } else if c == '6' {
        6
    } else if c == '7' {
        7
    } else if c == '8' {
        8
    } else if c == '9' {
        9
    } else {
        0
    }
}

/// The number that decimal digits spell, the last digit counting ones.
pub open spec fn decimal_value(digits: Seq<char>) -> nat
    decreases digits.len(),
{
    if digits.len() == 0 {
        0
    } else {
        decimal_value(digits.drop_last()) * 10 + digit_value(digits.last())
    }
}

proof fn lemma_digit_value(d: nat)
    requires
        d < 10,
    ensures
        digit_value(digit(d)) == d,
{
    if d == 0 {
    } else if d == 1 {
    } else if d == 2 {
    } else if d == 3 {
    } else if d == 4 {
    } else if d == 5 {
    } else if d == 6 {
    } else if d == 7 {
    } else if d == 8 {
    } else {
        assert(d == 9);
    }
}

/// A number written in decimal reads back as that number, and starts with a
/// `0` only when it is zero.
pub proof fn lemma_decimal_value(n: nat)
    ensures
        decimal_value(decimal(n)) == n,
        decimal(n)[0] == '0' ==> n == 0,
    decreases n,
{
    if n < 10 {
        lemma_digit_value(n);
        assert(decimal(n).drop_last() =~= Seq::<char>::empty());
        assert(decimal(n).last() == digit(n));
        assert(decimal_value(decimal(n)) == decimal_value(decimal(n).drop_last()) * 10 + digit_value(decimal(n).last()));
    } else {
        lemma_digit_value(n % 10);
        lemma_decimal_value(n / 10);
        lemma_decimal_len(n / 10);
        let d = decimal(n);
        assert(d.drop_last() =~= decimal(n / 10));
        assert(d[0] == decimal(n / 10)[0]);
        assert(d.last() == digit(n % 10));
        assert(decimal_value(d) == decimal_value(d.drop_last()) * 10 + digit_value(d.last()));
        assert(decimal_value(d) == (n / 10) * 10 + n % 10);
        assert(n == (n / 10) * 10 + n % 10);
    }
}

/// Different positions get different replacement names.
pub proof fn lemma_generated_names_distinct(keyword: Seq<char>, prefix: Seq<char>, i: nat, j: nat)
    requires
        i != j,
    ensures
        generated_name(keyword, prefix, i) != generated_name(keyword, prefix, j),
{
    let head = keyword + seq!['_'] + prefix + seq!['_'];
    if generated_name(keyword, prefix, i) == generated_name(keyword, prefix, j) {
        let l = head.len() as int;
        assert(generated_name(keyword, prefix, i).skip(l) =~= decimal(i));
        assert(generated_name(keyword, prefix, j).skip(l) =~= decimal(j));
        lemma_decimal_injective(i, j);
    }
}

} // verus!
