//! Writing a style sheet back out, with class and id names replaced.
use crate::names::{
    has_key, lookup, lookup_name, modifier_names, nested_selector_has, rule_has, rule_set_has, selector_has,
    selector_list_has, NameKind, NameMap,
};
use crate::text::{join, join_strings, lemma_contains_part, lemma_contains_trans, lemma_join_contains, text_contains};
use crate::types::{
    attribute_text, lemma_nested_rules_dv, Modifier, Rule, RuleSet, Selector, SpecModifier, SpecRule,
    SpecSelector,
};
use vstd::prelude::*;

verus! {

/// A map from names to their replacements, by its model.
pub type NameSeq = Seq<(Seq<char>, Seq<char>)>;

/// A modifier as CSS: a class or an id under its replacement name, an
/// attribute selector as written.
pub open spec fn modifier_css(m: SpecModifier, classes: NameSeq, ids: NameSeq) -> Seq<char> {
    match m {
        SpecModifier::Class(c) => seq!['.'] + lookup(classes, c),
        SpecModifier::Id(i) => seq!['#'] + lookup(ids, i),
        SpecModifier::Attribute(a) => attribute_text(a),
    }
}

/// A simple selector as CSS: the element name if any, then the modifiers.
pub open spec fn selector_css(s: SpecSelector, classes: NameSeq, ids: NameSeq) -> Seq<char> {
    (match s.element {
        Some(e) => e,
        None => Seq::empty(),
    }) + join(s.modifiers.map_values(|m: SpecModifier| modifier_css(m, classes, ids)), Seq::empty())
}

/// Every class and id the selector uses has a replacement.
pub open spec fn selector_names_mapped(s: SpecSelector, classes: NameSeq, ids: NameSeq) -> bool {
    &&& forall|n: Seq<char>| selector_has(s, NameKind::Class, n) ==> #[trigger] has_key(classes, n)
    &&& forall|n: Seq<char>| selector_has(s, NameKind::Id, n) ==> #[trigger] has_key(ids, n)
}

/// Every class and id the rule uses, nested rules included, has a
/// replacement.
pub open spec fn rule_names_mapped(r: SpecRule, classes: NameSeq, ids: NameSeq) -> bool {
    &&& forall|n: Seq<char>| rule_has(r, NameKind::Class, n) ==> #[trigger] has_key(classes, n)
    &&& forall|n: Seq<char>| rule_has(r, NameKind::Id, n) ==> #[trigger] has_key(ids, n)
}

fn modifier_text(m: &Modifier, classes: &NameMap, ids: &NameMap) -> (res: String)
    requires
        m.deep_view() matches SpecModifier::Class(c) ==> has_key(classes.deep_view(), c),
        m.deep_view() matches SpecModifier::Id(i) ==> has_key(ids.deep_view(), i),
    ensures
        res@ == modifier_css(m.deep_view(), classes.deep_view(), ids.deep_view()),
{
    match m {
        Modifier::Class(class) => {
            proof {
                reveal_strlit(".");
            }
            let mut res = String::from_str(".");
            res.append(lookup_name(classes, class).as_str());
            res
        },
        Modifier::Id(id) => {
            proof {
                reveal_strlit("#");
            }
            let mut res = String::from_str("#");
            res.append(lookup_name(ids, id).as_str());
            res
        },
        Modifier::Attribute(attr) => attr.to_string(),
    }
}

impl Selector {
    /// The selector as CSS, each class and id under its replacement name.
    pub fn transform_classes_and_ids(&self, classes: &NameMap, ids: &NameMap) -> (res: String)
        requires
            selector_names_mapped(self.deep_view(), classes.deep_view(), ids.deep_view()),
        ensures
            res@ == selector_css(self.deep_view(), classes.deep_view(), ids.deep_view()),
    {
        let ghost sel = self.deep_view();
        let ghost cl = classes.deep_view();
        let ghost id = ids.deep_view();
        let mut parts: Vec<String> = Vec::new();
        let mut k: usize = 0;
        while k < self.modifiers.len()
            invariant
                sel == self.deep_view(),
                cl == classes.deep_view(),
                id == ids.deep_view(),
                selector_names_mapped(sel, cl, id),
                k <= sel.modifiers.len(),
                parts.deep_view() == sel.modifiers.take(k as int).map_values(|m: SpecModifier| modifier_css(m, cl, id)),
            decreases sel.modifiers.len() - k,
        {
            let ghost before = parts.deep_view();
            proof {
                let m = sel.modifiers[k as int];
                assert(m == self.modifiers@[k as int].deep_view());
                if let SpecModifier::Class(c) = m {
                    assert(modifier_names(m, NameKind::Class, c));
                    assert(selector_has(sel, NameKind::Class, c));
                }
                if let SpecModifier::Id(i) = m {
                    assert(modifier_names(m, NameKind::Id, i));
                    assert(selector_has(sel, NameKind::Id, i));
                }
            }
            let text = modifier_text(&self.modifiers[k], classes, ids);
            parts.push(text);
            proof {
                assert(parts.deep_view() =~= before.push(text@));
                assert(sel.modifiers.take(k + 1).map_values(|m: SpecModifier| modifier_css(m, cl, id))
                    =~= before.push(modifier_css(sel.modifiers[k as int], cl, id)));
            }
            k = k + 1;
        }
        proof {
            assert(sel.modifiers.take(k as int) =~= sel.modifiers);
            reveal_strlit("");
            assert(""@ =~= Seq::<char>::empty());
        }
        let mut res = match &self.element {
            Some(element) => element.clone(),
            None => String::new(),
        };
        let modifiers_text = join_strings(&parts, "");
        res.append(modifiers_text.as_str());
        res
    }
}

/// A nested selector as CSS: its simple selectors separated by spaces.
pub open spec fn nested_selector_css(ns: Seq<SpecSelector>, classes: NameSeq, ids: NameSeq) -> Seq<char> {
    join(ns.map_values(|s: SpecSelector| selector_css(s, classes, ids)), seq![' '])
}

/// Every parent selector followed by every own selector, a space between
/// them: all own selectors after the first parent, then after the second, ...
pub open spec fn combine_selectors(parents: Seq<Seq<char>>, own: Seq<Seq<char>>) -> Seq<Seq<char>>
    decreases parents.len(),
{
    if parents.len() == 0 {
        Seq::empty()
    } else {
        combine_selectors(parents.drop_last(), own) + own.map_values(
            |o: Seq<char>| parents.last() + seq![' '] + o,
        )
    }
}

/// Combining pairs each parent selector with each own selector: one selector
/// per pair, all of the first parent's pairs first, each the parent, a space,
/// and the own selector.
pub proof fn lemma_combine_selectors(parents: Seq<Seq<char>>, own: Seq<Seq<char>>)
    ensures
        combine_selectors(parents, own).len() == parents.len() * own.len(),
        forall|i: int, j: int|
            #![trigger parents[i], own[j]]
            0 <= i < parents.len() && 0 <= j < own.len()
                ==> combine_selectors(parents, own)[i * own.len() + j] == parents[i] + seq![' '] + own[j],
    decreases parents.len(),
{
    let n = parents.len() as int;
    let m = own.len() as int;
    if n > 0 {
        let init = parents.drop_last();
        lemma_combine_selectors(init, own);
        let first = combine_selectors(init, own);
        let rest = own.map_values(|o: Seq<char>| parents.last() + seq![' '] + o);
        assert((n - 1) * m + m == n * m) by (nonlinear_arith);
        assert forall|i: int, j: int|
            #![trigger parents[i], own[j]]
            0 <= i < n && 0 <= j < m
            implies combine_selectors(parents, own)[i * m + j] == parents[i] + seq![' '] + own[j] by {
            if i < n - 1 {
                assert(i * m + j < (n - 1) * m) by (nonlinear_arith)
                    requires
                        0 <= i < n - 1,
                        0 <= j < m,
                ;
                assert(0 <= i * m) by (nonlinear_arith)
                    requires
                        0 <= i,
                        0 <= m,
                ;
                assert(init[i] == parents[i]);
                assert(first[i * m + j] == init[i] + seq![' '] + own[j]);
                assert((first + rest)[i * m + j] == first[i * m + j]);
            } else {
                assert(i * m + j == (n - 1) * m + j);
                assert((first + rest)[(n - 1) * m + j] == rest[j]);
            }
        }
    }
}

/// A property as CSS: `name: value;`.
pub open spec fn property_css(p: (Seq<char>, Seq<char>)) -> Seq<char> {
    p.0 + seq![':', ' '] + p.1 + seq![';']
}

/// A property block as CSS: the properties one per line, between braces
/// that stand on lines of their own.
pub open spec fn block_css(properties: Seq<(Seq<char>, Seq<char>)>) -> Seq<char> {
    seq!['{', '\n'] + join(properties.map_values(|p: (Seq<char>, Seq<char>)| property_css(p)), seq!['\n']) + seq!['\n', '}']
}

/// The own selectors of a rule, as CSS.
pub open spec fn own_selectors_css(r: SpecRule, classes: NameSeq, ids: NameSeq) -> Seq<Seq<char>> {
    r.selectors.map_values(|ns: Seq<SpecSelector>| nested_selector_css(ns, classes, ids))
}

/// The nested rules of a rule as CSS, each under the given selectors.
pub open spec fn nested_rules_css(r: SpecRule, classes: NameSeq, ids: NameSeq, combined: Seq<Seq<char>>) -> Seq<Seq<char>>
    decreases r, 0nat,
{
    Seq::new(
        r.nested_rules.len(),
        |i: int|
            if 0 <= i < r.nested_rules.len() {
                rule_css(r.nested_rules[i], classes, ids, combined)
            } else {
                Seq::empty()
            },
    )
}

/// A rule as CSS, under the given parent selectors: its selectors combined
/// with the parents' and separated by `, `, its property block, then each
/// nested rule under the combined selectors.
pub open spec fn rule_css(r: SpecRule, classes: NameSeq, ids: NameSeq, parents: Seq<Seq<char>>) -> Seq<char>
    decreases r, 1nat,
{
    let combined = combine_selectors(parents, own_selectors_css(r, classes, ids));
    join(combined, seq![',', ' ']) + block_css(r.properties) + join(nested_rules_css(r, classes, ids, combined), Seq::empty())
}

/// A style sheet as CSS: its rules one after the other, each under a single
/// empty parent selector.
pub open spec fn rule_set_css(rules: Seq<SpecRule>, classes: NameSeq, ids: NameSeq) -> Seq<char> {
    join(rules.map_values(|r: SpecRule| rule_css(r, classes, ids, seq![Seq::empty()])), Seq::empty())
}

fn nested_selector_text(nested: &Vec<Selector>, classes: &NameMap, ids: &NameMap) -> (res: String)
    requires
        forall|n: Seq<char>| nested_selector_has(nested.deep_view(), NameKind::Class, n) ==> #[trigger] has_key(classes.deep_view(), n),
        forall|n: Seq<char>| nested_selector_has(nested.deep_view(), NameKind::Id, n) ==> #[trigger] has_key(ids.deep_view(), n),
    ensures
        res@ == nested_selector_css(nested.deep_view(), classes.deep_view(), ids.deep_view()),
{
    let ghost ns = nested.deep_view();
    let ghost cl = classes.deep_view();
    let ghost id = ids.deep_view();
    let mut parts: Vec<String> = Vec::new();
    let mut j: usize = 0;
    while j < nested.len()
        invariant
            ns == nested.deep_view(),
            cl == classes.deep_view(),
            id == ids.deep_view(),
            forall|n: Seq<char>| nested_selector_has(ns, NameKind::Class, n) ==> #[trigger] has_key(cl, n),
            forall|n: Seq<char>| nested_selector_has(ns, NameKind::Id, n) ==> #[trigger] has_key(id, n),
            j <= ns.len(),
            parts.deep_view() == ns.take(j as int).map_values(|s: SpecSelector| selector_css(s, cl, id)),
        decreases ns.len() - j,
    {
        let ghost before = parts.deep_view();
        proof {
            assert(ns[j as int] == nested@[j as int].deep_view());
            assert forall|n: Seq<char>| selector_has(ns[j as int], NameKind::Class, n) implies #[trigger] has_key(cl, n) by {
                assert(nested_selector_has(ns, NameKind::Class, n));
            }
            assert forall|n: Seq<char>| selector_has(ns[j as int], NameKind::Id, n) implies #[trigger] has_key(id, n) by {
                assert(nested_selector_has(ns, NameKind::Id, n));
            }
        }
        let text = nested[j].transform_classes_and_ids(classes, ids);
        parts.push(text);
        proof {
            assert(parts.deep_view() =~= before.push(text@));
            assert(ns.take(j + 1).map_values(|s: SpecSelector| selector_css(s, cl, id))
                =~= before.push(selector_css(ns[j as int], cl, id)));
        }
        j = j + 1;
    }
    proof {
        assert(ns.take(j as int) =~= ns);
        reveal_strlit(" ");
        assert(" "@ =~= seq![' ']);
    }
    join_strings(&parts, " ")
}

fn combine_selector_texts(parents: &Vec<String>, own: &Vec<String>) -> (res: Vec<String>)
    ensures
        res.deep_view() == combine_selectors(parents.deep_view(), own.deep_view()),
{
    let ghost ps = parents.deep_view();
    let ghost os = own.deep_view();
    let mut combined: Vec<String> = Vec::new();
    let mut i: usize = 0;
    proof {
        assert(ps.take(0) =~= Seq::<Seq<char>>::empty());
        assert(combined.deep_view() =~= Seq::<Seq<char>>::empty());
    }
    while i < parents.len()
        invariant
            ps == parents.deep_view(),
            os == own.deep_view(),
            i <= ps.len(),
            combined.deep_view() == combine_selectors(ps.take(i as int), os),
        decreases ps.len() - i,
    {
        let ghost start = combined.deep_view();
        let ghost parent = ps[i as int];
        assert(parent == parents@[i as int]@);
        let mut j: usize = 0;
        proof {
            assert(start =~= start + os.take(0).map_values(|o: Seq<char>| parent + seq![' '] + o));
        }
        while j < own.len()
            invariant
                ps == parents.deep_view(),
                os == own.deep_view(),
                i < ps.len(),
                parent == ps[i as int],
                parent == parents@[i as int]@,
                j <= os.len(),
                combined.deep_view() == start + os.take(j as int).map_values(|o: Seq<char>| parent + seq![' '] + o),
            decreases os.len() - j,
        {
            proof {
                reveal_strlit(" ");
            }
            let mut v1 = parents[i].clone();
            v1.append(" ");
            v1.append(own[j].as_str());
            proof {
                assert(" "@ =~= seq![' ']);
                assert(os[j as int] == own@[j as int]@);
                assert(v1@ =~= parent + seq![' '] + os[j as int]);
            }
            let ghost before = combined.deep_view();
            combined.push(v1);
            proof {
                assert(combined.deep_view() =~= before.push(v1@));
                assert(os.take(j + 1).map_values(|o: Seq<char>| parent + seq![' '] + o)
                    =~= os.take(j as int).map_values(|o: Seq<char>| parent + seq![' '] + o).push(parent + seq![' '] + os[j as int]));
            }
            j = j + 1;
        }
        proof {
            assert(os.take(j as int) =~= os);
            let next = ps.take(i + 1);
            assert(next.drop_last() =~= ps.take(i as int));
            assert(next.last() == parent);
        }
        i = i + 1;
    }
    proof {
        assert(ps.take(i as int) =~= ps);
    }
    combined
}

fn property_block_text(properties: &Vec<(String, String)>) -> (res: String)
    ensures
        res@ == block_css(properties.deep_view()),
{
    let ghost props = properties.deep_view();
    let mut lines: Vec<String> = Vec::new();
    let mut i: usize = 0;
    while i < properties.len()
        invariant
            props == properties.deep_view(),
            i <= props.len(),
            lines.deep_view() == props.take(i as int).map_values(|p: (Seq<char>, Seq<char>)| property_css(p)),
        decreases props.len() - i,
    {
        proof {
            reveal_strlit(": ");
            reveal_strlit(";");
        }
        proof {
            assert(": "@ =~= seq![':', ' ']);
            assert(";"@ =~= seq![';']);
        }
        let mut line = properties[i].0.clone();
        line.append(": ");
        line.append(properties[i].1.as_str());
        line.append(";");
        let ghost before = lines.deep_view();
        lines.push(line);
        proof {
            assert(props[i as int] == (properties@[i as int].0@, properties@[i as int].1@));
            assert(line@ =~= property_css(props[i as int]));
            assert(lines.deep_view() =~= before.push(line@));
            assert(props.take(i + 1).map_values(|p: (Seq<char>, Seq<char>)| property_css(p))
                =~= before.push(property_css(props[i as int])));
        }
        i = i + 1;
    }
    proof {
        assert(props.take(i as int) =~= props);
        reveal_strlit("\n");
        reveal_strlit("{\n");
        reveal_strlit("\n}");
        assert("\n"@ =~= seq!['\n']);
        assert("{\n"@ =~= seq!['{', '\n']);
        assert("\n}"@ =~= seq!['\n', '}']);
    }
    let body = join_strings(&lines, "\n");
    let mut res = String::from_str("{\n");
    res.append(body.as_str());
    res.append("\n}");
    proof {
        assert(res@ =~= block_css(props));
    }
    res
}

impl Rule {
    /// The rule as CSS under the given parent selectors, each class and id
    /// under its replacement name.
    pub fn as_css_string(&self, classes: &NameMap, ids: &NameMap, parent_selectors: &Vec<String>) -> (res: String)
        requires
            rule_names_mapped(self.deep_view(), classes.deep_view(), ids.deep_view()),
        ensures
            res@ == rule_css(self.deep_view(), classes.deep_view(), ids.deep_view(), parent_selectors.deep_view()),
        decreases self,
    {
        let ghost r = self.deep_view();
        let ghost cl = classes.deep_view();
        let ghost id = ids.deep_view();
        proof {
            lemma_nested_rules_dv(*self);
        }
        let mut selectors: Vec<String> = Vec::new();
        let mut i: usize = 0;
        while i < self.nested_selector_list.len()
            invariant
                r == self.deep_view(),
                r.selectors == self.nested_selector_list.deep_view(),
                cl == classes.deep_view(),
                id == ids.deep_view(),
                rule_names_mapped(r, cl, id),
                i <= r.selectors.len(),
                selectors.deep_view() == r.selectors.take(i as int).map_values(
                    |ns: Seq<SpecSelector>| nested_selector_css(ns, cl, id),
                ),
            decreases r.selectors.len() - i,
        {
            let ghost ns = r.selectors[i as int];
            proof {
                assert(ns == self.nested_selector_list@[i as int].deep_view());
                assert forall|n: Seq<char>| nested_selector_has(ns, NameKind::Class, n) implies #[trigger] has_key(cl, n) by {
                    assert(selector_list_has(r.selectors, NameKind::Class, n));
                    assert(rule_has(r, NameKind::Class, n));
                }
                assert forall|n: Seq<char>| nested_selector_has(ns, NameKind::Id, n) implies #[trigger] has_key(id, n) by {
                    assert(selector_list_has(r.selectors, NameKind::Id, n));
                    assert(rule_has(r, NameKind::Id, n));
                }
            }
            let text = nested_selector_text(&self.nested_selector_list[i], classes, ids);
            let ghost before = selectors.deep_view();
            selectors.push(text);
            proof {
                assert(selectors.deep_view() =~= before.push(text@));
                assert(r.selectors.take(i + 1).map_values(|ns: Seq<SpecSelector>| nested_selector_css(ns, cl, id))
                    =~= before.push(nested_selector_css(ns, cl, id)));
            }
            i = i + 1;
        }
        proof {
            assert(r.selectors.take(i as int) =~= r.selectors);
        }
        let combined_selectors = combine_selector_texts(parent_selectors, &selectors);
        let ghost combined = combined_selectors.deep_view();
        let property_block_css = property_block_text(&self.property_block.properties);
        proof {
            reveal_strlit(", ");
            assert(", "@ =~= seq![',', ' ']);
        }
        let mut css_string = join_strings(&combined_selectors, ", ");
        css_string.append(property_block_css.as_str());
        let mut inner: Vec<String> = Vec::new();
        let mut k: usize = 0;
        while k < self.property_block.nested_rules.len()
            invariant
                r == self.deep_view(),
                r.nested_rules == self.property_block.nested_rules.deep_view(),
                cl == classes.deep_view(),
                id == ids.deep_view(),
                combined == combined_selectors.deep_view(),
                rule_names_mapped(r, cl, id),
                k <= r.nested_rules.len(),
                inner.deep_view() == Seq::new(k as nat, |j: int| rule_css(r.nested_rules[j], cl, id, combined)),
            decreases r.nested_rules.len() - k,
        {
            let ghost child = r.nested_rules[k as int];
            proof {
                assert(child == self.property_block.nested_rules@[k as int].deep_view());
                assert forall|n: Seq<char>| rule_has(child, NameKind::Class, n) implies #[trigger] has_key(cl, n) by {
                    assert(rule_has(r, NameKind::Class, n));
                }
                assert forall|n: Seq<char>| rule_has(child, NameKind::Id, n) implies #[trigger] has_key(id, n) by {
                    assert(rule_has(r, NameKind::Id, n));
                }
            }
            let text = self.property_block.nested_rules[k].as_css_string(classes, ids, &combined_selectors);
            let ghost before = inner.deep_view();
            proof {
                assert(text@ == rule_css(child, cl, id, combined));
            }
            inner.push(text);
            proof {
                assert(inner.deep_view() =~= before.push(text@));
                assert(inner.deep_view() =~= Seq::new((k + 1) as nat, |j: int| rule_css(r.nested_rules[j], cl, id, combined)));
            }
            k = k + 1;
        }
        proof {
            reveal_strlit("");
            assert(""@ =~= Seq::<char>::empty());
            assert(inner.deep_view() =~= nested_rules_css(r, cl, id, combined));
        }
        let inner_css = join_strings(&inner, "");
        let ghost head = css_string@;
        css_string.append(inner_css.as_str());
        proof {
            assert(selectors.deep_view() == own_selectors_css(r, cl, id));
            assert(head == join(combined, seq![',', ' ']) + block_css(r.properties));
            assert(css_string@ == head + inner_css@);
        }
        css_string
    }
}

/// Every class and id the style sheet uses has a replacement.
pub open spec fn rule_set_names_mapped(rules: Seq<SpecRule>, classes: NameSeq, ids: NameSeq) -> bool {
    &&& forall|n: Seq<char>| rule_set_has(rules, NameKind::Class, n) ==> #[trigger] has_key(classes, n)
    &&& forall|n: Seq<char>| rule_set_has(rules, NameKind::Id, n) ==> #[trigger] has_key(ids, n)
}

impl RuleSet {
    /// The style sheet as CSS, each class and id under its replacement name.
    pub fn as_css_string(&self, classes: &NameMap, ids: &NameMap) -> (res: String)
        requires
            rule_set_names_mapped(self.deep_view(), classes.deep_view(), ids.deep_view()),
        ensures
            res@ == rule_set_css(self.deep_view(), classes.deep_view(), ids.deep_view()),
    {
        let ghost rules = self.deep_view();
        let ghost cl = classes.deep_view();
        let ghost id = ids.deep_view();
        let mut parent: Vec<String> = Vec::new();
        parent.push(String::new());
        proof {
            assert(parent.deep_view() =~= seq![Seq::<char>::empty()]);
        }
        let mut parts: Vec<String> = Vec::new();
        let mut i: usize = 0;
        while i < self.0.len()
            invariant
                rules == self.deep_view(),
                cl == classes.deep_view(),
                id == ids.deep_view(),
                parent.deep_view() == seq![Seq::<char>::empty()],
                rule_set_names_mapped(rules, cl, id),
                i <= rules.len(),
                parts.deep_view() == rules.take(i as int).map_values(|r: SpecRule| rule_css(r, cl, id, seq![Seq::empty()])),
            decreases rules.len() - i,
        {
            let ghost rule = rules[i as int];
            proof {
                assert(rule == self.0@[i as int].deep_view());
                assert forall|n: Seq<char>| rule_has(rule, NameKind::Class, n) implies #[trigger] has_key(cl, n) by {
                    assert(rule_set_has(rules, NameKind::Class, n));
                }
                assert forall|n: Seq<char>| rule_has(rule, NameKind::Id, n) implies #[trigger] has_key(id, n) by {
                    assert(rule_set_has(rules, NameKind::Id, n));
                }
            }
            let text = self.0[i].as_css_string(classes, ids, &parent);
            let ghost before = parts.deep_view();
            parts.push(text);
            proof {
                assert(parts.deep_view() =~= before.push(text@));
                assert(rules.take(i + 1).map_values(|r: SpecRule| rule_css(r, cl, id, seq![Seq::empty()]))
                    =~= before.push(rule_css(rule, cl, id, seq![Seq::empty()])));
            }
            i = i + 1;
        }
        proof {
            assert(rules.take(i as int) =~= rules);
            reveal_strlit("");
            assert(""@ =~= Seq::<char>::empty());
        }
        join_strings(&parts, "")
    }
}

/// What `Rule::as_css_string` needs is exactly that every name that
/// `Rule::classes_and_ids` lists has a replacement.
pub proof fn lemma_rule_names_mapped_iff_listed(
    r: SpecRule,
    class_names: Seq<Seq<char>>,
    id_names: Seq<Seq<char>>,
    classes: NameSeq,
    ids: NameSeq,
)
    requires
        forall|n: Seq<char>| #[trigger] class_names.contains(n) <==> rule_has(r, NameKind::Class, n),
        forall|n: Seq<char>| #[trigger] id_names.contains(n) <==> rule_has(r, NameKind::Id, n),
    ensures
        rule_names_mapped(r, classes, ids) <==> (
            (forall|n: Seq<char>| #[trigger] class_names.contains(n) ==> has_key(classes, n))
            && (forall|n: Seq<char>| #[trigger] id_names.contains(n) ==> has_key(ids, n))),
{
    if rule_names_mapped(r, classes, ids) {
        assert forall|n: Seq<char>| #[trigger] class_names.contains(n) implies has_key(classes, n) by {
            assert(rule_has(r, NameKind::Class, n));
        }
        assert forall|n: Seq<char>| #[trigger] id_names.contains(n) implies has_key(ids, n) by {
            assert(rule_has(r, NameKind::Id, n));
        }
    }
    if (forall|n: Seq<char>| #[trigger] class_names.contains(n) ==> has_key(classes, n))
        && (forall|n: Seq<char>| #[trigger] id_names.contains(n) ==> has_key(ids, n)) {
        assert forall|n: Seq<char>| rule_has(r, NameKind::Class, n) implies #[trigger] has_key(classes, n) by {
            assert(class_names.contains(n));
        }
        assert forall|n: Seq<char>| rule_has(r, NameKind::Id, n) implies #[trigger] has_key(ids, n) by {
            assert(id_names.contains(n));
        }
    }
}

/// What `RuleSet::as_css_string` needs is exactly that every name that
/// `RuleSet::classes_and_ids` lists has a replacement.
pub proof fn lemma_rule_set_names_mapped_iff_listed(
    rules: Seq<SpecRule>,
    class_names: Seq<Seq<char>>,
    id_names: Seq<Seq<char>>,
    classes: NameSeq,
    ids: NameSeq,
)
    requires
        forall|n: Seq<char>| #[trigger] class_names.contains(n) <==> rule_set_has(rules, NameKind::Class, n),
        forall|n: Seq<char>| #[trigger] id_names.contains(n) <==> rule_set_has(rules, NameKind::Id, n),
    ensures
        rule_set_names_mapped(rules, classes, ids) <==> (
            (forall|n: Seq<char>| #[trigger] class_names.contains(n) ==> has_key(classes, n))
            && (forall|n: Seq<char>| #[trigger] id_names.contains(n) ==> has_key(ids, n))),
{
    if rule_set_names_mapped(rules, classes, ids) {
        assert forall|n: Seq<char>| #[trigger] class_names.contains(n) implies has_key(classes, n) by {
            assert(rule_set_has(rules, NameKind::Class, n));
        }
        assert forall|n: Seq<char>| #[trigger] id_names.contains(n) implies has_key(ids, n) by {
            assert(rule_set_has(rules, NameKind::Id, n));
        }
    }
    if (forall|n: Seq<char>| #[trigger] class_names.contains(n) ==> has_key(classes, n))
        && (forall|n: Seq<char>| #[trigger] id_names.contains(n) ==> has_key(ids, n)) {
        assert forall|n: Seq<char>| rule_set_has(rules, NameKind::Class, n) implies #[trigger] has_key(classes, n) by {
            assert(class_names.contains(n));
        }
        assert forall|n: Seq<char>| rule_set_has(rules, NameKind::Id, n) implies #[trigger] has_key(ids, n) by {
            assert(id_names.contains(n));
        }
    }
}

proof fn lemma_join_push(parts: Seq<Seq<char>>, last: Seq<char>)
    ensures
        join(parts.push(last), Seq::empty()) == join(parts, Seq::empty()) + last,
{
    let all = parts.push(last);
    assert(all.drop_last() =~= parts);
    if parts.len() == 0 {
        assert(join(all, Seq::empty()) == all[0]);
        assert(join(parts, Seq::empty()) + last =~= last);
    } else {
        assert(join(all, Seq::empty()) == join(parts, Seq::empty()) + Seq::<char>::empty() + last);
        assert(join(parts, Seq::empty()) + Seq::<char>::empty() =~= join(parts, Seq::empty()));
    }
}

proof fn lemma_join_concat(a: Seq<Seq<char>>, b: Seq<Seq<char>>)
    ensures
        join(a + b, Seq::empty()) == join(a, Seq::empty()) + join(b, Seq::empty()),
    decreases b.len(),
{
    if b.len() == 0 {
        assert(a + b =~= a);
        assert(join(a, Seq::empty()) + join(b, Seq::empty()) =~= join(a, Seq::empty()));
    } else {
        let init = b.drop_last();
        lemma_join_concat(a, init);
        lemma_join_push(a + init, b.last());
        lemma_join_push(init, b.last());
        assert((a + init).push(b.last()) =~= a + b);
        assert(init.push(b.last()) =~= b);
        assert(join(a, Seq::empty()) + join(init, Seq::empty()) + b.last()
            =~= join(a, Seq::empty()) + (join(init, Seq::empty()) + b.last()));
    }
}

/// A style sheet made of two parts is written as the first part, then the
/// second; an empty one is written as nothing.
pub proof fn lemma_rule_set_css_concat(a: Seq<SpecRule>, b: Seq<SpecRule>, classes: NameSeq, ids: NameSeq)
    ensures
        rule_set_css(a + b, classes, ids) == rule_set_css(a, classes, ids) + rule_set_css(b, classes, ids),
        rule_set_css(Seq::empty(), classes, ids) == Seq::<char>::empty(),
{
    let f = |r: SpecRule| rule_css(r, classes, ids, seq![Seq::empty()]);
    assert((a + b).map_values(f) =~= a.map_values(f) + b.map_values(f));
    lemma_join_concat(a.map_values(f), b.map_values(f));
    assert(Seq::<SpecRule>::empty().map_values(f) =~= Seq::<Seq<char>>::empty());
}

/// Does `path` lead from `r` down to one of its rules at some depth, each
/// step an index into the nested rules of the rule reached so far?
pub open spec fn is_path(r: SpecRule, path: Seq<int>) -> bool
    decreases path.len(),
{
    path.len() == 0 || (0 <= path[0] < r.nested_rules.len() && is_path(r.nested_rules[path[0]], path.drop_first()))
}

/// The rule that `path` leads to from `r`.
pub open spec fn descendant(r: SpecRule, path: Seq<int>) -> SpecRule
    decreases path.len(),
{
    if path.len() > 0 && 0 <= path[0] < r.nested_rules.len() {
        descendant(r.nested_rules[path[0]], path.drop_first())
    } else {
        r
    }
}

/// The selectors of the rule that `path` leads to, when `r` stands under
/// `parents`: at each step down, every selector so far followed by every own
/// selector of the rule reached, so that each holds a selector of every
/// ancestor in turn.
pub open spec fn chain_selectors(r: SpecRule, classes: NameSeq, ids: NameSeq, parents: Seq<Seq<char>>, path: Seq<int>) -> Seq<Seq<char>>
    decreases path.len(),
{
    let combined = combine_selectors(parents, own_selectors_css(r, classes, ids));
    if path.len() > 0 && 0 <= path[0] < r.nested_rules.len() {
        chain_selectors(r.nested_rules[path[0]], classes, ids, combined, path.drop_first())
    } else {
        combined
    }
}

/// A rule written out holds every rule nested in it, at any depth, under the
/// full chain of its ancestors' selectors: the selectors of the rule that
/// `path` leads to, each made of a parent selector and a selector of every
/// rule on the way down, separated by `, `, then that rule's property block.
pub proof fn lemma_rule_css_nested_chain(
    r: SpecRule,
    classes: NameSeq,
    ids: NameSeq,
    parents: Seq<Seq<char>>,
    path: Seq<int>,
)
    requires
        is_path(r, path),
    ensures
        text_contains(
            rule_css(r, classes, ids, parents),
            join(chain_selectors(r, classes, ids, parents, path), seq![',', ' '])
                + block_css(descendant(r, path).properties),
        ),
    decreases path.len(),
{
    let combined = combine_selectors(parents, own_selectors_css(r, classes, ids));
    let head = join(combined, seq![',', ' ']) + block_css(r.properties);
    let nested = nested_rules_css(r, classes, ids, combined);
    let tail = join(nested, Seq::empty());
    assert(rule_css(r, classes, ids, parents) == head + tail);
    if path.len() == 0 {
        lemma_contains_part(head, tail, Seq::empty());
    } else {
        let i = path[0];
        let child = r.nested_rules[i];
        lemma_rule_css_nested_chain(child, classes, ids, combined, path.drop_first());
        assert(nested[i] == rule_css(child, classes, ids, combined));
        lemma_join_contains(nested, i);
        lemma_contains_part(head, tail, Seq::empty());
        lemma_contains_trans(head + tail, tail, nested[i]);
        lemma_contains_trans(
            head + tail,
            nested[i],
            join(chain_selectors(child, classes, ids, combined, path.drop_first()), seq![',', ' '])
                + block_css(descendant(child, path.drop_first()).properties),
        );
    }
}

/// A style sheet written out holds each of its rules, and every rule nested
/// in one at any depth, under the full chain of selectors from the top-level
/// rule down, followed by that rule's property block.
pub proof fn lemma_rule_set_css_every_rule(
    rules: Seq<SpecRule>,
    classes: NameSeq,
    ids: NameSeq,
    i: int,
    path: Seq<int>,
)
    requires
        0 <= i < rules.len(),
        is_path(rules[i], path),
    ensures
        text_contains(
            rule_set_css(rules, classes, ids),
            join(chain_selectors(rules[i], classes, ids, seq![Seq::empty()], path), seq![',', ' '])
                + block_css(descendant(rules[i], path).properties),
        ),
{
    let f = |r: SpecRule| rule_css(r, classes, ids, seq![Seq::empty()]);
    let texts = rules.map_values(f);
    lemma_rule_css_nested_chain(rules[i], classes, ids, seq![Seq::empty()], path);
    lemma_join_contains(texts, i);
    lemma_contains_trans(
        rule_set_css(rules, classes, ids),
        texts[i],
        join(chain_selectors(rules[i], classes, ids, seq![Seq::empty()], path), seq![',', ' '])
            + block_css(descendant(rules[i], path).properties),
    );
}

} // verus!
