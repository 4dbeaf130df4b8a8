//! The parsed form of a style sheet, and its mathematical model.
//!
//! Each type has a counterpart over `Seq<char>` (its deep view), which the
//! contracts speak of.
use vstd::prelude::*;

verus! {

/* -------- SELECTORS -------- */

/// How an attribute selector compares the attribute's value.
#[derive(Debug, Clone)]
pub enum AttributeRelation {
    /// `=`
    Equal(String),
    /// `~=`
    Containing(String),
    /// `|=`
    BeginsWithWord(String),
    /// `^=`
    BeginsWith(String),
    /// `$=`
    EndsWith(String),
    /// `*=`
    Contains(String),
}

pub enum SpecAttributeRelation {
    Equal(Seq<char>),
    Containing(Seq<char>),
    BeginsWithWord(Seq<char>),
    BeginsWith(Seq<char>),
    EndsWith(Seq<char>),
    Contains(Seq<char>),
}

impl DeepView for AttributeRelation {
    type V = SpecAttributeRelation;

    open spec fn deep_view(&self) -> SpecAttributeRelation {
        match self {
            AttributeRelation::Equal(v) => SpecAttributeRelation::Equal(v@),
            AttributeRelation::Containing(v) => SpecAttributeRelation::Containing(v@),
            AttributeRelation::BeginsWithWord(v) => SpecAttributeRelation::BeginsWithWord(v@),
            AttributeRelation::BeginsWith(v) => SpecAttributeRelation::BeginsWith(v@),
            AttributeRelation::EndsWith(v) => SpecAttributeRelation::EndsWith(v@),
            AttributeRelation::Contains(v) => SpecAttributeRelation::Contains(v@),
        }
    }
}

/// The relation written with `symbol`, comparing with `value`; `None` for a
/// symbol that is none of `=`, `~=`, `|=`, `^=`, `$=`, `*=`.
pub open spec fn spec_relation_from(symbol: Seq<char>, value: Seq<char>) -> Option<SpecAttributeRelation> {
    if symbol == seq!['='] {
        Some(SpecAttributeRelation::Equal(value))
    } else if symbol == seq!['~', '='] {
        Some(SpecAttributeRelation::Containing(value))
    } else if symbol == seq!['|', '='] {
        Some(SpecAttributeRelation::BeginsWithWord(value))
    } else if symbol == seq!['^', '='] {
        Some(SpecAttributeRelation::BeginsWith(value))
    } else if symbol == seq!['$', '='] {
        Some(SpecAttributeRelation::EndsWith(value))
    } else if symbol == seq!['*', '='] {
        Some(SpecAttributeRelation::Contains(value))
    } else {
        None
    }
}

/// The symbol a relation is written with.
pub open spec fn relation_symbol(r: SpecAttributeRelation) -> Seq<char> {
    match r {
        SpecAttributeRelation::Equal(_) => seq!['='],
        SpecAttributeRelation::Containing(_) => seq!['~', '='],
        SpecAttributeRelation::BeginsWithWord(_) => seq!['|', '='],
        SpecAttributeRelation::BeginsWith(_) => seq!['^', '='],
        SpecAttributeRelation::EndsWith(_) => seq!['$', '='],
        SpecAttributeRelation::Contains(_) => seq!['*', '='],
    }
}

/// The value a relation compares with.
pub open spec fn relation_value(r: SpecAttributeRelation) -> Seq<char> {
    match r {
        SpecAttributeRelation::Equal(v) => v,
        SpecAttributeRelation::Containing(v) => v,
        SpecAttributeRelation::BeginsWithWord(v) => v,
        SpecAttributeRelation::BeginsWith(v) => v,
        SpecAttributeRelation::EndsWith(v) => v,
        SpecAttributeRelation::Contains(v) => v,
    }
}

/// How a relation is written in CSS: its symbol, then its value.
pub open spec fn relation_text(r: SpecAttributeRelation) -> Seq<char> {
    relation_symbol(r) + relation_value(r)
}

impl AttributeRelation {
    pub fn from_strings(s1: &str, s2: String) -> (res: Option<AttributeRelation>)
        ensures
            res.deep_view() == spec_relation_from(s1@, s2@),
    {
        let n = s1.unicode_len();
        if n == 1 {
            if s1.get_char(0) == '=' {
                proof {
                    assert(s1@ =~= seq!['=']);
                }
                return Some(AttributeRelation::Equal(s2));
            }
            return None;
        }
        if n != 2 || s1.get_char(1) != '=' {
            proof {
                if s1@.len() == 2 {
                    assert(s1@[1] != seq!['~', '='][1]);
                }
            }
            return None;
        }
        let c = s1.get_char(0);
        proof {
            assert(s1@ =~= seq![c, '=']);
        }
        if c == '~' {
            Some(AttributeRelation::Containing(s2))
        } else if c == '|' {
            Some(AttributeRelation::BeginsWithWord(s2))
        } else if c == '^' {
            Some(AttributeRelation::BeginsWith(s2))
        } else if c == '$' {
            Some(AttributeRelation::EndsWith(s2))
        } else if c == '*' {
            Some(AttributeRelation::Contains(s2))
        } else {
            proof {
                assert(seq![c, '='][0] == c);
            }
            None
        }
    }

    /// How the relation is written in CSS, e.g. `~="warning"`.
    pub fn to_string(&self) -> (res: String)
        ensures
            res@ == relation_text(self.deep_view()),
    {
        let (symbol, value) = match self {
            AttributeRelation::Equal(v) => {
                proof { reveal_strlit("="); }
                ("=", v)
            },
            AttributeRelation::Containing(v) => {
                proof { reveal_strlit("~="); }
                ("~=", v)
            },
            AttributeRelation::BeginsWithWord(v) => {
                proof { reveal_strlit("|="); }
                ("|=", v)
            },
            AttributeRelation::BeginsWith(v) => {
                proof { reveal_strlit("^="); }
                ("^=", v)
            },
            AttributeRelation::EndsWith(v) => {
                proof { reveal_strlit("$="); }
                ("$=", v)
            },
            AttributeRelation::Contains(v) => {
                proof { reveal_strlit("*="); }
                ("*=", v)
            },
        };
        let mut res = String::from_str(symbol);
        res.append(value.as_str());
        res
    }
}

/// An attribute selector, like `[type]` or `[type="text"]`.
#[derive(Debug, Clone)]
pub struct AttributeModifier {
    pub attribute: String,
    pub relation: Option<AttributeRelation>,
}

pub struct SpecAttributeModifier {
    pub attribute: Seq<char>,
    pub relation: Option<SpecAttributeRelation>,
}

impl DeepView for AttributeModifier {
    type V = SpecAttributeModifier;

    open spec fn deep_view(&self) -> SpecAttributeModifier {
        SpecAttributeModifier { attribute: self.attribute@, relation: self.relation.deep_view() }
    }
}

/// How an attribute selector is written in CSS: `[`, the attribute, the
/// relation if any, `]`.
pub open spec fn attribute_text(a: SpecAttributeModifier) -> Seq<char> {
    seq!['['] + a.attribute + match a.relation {
        Some(r) => relation_text(r),
        None => Seq::empty(),
    } + seq![']']
}

impl AttributeModifier {
    pub fn to_string(&self) -> (res: String)
        ensures
            res@ == attribute_text(self.deep_view()),
    {
        proof {
            reveal_strlit("[");
            reveal_strlit("]");
        }
        let mut res = String::from_str("[");
        res.append(self.attribute.as_str());
        match &self.relation {
            Some(r) => {
                let text = r.to_string();
                res.append(text.as_str());
            },
            None => {},
        }
        res.append("]");
        proof {
            assert(res@ =~= attribute_text(self.deep_view()));
        }
        res
    }
}

/// What follows the element name in a simple selector: `.class`, `#id` or
/// `[attribute]`.
#[derive(Debug, Clone)]
pub enum Modifier {
    Class(String),
    Id(String),
    Attribute(AttributeModifier),
}

pub enum SpecModifier {
    Class(Seq<char>),
    Id(Seq<char>),
    Attribute(SpecAttributeModifier),
}

impl DeepView for Modifier {
    type V = SpecModifier;

    open spec fn deep_view(&self) -> SpecModifier {
        match self {
            Modifier::Class(c) => SpecModifier::Class(c@),
            Modifier::Id(i) => SpecModifier::Id(i@),
            Modifier::Attribute(a) => SpecModifier::Attribute(a.deep_view()),
        }
    }
}

/// A simple selector, like `body.some_class#some_id[some_attribute]`.
#[derive(Debug, Clone)]
pub struct Selector {
    pub element: Option<String>,
    pub modifiers: Vec<Modifier>,
}

pub struct SpecSelector {
    pub element: Option<Seq<char>>,
    pub modifiers: Seq<SpecModifier>,
}

impl DeepView for Selector {
    type V = SpecSelector;

    open spec fn deep_view(&self) -> SpecSelector {
        SpecSelector { element: self.element.deep_view(), modifiers: self.modifiers.deep_view() }
    }
}

/* -------- PROPERTIES, RULES (putting it all together) -------- */

/// A rule: selectors, then a block of properties and nested rules.
///
/// `nested_selector_list` is like `body .foo, span`: each entry is a list of
/// simple selectors, each of them inside the one before.
#[derive(Debug)]
pub struct Rule {
    pub nested_selector_list: Vec<Vec<Selector>>,
    pub property_block: PropertyBlock,
}

/// The inside of a rule's braces: (name, value) pairs of properties, and the
/// rules nested in it. `parse_rule` yields properties with distinct names.
#[derive(Debug)]
pub struct PropertyBlock {
    pub properties: Vec<(String, String)>,
    pub nested_rules: Vec<Rule>,
}

/// What a rule's braces hold, one item at a time.
#[derive(Debug)]
pub enum RuleOrProperty {
    Rule(Rule),
    Property((String, String)),
}

/// A whole style sheet.
#[derive(Debug)]
pub struct RuleSet(pub Vec<Rule>);

pub struct SpecRule {
    pub selectors: Seq<Seq<SpecSelector>>,
    pub properties: Seq<(Seq<char>, Seq<char>)>,
    pub nested_rules: Seq<SpecRule>,
}

pub enum SpecRuleOrProperty {
    Rule(SpecRule),
    Property((Seq<char>, Seq<char>)),
}

/// The model of a rule, nested rules included.
pub open spec fn rule_dv(r: Rule) -> SpecRule
    decreases r,
{
    let nested = r.property_block.nested_rules@;
    SpecRule {
        selectors: r.nested_selector_list.deep_view(),
        properties: r.property_block.properties.deep_view(),
        nested_rules: Seq::new(
            nested.len(),
            |i: int|
                if 0 <= i < nested.len() {
                    rule_dv(nested[i])
                } else {
                    SpecRule { selectors: Seq::empty(), properties: Seq::empty(), nested_rules: Seq::empty() }
                },
        ),
    }
}

impl DeepView for Rule {
    type V = SpecRule;

    open spec fn deep_view(&self) -> SpecRule {
        rule_dv(*self)
    }
}

impl DeepView for RuleOrProperty {
    type V = SpecRuleOrProperty;

    open spec fn deep_view(&self) -> SpecRuleOrProperty {
        match self {
            RuleOrProperty::Rule(r) => SpecRuleOrProperty::Rule(r.deep_view()),
            RuleOrProperty::Property(p) => SpecRuleOrProperty::Property(p.deep_view()),
        }
    }
}

impl DeepView for RuleSet {
    type V = Seq<SpecRule>;

    open spec fn deep_view(&self) -> Seq<SpecRule> {
        self.0.deep_view()
    }
}

/// The nested rules of a rule, by their models.
pub proof fn lemma_nested_rules_dv(r: Rule)
    ensures
        rule_dv(r).nested_rules == r.property_block.nested_rules.deep_view(),
        rule_dv(r).selectors == r.nested_selector_list.deep_view(),
        rule_dv(r).properties == r.property_block.properties.deep_view(),
{
    assert(rule_dv(r).nested_rules =~= r.property_block.nested_rules.deep_view());
}

} // verus!
