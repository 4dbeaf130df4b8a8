use scoped_css::names::{get_prefix, into_hashmap};
use scoped_css::rule::{parse_rule, parse_rule_set};
use scoped_css::scoped::{scope_css, CssError};
use scoped_css::tokens::{Delimiter, LineColumn, Spacing, Span, TokenTree};
use scoped_css::types::{Modifier, RuleSet, Selector};

fn line_column(l: proc_macro2::LineColumn) -> LineColumn {
    LineColumn { line: l.line, column: l.column }
}

fn convert(stream: proc_macro2::TokenStream) -> Vec<TokenTree> {
    stream
        .into_iter()
        .map(|tt| {
            let span = Span { start: line_column(tt.span().start()), end: line_column(tt.span().end()) };
            match tt {
                proc_macro2::TokenTree::Group(g) => TokenTree::Group {
                    delimiter: match g.delimiter() {
                        proc_macro2::Delimiter::Parenthesis => Delimiter::Parenthesis,
                        proc_macro2::Delimiter::Brace => Delimiter::Brace,
                        proc_macro2::Delimiter::Bracket => Delimiter::Bracket,
                        proc_macro2::Delimiter::None => Delimiter::Invisible,
                    },
                    stream: convert(g.stream()),
                    text: g.to_string(),
                    span,
                },
                proc_macro2::TokenTree::Ident(i) => TokenTree::Ident { name: i.to_string(), span },
                proc_macro2::TokenTree::Punct(p) => TokenTree::Punct {
                    ch: p.as_char(),
                    spacing: match p.spacing() {
                        proc_macro2::Spacing::Alone => Spacing::Alone,
                        proc_macro2::Spacing::Joint => Spacing::Joint,
                    },
                    span,
                },
                proc_macro2::TokenTree::Literal(l) => TokenTree::Literal { text: l.to_string(), span },
            }
        })
        .collect()
}

fn tokens(source: &str) -> Vec<TokenTree> {
    convert(source.parse().unwrap())
}


fn names(v: &[&str]) -> Vec<String> {
    v.iter().map(|s| s.to_string()).collect()
}

fn lookup<'a>(map: &'a [(String, String)], key: &str) -> Option<&'a str> {
    map.iter().find(|(k, _)| k == key).map(|(_, v)| v.as_str())
}

#[test]
fn readme_example_is_scoped() {
    let out = scope_css(&tokens(".my_class { color: red; }"), "p").unwrap();
    assert_eq!(out.classes, vec![("my_class".to_string(), "cl_p_0".to_string())]);
    assert!(out.ids.is_empty());
    assert_eq!(out.css, " .cl_p_0{\ncolor: red;\n}");
}

#[test]
fn classes_and_ids_get_their_own_names() {
    let out = scope_css(&tokens(".my_class { color: red; } #my_id { color: blue; }"), "18").unwrap();
    assert_eq!(lookup(&out.classes, "my_class"), Some("cl_18_0"));
    assert_eq!(lookup(&out.ids, "my_id"), Some("id_18_0"));
    assert_eq!(out.css, " .cl_18_0{\ncolor: red;\n} #id_18_0{\ncolor: blue;\n}");
}

#[test]
fn nested_rules_and_attributes() {
    let source = "body.my_app #some_id[some-attr=\"hello\"] { .nested_stuff_is_supported_too { color: blue; } }";
    let out = scope_css(&tokens(source), "p").unwrap();
    assert_eq!(
        out.classes,
        vec![
            ("my_app".to_string(), "cl_p_0".to_string()),
            ("nested_stuff_is_supported_too".to_string(), "cl_p_1".to_string()),
        ]
    );
    assert_eq!(out.ids, vec![("some_id".to_string(), "id_p_0".to_string())]);
    assert_eq!(
        out.css,
        " body.cl_p_0 #id_p_0[some-attr=\"hello\"]{\n\n} body.cl_p_0 #id_p_0[some-attr=\"hello\"] .cl_p_1{\ncolor: blue;\n}"
    );
}

#[test]
fn selector_lists_are_combined() {
    let out = scope_css(&tokens("h1, h2 { color: red; }"), "p").unwrap();
    assert_eq!(out.css, " h1,  h2{\ncolor: red;\n}");
    let out = scope_css(&tokens(".a, .b { .c { x: y; } }"), "p").unwrap();
    assert_eq!(out.css, " .cl_p_0,  .cl_p_1{\n\n} .cl_p_0 .cl_p_2,  .cl_p_1 .cl_p_2{\nx: y;\n}");
}

#[test]
fn property_names_and_values() {
    let t = tokens("a { background-color: blue; margin: 10px 20px; font-family: \"Foo\", serif; }");
    let (n, rule) = parse_rule(&t).unwrap();
    assert_eq!(n, 2);
    assert_eq!(
        rule.property_block.properties,
        vec![
            ("background-color".to_string(), "blue".to_string()),
            ("margin".to_string(), "10px 20px".to_string()),
            ("font-family".to_string(), "\"Foo\", serif".to_string()),
        ]
    );
}

#[test]
fn later_property_values_win() {
    let out = scope_css(&tokens("a { color: red; margin: 0; color: blue; }"), "p").unwrap();
    assert_eq!(out.css, " a{\ncolor: blue;\nmargin: 0;\n}");
}

#[test]
fn empty_value_is_not_a_property() {
    let t = tokens("a { color: ; }");
    assert!(parse_rule(&t).is_err());
}

#[test]
fn rule_needs_a_brace_group() {
    let t = tokens(".a");
    assert!(parse_rule(&t).is_err());
    let t = tokens(".a [b]");
    assert!(parse_rule(&t).is_err());
}

#[test]
fn left_over_tokens_are_refused() {
    assert_eq!(scope_css(&tokens(".a { color: red; } ;"), "p").err(), Some(CssError::LeftOverTokens));
    assert_eq!(scope_css(&tokens(";"), "p").err(), Some(CssError::LeftOverTokens));
}

#[test]
fn rule_set_parse_never_fails() {
    let (n, set) = parse_rule_set(&tokens("; .a { }")).unwrap();
    assert_eq!(n, 0);
    assert!(set.0.is_empty());
    let (n, set) = parse_rule_set(&tokens("")).unwrap();
    assert_eq!(n, 0);
    assert!(set.0.is_empty());
    let (n, set) = parse_rule_set(&tokens(".a { } .b { } ;")).unwrap();
    assert_eq!(n, 6);
    assert_eq!(set.0.len(), 2);
}

#[test]
fn empty_input_gives_empty_css() {
    let out = scope_css(&tokens(""), "p").unwrap();
    assert!(out.classes.is_empty());
    assert!(out.ids.is_empty());
    assert_eq!(out.css, "");
}

#[test]
fn names_are_listed_once() {
    let t = tokens(".a .b { .a #i { } } .b#i { }");
    let (_, set) = parse_rule_set(&t).unwrap();
    let (classes, ids) = set.classes_and_ids();
    assert_eq!(classes, names(&["a", "b"]));
    assert_eq!(ids, names(&["i"]));
    let (classes, ids) = set.0[1].classes_and_ids();
    assert_eq!(classes, names(&["b"]));
    assert_eq!(ids, names(&["i"]));
}

#[test]
fn replacement_names_count_in_decimal() {
    let items: Vec<String> = (0..12).map(|i| format!("c{}", i)).collect();
    let map = into_hashmap(&items, "77", "cl");
    assert_eq!(map.len(), 12);
    assert_eq!(map[0], ("c0".to_string(), "cl_77_0".to_string()));
    assert_eq!(map[10], ("c10".to_string(), "cl_77_10".to_string()));
    assert_eq!(map[11].1, "cl_77_11");
    let mut values: Vec<&String> = map.iter().map(|(_, v)| v).collect();
    values.sort();
    values.dedup();
    assert_eq!(values.len(), 12);
}

#[test]
fn selector_transform_replaces_names() {
    let selector = Selector {
        element: Some("div".to_string()),
        modifiers: vec![
            Modifier::Class("a".to_string()),
            Modifier::Id("b".to_string()),
            Modifier::Class("c".to_string()),
        ],
    };
    let classes = vec![("a".to_string(), "X".to_string()), ("c".to_string(), "Z".to_string())];
    let ids = vec![("b".to_string(), "Y".to_string())];
    assert_eq!(selector.transform_classes_and_ids(&classes, &ids), "div.X#Y.Z");
}

#[test]
fn rule_css_under_parents() {
    let (_, rule) = parse_rule(&tokens(".a { color: red; }")).unwrap();
    let classes = vec![("a".to_string(), "A".to_string())];
    let parents = names(&["p", "q"]);
    assert_eq!(rule.as_css_string(&classes, &vec![], &parents), "p .A, q .A{\ncolor: red;\n}");
    let set = RuleSet(vec![rule]);
    assert_eq!(set.as_css_string(&classes, &vec![]), " .A{\ncolor: red;\n}");
}

#[test]
fn many_names_stay_distinct() {
    let out = scope_css(&tokens(".a .b .c .d .e .f .g .h .i .j .k #a #b { }"), "9").unwrap();
    assert_eq!(out.classes.len(), 11);
    assert_eq!(lookup(&out.classes, "k"), Some("cl_9_10"));
    assert_eq!(lookup(&out.ids, "a"), Some("id_9_0"));
    let mut all: Vec<&String> = out.classes.iter().chain(out.ids.iter()).map(|(_, v)| v).collect();
    all.sort();
    all.dedup();
    assert_eq!(all.len(), 13);
}

#[test]
fn repeated_names_keep_one_entry() {
    let map = into_hashmap(&names(&["a", "b", "a"]), "p", "cl");
    assert_eq!(
        map,
        vec![("a".to_string(), "cl_p_2".to_string()), ("b".to_string(), "cl_p_1".to_string())]
    );
}

#[test]
fn prefix_is_a_decimal_hash_of_the_text() {
    let a = get_prefix(".a { color: red; }");
    assert_eq!(a, get_prefix(".a { color: red; }"));
    assert!(!a.is_empty());
    assert!(a.chars().all(|c| c.is_ascii_digit()));
    assert!(a == "0" || !a.starts_with('0'));
    assert_ne!(a, get_prefix(".b { color: red; }"));
}

#[test]
fn rule_set_css_is_the_rules_one_after_the_other() {
    let classes = vec![("a".to_string(), "A".to_string()), ("b".to_string(), "B".to_string())];
    let (_, both) = parse_rule_set(&tokens(".a { x: y; } .b { z: w; }")).unwrap();
    let (_, first) = parse_rule_set(&tokens(".a { x: y; }")).unwrap();
    let (_, second) = parse_rule_set(&tokens(".b { z: w; }")).unwrap();
    assert_eq!(
        both.as_css_string(&classes, &vec![]),
        first.as_css_string(&classes, &vec![]) + &second.as_css_string(&classes, &vec![])
    );
    assert_eq!(RuleSet(vec![]).as_css_string(&classes, &vec![]), "");
}
