use scoped_css::parser_types::ErrorKind;
use scoped_css::primitives::{
    parse_any, parse_group_with_delimiter, parse_grouped_puncts, parse_ident, parse_literal_or_ident,
    parse_punct,
};
use scoped_css::tokens::{Delimiter, LineColumn, Spacing, Span, TokenTree};
use scoped_css::types::{AttributeModifier, AttributeRelation, Modifier, Selector};
use scoped_css::util::{ensure_consumed, take_until_and_match, to_adjacency_vec};

fn line_column(l: proc_macro2::LineColumn) -> LineColumn {
    LineColumn { line: l.line, column: l.column }
}

fn convert(stream: proc_macro2::TokenStream) -> Vec<TokenTree> {
    stream
        .into_iter()
        .map(|tt| {
            let span = Span { start: line_column(tt.span().start()), end: line_column(tt.span().end()) };
            match tt {
                proc_macro2::TokenTree::Group(g) => TokenTree::Group {
                    delimiter: match g.delimiter() {
                        proc_macro2::Delimiter::Parenthesis => Delimiter::Parenthesis,
                        proc_macro2::Delimiter::Brace => Delimiter::Brace,
                        proc_macro2::Delimiter::Bracket => Delimiter::Bracket,
                        proc_macro2::Delimiter::None => Delimiter::Invisible,
                    },
                    stream: convert(g.stream()),
                    text: g.to_string(),
                    span,
                },
                proc_macro2::TokenTree::Ident(i) => TokenTree::Ident { name: i.to_string(), span },
                proc_macro2::TokenTree::Punct(p) => TokenTree::Punct {
                    ch: p.as_char(),
                    spacing: match p.spacing() {
                        proc_macro2::Spacing::Alone => Spacing::Alone,
                        proc_macro2::Spacing::Joint => Spacing::Joint,
                    },
                    span,
                },
                proc_macro2::TokenTree::Literal(l) => TokenTree::Literal { text: l.to_string(), span },
            }
        })
        .collect()
}

fn tokens(source: &str) -> Vec<TokenTree> {
    convert(source.parse().unwrap())
}

fn relation_text(r: &Option<AttributeRelation>) -> Option<String> {
    r.as_ref().map(|r| r.to_string())
}

#[test]
fn parse_ident_reads_a_name() {
    let t = tokens("color : red");
    assert_eq!(parse_ident(&t), Ok((1, "color".to_string())));
    assert_eq!(parse_ident(&t[1..]), Err(ErrorKind::TakeTill1));
    assert_eq!(parse_ident(&[]), Err(ErrorKind::Eof));
}

#[test]
fn parse_punct_checks_character_and_spacing() {
    let t = tokens(", ;");
    assert_eq!(parse_punct(&t, None, Some(',')), Ok((1, ',')));
    assert_eq!(parse_punct(&t, Some(Spacing::Alone), Some(',')), Ok((1, ',')));
    assert_eq!(parse_punct(&t, Some(Spacing::Joint), None), Err(ErrorKind::TakeTill1));
    assert_eq!(parse_punct(&t, None, Some(';')), Err(ErrorKind::TakeTill1));
    assert_eq!(parse_punct(&[], None, None), Err(ErrorKind::Eof));
}

#[test]
fn grouped_puncts_follow_joint_spacing() {
    let t = tokens("~= x");
    assert_eq!(parse_grouped_puncts(&t), Ok((2, vec!['~', '='])));
    let t = tokens("= x");
    assert_eq!(parse_grouped_puncts(&t), Ok((1, vec!['='])));
    let t = tokens("x");
    assert_eq!(parse_grouped_puncts(&t), Err(ErrorKind::TakeTill1));
}

#[test]
fn parse_any_gives_token_text() {
    let t = tokens("- 10px \"a\"");
    assert_eq!(parse_any(&t), Ok((1, "-".to_string())));
    assert_eq!(parse_any(&t[1..]), Ok((1, "10px".to_string())));
    assert_eq!(parse_any(&t[2..]), Ok((1, "\"a\"".to_string())));
    assert_eq!(parse_any(&[]), Err(ErrorKind::Eof));
}

#[test]
fn group_with_delimiter_yields_contents() {
    let t = tokens("{ a b } [c]");
    let (n, inner) = parse_group_with_delimiter(&t, Some(Delimiter::Brace)).unwrap();
    assert_eq!(n, 1);
    assert_eq!(inner.len(), 2);
    assert!(parse_group_with_delimiter(&t, Some(Delimiter::Bracket)).is_err());
    let (n, inner) = parse_group_with_delimiter(&t[1..], None).unwrap();
    assert_eq!(n, 1);
    assert_eq!(inner.len(), 1);
    assert_eq!(parse_group_with_delimiter(&t[..0], None).err(), Some(ErrorKind::Eof));
}

#[test]
fn literal_or_ident() {
    let t = tokens("\"hello\" world ,");
    assert_eq!(parse_literal_or_ident(&t), Ok((1, "\"hello\"".to_string())));
    assert_eq!(parse_literal_or_ident(&t[1..]), Ok((1, "world".to_string())));
    assert_eq!(parse_literal_or_ident(&t[2..]), Err(ErrorKind::TakeTill1));
}

#[test]
fn ensure_consumed_only_on_empty() {
    let t = tokens("a");
    assert_eq!(ensure_consumed(&t[1..]), Ok((0, ())));
    assert_eq!(ensure_consumed(&t), Err(ErrorKind::TakeTill1));
}

#[test]
fn adjacency_follows_spans() {
    let t = tokens("a.b c");
    assert_eq!(to_adjacency_vec(&t), vec![true, true, false]);
    assert_eq!(to_adjacency_vec(&[]), Vec::<bool>::new());
}

#[test]
fn take_until_finds_the_first_match() {
    let t = tokens("red blue ; green ;");
    let semicolon = scoped_css::primitives::PunctParser { spacing: None, ch: Some(';') };
    assert_eq!(take_until_and_match(&semicolon, &t), Ok((3, (2, ';'))));
    let t = tokens("red blue");
    assert_eq!(take_until_and_match(&semicolon, &t), Err(ErrorKind::Many0));
}

#[test]
fn relation_from_strings() {
    let cases = [("=", "="), ("~=", "~="), ("|=", "|="), ("^=", "^="), ("$=", "$="), ("*=", "*=")];
    for (symbol, written) in cases {
        let r = AttributeRelation::from_strings(symbol, "v".to_string()).unwrap();
        assert_eq!(r.to_string(), format!("{}v", written));
    }
    assert!(AttributeRelation::from_strings("!=", "v".to_string()).is_none());
    assert!(AttributeRelation::from_strings("", "v".to_string()).is_none());
    assert!(AttributeRelation::from_strings("==", "v".to_string()).is_none());
    assert!(matches!(
        AttributeRelation::from_strings("~=", "x".to_string()),
        Some(AttributeRelation::Containing(s)) if s == "x"
    ));
}

#[test]
fn relation_round_trip_on_values() {
    let r = AttributeRelation::from_strings("^=", "\"http\"".to_string()).unwrap();
    assert_eq!(r.to_string(), "^=\"http\"");
}

#[test]
fn attribute_modifier_text() {
    let plain = AttributeModifier { attribute: "disabled".to_string(), relation: None };
    assert_eq!(plain.to_string(), "[disabled]");
    let with = AttributeModifier {
        attribute: "type".to_string(),
        relation: Some(AttributeRelation::Equal("\"text\"".to_string())),
    };
    assert_eq!(with.to_string(), "[type=\"text\"]");
}

#[test]
fn class_and_id_selectors() {
    let t = tokens(".a #b");
    assert_eq!(scoped_css::class::parse_class_selector(&t), Ok((2, "a".to_string())));
    assert_eq!(scoped_css::class::parse_class_selector(&t[2..]), Err(ErrorKind::TakeTill1));
    assert_eq!(scoped_css::id::parse_id_selector(&t[2..]), Ok((2, "b".to_string())));
    assert_eq!(scoped_css::id::parse_id_selector(&t[..1]), Err(ErrorKind::TakeTill1));
    assert_eq!(scoped_css::class::parse_class_selector(&t[..1]), Err(ErrorKind::Eof));
}

#[test]
fn attribute_selectors() {
    let t = tokens("[checked] [kind ~= \"x\"] [kind ! \"x\"] [a b]");
    let (n, a) = scoped_css::attribute::parse_attribute_selector(&t).unwrap();
    assert_eq!(n, 1);
    assert_eq!(a.attribute, "checked");
    assert!(a.relation.is_none());
    let (n, a) = scoped_css::attribute::parse_attribute_selector(&t[1..]).unwrap();
    assert_eq!(n, 1);
    assert_eq!(a.attribute, "kind");
    assert_eq!(relation_text(&a.relation), Some("~=\"x\"".to_string()));
    assert_eq!(scoped_css::attribute::parse_attribute_selector(&t[2..]).err(), Some(ErrorKind::TakeTill1));
    assert_eq!(scoped_css::attribute::parse_attribute_selector(&t[3..]).err(), Some(ErrorKind::TakeTill1));
}

#[test]
fn single_symbol_attributes() {
    let t = tokens("[kind = x] [kind ~= x]");
    let (n, a) = scoped_css::smithy::parse_attribute(&t).unwrap();
    assert_eq!(n, 1);
    assert_eq!(relation_text(&a.relation), Some("=x".to_string()));
    assert!(scoped_css::smithy::parse_attribute(&t[1..]).is_err());
    let (_, plain) = scoped_css::smithy::parse_attribute(&tokens("[a]")).unwrap();
    assert_eq!(format!("{:?}", plain), "AttributeModifier { attribute: \"a\", relation: None }");
}

#[test]
fn modifiers_in_order_of_preference() {
    let t = tokens("[x].y#z");
    let (n, m) = scoped_css::modifier::parse_modifier(&t).unwrap();
    assert_eq!(n, 1);
    assert!(matches!(m, Modifier::Attribute(_)));
    let (n, m) = scoped_css::modifier::parse_modifier(&t[1..]).unwrap();
    assert_eq!(n, 2);
    assert!(matches!(m, Modifier::Class(ref c) if c == "y"));
    let (n, m) = scoped_css::modifier::parse_modifier(&t[3..]).unwrap();
    assert_eq!(n, 2);
    assert!(matches!(m, Modifier::Id(ref i) if i == "z"));
    assert_eq!(scoped_css::modifier::parse_modifier(&t[5..]).err(), Some(ErrorKind::Eof));
}

fn selector_summary(s: &Selector) -> String {
    let mut out = s.element.clone().unwrap_or_default();
    for m in &s.modifiers {
        match m {
            Modifier::Class(c) => out.push_str(&format!(".{}", c)),
            Modifier::Id(i) => out.push_str(&format!("#{}", i)),
            Modifier::Attribute(a) => out.push_str(&a.to_string()),
        }
    }
    out
}

#[test]
fn nested_selector_splits_at_gaps() {
    let t = tokens("body.app .item#first {}");
    let (n, nested) = scoped_css::selector::parse_nested_selector(&t).unwrap();
    assert_eq!(n, 7);
    let parts: Vec<String> = nested.iter().map(selector_summary).collect();
    assert_eq!(parts, vec!["body.app".to_string(), ".item#first".to_string()]);
}

#[test]
fn nested_selector_needs_a_selector() {
    let t = tokens("{}");
    assert_eq!(scoped_css::selector::parse_nested_selector(&t).err(), Some(ErrorKind::Many0));
}

#[test]
fn selector_lists() {
    let t = tokens("h1, h2 .x {}");
    let (n, list) = scoped_css::selector::parse_nested_selector_list(&t).unwrap();
    assert_eq!(n, 5);
    assert_eq!(list.len(), 2);
    // An element name takes the modifiers after it even across a gap.
    assert_eq!(list[1].len(), 1);
    assert_eq!(selector_summary(&list[1][0]), "h2.x");
    let (n, list) = scoped_css::smithy::parse_nested_selector_list(&t).unwrap();
    assert_eq!(n, 5);
    assert_eq!(list.len(), 2);
    let (n, list) = scoped_css::smithy::parse_nested_selector_list(&tokens(".my_class { color: red; }")).unwrap();
    assert_eq!(n, 2);
    assert_eq!(list.len(), 1);
    assert_eq!(list[0].len(), 1);
    assert_eq!(selector_summary(&list[0][0]), ".my_class");
}

#[test]
fn attribute_names_may_hold_dashes() {
    let t = tokens("[data-kind] [aria-label |= \"x\"] [a -b]");
    let (n, a) = scoped_css::attribute::parse_attribute_selector(&t).unwrap();
    assert_eq!(n, 1);
    assert_eq!(a.to_string(), "[data-kind]");
    let (_, a) = scoped_css::attribute::parse_attribute_selector(&t[1..]).unwrap();
    assert_eq!(a.to_string(), "[aria-label|=\"x\"]");
    assert!(scoped_css::attribute::parse_attribute_selector(&t[2..]).is_err());
    // The plain form reads a single identifier as the name.
    assert!(scoped_css::smithy::parse_attribute(&tokens("[data-kind = x]")).is_err());
    assert!(scoped_css::smithy::parse_attribute(&tokens("[data-kind]")).is_err());
}
