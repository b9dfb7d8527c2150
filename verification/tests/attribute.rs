use serde_tristate::attribute::{
    is_tristate_field, process_body, serde_attribute, split_on_commas,
};
use serde_tristate::{serde_tristate, Delimiter, Spacing, TokenTree};

fn ident(s: &str) -> TokenTree {
    TokenTree::Ident { name: s.to_string(), span: None }
}

fn punct(c: char) -> TokenTree {
    TokenTree::Punct { ch: c, spacing: Spacing::Alone, span: None }
}

fn joint(c: char) -> TokenTree {
    TokenTree::Punct { ch: c, spacing: Spacing::Joint, span: None }
}

fn group(delimiter: Delimiter, stream: Vec<TokenTree>) -> TokenTree {
    TokenTree::Group { delimiter, stream, span: None }
}

fn literal(s: &str) -> TokenTree {
    TokenTree::Literal { text: s.to_string(), span: None }
}

/// `name: Tristate<ty>`
fn tristate_field(name: &str, ty: &str) -> Vec<TokenTree> {
    vec![ident(name), punct(':'), ident("Tristate"), punct('<'), ident(ty), punct('>')]
}

fn expected_attribute() -> Vec<TokenTree> {
    vec![
        punct('#'),
        group(
            Delimiter::Bracket,
            vec![
                ident("serde"),
                group(
                    Delimiter::Parenthesis,
                    vec![
                        ident("default"),
                        punct(','),
                        ident("skip_serializing_if"),
                        punct('='),
                        literal("\"Tristate::is_undefined\""),
                    ],
                ),
            ],
        ),
    ]
}

fn marked(field: Vec<TokenTree>) -> Vec<TokenTree> {
    let mut v = expected_attribute();
    v.extend(field);
    v
}

#[test]
fn attribute_tokens() {
    assert_eq!(serde_attribute(), expected_attribute());
}

#[test]
fn struct_fields_are_marked() {
    let mut body = tristate_field("name", "String");
    body.push(punct(','));
    body.extend(tristate_field("age", "u32"));
    let input = vec![ident("struct"), ident("Dto"), group(Delimiter::Brace, body)];

    let mut expected_body = marked(tristate_field("name", "String"));
    expected_body.push(punct(','));
    expected_body.extend(marked(tristate_field("age", "u32")));
    let expected = vec![ident("struct"), ident("Dto"), group(Delimiter::Brace, expected_body)];

    assert_eq!(serde_tristate(vec![], input), expected);
}

#[test]
fn other_fields_are_left_alone() {
    let mut body = vec![ident("id"), punct(':'), ident("u64"), punct(',')];
    body.extend(tristate_field("bio", "String"));
    body.push(punct(','));

    let mut expected = vec![ident("id"), punct(':'), ident("u64"), punct(',')];
    expected.extend(marked(tristate_field("bio", "String")));
    expected.push(punct(','));

    assert_eq!(process_body(body), expected);
}

#[test]
fn commas_inside_angle_brackets_do_not_split() {
    let map_field = || {
        vec![
            ident("m"),
            punct(':'),
            ident("HashMap"),
            punct('<'),
            ident("K"),
            punct(','),
            ident("V"),
            punct('>'),
        ]
    };
    let body = || {
        let mut body = map_field();
        body.push(punct(','));
        body.extend(tristate_field("t", "u8"));
        body
    };

    let (items, trailing) = split_on_commas(body());
    assert_eq!(items.len(), 2);
    assert_eq!(items[0], map_field());
    assert!(!trailing);

    let mut expected = map_field();
    expected.push(punct(','));
    expected.extend(marked(tristate_field("t", "u8")));
    assert_eq!(process_body(body()), expected);
}

#[test]
fn split_edge_cases() {
    assert_eq!(split_on_commas(vec![]), (vec![], false));
    assert_eq!(
        split_on_commas(vec![ident("a"), punct(','), punct(','), ident("b")]),
        (vec![vec![ident("a")], vec![], vec![ident("b")]], false)
    );
    assert_eq!(
        split_on_commas(vec![ident("a"), punct(',')]),
        (vec![vec![ident("a")]], true)
    );
    // a stray `>` does not take the depth below zero
    assert_eq!(
        split_on_commas(vec![punct('>'), punct(','), ident("a")]),
        (vec![vec![punct('>')], vec![ident("a")]], false)
    );
}

#[test]
fn recognises_tristate_fields() {
    assert!(is_tristate_field(&tristate_field("x", "u8")));
    // a path type: `y: serde_tristate::Tristate<u8>`
    let path = vec![
        ident("y"),
        punct(':'),
        ident("serde_tristate"),
        joint(':'),
        punct(':'),
        ident("Tristate"),
        punct('<'),
        ident("u8"),
        punct('>'),
    ];
    assert!(is_tristate_field(&path));
    // no `<` after `Tristate`
    assert!(!is_tristate_field(&[ident("x"), punct(':'), ident("Tristate")]));
    // `Tristate<` before the field's colon does not count
    assert!(!is_tristate_field(&[
        ident("Tristate"),
        punct('<'),
        punct(':'),
        ident("u8")
    ]));
    // no single colon at all: a `::` is stepped over
    assert!(!is_tristate_field(&[
        ident("a"),
        joint(':'),
        punct(':'),
        ident("Tristate"),
        punct('<')
    ]));
    // `a::b: Tristate<u8>` takes the colon after the path
    assert!(is_tristate_field(&[
        ident("a"),
        joint(':'),
        punct(':'),
        ident("b"),
        punct(':'),
        ident("Tristate"),
        punct('<'),
        ident("u8"),
        punct('>')
    ]));
    assert!(!is_tristate_field(&[]));
}

#[test]
fn enum_variants_with_named_fields() {
    let mut update_body = tristate_field("name", "String");
    update_body.push(punct(','));
    update_body.extend(tristate_field("age", "u32"));
    let body = vec![
        ident("Update"),
        group(Delimiter::Brace, update_body),
        punct(','),
        ident("Delete"),
        punct(','),
    ];
    let input = vec![
        punct('#'),
        group(Delimiter::Bracket, vec![ident("serde")]),
        ident("enum"),
        ident("Event"),
        group(Delimiter::Brace, body),
    ];

    let mut expected_update = marked(tristate_field("name", "String"));
    expected_update.push(punct(','));
    expected_update.extend(marked(tristate_field("age", "u32")));
    let expected_body = vec![
        ident("Update"),
        group(Delimiter::Brace, expected_update),
        punct(','),
        ident("Delete"),
        punct(','),
    ];
    let expected = vec![
        punct('#'),
        group(Delimiter::Bracket, vec![ident("serde")]),
        ident("enum"),
        ident("Event"),
        group(Delimiter::Brace, expected_body),
    ];
    assert_eq!(serde_tristate(vec![], input), expected);
}

#[test]
fn item_without_body_is_unchanged() {
    let input = || vec![ident("struct"), ident("Unit"), punct(';')];
    assert_eq!(serde_tristate(vec![], input()), input());
}

#[test]
fn spans_are_kept() {
    let input = || {
        vec![TokenTree::Group {
            delimiter: Delimiter::Brace,
            stream: vec![
                TokenTree::Ident { name: "x".to_string(), span: Some(7) },
                TokenTree::Punct { ch: ':', spacing: Spacing::Alone, span: Some(8) },
                TokenTree::Ident { name: "u8".to_string(), span: Some(9) },
            ],
            span: Some(3),
        }]
    };
    assert_eq!(serde_tristate(vec![], input()), input());
}

#[test]
fn body_without_tristate_fields_roundtrips() {
    // separating commas come back as plain commas; other tokens are kept
    let body = vec![
        ident("a"),
        punct(':'),
        ident("u8"),
        joint(','),
        ident("b"),
        punct(':'),
        ident("u16"),
    ];
    let expected = vec![
        ident("a"),
        punct(':'),
        ident("u8"),
        punct(','),
        ident("b"),
        punct(':'),
        ident("u16"),
    ];
    assert_eq!(process_body(body), expected);
}

#[test]
fn arrow_inside_generics_does_not_close_a_bracket() {
    // a: HashMap<Box<dyn Fn() -> u8>, u8>, b: u8
    let first = || {
        vec![
            ident("a"),
            punct(':'),
            ident("HashMap"),
            punct('<'),
            ident("Box"),
            punct('<'),
            ident("dyn"),
            ident("Fn"),
            group(Delimiter::Parenthesis, vec![]),
            joint('-'),
            punct('>'),
            ident("u8"),
            joint('>'),
            punct(','),
            ident("u8"),
            joint('>'),
        ]
    };
    let second = || vec![ident("b"), punct(':'), ident("u8")];
    let mut body = first();
    body.push(punct(','));
    body.extend(second());

    let (items, trailing) = split_on_commas(body);
    assert_eq!(items, vec![first(), second()]);
    assert!(!trailing);
}

#[test]
fn lone_greater_than_after_alone_dash_closes() {
    // a `-` that stands alone before `>` is no arrow: `<`, `-`, `>` closes the bracket
    let body = vec![
        punct('<'),
        punct('-'),
        punct('>'),
        punct(','),
        ident("b"),
    ];
    let (items, _) = split_on_commas(body);
    assert_eq!(items.len(), 2);
}
