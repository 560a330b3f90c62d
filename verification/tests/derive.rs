use quanty::derive::{derive_row, error, parse, snake_case, unquote, Delim, Tok};

#[test]
fn snake_case_splits_on_capitals_only() {
    assert_eq!(snake_case("User"), "user");
    assert_eq!(snake_case("UserAccount"), "user_account");
    assert_eq!(snake_case("HTTPHeader"), "h_t_t_p_header");
    assert_eq!(snake_case("already_snake"), "already_snake");
}

#[test]
fn unquote_refuses_anything_that_is_not_a_plain_string() {
    assert_eq!(unquote("\"users\""), Some("users".to_string()));
    assert_eq!(unquote("r\"users\""), None);
    assert_eq!(unquote("b\"users\""), None);
    assert_eq!(unquote("42"), None);
    // An escape would make the name differ from what it looks like.
    assert_eq!(unquote("\"a\\\"b\""), None);
}

fn ident(s: &str) -> Tok {
    Tok::Ident(s.to_string())
}

fn user_fields() -> Vec<Tok> {
    vec![
        ident("pub"),
        ident("id"),
        Tok::Punct(':'),
        ident("i64"),
        Tok::Punct(','),
        Tok::Punct('#'),
        Tok::Group(
            Delim::Bracket,
            vec![
                ident("quanty"),
                Tok::Group(
                    Delim::Paren,
                    vec![
                        ident("column"),
                        Tok::Punct('='),
                        Tok::Literal("\"full_name\"".to_string()),
                    ],
                ),
            ],
        ),
        ident("name"),
        Tok::Punct(':'),
        ident("String"),
        Tok::Punct(','),
    ]
}

#[test]
fn a_struct_of_named_fields_becomes_a_model() {
    let tokens = vec![
        ident("pub"),
        ident("struct"),
        ident("UserAccount"),
        Tok::Group(Delim::Brace, user_fields()),
    ];
    let model = parse(&tokens).expect("a model");
    assert_eq!(model.name, "UserAccount");
    assert_eq!(model.table, "user_account");
    assert_eq!(model.fields.len(), 2);
    assert_eq!(model.fields[0].name, "id");
    assert_eq!(model.fields[0].column, "id");
    assert_eq!(model.fields[1].name, "name");
    assert_eq!(model.fields[1].column, "full_name");
    let code = derive_row(&tokens);
    assert!(code.contains("UserAccount"));
    assert!(code.contains("\"user_account\""));
    assert!(code.contains("\"full_name\""));
    assert!(!code.contains("compile_error!"));
}

#[test]
fn anything_but_a_struct_of_named_fields_is_an_error() {
    let cases = vec![
        vec![ident("enum"), ident("E")],
        vec![ident("struct")],
        vec![ident("struct"), ident("G"), Tok::Punct('<')],
        vec![
            ident("struct"),
            ident("T"),
            Tok::Group(Delim::Paren, vec![ident("u8")]),
        ],
        vec![ident("struct"), ident("U"), Tok::Punct(';')],
        vec![
            ident("struct"),
            ident("N"),
            Tok::Group(Delim::Brace, vec![]),
        ],
    ];
    for case in cases {
        assert!(parse(&case).is_err(), "accepted {case:?}");
        assert!(derive_row(&case).starts_with("compile_error!(\""));
    }
}

#[test]
fn an_error_escapes_its_message() {
    assert_eq!(
        error("a \"b\" \\ c"),
        "compile_error!(\"a \\\"b\\\" \\\\ c\");"
    );
}
