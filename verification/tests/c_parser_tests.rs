use c_struct_parser::c_parser::c_tokenizer::TokenItr;
use c_struct_parser::c_parser::c_tokens::{token_value, Identifier, Token};
use c_struct_parser::c_parser::{
    parse_c_text, parse_declaration, parse_struct, parse_typedef_struct, C_Struct, C_StructIter,
};

fn field_pairs(st: &C_Struct) -> Vec<(String, String)> {
    st.fields.iter().map(|d| (d.typename.clone(), d.name.clone())).collect()
}

#[test]
fn it_works() {
    assert_eq!(2 + 2, 4);
}

#[test]
fn scenario_plain_struct() {
    let structs = parse_c_text("struct Point { int x; int y; };");
    assert_eq!(structs.len(), 1);
    assert_eq!(structs[0].name, "Point");
    assert_eq!(
        field_pairs(&structs[0]),
        vec![("int".to_string(), "x".to_string()), ("int".to_string(), "y".to_string())]
    );
}

#[test]
fn scenario_typedef_struct() {
    let structs = parse_c_text("typedef struct _Foo { long id; } Foo;");
    assert_eq!(structs.len(), 1);
    assert_eq!(structs[0].name, "Foo");
    assert_eq!(field_pairs(&structs[0]), vec![("long".to_string(), "id".to_string())]);
}

#[test]
fn scenario_typedef_struct_without_tag() {
    let structs = parse_c_text("typedef struct { int a; } Bar;");
    assert_eq!(structs.len(), 1);
    assert_eq!(structs[0].name, "Bar");
    assert_eq!(field_pairs(&structs[0]), vec![("int".to_string(), "a".to_string())]);
}

#[test]
fn scenario_broken_then_ok() {
    let structs = parse_c_text("struct Broken { int ; };\nstruct Ok { int z; };");
    assert_eq!(structs.len(), 1);
    assert_eq!(structs[0].name, "Ok");
    assert_eq!(field_pairs(&structs[0]), vec![("int".to_string(), "z".to_string())]);
}

#[test]
fn pointer_field() {
    let structs = parse_c_text("struct P { int *p; };");
    assert_eq!(structs.len(), 1);
    assert_eq!(field_pairs(&structs[0]), vec![("int*".to_string(), "p".to_string())]);
}

#[test]
fn multi_line_comment_between_fields() {
    let text = "struct A {\n  int x;\n  /* a comment\n     spanning three\n     lines */\n  int y;\n};";
    let structs = parse_c_text(text);
    assert_eq!(structs.len(), 1);
    assert_eq!(
        field_pairs(&structs[0]),
        vec![("int".to_string(), "x".to_string()), ("int".to_string(), "y".to_string())]
    );
}

#[test]
fn comments_and_whitespace_do_not_change_output() {
    let bare = "struct Point { int x; long *y; };\ntypedef struct _T { char c; } T;";
    let noisy = "// leading comment\nstruct /* here */ Point {\n\n  int x; // trailing\n  long /* a */ * /* b */ y;\n};\n\ntypedef struct _T {\n  char c;\n} T; /* tail */";
    let a = parse_c_text(bare);
    let b = parse_c_text(noisy);
    assert_eq!(a.len(), b.len());
    for (x, y) in a.iter().zip(b.iter()) {
        assert_eq!(x.name, y.name);
        assert_eq!(field_pairs(x), field_pairs(y));
    }
}

#[test]
fn reparse_yields_identical_descriptors() {
    let text = "struct S { int a; custom_t b; };";
    let a = parse_c_text(text);
    let b = parse_c_text(text);
    assert_eq!(a.len(), b.len());
    for (x, y) in a.iter().zip(b.iter()) {
        assert_eq!(x.name, y.name);
        assert_eq!(field_pairs(x), field_pairs(y));
    }
}

#[test]
fn file_order_and_field_order_preserved() {
    let text = "struct A { int a1; long a2; } ;  typedef struct { other_t *b1; } B;  struct C { } ;";
    let structs = parse_c_text(text);
    assert_eq!(structs.len(), 3);
    assert_eq!(structs[0].name, "A");
    assert_eq!(
        field_pairs(&structs[0]),
        vec![("int".to_string(), "a1".to_string()), ("long".to_string(), "a2".to_string())]
    );
    assert_eq!(structs[1].name, "B");
    assert_eq!(field_pairs(&structs[1]), vec![("other_t*".to_string(), "b1".to_string())]);
    assert_eq!(structs[2].name, "C");
    assert_eq!(field_pairs(&structs[2]), vec![]);
}

#[test]
fn missing_semicolon_fails_construct_and_scanning_continues() {
    // The first construct never closes with `;`, so it is dropped; the
    // second one is still found.
    let structs = parse_c_text("struct X { int a; }  struct Ok { long z; };");
    assert_eq!(structs.len(), 1);
    assert_eq!(structs[0].name, "Ok");
}

#[test]
fn nested_construct_ends_field_list() {
    // A nested struct is unsupported: the outer construct fails, the inner
    // one is recognized on rescan.
    let structs = parse_c_text("struct Outer { struct Inner { int x; }; };");
    assert_eq!(structs.len(), 1);
    assert_eq!(structs[0].name, "Inner");
    assert_eq!(field_pairs(&structs[0]), vec![("int".to_string(), "x".to_string())]);
}

#[test]
fn class_keyword_is_not_a_struct() {
    let structs = parse_c_text("class K { int x; };  struct S { int y; };");
    assert_eq!(structs.len(), 1);
    assert_eq!(structs[0].name, "S");
}

#[test]
fn iterator_yields_one_at_a_time_then_none_forever() {
    let text = "struct A { int a; }; struct B { int b; };";
    let mut it = C_StructIter::new(text);
    let a = it.next().unwrap();
    assert_eq!(a.name, "A");
    let b = it.next().unwrap();
    assert_eq!(b.name, "B");
    assert!(it.next().is_none());
    assert!(it.next().is_none());
}

#[test]
fn tokenizer_produces_expected_tokens() {
    let mut itr = TokenItr::new("struct s1 { int x; };");
    assert!(matches!(itr.next(), Some(Token::STRUCT)));
    match itr.next() {
        Some(Token::IDENTIFIER(id)) => assert_eq!(id.value, "s1"),
        other => panic!("expected identifier, got {:?}", other),
    }
    assert!(matches!(itr.next(), Some(Token::LBRACE)));
    assert!(matches!(itr.next(), Some(Token::INT)));
    match itr.next() {
        Some(Token::IDENTIFIER(id)) => assert_eq!(id.value, "x"),
        other => panic!("expected identifier, got {:?}", other),
    }
    assert!(matches!(itr.next(), Some(Token::SEMICOLON)));
    assert!(matches!(itr.next(), Some(Token::RBRACE)));
    assert!(matches!(itr.next(), Some(Token::SEMICOLON)));
    assert!(itr.next().is_none());
}

#[test]
fn tokenizer_star_and_keywords() {
    let mut itr = TokenItr::new("typedef long * class");
    assert!(matches!(itr.next(), Some(Token::TYPEDEF)));
    assert!(matches!(itr.next(), Some(Token::LONG)));
    assert!(matches!(itr.next(), Some(Token::STAR)));
    assert!(matches!(itr.next(), Some(Token::CLASS)));
    assert!(itr.next().is_none());
}

#[test]
fn tokenizer_skips_line_and_block_comments() {
    let mut itr = TokenItr::new("// nothing here\nint /* not { a token */ x");
    assert!(matches!(itr.next(), Some(Token::INT)));
    match itr.next() {
        Some(Token::IDENTIFIER(id)) => assert_eq!(id.value, "x"),
        other => panic!("expected identifier, got {:?}", other),
    }
    assert!(itr.next().is_none());
}

#[test]
fn push_back_returns_tokens_in_reverse_order() {
    let mut itr = TokenItr::new(";");
    itr.push_back(Token::IDENTIFIER(Identifier { value: "a".to_string() }));
    itr.push_back(Token::STAR);
    assert!(matches!(itr.next(), Some(Token::STAR)));
    match itr.next() {
        Some(Token::IDENTIFIER(id)) => assert_eq!(id.value, "a"),
        other => panic!("expected identifier, got {:?}", other),
    }
    assert!(matches!(itr.next(), Some(Token::SEMICOLON)));
    assert!(itr.next().is_none());
}

#[test]
fn token_value_round_trip() {
    assert_eq!(token_value(Token::LBRACE), "{");
    assert_eq!(token_value(Token::RBRACE), "}");
    assert_eq!(token_value(Token::SEMICOLON), ";");
    assert_eq!(token_value(Token::STAR), "*");
    assert_eq!(token_value(Token::INT), "int");
    assert_eq!(token_value(Token::LONG), "long");
    assert_eq!(token_value(Token::STRUCT), "struct");
    assert_eq!(token_value(Token::TYPEDEF), "typedef");
    assert_eq!(token_value(Token::CLASS), "class");
    assert_eq!(
        token_value(Token::IDENTIFIER(Identifier { value: "my_var".to_string() })),
        "my_var"
    );
}

#[test]
fn parse_declaration_direct() {
    let mut itr = TokenItr::new("long *ptr; }");
    let d = parse_declaration(&mut itr).unwrap();
    assert_eq!(d.typename, "long*");
    assert_eq!(d.name, "ptr");
    assert!(parse_declaration(&mut itr).is_none());
    assert!(matches!(itr.next(), Some(Token::RBRACE)));
}

#[test]
fn parse_struct_direct() {
    // `parse_struct` is entered after the `struct` keyword was consumed.
    let mut itr = TokenItr::new("s { int a; };");
    let st = parse_struct(&mut itr).unwrap();
    assert_eq!(st.name, "s");
    assert_eq!(field_pairs(&st), vec![("int".to_string(), "a".to_string())]);
}

#[test]
fn parse_typedef_struct_direct() {
    // `parse_typedef_struct` is entered after the `typedef` keyword.
    let mut itr = TokenItr::new("struct { long v; } name_t;");
    let st = parse_typedef_struct(&mut itr).unwrap();
    assert_eq!(st.name, "name_t");
    assert_eq!(field_pairs(&st), vec![("long".to_string(), "v".to_string())]);
}

#[test]
fn empty_and_commentonly_inputs_yield_nothing() {
    assert!(parse_c_text("").is_empty());
    assert!(parse_c_text("   \n\t  ").is_empty());
    assert!(parse_c_text("// only a comment\n/* and\nanother */").is_empty());
    assert!(parse_c_text("int x; foo(); no structs here").is_empty());
}

#[test]
fn unterminated_block_comment_ends_stream() {
    let structs = parse_c_text("struct A { int x; /* never closed");
    assert!(structs.is_empty());
    let mut itr = TokenItr::new("int /* open");
    assert!(matches!(itr.next(), Some(Token::INT)));
    assert!(itr.next().is_none());
}

#[test]
fn line_comment_at_end_of_input() {
    let structs = parse_c_text("struct A { } ; // tail comment");
    assert_eq!(structs.len(), 1);
    assert_eq!(structs[0].name, "A");
}

#[test]
fn pointer_spacing_variants() {
    let structs = parse_c_text("struct Q { int* a; long * b; };");
    assert_eq!(structs.len(), 1);
    assert_eq!(
        field_pairs(&structs[0]),
        vec![("int*".to_string(), "a".to_string()), ("long*".to_string(), "b".to_string())]
    );
}

#[test]
fn typedef_without_name_fails() {
    let structs = parse_c_text("typedef struct { int a; };  struct S { int b; };");
    assert_eq!(structs.len(), 1);
    assert_eq!(structs[0].name, "S");
}

#[test]
fn identifier_with_digits_and_underscores() {
    let structs = parse_c_text("struct s_2 { uint32_t my_var2; };");
    assert_eq!(structs.len(), 1);
    assert_eq!(structs[0].name, "s_2");
    assert_eq!(field_pairs(&structs[0]), vec![("uint32_t".to_string(), "my_var2".to_string())]);
}

#[test]
fn failed_field_attempt_restores_tokens_beyond_type() {
    // `int x }` has no semicolon: the attempt fails and pushes back the
    // identifier, leaving only the type token consumed.
    let mut itr = TokenItr::new("int x }");
    assert!(parse_declaration(&mut itr).is_none());
    match itr.next() {
        Some(Token::IDENTIFIER(id)) => assert_eq!(id.value, "x"),
        other => panic!("expected identifier, got {:?}", other),
    }
    assert!(matches!(itr.next(), Some(Token::RBRACE)));
    assert!(itr.next().is_none());
}

#[test]
fn failed_star_attempt_restores_star() {
    // After `int *` the candidate `;` is no identifier: both the star and
    // the semicolon go back.
    let mut itr = TokenItr::new("int * ;");
    assert!(parse_declaration(&mut itr).is_none());
    assert!(matches!(itr.next(), Some(Token::STAR)));
    assert!(matches!(itr.next(), Some(Token::SEMICOLON)));
    assert!(itr.next().is_none());
}

#[test]
fn malformed_trailing_field_drops_whole_construct() {
    // The restored identifier makes the brace-close requirement fail, so
    // the whole construct is dropped; a later struct is still found.
    assert!(parse_c_text("struct S { int a; int x } ;").is_empty());
    let structs = parse_c_text("struct S { int a; int x } ; struct Ok { int z; };");
    assert_eq!(structs.len(), 1);
    assert_eq!(structs[0].name, "Ok");
}

#[test]
fn vertical_tab_and_form_feed_are_whitespace() {
    let structs = parse_c_text("struct\x0bV\x0c{ int x; };");
    assert_eq!(structs.len(), 1);
    assert_eq!(structs[0].name, "V");
    assert_eq!(field_pairs(&structs[0]), vec![("int".to_string(), "x".to_string())]);
}
