use lexparse::lex::Lexer;
use lexparse::lex::Token;
use lexparse::lex::tokenize;
use lexparse::parse::Node;
use lexparse::parse::parse;
use lexparse::validate::validate;

fn toks(src: &str) -> Vec<Token> {
    tokenize(src.to_string())
}

fn leaf(token: Token) -> Node {
    Node { token, children: Vec::new() }
}

fn ident(name: &str) -> Token {
    Token::Identifier(name.to_string())
}

/// Net brace count of one token.
fn brace_delta(t: &Token) -> i64 {
    match t {
        Token::LeftCurlyBracket => 1,
        Token::RightCurlyBracket => -1,
        _ => 0,
    }
}

/// Net brace count of a whole subtree.
fn tree_delta(n: &Node) -> i64 {
    let mut d = brace_delta(&n.token);
    for c in &n.children {
        d += tree_delta(c);
    }
    d
}

/// Checks that every `Block` node's recursively summed brace count is zero.
fn blocks_net_zero(n: &Node) -> bool {
    if matches!(n.token, Token::Block) && tree_delta(n) != 0 {
        return false;
    }
    n.children.iter().all(blocks_net_zero)
}

#[test]
fn tokenize_ends_with_single_eof() {
    for src in ["", "   ", "fn f(int a) -> int { return(a); }", "@#$", "1 + 2;"] {
        let ts = toks(src);
        assert!(!ts.is_empty());
        assert_eq!(*ts.last().unwrap(), Token::EOF);
        assert_eq!(ts.iter().filter(|t| **t == Token::EOF).count(), 1);
    }
}

#[test]
fn tokenize_is_deterministic() {
    let src = "struct P { int x, int y } fn f(int a) -> int { return(a); }";
    assert_eq!(toks(src), toks(src));
}

#[test]
fn function_round_trip_shape() {
    let ts = toks("fn f(int a) -> int { return(a); }");
    assert_eq!(
        ts,
        vec![
            Token::Fn,
            ident("f"),
            Token::LeftParen,
            Token::Int,
            ident("a"),
            Token::RightParen,
            Token::Arrow,
            Token::Int,
            Token::LeftCurlyBracket,
            Token::Return,
            Token::LeftParen,
            ident("a"),
            Token::RightParen,
            Token::SemiColon,
            Token::RightCurlyBracket,
            Token::EOF,
        ]
    );
    let root = parse(ts);
    assert_eq!(root.token, Token::Program);
    let fn_node = &root.children[0];
    assert_eq!(fn_node.token, Token::Fn);
    assert_eq!(fn_node.children.len(), 4);
    assert_eq!(fn_node.children[0], leaf(ident("f")));
    let args = &fn_node.children[1];
    assert_eq!(args.token, Token::Arguments);
    assert_eq!(args.children, vec![leaf(Token::Int), leaf(ident("a"))]);
    assert_eq!(fn_node.children[2], leaf(Token::Int));
    let block = &fn_node.children[3];
    assert_eq!(block.token, Token::Block);
    assert_eq!(block.children.len(), 1);
    let inner = &block.children[0];
    assert_eq!(inner.token, Token::Program);
    assert_eq!(inner.children.len(), 1);
    let line = &inner.children[0];
    assert_eq!(line.token, Token::Line);
    assert_eq!(
        line.children,
        vec![
            leaf(Token::Return),
            leaf(Token::LeftParen),
            leaf(ident("a")),
            leaf(Token::RightParen),
            leaf(Token::SemiColon),
        ]
    );
}

#[test]
fn struct_with_fields_only() {
    let root = parse(toks("struct P { int x, int y }"));
    assert_eq!(root.token, Token::Program);
    let s = &root.children[0];
    assert_eq!(s.token, Token::Struct);
    assert_eq!(s.children.len(), 3);
    assert_eq!(s.children[0], leaf(ident("P")));
    let fields = &s.children[1];
    assert_eq!(fields.token, Token::Fields);
    assert_eq!(
        fields.children,
        vec![
            leaf(Token::Int),
            leaf(ident("x")),
            leaf(Token::Comma),
            leaf(Token::Int),
            leaf(ident("y")),
        ]
    );
    let fns = &s.children[2];
    assert_eq!(fns.token, Token::Functions);
    assert!(fns.children.is_empty());
}

#[test]
fn two_character_operators_do_not_leak() {
    assert_eq!(
        toks("-> >= <= == !="),
        vec![
            Token::Arrow,
            Token::GreaterThanOrEqual,
            Token::LessThanOrEqual,
            Token::DoubleEqual,
            Token::NotEqual,
            Token::EOF,
        ]
    );
}

#[test]
fn single_character_operator_forms() {
    assert_eq!(
        toks("- > < = ! . , : ; + * / ( ) [ ] { }"),
        vec![
            Token::Minus,
            Token::GreaterThan,
            Token::LessThan,
            Token::Equal,
            Token::Bang,
            Token::DecimalPoint,
            Token::Comma,
            Token::Colon,
            Token::SemiColon,
            Token::Plus,
            Token::Star,
            Token::Slash,
            Token::LeftParen,
            Token::RightParen,
            Token::LeftSquareBracket,
            Token::RightSquareBracket,
            Token::LeftCurlyBracket,
            Token::RightCurlyBracket,
            Token::EOF,
        ]
    );
}

#[test]
fn keyword_needs_full_identifier_match() {
    assert_eq!(toks("iffy"), vec![ident("iffy"), Token::EOF]);
    assert_eq!(toks("if fy"), vec![Token::If, ident("fy"), Token::EOF]);
}

#[test]
fn all_keywords_resolve() {
    assert_eq!(
        toks("if else elif while fn return int string float list struct"),
        vec![
            Token::If,
            Token::Else,
            Token::Elif,
            Token::While,
            Token::Fn,
            Token::Return,
            Token::Int,
            Token::String,
            Token::Float,
            Token::List,
            Token::Struct,
            Token::EOF,
        ]
    );
}

#[test]
fn identifiers_take_underscores_after_first_letter() {
    assert_eq!(toks("a_b"), vec![ident("a_b"), Token::EOF]);
}

#[test]
fn numbers_parse_to_their_value() {
    assert_eq!(toks("0"), vec![Token::Number(0), Token::EOF]);
    assert_eq!(toks("42;"), vec![Token::Number(42), Token::SemiColon, Token::EOF]);
    assert_eq!(toks("2147483647"), vec![Token::Number(2147483647), Token::EOF]);
}

#[test]
fn number_overflow_is_absorbed_as_null() {
    assert_eq!(toks("2147483648"), vec![Token::Null, Token::EOF]);
    assert_eq!(
        toks("99999999999999999999 7"),
        vec![Token::Null, Token::Number(7), Token::EOF]
    );
}

#[test]
fn unrecognized_character_is_absorbed_as_null() {
    assert_eq!(toks("@"), vec![Token::Null, Token::EOF]);
    assert_eq!(toks("a # b"), vec![ident("a"), Token::Null, ident("b"), Token::EOF]);
}

#[test]
fn pull_one_token_at_a_time() {
    let mut lexer = Lexer::new("x = 1;".to_string());
    assert_eq!(lexer.next_token(), ident("x"));
    assert_eq!(lexer.next_token(), Token::Equal);
    assert_eq!(lexer.next_token(), Token::Number(1));
    assert_eq!(lexer.next_token(), Token::SemiColon);
    assert_eq!(lexer.next_token(), Token::EOF);
}

#[test]
fn parse_always_returns_program_root() {
    let inputs = [
        vec![Token::EOF],
        vec![Token::If],
        vec![Token::If, Token::LeftCurlyBracket, Token::EOF],
        vec![Token::Else],
        vec![Token::Else, Token::LeftCurlyBracket],
        vec![Token::Fn, Token::EOF],
        vec![Token::Struct, Token::EOF],
        vec![Token::LeftCurlyBracket, Token::EOF],
        vec![ident("x"), Token::EOF],
        vec![Token::RightCurlyBracket, Token::RightCurlyBracket, Token::EOF],
    ];
    for ts in inputs {
        let root = parse(ts);
        assert_eq!(root.token, Token::Program);
    }
}

#[test]
fn if_branch_collects_condition_and_depth_matched_body() {
    let root = parse(toks("if a == 1 { x = 2; }"));
    let if_node = &root.children[0];
    assert_eq!(if_node.token, Token::If);
    assert_eq!(if_node.children.len(), 4);
    assert_eq!(if_node.children[0], leaf(ident("a")));
    assert_eq!(if_node.children[1], leaf(Token::DoubleEqual));
    assert_eq!(if_node.children[2], leaf(Token::Number(1)));
    let block = &if_node.children[3];
    assert_eq!(block.token, Token::Block);
    assert_eq!(block.children.len(), 1);
    assert_eq!(block.children[0].token, Token::Line);
    assert_eq!(
        block.children[0].children,
        vec![leaf(ident("x")), leaf(Token::Equal), leaf(Token::Number(2)), leaf(Token::SemiColon)]
    );
}

#[test]
fn else_branch_has_block_only() {
    let root = parse(toks("else { x = 2; }"));
    let else_node = &root.children[0];
    assert_eq!(else_node.token, Token::Else);
    assert_eq!(else_node.children.len(), 1);
    assert_eq!(else_node.children[0].token, Token::Block);
}

#[test]
fn statement_line_gets_trailing_semicolon() {
    let root = parse(toks("x = 1;"));
    // The bare identifier is passed over; the statement starts at `=`.
    let line = &root.children[0];
    assert_eq!(line.token, Token::Line);
    assert_eq!(
        line.children,
        vec![leaf(Token::Equal), leaf(Token::Number(1)), leaf(Token::SemiColon)]
    );
    // Without a source semicolon the line runs to the end of the sequence and
    // the semicolon is manufactured.
    let root = parse(toks("x = 1"));
    let line = &root.children[0];
    assert_eq!(line.token, Token::Line);
    assert_eq!(
        line.children,
        vec![leaf(Token::Equal), leaf(Token::Number(1)), leaf(Token::EOF), leaf(Token::SemiColon)]
    );
}

#[test]
fn struct_with_method_parses_functions() {
    let root = parse(toks("struct P { int x, fn get() -> int { return(x); }; }"));
    let s = &root.children[0];
    assert_eq!(s.token, Token::Struct);
    let fields = &s.children[1];
    assert_eq!(fields.token, Token::Fields);
    assert_eq!(fields.children, vec![leaf(Token::Int), leaf(ident("x")), leaf(Token::Comma)]);
    let fns = &s.children[2];
    assert_eq!(fns.token, Token::Functions);
    // The first group holds the method up to the semicolon inside its body;
    // the remainder of the body forms a second group.
    assert_eq!(fns.children.len(), 2);
    assert_eq!(fns.children[0].token, Token::Program);
    let inner_fn = &fns.children[0].children[0];
    assert_eq!(inner_fn.token, Token::Fn);
    assert_eq!(inner_fn.children[0], leaf(ident("get")));
    assert_eq!(inner_fn.children[1].token, Token::Arguments);
    assert_eq!(inner_fn.children[2], leaf(Token::Int));
}

#[test]
fn inline_struct_form_takes_fields_only() {
    let root = parse(toks("P { 1, 2 }"));
    let s = &root.children[0];
    assert_eq!(s.token, Token::Struct);
    assert_eq!(s.children.len(), 2);
    assert_eq!(s.children[0], leaf(ident("P")));
    let fields = &s.children[1];
    assert_eq!(fields.token, Token::Fields);
    assert_eq!(
        fields.children,
        vec![leaf(Token::Number(1)), leaf(Token::Comma), leaf(Token::Number(2))]
    );
}

#[test]
fn balanced_input_blocks_net_to_zero() {
    let sources = [
        "if a { x; { y; } z; }",
        "fn f(int a) -> int { if a { r; } return(a); }",
        "{ a; b; } { c; }",
        "if a { } else { b; }",
        "{ ; { ; } ; }",
        "{ a { ; } }",
    ];
    for src in sources {
        let root = parse(toks(src));
        assert!(blocks_net_zero(&root), "block with nonzero brace count in {:?}", src);
    }
}

#[test]
fn unbalanced_input_still_terminates() {
    for src in ["{ { {", "} } }", "if a { b;", "fn f( { }", "struct S { fn ;"] {
        let root = parse(toks(src));
        assert_eq!(root.token, Token::Program);
    }
}

#[test]
fn validator_accepts_only_the_four_kinds() {
    assert!(validate(leaf(Token::Number(1))));
    assert!(validate(leaf(ident("x"))));
    assert!(validate(Node { token: Token::Block, children: vec![leaf(Token::Number(1))] }));
    assert!(!validate(leaf(Token::Plus)));
    assert!(!validate(Node { token: Token::Block, children: vec![leaf(Token::Plus)] }));
    let if_ok = Node { token: Token::If, children: vec![leaf(ident("c")), leaf(Token::Number(1))] };
    assert!(validate(if_ok));
    let if_short = Node { token: Token::If, children: vec![leaf(ident("c"))] };
    assert!(!validate(if_short));
}

#[test]
fn whitespace_is_never_emitted() {
    assert_eq!(toks(" \t\n\r x \n"), vec![ident("x"), Token::EOF]);
}
