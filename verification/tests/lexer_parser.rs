use risc::ast::{BinaryOp, NodeId, NodeKind, ParamKind, Program, UnaryOp};
use risc::error::LangErrorKind;
use risc::lexer::{Keyword, Lexer, Symbol, TokenKind};
use risc::parser::Parser;
use risc::source::SourceMap;

fn tokens(text: &str) -> Vec<TokenKind> {
    let mut map = SourceMap::new();
    let source = map.add("t".to_string(), text.to_string());
    let mut lexer = Lexer::new(source);
    let mut out = Vec::new();
    loop {
        let tok = lexer.next_token().expect("token");
        let end = tok.kind.is_eof();
        out.push(tok.kind);
        if end {
            break;
        }
    }
    out
}

fn parse_err(text: &str) -> risc::error::LangError {
    match parse(text) {
        Ok(_) => panic!("expected a parse error for {text:?}"),
        Err(e) => e,
    }
}

fn parse(text: &str) -> Result<Program, risc::error::LangError> {
    let mut map = SourceMap::new();
    let source = map.add("t".to_string(), text.to_string());
    Parser::new(Lexer::new(source)).parse()
}

fn kind(p: &Program, id: NodeId) -> &NodeKind {
    &p.ast.get(id).kind
}

#[test]
fn lexes_keywords_symbols_and_literals() {
    let toks = tokens("let x = 1.5 # comment\n\"a\\nb\" != y |> z");
    assert_eq!(toks.len(), 10);
    assert!(matches!(toks[0], TokenKind::Keyword(Keyword::Let)));
    assert!(matches!(&toks[1], TokenKind::Identifier(n) if n == "x"));
    assert!(matches!(toks[2], TokenKind::Symbol(Symbol::Eq)));
    assert!(matches!(&toks[3], TokenKind::Number(t) if t == "1.5"));
    assert!(matches!(&toks[4], TokenKind::String(s) if s == "a\nb"));
    assert!(matches!(toks[5], TokenKind::Symbol(Symbol::NotEq)));
    assert!(matches!(toks[7], TokenKind::Symbol(Symbol::PipeGt)));
    assert!(matches!(&toks[8], TokenKind::Identifier(n) if n == "z"));
    assert!(toks[9].is_eof());
}

#[test]
fn number_takes_one_dot() {
    let toks = tokens("1.2.3");
    assert!(matches!(&toks[0], TokenKind::Number(t) if t == "1.2"));
    assert!(matches!(toks[1], TokenKind::Symbol(Symbol::Dot)));
    assert!(matches!(&toks[2], TokenKind::Number(t) if t == "3"));
}

#[test]
fn token_spans_are_byte_offsets() {
    let mut map = SourceMap::new();
    let source = map.add("t".to_string(), "x = \"é\" ab".to_string());
    let mut lexer = Lexer::new(source);
    let mut spans = Vec::new();
    loop {
        let tok = lexer.next_token().unwrap();
        spans.push((tok.span.start, tok.span.end));
        if tok.kind.is_eof() {
            break;
        }
    }
    assert_eq!(spans, vec![(0, 1), (2, 3), (4, 8), (9, 11), (11, 11)]);
}

#[test]
fn lexer_errors() {
    let mut map = SourceMap::new();
    let source = map.add("t".to_string(), "x $".to_string());
    let mut lexer = Lexer::new(source);
    lexer.next_token().unwrap();
    let e = lexer.next_token().unwrap_err();
    assert!(matches!(e.kind, LangErrorKind::InvalidInput { subkind } if subkind == "unexpected character"));
    assert_eq!(e.message, "got $");
    assert_eq!((e.traceback[0].start, e.traceback[0].end), (2, 3));

    let source = map.add("u".to_string(), "\"a\\q\"".to_string());
    let e = Lexer::new(source).next_token().unwrap_err();
    assert!(matches!(e.kind, LangErrorKind::InvalidInput { subkind } if subkind == "invalid escape sequence"));
    assert_eq!(e.message, "got q");
    assert_eq!((e.traceback[0].start, e.traceback[0].end), (2, 4));

    let source = map.add("v".to_string(), "\"abc".to_string());
    let e = Lexer::new(source).next_token().unwrap_err();
    assert!(matches!(e.kind, LangErrorKind::InvalidInput { subkind } if subkind == "unterminated string literal"));
    assert_eq!((e.traceback[0].start, e.traceback[0].end), (0, 4));
}

#[test]
fn single_ampersand_is_an_error() {
    let mut map = SourceMap::new();
    let source = map.add("t".to_string(), "a & b".to_string());
    let mut lexer = Lexer::new(source);
    lexer.next_token().unwrap();
    let e = lexer.next_token().unwrap_err();
    assert_eq!(e.message, "got &");
}

#[test]
fn describe_token_kinds() {
    assert_eq!(TokenKind::Symbol(Symbol::RParen).describe(), "Symbol(RParen)");
    assert_eq!(TokenKind::Keyword(Keyword::End).describe(), "Keyword(End)");
    assert_eq!(TokenKind::Identifier("a\"b".to_string()).describe(), "Identifier(\"a\\\"b\")");
    assert_eq!(TokenKind::EndOfFile.describe(), "EndOfFile");
}

#[test]
fn precedence_and_associativity() {
    let p = parse("1 + 2 * 3 - 4").unwrap();
    assert_eq!(p.roots.len(), 1);
    match kind(&p, p.roots[0]) {
        NodeKind::Binary { op: BinaryOp::Sub, left, .. } => match kind(&p, *left) {
            NodeKind::Binary { op: BinaryOp::Add, right, .. } => {
                assert!(matches!(kind(&p, *right), NodeKind::Binary { op: BinaryOp::Mul, .. }));
            }
            _ => panic!("expected addition on the left"),
        },
        _ => panic!("expected subtraction at the root"),
    }
}

#[test]
fn assignment_groups_right() {
    let p = parse("a = b = c").unwrap();
    match kind(&p, p.roots[0]) {
        NodeKind::Binary { op: BinaryOp::Assign, left, right } => {
            assert!(matches!(kind(&p, *left), NodeKind::Identifier(n) if n == "a"));
            assert!(matches!(kind(&p, *right), NodeKind::Binary { op: BinaryOp::Assign, .. }));
        }
        _ => panic!("expected assignment"),
    }
}

#[test]
fn unary_binds_tighter_than_binary_and_looser_than_calls() {
    let p = parse("-f(x) + 1").unwrap();
    match kind(&p, p.roots[0]) {
        NodeKind::Binary { op: BinaryOp::Add, left, .. } => match kind(&p, *left) {
            NodeKind::Unary { op: UnaryOp::Neg, right } => {
                assert!(matches!(kind(&p, *right), NodeKind::Call { .. }));
            }
            _ => panic!("expected negation"),
        },
        _ => panic!("expected addition"),
    }
}

#[test]
fn calls_with_named_arguments_and_properties() {
    let p = parse("a.b(1, .x = 2)[k]").unwrap();
    match kind(&p, p.roots[0]) {
        NodeKind::Index { object, .. } => match kind(&p, *object) {
            NodeKind::Call { callee, args } => {
                assert_eq!(args.len(), 2);
                assert!(args[0].name.is_none());
                assert_eq!(args[1].name.as_deref(), Some("x"));
                match kind(&p, *callee) {
                    NodeKind::Index { key, .. } => {
                        assert!(matches!(kind(&p, *key), NodeKind::String(s) if s == "b"));
                    }
                    _ => panic!("expected property access"),
                }
            }
            _ => panic!("expected call"),
        },
        _ => panic!("expected index"),
    }
}

#[test]
fn positional_after_named_is_rejected() {
    let e = parse_err("f(.x = 1, 2)");
    assert!(matches!(e.kind, LangErrorKind::InvalidSyntax { subkind } if subkind == "syntax error"));
    assert_eq!(e.message, "positional argument cannot follow a named argument");
}

#[test]
fn table_keys() {
    let p = parse("{ 10, .name = \"n\", [1 + 1] = 3, }").unwrap();
    match kind(&p, p.roots[0]) {
        NodeKind::Table(items) => {
            assert_eq!(items.len(), 3);
            assert!(matches!(kind(&p, items[0].key), NodeKind::Number(t) if t == "0"));
            assert!(matches!(kind(&p, items[1].key), NodeKind::String(s) if s == "name"));
            assert!(matches!(kind(&p, items[2].key), NodeKind::Binary { .. }));
        }
        _ => panic!("expected table"),
    }
}

#[test]
fn functions_and_parameters() {
    let p = parse("let fn f(a, b = 2, ..rest) a end").unwrap();
    match kind(&p, p.roots[0]) {
        NodeKind::Declaration { identifier, value } => {
            assert_eq!(identifier, "f");
            match kind(&p, *value) {
                NodeKind::Function { params, .. } => {
                    assert_eq!(params.len(), 3);
                    assert!(matches!(params[0].kind, ParamKind::Required));
                    assert!(matches!(params[1].kind, ParamKind::Optional(_)));
                    assert!(matches!(params[2].kind, ParamKind::Rest));
                    assert_eq!(params[2].name, "rest");
                }
                _ => panic!("expected function"),
            }
        }
        _ => panic!("expected declaration"),
    }
}

#[test]
fn required_after_optional_is_rejected() {
    let e = parse_err("fn(a = 1, b) a end");
    assert!(matches!(e.kind, LangErrorKind::InvalidSyntax { subkind } if subkind == "required parameter after optional"));
    assert_eq!(e.message, "required parameter 'b' must appear before any default or rest parameter.");
}

#[test]
fn control_flow_forms() {
    let p = parse("if c then 1 else 2 end for i in it do i end while x do break 1 end try f() catch \"io\" as e e.message else 0 end").unwrap();
    assert_eq!(p.roots.len(), 4);
    assert!(matches!(kind(&p, p.roots[0]), NodeKind::If { else_branch: Some(_), .. }));
    assert!(matches!(kind(&p, p.roots[1]), NodeKind::For { identifier, .. } if identifier == "i"));
    assert!(matches!(kind(&p, p.roots[2]), NodeKind::While { .. }));
    match kind(&p, p.roots[3]) {
        NodeKind::TryCatch { catches, else_branch, .. } => {
            assert_eq!(catches.len(), 1);
            assert!(catches[0].kind_filter.is_some());
            assert_eq!(catches[0].binding, "e");
            assert!(else_branch.is_some());
        }
        _ => panic!("expected try"),
    }
}

#[test]
fn missing_end_is_incomplete() {
    let e = parse_err("if x then 1");
    assert!(matches!(e.kind, LangErrorKind::UnexpectedEOF { subkind } if subkind == "expected token"));
    assert_eq!(e.message, "missing \"expression\"");
    let e = parse_err("while x do");
    assert!(matches!(e.kind, LangErrorKind::UnexpectedEOF { .. }));
    let e = parse_err("f(1");
    assert_eq!(e.message, "missing Symbol(RParen)");
}

#[test]
fn unexpected_token_message() {
    let e = parse_err("let 5 = 1");
    assert!(matches!(e.kind, LangErrorKind::InvalidSyntax { subkind } if subkind == "unexpected token"));
    assert_eq!(e.message, "exepcted \"identifier\"; got Number(5.0)");
}

#[test]
fn primary_errors_carry_the_token_span() {
    let e = parse_err(")");
    assert_eq!(e.message, "exepcted \"expression\"; got Symbol(RParen)");
    assert_eq!(e.traceback.len(), 2);
    assert_eq!((e.traceback[1].start, e.traceback[1].end), (0, 1));
}

#[test]
fn parenthesized_block() {
    let p = parse("(1 2) * 3").unwrap();
    match kind(&p, p.roots[0]) {
        NodeKind::Binary { op: BinaryOp::Mul, left, .. } => {
            assert!(matches!(kind(&p, *left), NodeKind::Block { nodes } if nodes.len() == 2));
        }
        _ => panic!("expected product"),
    }
}

#[test]
fn empty_program() {
    let p = parse("  # nothing\n").unwrap();
    assert!(p.roots.is_empty());
}

#[test]
fn number_tokens_show_their_value() {
    let shown = |t: &str| TokenKind::Number(t.to_string()).describe();
    assert_eq!(shown("1.5"), "Number(1.5)");
    assert_eq!(shown("100"), "Number(100.0)");
    assert_eq!(shown("007.10"), "Number(7.1)");
    assert_eq!(shown("0"), "Number(0.0)");
    assert_eq!(shown("1."), "Number(1.0)");
    assert_eq!(shown("0.0001"), "Number(0.0001)");
    assert_eq!(shown("0.00001"), "Number(1e-5)");
    assert_eq!(shown("0.000025"), "Number(2.5e-5)");
    assert_eq!(shown("1000000000000000"), "Number(1000000000000000.0)");
    assert_eq!(shown("10000000000000000"), "Number(1e16)");
    assert_eq!(shown("123450000000000000000"), "Number(1.2345e20)");
}

#[test]
fn number_rendering_matches_float_debug() {
    for t in ["1.5", "100", "0.125", "3.25", "0.0001", "0.00001", "42", "1e", "99999.5"] {
        if let Ok(v) = t.parse::<f64>() {
            let chars: Vec<char> = t.chars().collect();
            let shown: String = risc::number::number_debug_chars(&chars).into_iter().collect();
            assert_eq!(shown, format!("{v:?}"), "literal {t}");
        }
    }
}

#[test]
fn dash_dash_comments_run_to_the_end_of_the_line() {
    let toks = tokens("-- Variables\nlet x = 1 -- one\n# also a comment\nx - 1");
    assert!(matches!(toks[0], TokenKind::Keyword(Keyword::Let)));
    assert_eq!(toks.len(), 8);
    assert!(matches!(toks[4], TokenKind::Identifier(ref n) if n == "x"));
    assert!(matches!(toks[5], TokenKind::Symbol(Symbol::Minus)));
    let p = parse("-- only a comment").unwrap();
    assert!(p.roots.is_empty());
}

#[test]
fn required_parameter_after_optional_is_refused() {
    let e = parse_err("fn(a = 1, b) end");
    assert!(matches!(e.kind, LangErrorKind::InvalidSyntax { subkind } if subkind == "required parameter after optional"));
    assert_eq!((e.traceback[0].start, e.traceback[0].end), (10, 11));
    assert!(parse("fn(a, b = 1) end").is_ok());
}

#[test]
fn operand_runs_parse_and_a_trailing_operator_runs_out_of_input() {
    let p = parse("1 - 2 - 3 * 4").unwrap();
    assert_eq!(p.roots.len(), 1);
    let p = parse("a = b = c |> f x |> f |> g").unwrap();
    assert_eq!(p.roots.len(), 2);
    let e = parse_err("1 + 2 *");
    assert!(matches!(e.kind, LangErrorKind::UnexpectedEOF { .. }));
    let e = parse_err("x y =");
    assert!(matches!(e.kind, LangErrorKind::UnexpectedEOF { .. }));
}

#[test]
fn simple_calls_and_functions_parse_or_fail_as_their_lists_say() {
    assert!(parse("f()").is_ok());
    assert!(parse("f(1, .x = 2)").is_ok());
    assert!(parse("f(.x = 1, .y = \"s\")").is_ok());
    let e = parse_err("f(.x = 1, 2)");
    assert!(matches!(e.kind, LangErrorKind::InvalidSyntax { subkind } if subkind == "syntax error"));
    assert_eq!(e.message, "positional argument cannot follow a named argument");
    assert!(parse("fn() end").is_ok());
    assert!(parse("fn(a, b, c = nil) end").is_ok());
    let e = parse_err("fn(a, b = true, c) end");
    assert!(matches!(e.kind, LangErrorKind::InvalidSyntax { subkind } if subkind == "required parameter after optional"));
}

#[test]
fn simple_tables_parse() {
    assert!(parse("{}").is_ok());
    assert!(parse("{ 1, [2] = 3, .k = nil, }").is_ok());
    let p = parse("{ \"a\", \"b\", .k = \"c\" }").unwrap();
    assert_eq!(p.roots.len(), 1);
}

#[test]
fn misordered_parameter_is_named_and_located() {
    let e = parse_err("fn(a = 1, b) end");
    assert_eq!(e.message, "required parameter 'b' must appear before any default or rest parameter.");
    assert_eq!((e.traceback[0].start, e.traceback[0].end), (10, 11));
}

#[test]
fn blocks_stand_only_where_the_source_has_them() {
    let p = parse("let x = 1").unwrap();
    assert_eq!(p.roots.len(), 1);
    assert!(matches!(kind(&p, p.roots[0]), NodeKind::Declaration { .. }));
    let p = parse("(1 - 2) * 3").unwrap();
    match kind(&p, p.roots[0]) {
        NodeKind::Binary { op: BinaryOp::Mul, left, .. } => assert!(matches!(kind(&p, *left), NodeKind::Block { .. })),
        _ => panic!("expected a product"),
    }
}
