//! End-to-end tests of the compiler front end: lexing, parsing, and the
//! diagnostic renderers, run against concrete source buffers.

use sdw::common::PosInfo;
use sdw::errors::{ErrType, LexErrors, ParseErrors, ShadowError};
use sdw::lex::{lex, Keywords, Lexeme, LexemeTypes, Literal};
use sdw::parse::{parse, ASTNode, Expression, PrimitiveType, Statement};
use sdw::text::repeat_char;

/// A comparable outline of a lexeme's kind, with its payload but without its
/// position.
fn kind_tag(l: &Lexeme) -> String {
    format!("{:?}", l.ty)
}

#[test]
fn lex_minimal_program_kinds() {
    let toks = lex("fn int main() { return 0\n}").expect("lexing must succeed");
    let kinds: Vec<String> = toks.iter().map(kind_tag).collect();
    let expected = vec![
        format!("{:?}", LexemeTypes::Keyword(Keywords::Fn)),
        format!("{:?}", LexemeTypes::Idn("int".to_string())),
        format!("{:?}", LexemeTypes::Idn("main".to_string())),
        format!("{:?}", LexemeTypes::OpenParen),
        format!("{:?}", LexemeTypes::CloseParen),
        format!("{:?}", LexemeTypes::OpenBrace),
        format!("{:?}", LexemeTypes::Keyword(Keywords::Return)),
        format!("{:?}", LexemeTypes::Literal(Literal::Integer(0))),
        format!("{:?}", LexemeTypes::Newline),
        format!("{:?}", LexemeTypes::CloseBrace),
    ];
    assert_eq!(kinds, expected);
    assert_eq!(toks[0].pos, PosInfo { line: 0, column: 0, length: 2 });
    assert_eq!(toks[1].pos, PosInfo { line: 0, column: 3, length: 3 });
    assert_eq!(toks[8].pos, PosInfo { line: 0, column: 24, length: 1 });
    assert_eq!(toks[9].pos, PosInfo { line: 1, column: 0, length: 1 });
}

#[test]
fn roundtrip_minimal_program() {
    let toks = lex("fn int main() { return 0\n}").expect("lexing must succeed");
    let root = parse(toks).expect("parsing must succeed");
    assert_eq!(root.stmts.len(), 1);
    match &root.stmts[0] {
        Statement::Function(f) => {
            assert_eq!(f.name, "main");
            assert_eq!(f.return_type, PrimitiveType::Int);
            assert!(f.params.is_empty());
            assert_eq!(f.body.stmts.len(), 1);
            match &f.body.stmts[0] {
                Statement::Return(Some(Expression::Literal(Literal::Integer(v)))) => {
                    assert_eq!(*v, 0);
                }
                other => panic!("unexpected body statement: {:?}", other),
            }
        }
        other => panic!("unexpected statement: {:?}", other),
    }
}

#[test]
fn whitespace_invariance_kind_sequence() {
    let plain = lex("fn int main() { return 0\n}").expect("lexing must succeed");
    let padded = lex("fn\tint  main (  ) \r {   return \t 0\n}").expect("lexing must succeed");
    let a: Vec<String> = plain.iter().map(kind_tag).collect();
    let b: Vec<String> = padded.iter().map(kind_tag).collect();
    assert_eq!(a, b);
}

#[test]
fn position_monotonicity_of_lexed_sequence() {
    let toks = lex("fn void f(int a, int b) { return 12\n}").expect("lexing must succeed");
    for w in toks.windows(2) {
        let (p, q) = (&w[0].pos, &w[1].pos);
        assert!(p.line < q.line || (p.line == q.line && p.column <= q.column));
    }
}

#[test]
fn fail_fast_on_unrecognised_character() {
    let err = lex("fn int main(@) { return 0\n}").expect_err("lexing must fail");
    assert_eq!(err.pos, PosInfo { line: 0, column: 12, length: 1 });
    match &err.ty {
        ErrType::Lex(LexErrors::UnrecognisedToken(raw)) => assert_eq!(raw, "@"),
        other => panic!("unexpected error payload: {:?}", other),
    }
}

#[test]
fn unrecognised_token_message_text() {
    let err = lex("fn int main(@) { return 0\n}").expect_err("lexing must fail");
    assert_eq!(
        err.message(),
        "[SDW E/L]\nan unrecognised token was occured: \"@\"\nerror occurred at line 1, character 13.\n"
    );
}

#[test]
fn empty_parameter_list() {
    let toks = lex("fn void f() { return\n}").expect("lexing must succeed");
    let root = parse(toks).expect("parsing must succeed");
    match &root.stmts[0] {
        Statement::Function(f) => {
            assert!(f.params.is_empty());
            assert_eq!(f.return_type, PrimitiveType::Void);
            match &f.body.stmts[0] {
                Statement::Return(None) => {}
                other => panic!("unexpected statement: {:?}", other),
            }
        }
        other => panic!("unexpected statement: {:?}", other),
    }
}

#[test]
fn delimited_parameter_list_in_order() {
    let toks = lex("fn void f(int a, int b) { return\n}").expect("lexing must succeed");
    let root = parse(toks).expect("parsing must succeed");
    match &root.stmts[0] {
        Statement::Function(f) => {
            assert_eq!(f.params.len(), 2);
            assert_eq!(f.params[0].name, "a");
            assert_eq!(f.params[0].pm_type, PrimitiveType::Int);
            assert_eq!(f.params[1].name, "b");
            assert_eq!(f.params[1].pm_type, PrimitiveType::Int);
        }
        other => panic!("unexpected statement: {:?}", other),
    }
}

#[test]
fn missing_delimiter_between_parameters() {
    let toks = lex("fn void f(int a int b) { return\n}").expect("lexing must succeed");
    let err = parse(toks).expect_err("parsing must fail");
    // the mismatch is reported at the lexeme immediately after the first
    // parameter: the second `int`
    assert_eq!(err.pos, PosInfo { line: 0, column: 16, length: 3 });
    match &err.ty {
        ErrType::Parse(ParseErrors::UnexpectedToken { expected, got }) => {
            assert_eq!(expected, "')'");
            assert_eq!(got, "identifier");
        }
        other => panic!("unexpected error payload: {:?}", other),
    }
}

#[test]
fn unresolvable_return_type_name() {
    let toks = lex("fn float f() { return\n}").expect("lexing must succeed");
    let err = parse(toks).expect_err("parsing must fail");
    assert_eq!(err.pos, PosInfo { line: 0, column: 3, length: 5 });
    match &err.ty {
        ErrType::Parse(ParseErrors::UnrecognisedType(name)) => assert_eq!(name, "float"),
        other => panic!("unexpected error payload: {:?}", other),
    }
    assert_eq!(
        err.message(),
        "[SDW E/P]\n'Custom' variable types not implemented yet (given float)\nerror occurred at line 1, character 4.\n"
    );
}

#[test]
fn unresolvable_parameter_type_name() {
    let toks = lex("fn void f(bool a) { return\n}").expect("lexing must succeed");
    let err = parse(toks).expect_err("parsing must fail");
    match &err.ty {
        ErrType::Parse(ParseErrors::UnrecognisedType(name)) => assert_eq!(name, "bool"),
        other => panic!("unexpected error payload: {:?}", other),
    }
}

#[test]
fn rendering_is_idempotent() {
    let src = "fn int main() {\n@ return\n}";
    let err = lex(src).expect_err("lexing must fail");
    assert_eq!(err.verbose(src), err.verbose(src));
    assert_eq!(err.message(), err.message());
}

#[test]
fn verbose_excerpt_underlines_the_span() {
    let src = "fn int main() {\n@ return\n}";
    let err = lex(src).expect_err("lexing must fail");
    assert_eq!(err.pos, PosInfo { line: 1, column: 0, length: 1 });
    assert_eq!(
        err.verbose(src),
        "[ .. ]\n@ return\n^ - error occured here!\n[ .. ]\n"
    );
}

#[test]
fn verbose_excerpt_with_column_offset() {
    let src = "fn int main[) {\n}";
    let err = lex(src).expect_err("lexing must fail");
    assert_eq!(err.pos, PosInfo { line: 0, column: 11, length: 1 });
    assert_eq!(
        err.verbose(src),
        "[ .. ]\nfn int main[) {\n           ^ - error occured here!\n[ .. ]\n"
    );
}

#[test]
fn integer_literal_bounds() {
    let toks = lex("return 9223372036854775807\n").expect("lexing must succeed");
    match &toks[1].ty {
        LexemeTypes::Literal(Literal::Integer(v)) => assert_eq!(*v, i64::MAX),
        other => panic!("unexpected lexeme: {:?}", other),
    }
    let err = lex("return 9223372036854775808\n").expect_err("overflow must fail lexing");
    assert_eq!(err.pos, PosInfo { line: 0, column: 7, length: 19 });
    match &err.ty {
        ErrType::Lex(LexErrors::UnrecognisedToken(raw)) => {
            assert_eq!(raw, "9223372036854775808")
        }
        other => panic!("unexpected error payload: {:?}", other),
    }
}

#[test]
fn expression_evaluation() {
    let e = Expression::Literal(Literal::Integer(42));
    assert_eq!(e.eval(), 42);
    assert_eq!(e.evaltype(), PrimitiveType::Int);
}

#[test]
fn nested_function_declaration() {
    let toks = lex("fn void f() { fn int g() { return 1\n} return\n}").expect("lexing");
    let root = parse(toks).expect("parsing must succeed");
    match &root.stmts[0] {
        Statement::Function(f) => {
            assert_eq!(f.body.stmts.len(), 2);
            match &f.body.stmts[0] {
                Statement::Function(g) => {
                    assert_eq!(g.name, "g");
                    assert_eq!(g.return_type, PrimitiveType::Int);
                }
                other => panic!("unexpected inner statement: {:?}", other),
            }
        }
        other => panic!("unexpected statement: {:?}", other),
    }
}

#[test]
fn unexpected_end_of_input() {
    let toks = lex("fn int").expect("lexing must succeed");
    let err = parse(toks).expect_err("parsing must fail");
    assert!(matches!(err.ty, ErrType::Parse(ParseErrors::UnexpectedEof)));
}

#[test]
fn unsupported_statement_form() {
    let toks = lex("42\n").expect("lexing must succeed");
    let err = parse(toks).expect_err("parsing must fail");
    assert!(matches!(
        err.ty,
        ErrType::Parse(ParseErrors::UnsupportedStatement)
    ));
}

#[test]
fn unsupported_expression_form() {
    let toks = lex("return main\n").expect("lexing must succeed");
    let err = parse(toks).expect_err("parsing must fail");
    assert!(matches!(
        err.ty,
        ErrType::Parse(ParseErrors::UnsupportedExpression)
    ));
}

#[test]
fn empty_source_lexes_and_parses() {
    let toks = lex("").expect("lexing must succeed");
    assert!(toks.is_empty());
    let root = parse(toks).expect("parsing must succeed");
    assert!(root.stmts.is_empty());
}

#[test]
fn identifier_text_is_preserved() {
    let toks = lex("some_name9").expect_err("lone underscore run is not alphabetic");
    // `some` lexes as an identifier, then `_` matches no classification rule
    assert_eq!(toks.pos, PosInfo { line: 0, column: 4, length: 1 });
    let toks = lex("someName9 more").expect("lexing must succeed");
    match (&toks[0].ty, &toks[1].ty, &toks[2].ty) {
        (
            LexemeTypes::Idn(a),
            LexemeTypes::Literal(Literal::Integer(v)),
            LexemeTypes::Idn(b),
        ) => {
            assert_eq!(a, "someName");
            assert_eq!(*v, 9);
            assert_eq!(b, "more");
        }
        other => panic!("unexpected lexemes: {:?}", other),
    }
}

#[test]
fn diagnostic_constructors_carry_position() {
    let e = ShadowError::new(
        ErrType::Lex(LexErrors::UnrecognisedToken("?".to_string())),
        3,
        7,
        2,
    );
    assert_eq!(e.pos, PosInfo { line: 3, column: 7, length: 2 });
    let p = PosInfo { line: 1, column: 2, length: 3 };
    let e2 = ShadowError::from_pos(ErrType::Parse(ParseErrors::UnexpectedEof), p);
    assert_eq!(e2.pos, p);
}

#[test]
fn repeat_char_builds_the_underline() {
    assert_eq!(repeat_char('^', 4), "^^^^");
    assert_eq!(repeat_char(' ', 0), "");
}

#[test]
fn primitive_type_resolution() {
    assert_eq!(
        PrimitiveType::from_str(&"void".to_string()),
        Some(PrimitiveType::Void)
    );
    assert_eq!(
        PrimitiveType::from_str(&"int".to_string()),
        Some(PrimitiveType::Int)
    );
    assert_eq!(PrimitiveType::from_str(&"f32".to_string()), None);
    assert_eq!(PrimitiveType::default(), PrimitiveType::Void);
}

#[test]
fn root_stops_at_an_unexpected_close_brace() {
    let toks = lex("}").expect("lexing must succeed");
    let root = parse(toks).expect("parsing must succeed");
    assert!(root.stmts.is_empty());
}

#[test]
fn trait_entry_point_parses_a_statement() {
    let mut toks = lex("return 5\n").expect("lexing must succeed");
    let st = <Statement as ASTNode>::new(&mut toks).expect("parsing must succeed");
    match st {
        Statement::Return(Some(Expression::Literal(Literal::Integer(v)))) => assert_eq!(v, 5),
        other => panic!("unexpected statement: {:?}", other),
    }
    assert!(toks.is_empty());
}
