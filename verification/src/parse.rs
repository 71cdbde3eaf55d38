//! The parser: recursive descent over the lexeme sequence, one procedure per
//! grammar production, consuming strictly left to right with one lexeme of
//! lookahead and no backtracking.

use crate::common::PosInfo;
use crate::errors::{ErrType, ParseErrors, ShadowError};
use crate::lex::{lexemes_view, Keywords, LexKind, Lexeme, LexemeTypes, Literal};
use vstd::prelude::*;

verus! {

/// The built-in value types, resolvable without a symbol table.
#[derive(Clone, Copy, Debug, PartialEq, Eq, Structural)]
pub enum PrimitiveType {
    Void,
    Int,
}

impl Default for PrimitiveType {
    /// The default type is `Void`.
    fn default() -> (r: Self)
        ensures
            r == PrimitiveType::Void,
    {
        PrimitiveType::Void
    }
}

/// The primitive type spelled by `s`, if any.
pub open spec fn spec_prim_of(s: Seq<char>) -> Option<PrimitiveType> {
    if s == "void"@ {
        Some(PrimitiveType::Void)
    } else if s == "int"@ {
        Some(PrimitiveType::Int)
    } else {
        None
    }
}

impl PrimitiveType {
    /// Resolves a type name; only the primitive spellings are accepted.
    pub fn from_str(from: &String) -> (r: Option<PrimitiveType>)
        ensures
            r == spec_prim_of(from@),
    {
        let vd: String = "void".to_owned();
        if from.eq(&vd) {
            return Some(PrimitiveType::Void);
        }
        let it: String = "int".to_owned();
        if from.eq(&it) {
            return Some(PrimitiveType::Int);
        }
        None
    }
}

// ---------------------------------------------------------------------------
// AST nodes and their mathematical counterparts
// ---------------------------------------------------------------------------

/// A statement: a `return` (with an optional value) or a nested function
/// declaration.
#[derive(Debug)]
pub enum Statement {
    Return(Option<Expression>),
    Function(Function),
}

/// An expression; only literals are in scope.
#[derive(Debug)]
pub enum Expression {
    Literal(Literal),
}

/// A formal parameter: its type and its name.
#[derive(Debug)]
pub struct Parameter {
    pub name: String,
    pub pm_type: PrimitiveType,
}

/// A function declaration: name, return type, parameters and body.
#[derive(Debug)]
pub struct Function {
    pub name: String,
    pub body: Block,
    pub return_type: PrimitiveType,
    pub params: Vec<Parameter>,
}

/// A braced statement list.
#[derive(Debug)]
pub struct Block {
    pub stmts: Vec<Statement>,
}

/// The top-level compilation unit.
#[derive(Debug)]
pub struct Root {
    pub stmts: Vec<Statement>,
}

#[verifier::ext_equal]
pub enum StatementV {
    Return(Option<ExpressionV>),
    Function(FunctionV),
}

#[verifier::ext_equal]
pub enum ExpressionV {
    Literal(Literal),
}

#[verifier::ext_equal]
pub struct ParameterV {
    pub name: Seq<char>,
    pub pm_type: PrimitiveType,
}

#[verifier::ext_equal]
pub struct FunctionV {
    pub name: Seq<char>,
    pub body: BlockV,
    pub return_type: PrimitiveType,
    pub params: Seq<ParameterV>,
}

#[verifier::ext_equal]
pub struct BlockV {
    pub stmts: Seq<StatementV>,
}

#[verifier::ext_equal]
pub struct RootV {
    pub stmts: Seq<StatementV>,
}

pub open spec fn expr_v(e: Expression) -> ExpressionV {
    match e {
        Expression::Literal(l) => ExpressionV::Literal(l),
    }
}

pub open spec fn param_v(p: Parameter) -> ParameterV {
    ParameterV { name: p.name@, pm_type: p.pm_type }
}

pub open spec fn stmt_v(s: Statement) -> StatementV
    decreases s,
{
    match s {
        Statement::Return(e) => StatementV::Return(
            match e {
                Some(x) => Some(expr_v(x)),
                None => None,
            },
        ),
        Statement::Function(f) => StatementV::Function(func_v(f)),
    }
}

/// The views of a parameter sequence.
pub open spec fn params_view(v: Seq<Parameter>) -> Seq<ParameterV>
    decreases v.len(),
{
    if v.len() == 0 {
        Seq::empty()
    } else {
        params_view(v.drop_last()).push(param_v(v.last()))
    }
}

/// The views of a statement sequence.
pub open spec fn stmts_view(v: Seq<Statement>) -> Seq<StatementV>
    decreases v,
{
    if v.len() == 0 {
        Seq::empty()
    } else {
        stmts_view(v.drop_last()).push(stmt_v(v.last()))
    }
}

pub open spec fn func_v(f: Function) -> FunctionV
    decreases f,
{
    FunctionV {
        name: f.name@,
        body: block_v(f.body),
        return_type: f.return_type,
        params: params_view(f.params@),
    }
}

pub open spec fn block_v(b: Block) -> BlockV
    decreases b,
{
    BlockV { stmts: stmts_view(b.stmts@) }
}

pub open spec fn root_v(r: Root) -> RootV {
    RootV { stmts: stmts_view(r.stmts@) }
}

impl View for Expression {
    type V = ExpressionV;

    open spec fn view(&self) -> ExpressionV {
        expr_v(*self)
    }
}

impl View for Parameter {
    type V = ParameterV;

    open spec fn view(&self) -> ParameterV {
        param_v(*self)
    }
}

impl View for Statement {
    type V = StatementV;

    open spec fn view(&self) -> StatementV {
        stmt_v(*self)
    }
}

impl View for Function {
    type V = FunctionV;

    open spec fn view(&self) -> FunctionV {
        func_v(*self)
    }
}

impl View for Block {
    type V = BlockV;

    open spec fn view(&self) -> BlockV {
        block_v(*self)
    }
}

impl View for Root {
    type V = RootV;

    open spec fn view(&self) -> RootV {
        root_v(*self)
    }
}

// ---------------------------------------------------------------------------
// The grammar, as recursive functions over the lexeme sequence: each returns
// the parsed node and the unconsumed remainder, or `None` where the input
// violates the production.
// ---------------------------------------------------------------------------

/// `Expression := IntegerLiteral`
pub open spec fn spec_parse_expression(s: Seq<crate::lex::LexemeV>) -> Option<
    (ExpressionV, Seq<crate::lex::LexemeV>),
> {
    if s.len() == 0 {
        None
    } else {
        match s[0].kind {
            LexKind::Literal(l) => Some((ExpressionV::Literal(l), s.skip(1))),
            _ => None,
        }
    }
}

/// `Parameter := Identifier(type-name) Identifier(param-name)`
pub open spec fn spec_parse_parameter(s: Seq<crate::lex::LexemeV>) -> Option<
    (ParameterV, Seq<crate::lex::LexemeV>),
> {
    if s.len() < 2 {
        None
    } else {
        match (s[0].kind, s[1].kind) {
            (LexKind::Idn(tp), LexKind::Idn(nm)) => match spec_prim_of(tp) {
                Some(t) => Some((ParameterV { name: nm, pm_type: t }, s.skip(2))),
                None => None,
            },
            _ => None,
        }
    }
}

/// The rest of a parameter list after one parsed parameter: while the front
/// lexeme is a delimiter, consume it and require another parameter.
pub open spec fn spec_parse_params_more(
    acc: Seq<ParameterV>,
    rest: Seq<crate::lex::LexemeV>,
) -> Option<(Seq<ParameterV>, Seq<crate::lex::LexemeV>)>
    decreases rest.len(),
{
    if rest.len() > 0 && rest[0].kind is Delimiter {
        let r1 = rest.skip(1);
        match spec_parse_parameter(r1) {
            Some((p, r2)) => if r2.len() < rest.len() {
                spec_parse_params_more(acc.push(p), r2)
            } else {
                None
            },
            None => None,
        }
    } else {
        Some((acc, rest))
    }
}

/// A non-empty parameter list: `Parameter ("," Parameter)*`.
pub open spec fn spec_parse_params(s: Seq<crate::lex::LexemeV>) -> Option<
    (Seq<ParameterV>, Seq<crate::lex::LexemeV>),
> {
    match spec_parse_parameter(s) {
        Some((p, rest)) => spec_parse_params_more(seq![p], rest),
        None => None,
    }
}

/// `Function := "fn" Identifier(return-type) Identifier(name) "(" parameter
/// list ")" Block`; an empty parameter list is a `")"` immediately after the
/// `"("`.
pub open spec fn spec_parse_function(s: Seq<crate::lex::LexemeV>) -> Option<
    (FunctionV, Seq<crate::lex::LexemeV>),
>
    decreases s.len(), 0int,
{
    if s.len() == 0 || !(s[0].kind matches LexKind::Keyword(Keywords::Fn)) {
        None
    } else {
        let s1 = s.skip(1);
        if s1.len() == 0 || !(s1[0].kind is Idn) {
            None
        } else {
            match spec_prim_of(s1[0].kind->Idn_0) {
                Some(rt) => {
                    let s2 = s1.skip(1);
                    if s2.len() == 0 || !(s2[0].kind is Idn) {
                        None
                    } else {
                        let nm = s2[0].kind->Idn_0;
                        let s3 = s2.skip(1);
                        if s3.len() == 0 || !(s3[0].kind is OpenParen) {
                            None
                        } else {
                            let s4 = s3.skip(1);
                            let po = if s4.len() > 0 && s4[0].kind is CloseParen {
                                Some((Seq::<ParameterV>::empty(), s4))
                            } else {
                                spec_parse_params(s4)
                            };
                            match po {
                                Some((ps, s5)) => {
                                    if s5.len() == 0 || !(s5[0].kind is CloseParen) {
                                        None
                                    } else if s5.len() <= s.len() {
                                        match spec_parse_block(s5.skip(1)) {
                                            Some((b, s6)) => Some(
                                                (
                                                    FunctionV {
                                                        name: nm,
                                                        body: b,
                                                        return_type: rt,
                                                        params: ps,
                                                    },
                                                    s6,
                                                ),
                                            ),
                                            None => None,
                                        }
                                    } else {
                                        None
                                    }
                                },
                                None => None,
                            }
                        }
                    }
                },
                None => None,
            }
        }
    }
}

/// `Statement := Function | "return" Expression? Newline`, dispatched on the
/// front lexeme's kind.
pub open spec fn spec_parse_statement(s: Seq<crate::lex::LexemeV>) -> Option<
    (StatementV, Seq<crate::lex::LexemeV>),
>
    decreases s.len(), 1int,
{
    if s.len() == 0 {
        None
    } else {
        match s[0].kind {
            LexKind::Keyword(Keywords::Fn) => match spec_parse_function(s) {
                Some((f, rest)) => Some((StatementV::Function(f), rest)),
                None => None,
            },
            LexKind::Keyword(Keywords::Return) => {
                let s1 = s.skip(1);
                if s1.len() == 0 {
                    None
                } else if s1[0].kind is Newline {
                    Some((StatementV::Return(None), s1.skip(1)))
                } else {
                    match spec_parse_expression(s1) {
                        Some((e, s2)) => if s2.len() > 0 && s2[0].kind is Newline {
                            Some((StatementV::Return(Some(e)), s2.skip(1)))
                        } else {
                            None
                        },
                        None => None,
                    }
                }
            },
            _ => None,
        }
    }
}

/// A statement list, ending at a closing brace or at the end of the input.
pub open spec fn spec_parse_stmts(s: Seq<crate::lex::LexemeV>) -> Option<
    (Seq<StatementV>, Seq<crate::lex::LexemeV>),
>
    decreases s.len(), 2int,
{
    if s.len() == 0 || s[0].kind is CloseBrace {
        Some((Seq::<StatementV>::empty(), s))
    } else {
        match spec_parse_statement(s) {
            Some((st, rest)) => if rest.len() < s.len() {
                match spec_parse_stmts(rest) {
                    Some((sts, r2)) => Some((seq![st] + sts, r2)),
                    None => None,
                }
            } else {
                None
            },
            None => None,
        }
    }
}

/// `Block := "{" Statement* "}"`
pub open spec fn spec_parse_block(s: Seq<crate::lex::LexemeV>) -> Option<
    (BlockV, Seq<crate::lex::LexemeV>),
>
    decreases s.len(), 3int,
{
    if s.len() == 0 || !(s[0].kind is OpenBrace) {
        None
    } else {
        match spec_parse_stmts(s.skip(1)) {
            Some((sts, rest)) => if rest.len() > 0 && rest[0].kind is CloseBrace {
                Some((BlockV { stmts: sts }, rest.skip(1)))
            } else {
                None
            },
            None => None,
        }
    }
}

/// `Root := Statement*`, stopping at an unexpected closing brace or at the end
/// of the input; the remainder is left unconsumed.
pub open spec fn spec_parse_root(s: Seq<crate::lex::LexemeV>) -> Option<
    (RootV, Seq<crate::lex::LexemeV>),
> {
    match spec_parse_stmts(s) {
        Some((sts, rest)) => Some((RootV { stmts: sts }, rest)),
        None => None,
    }
}


/// Prepends already-parsed statements to a statement-list outcome; failures
/// pass through.
pub open spec fn stmts_prepend(
    acc: Seq<StatementV>,
    o: Option<(Seq<StatementV>, Seq<crate::lex::LexemeV>)>,
) -> Option<(Seq<StatementV>, Seq<crate::lex::LexemeV>)> {
    match o {
        Some((sts, r)) => Some((acc + sts, r)),
        None => None,
    }
}

/// Appending a parameter appends its view.
proof fn lemma_params_view_push(v: Seq<Parameter>, p: Parameter)
    ensures
        params_view(v.push(p)) == params_view(v).push(param_v(p)),
{
    assert(v.push(p).drop_last() =~= v);
    assert(v.push(p).last() == p);
    assert(params_view(v.push(p)) =~= params_view(v).push(param_v(p)));
}

/// The empty parameter sequence has the empty view.
proof fn lemma_params_view_empty()
    ensures
        params_view(Seq::<Parameter>::empty()) == Seq::<ParameterV>::empty(),
{
}

/// Appending a statement appends its view.
proof fn lemma_stmts_view_push(v: Seq<Statement>, st: Statement)
    ensures
        stmts_view(v.push(st)) == stmts_view(v).push(stmt_v(st)),
{
    assert(v.push(st).drop_last() =~= v);
    assert(v.push(st).last() == st);
    assert(stmts_view(v.push(st)) =~= stmts_view(v).push(stmt_v(st)));
}

// ---------------------------------------------------------------------------
// The consumption primitive and its relatives
// ---------------------------------------------------------------------------

/// A lexeme kind that carries no text or value and can be expected verbatim.
pub open spec fn is_dataless(k: LexKind) -> bool {
    !(k is Idn) && !(k is Literal)
}

/// The span used for diagnostics raised at the end of the lexeme sequence.
fn eof_pos() -> (r: PosInfo)
    ensures
        r == (PosInfo { line: 0, column: 0, length: 0 }),
{
    PosInfo { line: 0, column: 0, length: 0 }
}

fn pop_front(lexemes: &mut Vec<Lexeme>) -> (r: Lexeme)
    requires
        old(lexemes)@.len() > 0,
    ensures
        r == old(lexemes)@[0],
        final(lexemes)@ == old(lexemes)@.skip(1),
{
    let l = lexemes.remove(0);
    proof {
        assert(old(lexemes)@.remove(0) =~= old(lexemes)@.skip(1));
    }
    l
}

fn kind_eq(a: &LexemeTypes, b: &LexemeTypes) -> (r: bool)
    requires
        is_dataless(b@),
    ensures
        r == (a@ == b@),
{
    match (a, b) {
        (LexemeTypes::Keyword(x), LexemeTypes::Keyword(y)) => x == y,
        (LexemeTypes::OpenParen, LexemeTypes::OpenParen) => true,
        (LexemeTypes::CloseParen, LexemeTypes::CloseParen) => true,
        (LexemeTypes::OpenBrace, LexemeTypes::OpenBrace) => true,
        (LexemeTypes::CloseBrace, LexemeTypes::CloseBrace) => true,
        (LexemeTypes::Semicolon, LexemeTypes::Semicolon) => true,
        (LexemeTypes::Delimiter, LexemeTypes::Delimiter) => true,
        (LexemeTypes::Newline, LexemeTypes::Newline) => true,
        _ => false,
    }
}

/// The expect-and-advance primitive for kinds that carry no data: fails with
/// an end-of-input diagnostic on an empty queue, with a mismatch diagnostic at
/// the front lexeme's position on the wrong kind, and otherwise consumes it.
fn expect(lexemes: &mut Vec<Lexeme>, expected: LexemeTypes) -> (r: Result<(), ShadowError>)
    requires
        is_dataless(expected@),
    ensures
        (r is Ok) == (old(lexemes)@.len() > 0 && old(lexemes)@[0]@.kind == expected@),
        r is Ok ==> final(lexemes)@ == old(lexemes)@.skip(1),
{
    if lexemes.len() == 0 {
        return Err(ShadowError::from_pos(ErrType::Parse(ParseErrors::UnexpectedEof), eof_pos()));
    }
    let l = pop_front(lexemes);
    if kind_eq(&l.ty, &expected) {
        Ok(())
    } else {
        Err(
            ShadowError::from_pos(
                ErrType::Parse(
                    ParseErrors::UnexpectedToken {
                        expected: expected.describe(),
                        got: l.ty.describe(),
                    },
                ),
                l.pos,
            ),
        )
    }
}

/// The expect-and-advance primitive for identifiers: yields the identifier
/// text and its span.
fn expect_idn(lexemes: &mut Vec<Lexeme>) -> (r: Result<(String, PosInfo), ShadowError>)
    ensures
        (r is Ok) == (old(lexemes)@.len() > 0 && old(lexemes)@[0]@.kind is Idn),
        r matches Ok((s, p)) ==> s@ == old(lexemes)@[0]@.kind->Idn_0 && p == old(lexemes)@[0].pos
            && final(lexemes)@ == old(lexemes)@.skip(1),
{
    if lexemes.len() == 0 {
        return Err(ShadowError::from_pos(ErrType::Parse(ParseErrors::UnexpectedEof), eof_pos()));
    }
    let l = pop_front(lexemes);
    let Lexeme { ty, pos } = l;
    match ty {
        LexemeTypes::Idn(s) => Ok((s, pos)),
        other => Err(
            ShadowError::from_pos(
                ErrType::Parse(
                    ParseErrors::UnexpectedToken {
                        expected: "identifier".to_owned(),
                        got: other.describe(),
                    },
                ),
                pos,
            ),
        ),
    }
}

fn is_delim_t(t: &LexemeTypes) -> (b: bool)
    ensures
        b == (t@ is Delimiter),
{
    matches!(t, LexemeTypes::Delimiter)
}

fn is_close_paren_t(t: &LexemeTypes) -> (b: bool)
    ensures
        b == (t@ is CloseParen),
{
    matches!(t, LexemeTypes::CloseParen)
}

fn is_close_brace_t(t: &LexemeTypes) -> (b: bool)
    ensures
        b == (t@ is CloseBrace),
{
    matches!(t, LexemeTypes::CloseBrace)
}

fn is_newline_t(t: &LexemeTypes) -> (b: bool)
    ensures
        b == (t@ is Newline),
{
    matches!(t, LexemeTypes::Newline)
}

// ---------------------------------------------------------------------------
// The recursive-descent procedures
// ---------------------------------------------------------------------------

impl Expression {
    /// Parses one expression from the front of the lexeme queue.
    pub fn new(lexemes: &mut Vec<Lexeme>) -> (r: Result<Expression, ShadowError>)
        ensures
            (match spec_parse_expression(lexemes_view(old(lexemes)@)) {
                Some((g, rest)) => r is Ok && r->Ok_0@ == g && lexemes_view(final(lexemes)@)
                    == rest,
                None => r is Err,
            }),
            r is Ok ==> final(lexemes)@.len() < old(lexemes)@.len(),
    {
        let ghost s = lexemes_view(old(lexemes)@);
        if lexemes.len() == 0 {
            return Err(
                ShadowError::from_pos(ErrType::Parse(ParseErrors::UnexpectedEof), eof_pos()),
            );
        }
        proof {
            assert(s[0] == old(lexemes)@[0]@);
        }
        if !matches!(&lexemes[0].ty, LexemeTypes::Literal(_)) {
            return Err(
                ShadowError::from_pos(
                    ErrType::Parse(ParseErrors::UnsupportedExpression),
                    lexemes[0].pos,
                ),
            );
        }
        let l = pop_front(lexemes);
        proof {
            assert(lexemes_view(lexemes@) =~= s.skip(1));
        }
        match l.ty {
            LexemeTypes::Literal(lit) => Ok(Expression::Literal(lit)),
            _ => {
                proof {
                    assert(false);
                }
                Err(ShadowError::from_pos(ErrType::Parse(ParseErrors::UnsupportedExpression), l.pos))
            },
        }
    }
}

impl Parameter {
    /// Parses one parameter: a type name and a parameter name.
    pub fn new(lexemes: &mut Vec<Lexeme>) -> (r: Result<Parameter, ShadowError>)
        ensures
            (match spec_parse_parameter(lexemes_view(old(lexemes)@)) {
                Some((g, rest)) => r is Ok && r->Ok_0@ == g && lexemes_view(final(lexemes)@)
                    == rest,
                None => r is Err,
            }),
            r is Ok ==> final(lexemes)@.len() + 2 == old(lexemes)@.len(),
    {
        let ghost s = lexemes_view(old(lexemes)@);
        proof {
            if s.len() > 0 {
                assert(s[0] == old(lexemes)@[0]@);
            }
            if s.len() > 1 {
                assert(s[1] == old(lexemes)@[1]@);
            }
        }
        let (tp, tp_pos) = match expect_idn(lexemes) {
            Ok(x) => x,
            Err(e) => {
                return Err(e);
            },
        };
        proof {
            assert(lexemes_view(lexemes@) =~= s.skip(1));
            if s.len() > 1 {
                assert(s.skip(1)[0] == s[1]);
            }
        }
        let pm_type = match PrimitiveType::from_str(&tp) {
            Some(t) => t,
            None => {
                return Err(
                    ShadowError::from_pos(
                        ErrType::Parse(ParseErrors::UnrecognisedType(tp)),
                        tp_pos,
                    ),
                );
            },
        };
        let (name, _) = match expect_idn(lexemes) {
            Ok(x) => x,
            Err(e) => {
                return Err(e);
            },
        };
        proof {
            assert(lexemes_view(lexemes@) =~= s.skip(2));
        }
        Ok(Parameter { name, pm_type })
    }
}

impl Function {
    /// Parses one function declaration, including its parameter list and
    /// body.
    #[verifier::loop_isolation(false)]
    pub fn new(lexemes: &mut Vec<Lexeme>) -> (r: Result<Function, ShadowError>)
        ensures
            (match spec_parse_function(lexemes_view(old(lexemes)@)) {
                Some((g, rest)) => r is Ok && r->Ok_0@ == g && lexemes_view(final(lexemes)@)
                    == rest,
                None => r is Err,
            }),
            r is Ok ==> final(lexemes)@.len() < old(lexemes)@.len(),
        decreases old(lexemes)@.len(), 0int,
    {
        let ghost s = lexemes_view(old(lexemes)@);
        proof {
            if s.len() > 0 {
                assert(s[0] == old(lexemes)@[0]@);
            }
        }
        match expect(lexemes, LexemeTypes::Keyword(Keywords::Fn)) {
            Ok(u) => {},
            Err(e) => {
                return Err(e);
            },
        }
        let ghost s1 = s.skip(1);
        proof {
            assert(lexemes_view(lexemes@) =~= s1);
            if s1.len() > 0 {
                assert(s1[0] == lexemes@[0]@);
            }
        }
        let (tp, tp_pos) = match expect_idn(lexemes) {
            Ok(x) => x,
            Err(e) => {
                return Err(e);
            },
        };
        let ghost s2 = s1.skip(1);
        proof {
            assert(lexemes_view(lexemes@) =~= s2);
            if s2.len() > 0 {
                assert(s2[0] == lexemes@[0]@);
            }
        }
        let return_type = match PrimitiveType::from_str(&tp) {
            Some(t) => t,
            None => {
                return Err(
                    ShadowError::from_pos(
                        ErrType::Parse(ParseErrors::UnrecognisedType(tp)),
                        tp_pos,
                    ),
                );
            },
        };
        let (name, _) = match expect_idn(lexemes) {
            Ok(x) => x,
            Err(e) => {
                return Err(e);
            },
        };
        let ghost s3 = s2.skip(1);
        proof {
            assert(lexemes_view(lexemes@) =~= s3);
            if s3.len() > 0 {
                assert(s3[0] == lexemes@[0]@);
            }
        }
        match expect(lexemes, LexemeTypes::OpenParen) {
            Ok(u) => {},
            Err(e) => {
                return Err(e);
            },
        }
        let ghost s4 = s3.skip(1);
        proof {
            assert(lexemes_view(lexemes@) =~= s4);
            if s4.len() > 0 {
                assert(s4[0] == lexemes@[0]@);
            }
        }
        let ghost gpo = if s4.len() > 0 && s4[0].kind is CloseParen {
            Some((Seq::<ParameterV>::empty(), s4))
        } else {
            spec_parse_params(s4)
        };
        let mut params: Vec<Parameter> = Vec::new();
        if !(lexemes.len() > 0 && is_close_paren_t(&lexemes[0].ty)) {
            match Parameter::new(lexemes) {
                Ok(p) => {
                    params.push(p);
                },
                Err(e) => {
                    return Err(e);
                },
            }
            proof {
                lemma_params_view_empty();
                lemma_params_view_push(Seq::<Parameter>::empty(), params@.last());
                assert(params@ =~= Seq::<Parameter>::empty().push(params@.last()));
                assert(params_view(params@) =~= seq![param_v(params@.last())]);
                assert(gpo == spec_parse_params_more(
                    params_view(params@),
                    lexemes_view(lexemes@),
                ));
            }
            while lexemes.len() > 0 && is_delim_t(&lexemes[0].ty)
                invariant
                    gpo == spec_parse_params_more(params_view(params@), lexemes_view(lexemes@)),
                    lexemes@.len() < old(lexemes)@.len(),
                decreases lexemes@.len(),
            {
                let ghost rest = lexemes_view(lexemes@);
                let ghost acc = params_view(params@);
                proof {
                    assert(rest[0] == lexemes@[0]@);
                }
                let d = pop_front(lexemes);
                proof {
                    assert(lexemes_view(lexemes@) =~= rest.skip(1));
                }
                let ghost pv = params@;
                let ghost before = lexemes_view(lexemes@);
                match Parameter::new(lexemes) {
                    Ok(p) => {
                        params.push(p);
                        proof {
                            lemma_params_view_push(pv, params@.last());
                            assert(params@ =~= pv.push(params@.last()));
                            assert(params_view(params@) == acc.push(param_v(params@.last())));
                        }
                    },
                    Err(e) => {
                        proof {
                            match spec_parse_parameter(before) {
                                Some(x) => {
                                    assert(false);
                                },
                                None => {},
                            }
                            assert(spec_parse_params_more(acc, rest) is None);
                            assert(gpo is None);
                            assert(spec_parse_function(s) is None);
                        }
                        return Err(e);
                    },
                }
            }
        } else {
            proof {
                assert(params_view(params@) =~= Seq::<ParameterV>::empty());
            }
        }
        proof {
            assert(gpo == Some((params_view(params@), lexemes_view(lexemes@))));
            if lexemes@.len() > 0 {
                assert(lexemes_view(lexemes@)[0] == lexemes@[0]@);
            }
        }
        let ghost s5 = lexemes_view(lexemes@);
        match expect(lexemes, LexemeTypes::CloseParen) {
            Ok(u) => {},
            Err(e) => {
                return Err(e);
            },
        }
        proof {
            assert(lexemes_view(lexemes@) =~= s5.skip(1));
        }
        let body = match Block::new(lexemes) {
            Ok(b) => b,
            Err(e) => {
                return Err(e);
            },
        };
        Ok(Function { name, body, return_type, params })
    }
}

impl Block {
    /// Parses a braced statement list.
    #[verifier::loop_isolation(false)]
    pub fn new(lexemes: &mut Vec<Lexeme>) -> (r: Result<Block, ShadowError>)
        ensures
            (match spec_parse_block(lexemes_view(old(lexemes)@)) {
                Some((g, rest)) => r is Ok && r->Ok_0@ == g && lexemes_view(final(lexemes)@)
                    == rest,
                None => r is Err,
            }),
            r is Ok ==> final(lexemes)@.len() < old(lexemes)@.len(),
        decreases old(lexemes)@.len(), 0int,
    {
        let ghost s = lexemes_view(old(lexemes)@);
        proof {
            if s.len() > 0 {
                assert(s[0] == old(lexemes)@[0]@);
            }
        }
        match expect(lexemes, LexemeTypes::OpenBrace) {
            Ok(u) => {},
            Err(e) => {
                return Err(e);
            },
        }
        let ghost s1 = s.skip(1);
        proof {
            assert(lexemes_view(lexemes@) =~= s1);
        }
        let mut stmts: Vec<Statement> = Vec::new();
        proof {
            assert(stmts@ =~= Seq::<Statement>::empty());
            assert(stmts_view(stmts@) =~= Seq::<StatementV>::empty());
            match spec_parse_stmts(s1) {
                Some((sts, rr)) => {
                    assert(Seq::<StatementV>::empty() + sts =~= sts);
                },
                None => {},
            }
        }
        while lexemes.len() > 0 && !is_close_brace_t(&lexemes[0].ty)
            invariant
                stmts_prepend(stmts_view(stmts@), spec_parse_stmts(lexemes_view(lexemes@)))
                    == spec_parse_stmts(s1),
                lexemes@.len() < old(lexemes)@.len(),
            decreases lexemes@.len(),
        {
            let ghost cur = lexemes_view(lexemes@);
            let ghost acc = stmts_view(stmts@);
            proof {
                assert(cur[0] == lexemes@[0]@);
            }
            let ghost sv = stmts@;
            match Statement::new(lexemes) {
                Ok(st) => {
                    proof {
                        match spec_parse_stmts(lexemes_view(lexemes@)) {
                            Some((sts, rr)) => {
                                assert(acc + (seq![stmt_v(st)] + sts) =~= acc.push(stmt_v(st))
                                    + sts);
                            },
                            None => {},
                        }
                    }
                    stmts.push(st);
                    proof {
                        lemma_stmts_view_push(sv, stmts@.last());
                        assert(stmts@ =~= sv.push(stmts@.last()));
                        assert(stmts_view(stmts@) == acc.push(stmt_v(stmts@.last())));
                    }
                },
                Err(e) => {
                    proof {
                        match spec_parse_statement(cur) {
                            Some(x) => {
                                assert(false);
                            },
                            None => {},
                        }
                        assert(spec_parse_stmts(cur) is None);
                        assert(spec_parse_stmts(s1) is None);
                        assert(spec_parse_block(s) is None);
                    }
                    return Err(e);
                },
            }
        }
        let ghost s_end = lexemes_view(lexemes@);
        proof {
            if lexemes@.len() > 0 {
                assert(s_end[0] == lexemes@[0]@);
            }
        }
        match expect(lexemes, LexemeTypes::CloseBrace) {
            Ok(u) => {},
            Err(e) => {
                return Err(e);
            },
        }
        proof {
            assert(lexemes_view(lexemes@) =~= s_end.skip(1));
        }
        Ok(Block { stmts })
    }
}

impl Statement {
    /// Parses one statement, dispatching on the front lexeme's kind.
    pub fn new(lexemes: &mut Vec<Lexeme>) -> (r: Result<Statement, ShadowError>)
        ensures
            (match spec_parse_statement(lexemes_view(old(lexemes)@)) {
                Some((g, rest)) => r is Ok && r->Ok_0@ == g && lexemes_view(final(lexemes)@)
                    == rest,
                None => r is Err,
            }),
            r is Ok ==> final(lexemes)@.len() < old(lexemes)@.len(),
        decreases old(lexemes)@.len(), 1int,
    {
        let ghost s = lexemes_view(old(lexemes)@);
        if lexemes.len() == 0 {
            return Err(
                ShadowError::from_pos(ErrType::Parse(ParseErrors::UnexpectedEof), eof_pos()),
            );
        }
        proof {
            assert(s[0] == old(lexemes)@[0]@);
        }
        if matches!(&lexemes[0].ty, LexemeTypes::Keyword(Keywords::Fn)) {
            match Function::new(lexemes) {
                Ok(f) => Ok(Statement::Function(f)),
                Err(e) => Err(e),
            }
        } else if matches!(&lexemes[0].ty, LexemeTypes::Keyword(Keywords::Return)) {
            let kw = pop_front(lexemes);
            let ghost s1 = s.skip(1);
            proof {
                assert(lexemes_view(lexemes@) =~= s1);
            }
            if lexemes.len() == 0 {
                return Err(
                    ShadowError::from_pos(ErrType::Parse(ParseErrors::UnexpectedEof), eof_pos()),
                );
            }
            proof {
                assert(s1[0] == lexemes@[0]@);
            }
            if is_newline_t(&lexemes[0].ty) {
                let nl = pop_front(lexemes);
                proof {
                    assert(lexemes_view(lexemes@) =~= s1.skip(1));
                }
                Ok(Statement::Return(None))
            } else {
                let e = match Expression::new(lexemes) {
                    Ok(e) => e,
                    Err(er) => {
                        return Err(er);
                    },
                };
                let ghost s2 = lexemes_view(lexemes@);
                proof {
                    if s2.len() > 0 {
                        assert(s2[0] == lexemes@[0]@);
                    }
                }
                match expect(lexemes, LexemeTypes::Newline) {
                    Ok(u) => {},
                    Err(er) => {
                        return Err(er);
                    },
                }
                proof {
                    assert(lexemes_view(lexemes@) =~= s2.skip(1));
                }
                Ok(Statement::Return(Some(e)))
            }
        } else {
            Err(
                ShadowError::from_pos(
                    ErrType::Parse(ParseErrors::UnsupportedStatement),
                    lexemes[0].pos,
                ),
            )
        }
    }
}

impl Root {
    /// Parses statements until an unexpected closing brace or the end of the
    /// input, leaving the remainder unconsumed.
    #[verifier::loop_isolation(false)]
    pub fn new(lexemes: &mut Vec<Lexeme>) -> (r: Result<Root, ShadowError>)
        ensures
            (match spec_parse_root(lexemes_view(old(lexemes)@)) {
                Some((g, rest)) => r is Ok && r->Ok_0@ == g && lexemes_view(final(lexemes)@)
                    == rest,
                None => r is Err,
            }),
    {
        let ghost s = lexemes_view(old(lexemes)@);
        let mut stmts: Vec<Statement> = Vec::new();
        proof {
            assert(stmts@ =~= Seq::<Statement>::empty());
            assert(stmts_view(stmts@) =~= Seq::<StatementV>::empty());
            match spec_parse_stmts(s) {
                Some((sts, rr)) => {
                    assert(Seq::<StatementV>::empty() + sts =~= sts);
                },
                None => {},
            }
        }
        while lexemes.len() > 0 && !is_close_brace_t(&lexemes[0].ty)
            invariant
                stmts_prepend(stmts_view(stmts@), spec_parse_stmts(lexemes_view(lexemes@)))
                    == spec_parse_stmts(s),
            decreases lexemes@.len(),
        {
            let ghost cur = lexemes_view(lexemes@);
            let ghost acc = stmts_view(stmts@);
            proof {
                assert(cur[0] == lexemes@[0]@);
            }
            let ghost sv = stmts@;
            match Statement::new(lexemes) {
                Ok(st) => {
                    proof {
                        match spec_parse_stmts(lexemes_view(lexemes@)) {
                            Some((sts, rr)) => {
                                assert(acc + (seq![stmt_v(st)] + sts) =~= acc.push(stmt_v(st))
                                    + sts);
                            },
                            None => {},
                        }
                    }
                    stmts.push(st);
                    proof {
                        lemma_stmts_view_push(sv, stmts@.last());
                        assert(stmts@ =~= sv.push(stmts@.last()));
                        assert(stmts_view(stmts@) == acc.push(stmt_v(stmts@.last())));
                    }
                },
                Err(e) => {
                    proof {
                        match spec_parse_statement(cur) {
                            Some(x) => {
                                assert(false);
                            },
                            None => {},
                        }
                        assert(spec_parse_stmts(cur) is None);
                        assert(spec_parse_stmts(s) is None);
                        assert(spec_parse_root(s) is None);
                    }
                    return Err(e);
                },
            }
        }
        Ok(Root { stmts })
    }
}

/// A node of the syntax tree, buildable by consuming lexemes from the front
/// of the queue. The inherent parsing procedure on each concrete node type
/// carries the contract that states exactly what is consumed and built; the
/// trait gives callers one uniform entry point per node kind.
pub trait ASTNode {
    fn new(lexemes: &mut Vec<Lexeme>) -> Result<Self, ShadowError> where Self: Sized;
}

impl ASTNode for Expression {
    fn new(lexemes: &mut Vec<Lexeme>) -> Result<Self, ShadowError> {
        Expression::new(lexemes)
    }
}

impl ASTNode for Parameter {
    fn new(lexemes: &mut Vec<Lexeme>) -> Result<Self, ShadowError> {
        Parameter::new(lexemes)
    }
}

impl ASTNode for Function {
    fn new(lexemes: &mut Vec<Lexeme>) -> Result<Self, ShadowError> {
        Function::new(lexemes)
    }
}

impl ASTNode for Statement {
    fn new(lexemes: &mut Vec<Lexeme>) -> Result<Self, ShadowError> {
        Statement::new(lexemes)
    }
}

impl ASTNode for Block {
    fn new(lexemes: &mut Vec<Lexeme>) -> Result<Self, ShadowError> {
        Block::new(lexemes)
    }
}

impl ASTNode for Root {
    fn new(lexemes: &mut Vec<Lexeme>) -> Result<Self, ShadowError> {
        Root::new(lexemes)
    }
}

/// Parses a lexeme sequence into the AST of a compilation unit, surfacing the
/// first grammar violation as a diagnostic.
pub fn parse(lexemes: Vec<Lexeme>) -> (r: Result<Root, ShadowError>)
    ensures
        (match spec_parse_root(lexemes_view(lexemes@)) {
            Some((g, rest)) => r is Ok && r->Ok_0@ == g,
            None => r is Err,
        }),
{
    let mut v = lexemes;
    Root::new(&mut v)
}

/// The type of an expression's value.
pub open spec fn spec_evaltype(e: ExpressionV) -> PrimitiveType {
    match e {
        ExpressionV::Literal(l) => match l {
            Literal::Integer(i) => PrimitiveType::Int,
        },
    }
}

/// The constant-folded value of an expression.
pub open spec fn spec_eval(e: ExpressionV) -> i64 {
    match e {
        ExpressionV::Literal(l) => match l {
            Literal::Integer(i) => i,
        },
    }
}

impl Expression {
    /// The type this expression evaluates to.
    pub fn evaltype(&self) -> (r: PrimitiveType)
        ensures
            r == spec_evaltype(self@),
    {
        match self {
            Expression::Literal(lit) => match lit {
                Literal::Integer(i) => PrimitiveType::Int,
            },
        }
    }

    /// Constant-folds this expression; no environment is needed.
    pub fn eval(&self) -> (r: i64)
        ensures
            r == spec_eval(self@),
    {
        match self {
            Expression::Literal(lit) => match lit {
                Literal::Integer(i) => *i,
            },
        }
    }
}

} // verus!
