//! The lexer: a single left-to-right pass over the source text that classifies
//! maximal character runs into keywords, identifiers, integer literals and
//! fixed punctuation, tracking a line/column cursor for every emitted lexeme.

use crate::common::PosInfo;
use crate::errors::{ErrType, LexErrors, ShadowError};
use crate::text::chars_range;
use crate::text::chars_to_string;
use crate::text::str_to_chars;
use vstd::prelude::*;

verus! {

/// The reserved keywords.
#[derive(Clone, Copy, Debug, PartialEq, Eq, Structural)]
pub enum Keywords {
    Fn,
    Return,
}

/// Literal values carried by a lexeme.
#[derive(Clone, Copy, Debug, PartialEq, Eq, Structural)]
pub enum Literal {
    Integer(i64),
}

/// The master list of possible lexemes.
#[derive(Debug)]
pub enum LexemeTypes {
    Keyword(Keywords),
    Literal(Literal),
    Idn(String),
    OpenParen,
    CloseParen,
    OpenBrace,
    CloseBrace,
    Semicolon,
    Delimiter,
    Newline,
}

/// Mathematical counterpart of `LexemeTypes`: identifier text is a character
/// sequence rather than a `String`.
#[verifier::ext_equal]
pub enum LexKind {
    Keyword(Keywords),
    Literal(Literal),
    Idn(Seq<char>),
    OpenParen,
    CloseParen,
    OpenBrace,
    CloseBrace,
    Semicolon,
    Delimiter,
    Newline,
}

impl View for LexemeTypes {
    type V = LexKind;

    open spec fn view(&self) -> LexKind {
        match self {
            LexemeTypes::Keyword(k) => LexKind::Keyword(*k),
            LexemeTypes::Literal(l) => LexKind::Literal(*l),
            LexemeTypes::Idn(s) => LexKind::Idn(s@),
            LexemeTypes::OpenParen => LexKind::OpenParen,
            LexemeTypes::CloseParen => LexKind::CloseParen,
            LexemeTypes::OpenBrace => LexKind::OpenBrace,
            LexemeTypes::CloseBrace => LexKind::CloseBrace,
            LexemeTypes::Semicolon => LexKind::Semicolon,
            LexemeTypes::Delimiter => LexKind::Delimiter,
            LexemeTypes::Newline => LexKind::Newline,
        }
    }
}

/// A classified token together with the span it came from.
#[derive(Debug)]
pub struct Lexeme {
    pub ty: LexemeTypes,
    pub pos: PosInfo,
}

/// Mathematical counterpart of `Lexeme`.
#[verifier::ext_equal]
pub struct LexemeV {
    pub kind: LexKind,
    pub pos: PosInfo,
}

impl View for Lexeme {
    type V = LexemeV;

    open spec fn view(&self) -> LexemeV {
        LexemeV { kind: self.ty@, pos: self.pos }
    }
}

/// The views of a lexeme sequence, element by element.
pub open spec fn lexemes_view(v: Seq<Lexeme>) -> Seq<LexemeV> {
    v.map_values(|l: Lexeme| l@)
}

// ---------------------------------------------------------------------------
// Character classes
// ---------------------------------------------------------------------------

/// ASCII letter.
pub open spec fn is_alpha(c: char) -> bool {
    (97 <= c as u32 && c as u32 <= 122) || (65 <= c as u32 && c as u32 <= 90)
}

/// ASCII decimal digit.
pub open spec fn is_digit_ch(c: char) -> bool {
    48 <= c as u32 && c as u32 <= 57
}

/// ASCII whitespace: space, tab, newline, carriage return, form feed.
pub open spec fn is_ws(c: char) -> bool {
    c == ' ' || c == '\t' || c == '\n' || c == '\r' || c as u32 == 12
}

/// A character admissible after the first one of an identifier.
pub open spec fn is_idn_char(c: char) -> bool {
    is_alpha(c) || is_digit_ch(c) || c == '_'
}

/// The numeric value of a digit character.
pub open spec fn digit_val(c: char) -> nat {
    if is_digit_ch(c) {
        (c as u32 - 48) as nat
    } else {
        0
    }
}

/// The decimal value of a digit run, most significant digit first.
pub open spec fn dec_val(w: Seq<char>) -> nat
    decreases w.len(),
{
    if w.len() == 0 {
        0
    } else {
        dec_val(w.drop_last()) * 10 + digit_val(w.last())
    }
}

/// A non-empty run of decimal digits.
pub open spec fn is_digit_seq(w: Seq<char>) -> bool {
    w.len() > 0 && forall|i: int| 0 <= i < w.len() ==> is_digit_ch(w[i])
}

/// The identifier pattern: a letter followed by letters, digits or
/// underscores.
pub open spec fn is_identifier(w: Seq<char>) -> bool {
    w.len() > 0 && is_alpha(w[0]) && forall|i: int| 1 <= i < w.len() ==> is_idn_char(w[i])
}

/// The keyword spelled by `w`, if any.
pub open spec fn kw_of(w: Seq<char>) -> Option<Keywords> {
    if w == seq!['f', 'n'] {
        Some(Keywords::Fn)
    } else if w == seq!['r', 'e', 't', 'u', 'r', 'n'] {
        Some(Keywords::Return)
    } else {
        None
    }
}

/// Classification of a collected token: fixed punctuation first, then
/// keywords, then integer literals (rejected beyond the signed 64-bit range),
/// then identifiers; anything else is unrecognised.
pub open spec fn spec_classify(w: Seq<char>) -> Option<LexKind> {
    if w == seq!['('] {
        Some(LexKind::OpenParen)
    } else if w == seq![')'] {
        Some(LexKind::CloseParen)
    } else if w == seq!['{'] {
        Some(LexKind::OpenBrace)
    } else if w == seq!['}'] {
        Some(LexKind::CloseBrace)
    } else if w == seq![';'] {
        Some(LexKind::Semicolon)
    } else if w == seq![','] {
        Some(LexKind::Delimiter)
    } else if w == seq!['\n'] {
        Some(LexKind::Newline)
    } else if kw_of(w) is Some {
        Some(LexKind::Keyword(kw_of(w)->Some_0))
    } else if is_digit_seq(w) {
        if dec_val(w) <= i64::MAX {
            Some(LexKind::Literal(Literal::Integer(dec_val(w) as i64)))
        } else {
            None
        }
    } else if is_identifier(w) {
        Some(LexKind::Idn(w))
    } else {
        None
    }
}

// ---------------------------------------------------------------------------
// The lexing state machine, as a recursive function over the remaining input
// ---------------------------------------------------------------------------

/// Length of the maximal run of letters at the front of `s`.
pub open spec fn run_alpha(s: Seq<char>) -> nat
    decreases s.len(),
{
    if s.len() == 0 || !is_alpha(s[0]) {
        0
    } else {
        1 + run_alpha(s.skip(1))
    }
}

/// Length of the maximal run of digits at the front of `s`.
pub open spec fn run_digit(s: Seq<char>) -> nat
    decreases s.len(),
{
    if s.len() == 0 || !is_digit_ch(s[0]) {
        0
    } else {
        1 + run_digit(s.skip(1))
    }
}

/// A maximal letter run is non-empty exactly when the front character is a
/// letter, and never longer than the input.
pub proof fn lemma_run_alpha_bounds(s: Seq<char>)
    ensures
        run_alpha(s) <= s.len(),
        s.len() > 0 && is_alpha(s[0]) ==> run_alpha(s) >= 1,
        forall|i: int| 0 <= i < run_alpha(s) ==> is_alpha(s[i]),
    decreases s.len(),
{
    if s.len() > 0 && is_alpha(s[0]) {
        lemma_run_alpha_bounds(s.skip(1));
        assert forall|i: int| 0 <= i < run_alpha(s) implies is_alpha(s[i]) by {
            if i > 0 {
                assert(s.skip(1)[i - 1] == s[i]);
            }
        }
    }
}

/// A maximal digit run is non-empty exactly when the front character is a
/// digit, and never longer than the input.
pub proof fn lemma_run_digit_bounds(s: Seq<char>)
    ensures
        run_digit(s) <= s.len(),
        s.len() > 0 && is_digit_ch(s[0]) ==> run_digit(s) >= 1,
        forall|i: int| 0 <= i < run_digit(s) ==> is_digit_ch(s[i]),
    decreases s.len(),
{
    if s.len() > 0 && is_digit_ch(s[0]) {
        lemma_run_digit_bounds(s.skip(1));
        assert forall|i: int| 0 <= i < run_digit(s) implies is_digit_ch(s[i]) by {
            if i > 0 {
                assert(s.skip(1)[i - 1] == s[i]);
            }
        }
    }
}

/// Outcome of lexing: the full lexeme sequence, or the position and raw text
/// of the first unrecognised token.
#[verifier::ext_equal]
pub enum LexOut {
    Toks(Seq<LexemeV>),
    Fail(PosInfo, Seq<char>),
}

/// Prepends one lexeme to a successful outcome; failures pass through.
pub open spec fn lex_cons(l: LexemeV, o: LexOut) -> LexOut {
    match o {
        LexOut::Toks(ts) => LexOut::Toks(seq![l] + ts),
        LexOut::Fail(p, w) => o,
    }
}

/// Prepends an already-lexed prefix to an outcome; failures pass through.
pub open spec fn out_prepend(pre: Seq<LexemeV>, o: LexOut) -> LexOut {
    match o {
        LexOut::Toks(ts) => LexOut::Toks(pre + ts),
        LexOut::Fail(p, w) => o,
    }
}

/// The span of a run of `n` characters starting at `(line, col)`.
pub open spec fn run_pos(line: nat, col: nat, n: nat) -> PosInfo {
    PosInfo { line: line as u64, column: col as u64, length: n as u64 }
}

/// One pass of the tokenization state machine over the remaining input `s`,
/// with the cursor at zero-based `(line, col)`: greedy maximal-munch runs of
/// letters and digits, a `Newline` lexeme for each newline, other whitespace
/// discarded, and any other character classified alone.
pub open spec fn spec_lex_from(s: Seq<char>, line: nat, col: nat) -> LexOut
    decreases s.len(),
    via spec_lex_from_decreases
{
    if s.len() == 0 {
        LexOut::Toks(Seq::empty())
    } else {
        let c = s[0];
        if is_alpha(c) {
            let n = run_alpha(s);
            let w = s.take(n as int);
            lex_cons(
                LexemeV { kind: spec_classify(w)->Some_0, pos: run_pos(line, col, n) },
                spec_lex_from(s.skip(n as int), line, col + n),
            )
        } else if is_digit_ch(c) {
            let n = run_digit(s);
            let w = s.take(n as int);
            if dec_val(w) <= i64::MAX {
                lex_cons(
                    LexemeV {
                        kind: LexKind::Literal(Literal::Integer(dec_val(w) as i64)),
                        pos: run_pos(line, col, n),
                    },
                    spec_lex_from(s.skip(n as int), line, col + n),
                )
            } else {
                LexOut::Fail(run_pos(line, col, n), w)
            }
        } else if c == '\n' {
            lex_cons(
                LexemeV { kind: LexKind::Newline, pos: run_pos(line, col, 1) },
                spec_lex_from(s.skip(1), line + 1, 0),
            )
        } else if is_ws(c) {
            spec_lex_from(s.skip(1), line, col + 1)
        } else {
            match spec_classify(seq![c]) {
                Some(k) => lex_cons(
                    LexemeV { kind: k, pos: run_pos(line, col, 1) },
                    spec_lex_from(s.skip(1), line, col + 1),
                ),
                None => LexOut::Fail(run_pos(line, col, 1), seq![c]),
            }
        }
    }
}

#[via_fn]
proof fn spec_lex_from_decreases(s: Seq<char>, line: nat, col: nat) {
    if s.len() > 0 {
        lemma_run_alpha_bounds(s);
        lemma_run_digit_bounds(s);
    }
}

/// Lexing a whole buffer: the state machine started at the origin.
pub open spec fn spec_lex(s: Seq<char>) -> LexOut {
    spec_lex_from(s, 0, 0)
}

// ---------------------------------------------------------------------------
// Executable character tests
// ---------------------------------------------------------------------------

fn is_alpha_c(c: char) -> (b: bool)
    ensures
        b == is_alpha(c),
{
    let u = c as u32;
    (97 <= u && u <= 122) || (65 <= u && u <= 90)
}

fn is_digit_c(c: char) -> (b: bool)
    ensures
        b == is_digit_ch(c),
{
    let u = c as u32;
    48 <= u && u <= 57
}

fn is_ws_c(c: char) -> (b: bool)
    ensures
        b == is_ws(c),
{
    c == ' ' || c == '\t' || c == '\n' || c == '\r' || c as u32 == 12
}

impl Keywords {
    /// The keyword spelled by the collected token, if any.
    fn new(from: &Vec<char>) -> (r: Option<Keywords>)
        ensures
            r == kw_of(from@),
    {
        proof {
            assert(seq!['f', 'n'].len() == 2);
            assert(seq!['f', 'n'][0] == 'f' && seq!['f', 'n'][1] == 'n');
            assert(seq!['r', 'e', 't', 'u', 'r', 'n'].len() == 6);
            assert(seq!['r', 'e', 't', 'u', 'r', 'n'][0] == 'r');
            assert(seq!['r', 'e', 't', 'u', 'r', 'n'][1] == 'e');
            assert(seq!['r', 'e', 't', 'u', 'r', 'n'][2] == 't');
            assert(seq!['r', 'e', 't', 'u', 'r', 'n'][3] == 'u');
            assert(seq!['r', 'e', 't', 'u', 'r', 'n'][4] == 'r');
            assert(seq!['r', 'e', 't', 'u', 'r', 'n'][5] == 'n');
        }
        if from.len() == 2 && from[0] == 'f' && from[1] == 'n' {
            proof {
                assert(from@ =~= seq!['f', 'n']);
            }
            Some(Keywords::Fn)
        } else if from.len() == 6 && from[0] == 'r' && from[1] == 'e' && from[2] == 't' && from[3]
            == 'u' && from[4] == 'r' && from[5] == 'n' {
            proof {
                assert(from@ =~= seq!['r', 'e', 't', 'u', 'r', 'n']);
            }
            Some(Keywords::Return)
        } else {
            None
        }
    }
}

/// A digit run's value never shrinks as the run is extended.
proof fn lemma_dec_val_prefix(w: Seq<char>, k: int)
    requires
        0 <= k <= w.len(),
    ensures
        dec_val(w.take(k)) <= dec_val(w),
    decreases w.len() - k,
{
    if k == w.len() {
        assert(w.take(k) =~= w);
    } else {
        assert(w.take(k + 1).drop_last() =~= w.take(k));
        assert(w.take(k + 1).last() == w[k]);
        lemma_dec_val_prefix(w, k + 1);
    }
}

/// Parses a digit run as a signed 64-bit value; `None` exactly on overflow.
fn parse_int(word: &Vec<char>) -> (r: Option<i64>)
    requires
        is_digit_seq(word@),
    ensures
        (r is Some) == (dec_val(word@) <= i64::MAX),
        r matches Some(v) ==> v == dec_val(word@) as i64,
{
    let max: u64 = 9223372036854775807;
    let limit: u64 = 922337203685477580;
    let n = word.len();
    let mut val: u64 = 0;
    let mut k: usize = 0;
    while k < n
        invariant
            is_digit_seq(word@),
            n == word@.len(),
            0 <= k <= n,
            max == i64::MAX,
            limit == 922337203685477580,
            val as nat == dec_val(word@.take(k as int)),
            val <= max,
        decreases n - k,
    {
        let c = word[k];
        proof {
            assert(is_digit_ch(word@[k as int]));
            assert(word@.take(k as int + 1).drop_last() =~= word@.take(k as int));
            assert(word@.take(k as int + 1).last() == word@[k as int]);
        }
        let d: u64 = (c as u32 - 48) as u64;
        if val > limit || (val == limit && d > 7) {
            proof {
                assert(dec_val(word@.take(k as int + 1)) > i64::MAX);
                lemma_dec_val_prefix(word@, k as int + 1);
            }
            return None;
        }
        val = val * 10 + d;
        k = k + 1;
    }
    proof {
        assert(word@.take(n as int) =~= word@);
    }
    Some(val as i64)
}

fn is_digit_vec(v: &Vec<char>) -> (b: bool)
    ensures
        b == is_digit_seq(v@),
{
    if v.len() == 0 {
        return false;
    }
    let mut k: usize = 0;
    while k < v.len()
        invariant
            0 <= k <= v@.len(),
            forall|i: int| 0 <= i < k ==> is_digit_ch(v@[i]),
        decreases v@.len() - k,
    {
        if !is_digit_c(v[k]) {
            return false;
        }
        k = k + 1;
    }
    true
}

fn is_identifier_vec(v: &Vec<char>) -> (b: bool)
    ensures
        b == is_identifier(v@),
{
    if v.len() == 0 {
        return false;
    }
    if !is_alpha_c(v[0]) {
        return false;
    }
    let mut k: usize = 1;
    while k < v.len()
        invariant
            1 <= k <= v@.len(),
            is_alpha(v@[0]),
            forall|i: int| 1 <= i < k ==> is_idn_char(v@[i]),
        decreases v@.len() - k,
    {
        let c = v[k];
        if !(is_alpha_c(c) || is_digit_c(c) || c == '_') {
            return false;
        }
        k = k + 1;
    }
    true
}

/// The indices and lengths of the fixed single-character lexeme spellings.
proof fn lemma_punct_literals()
    ensures
        seq!['('].len() == 1 && seq!['('][0] == '(',
        seq![')'].len() == 1 && seq![')'][0] == ')',
        seq!['{'].len() == 1 && seq!['{'][0] == '{',
        seq!['}'].len() == 1 && seq!['}'][0] == '}',
        seq![';'].len() == 1 && seq![';'][0] == ';',
        seq![','].len() == 1 && seq![','][0] == ',',
        seq!['\n'].len() == 1 && seq!['\n'][0] == '\n',
{
}

impl LexemeTypes {
    /// Classifies a collected token, mirroring `spec_classify`.
    fn new(from: &Vec<char>) -> (r: Option<LexemeTypes>)
        ensures
            (r is Some) == (spec_classify(from@) is Some),
            r matches Some(t) ==> spec_classify(from@) matches Some(k) && t@ == k,
    {
        proof {
            lemma_punct_literals();
        }
        if from.len() == 1 {
            proof {
                assert(from@ =~= seq![from@[0]]);
            }
            let c = from[0];
            if c == '(' {
                return Some(LexemeTypes::OpenParen);
            }
            if c == ')' {
                return Some(LexemeTypes::CloseParen);
            }
            if c == '{' {
                return Some(LexemeTypes::OpenBrace);
            }
            if c == '}' {
                return Some(LexemeTypes::CloseBrace);
            }
            if c == ';' {
                return Some(LexemeTypes::Semicolon);
            }
            if c == ',' {
                return Some(LexemeTypes::Delimiter);
            }
            if c == '\n' {
                return Some(LexemeTypes::Newline);
            }
        }
        match Keywords::new(from) {
            Some(kw) => {
                return Some(LexemeTypes::Keyword(kw));
            },
            None => {},
        }
        if is_digit_vec(from) {
            match parse_int(from) {
                Some(v) => {
                    return Some(LexemeTypes::Literal(Literal::Integer(v)));
                },
                None => {
                    return None;
                },
            }
        }
        if is_identifier_vec(from) {
            return Some(LexemeTypes::Idn(chars_to_string(from)));
        }
        None
    }
}

impl Lexeme {
    /// Builds a lexeme for a collected token whose span starts at
    /// `(line, column)`; an unclassifiable token becomes the lexical
    /// diagnostic carrying its raw text.
    fn new(raw_token: &Vec<char>, line: u64, column: u64) -> (r: Result<Lexeme, ShadowError>)
        ensures
            (match spec_classify(raw_token@) {
                Some(k) => r is Ok && r->Ok_0@ == (LexemeV {
                    kind: k,
                    pos: PosInfo { line, column, length: raw_token@.len() as u64 },
                }),
                None => r is Err && r->Err_0.pos == (PosInfo {
                    line,
                    column,
                    length: raw_token@.len() as u64,
                }) && (r->Err_0.ty matches ErrType::Lex(LexErrors::UnrecognisedToken(t)) && t@
                    == raw_token@),
            }),
{
        let length = raw_token.len() as u64;
        let pos = PosInfo { line, column, length };
        match LexemeTypes::new(raw_token) {
            Some(ty) => Ok(Lexeme { ty, pos }),
            None => Err(
                ShadowError::from_pos(
                    ErrType::Lex(LexErrors::UnrecognisedToken(chars_to_string(raw_token))),
                    pos,
                ),
            ),
        }
    }
}

/// A non-empty all-letter run classifies as a keyword or an identifier.
proof fn lemma_classify_alpha_run(w: Seq<char>)
    requires
        w.len() >= 1,
        forall|i: int| 0 <= i < w.len() ==> is_alpha(w[i]),
    ensures
        spec_classify(w) == (match kw_of(w) {
            Some(k) => Some(LexKind::Keyword(k)),
            None => Some(LexKind::Idn(w)),
        }),
{
    lemma_punct_literals();
    assert(is_alpha(w[0]));
    assert(is_identifier(w));
    assert(!is_digit_seq(w));
}

/// A non-empty all-digit run classifies as an integer literal, rejected
/// exactly when its value exceeds the signed 64-bit range.
proof fn lemma_classify_digit_run(w: Seq<char>)
    requires
        w.len() >= 1,
        forall|i: int| 0 <= i < w.len() ==> is_digit_ch(w[i]),
    ensures
        spec_classify(w) == (if dec_val(w) <= i64::MAX {
            Some(LexKind::Literal(Literal::Integer(dec_val(w) as i64)))
        } else {
            None::<LexKind>
        }),
{
    lemma_punct_literals();
    assert(is_digit_ch(w[0]));
    assert(seq!['f', 'n'][0] == 'f');
    assert(seq!['r', 'e', 't', 'u', 'r', 'n'][0] == 'r');
    assert(w != seq!['f', 'n']);
    assert(w != seq!['r', 'e', 't', 'u', 'r', 'n']);
    assert(is_digit_seq(w));
}

/// Prepending an already-lexed prefix commutes with emitting one more lexeme.
proof fn lemma_out_prepend_push(pre: Seq<LexemeV>, l: LexemeV, o: LexOut)
    ensures
        out_prepend(pre, lex_cons(l, o)) == out_prepend(pre.push(l), o),
{
    match o {
        LexOut::Toks(ts) => {
            assert(pre + (seq![l] + ts) =~= pre.push(l) + ts);
        },
        LexOut::Fail(p, w) => {},
    }
}

/// Lexes a whole source buffer into its lexeme sequence, or returns the
/// diagnostic for the first unrecognised token, positioned exactly at it.
pub fn lex(raw: &str) -> (r: Result<Vec<Lexeme>, ShadowError>)
    ensures
        (match spec_lex(raw@) {
            LexOut::Toks(ts) => r is Ok && lexemes_view(r->Ok_0@) == ts,
            LexOut::Fail(p, w) => r is Err && r->Err_0.pos == p && (r->Err_0.ty matches
                ErrType::Lex(LexErrors::UnrecognisedToken(t)) && t@ == w),
        }),
{
    let cs = str_to_chars(raw);
    let n = cs.len();
    let mut lexemes: Vec<Lexeme> = Vec::new();
    let mut i: usize = 0;
    let mut line: u64 = 0;
    let mut col: u64 = 0;
    proof {
        assert(cs@.skip(0) =~= cs@);
        assert(lexemes_view(lexemes@) =~= Seq::<LexemeV>::empty());
        match spec_lex_from(cs@, 0, 0) {
            LexOut::Toks(ts) => {
                assert(Seq::<LexemeV>::empty() + ts =~= ts);
            },
            LexOut::Fail(p, w) => {},
        }
    }
    while i < n
        invariant
            cs@ == raw@,
            n == cs@.len(),
            0 <= i <= n,
            col as int <= i as int,
            line as int <= i as int,
            spec_lex(raw@) == out_prepend(
                lexemes_view(lexemes@),
                spec_lex_from(cs@.skip(i as int), line as nat, col as nat),
            ),
        decreases n - i,
    {
        let ghost s0 = cs@.skip(i as int);
        let ghost pre = lexemes_view(lexemes@);
        proof {
            assert(s0.len() == n - i);
            assert(s0[0] == cs@[i as int]);
        }
        let c = cs[i];
        if is_alpha_c(c) {
            proof {
                lemma_run_alpha_bounds(s0);
                assert(cs@.skip(i as int).skip(1) =~= cs@.skip(i as int + 1));
            }
            let mut j: usize = i + 1;
            while j < n && is_alpha_c(cs[j])
                invariant
                    n == cs@.len(),
                    i < j <= n,
                    run_alpha(cs@.skip(i as int)) == (j - i) + run_alpha(cs@.skip(j as int)),
                    forall|k: int| i <= k < j ==> is_alpha(cs@[k]),
                decreases n - j,
            {
                proof {
                    assert(cs@.skip(j as int)[0] == cs@[j as int]);
                    assert(cs@.skip(j as int).skip(1) =~= cs@.skip(j as int + 1));
                }
                j = j + 1;
            }
            proof {
                if j < n {
                    assert(cs@.skip(j as int)[0] == cs@[j as int]);
                }
                assert(run_alpha(cs@.skip(j as int)) == 0);
                assert(run_alpha(s0) == j - i);
            }
            let word = chars_range(&cs, i, j);
            proof {
                assert(word@ =~= s0.take((j - i) as int));
                lemma_classify_alpha_run(word@);
            }
            match Lexeme::new(&word, line, col) {
                Ok(lx) => {
                    lexemes.push(lx);
                    proof {
                        assert(cs@.skip(i as int).skip((j - i) as int) =~= cs@.skip(j as int));
                        lemma_out_prepend_push(
                            pre,
                            lx@,
                            spec_lex_from(cs@.skip(j as int), line as nat, (col + (j - i)) as nat),
                        );
                        assert(lexemes_view(lexemes@) =~= pre.push(lx@));
                    }
                    col = col + ((j - i) as u64);
                    i = j;
                },
                Err(e) => {
                    proof {
                        assert(false);
                    }
                    return Err(e);
                },
            }
        } else if is_digit_c(c) {
            proof {
                lemma_run_digit_bounds(s0);
                assert(cs@.skip(i as int).skip(1) =~= cs@.skip(i as int + 1));
            }
            let mut j: usize = i + 1;
            while j < n && is_digit_c(cs[j])
                invariant
                    n == cs@.len(),
                    i < j <= n,
                    run_digit(cs@.skip(i as int)) == (j - i) + run_digit(cs@.skip(j as int)),
                    forall|k: int| i <= k < j ==> is_digit_ch(cs@[k]),
                decreases n - j,
            {
                proof {
                    assert(cs@.skip(j as int)[0] == cs@[j as int]);
                    assert(cs@.skip(j as int).skip(1) =~= cs@.skip(j as int + 1));
                }
                j = j + 1;
            }
            proof {
                if j < n {
                    assert(cs@.skip(j as int)[0] == cs@[j as int]);
                }
                assert(run_digit(cs@.skip(j as int)) == 0);
                assert(run_digit(s0) == j - i);
            }
            let word = chars_range(&cs, i, j);
            proof {
                assert(word@ =~= s0.take((j - i) as int));
                lemma_classify_digit_run(word@);
            }
            match Lexeme::new(&word, line, col) {
                Ok(lx) => {
                    lexemes.push(lx);
                    proof {
                        assert(cs@.skip(i as int).skip((j - i) as int) =~= cs@.skip(j as int));
                        lemma_out_prepend_push(
                            pre,
                            lx@,
                            spec_lex_from(cs@.skip(j as int), line as nat, (col + (j - i)) as nat),
                        );
                        assert(lexemes_view(lexemes@) =~= pre.push(lx@));
                    }
                    col = col + ((j - i) as u64);
                    i = j;
                },
                Err(e) => {
                    return Err(e);
                },
            }
        } else if c == '\n' {
            let lx = Lexeme {
                ty: LexemeTypes::Newline,
                pos: PosInfo { line, column: col, length: 1 },
            };
            lexemes.push(lx);
            proof {
                assert(cs@.skip(i as int).skip(1) =~= cs@.skip(i as int + 1));
                lemma_out_prepend_push(
                    pre,
                    lx@,
                    spec_lex_from(cs@.skip(i as int + 1), (line + 1) as nat, 0),
                );
                assert(lexemes_view(lexemes@) =~= pre.push(lx@));
            }
            i = i + 1;
            line = line + 1;
            col = 0;
        } else if is_ws_c(c) {
            proof {
                assert(cs@.skip(i as int).skip(1) =~= cs@.skip(i as int + 1));
            }
            i = i + 1;
            col = col + 1;
        } else {
            let mut word: Vec<char> = Vec::new();
            word.push(c);
            proof {
                assert(word@ =~= seq![s0[0]]);
                assert(cs@.skip(i as int).skip(1) =~= cs@.skip(i as int + 1));
            }
            match Lexeme::new(&word, line, col) {
                Ok(lx) => {
                    lexemes.push(lx);
                    proof {
                        lemma_out_prepend_push(
                            pre,
                            lx@,
                            spec_lex_from(cs@.skip(i as int + 1), line as nat, (col + 1) as nat),
                        );
                        assert(lexemes_view(lexemes@) =~= pre.push(lx@));
                    }
                    i = i + 1;
                    col = col + 1;
                },
                Err(e) => {
                    return Err(e);
                },
            }
        }
    }
    proof {
        assert(cs@.skip(n as int) =~= Seq::<char>::empty());
        assert(lexemes_view(lexemes@) + Seq::<LexemeV>::empty() =~= lexemes_view(lexemes@));
    }
    Ok(lexemes)
}

/// A short name for each lexeme kind, used by mismatch diagnostics.
pub open spec fn kind_desc(k: LexKind) -> Seq<char> {
    match k {
        LexKind::Keyword(Keywords::Fn) => "keyword 'fn'"@,
        LexKind::Keyword(Keywords::Return) => "keyword 'return'"@,
        LexKind::Literal(l) => "integer literal"@,
        LexKind::Idn(s) => "identifier"@,
        LexKind::OpenParen => "'('"@,
        LexKind::CloseParen => "')'"@,
        LexKind::OpenBrace => "'{'"@,
        LexKind::CloseBrace => "'}'"@,
        LexKind::Semicolon => "';'"@,
        LexKind::Delimiter => "','"@,
        LexKind::Newline => "newline"@,
    }
}

impl LexemeTypes {
    /// A short human-readable name for this lexeme kind.
    pub fn describe(&self) -> (r: String)
        ensures
            r@ == kind_desc(self@),
    {
        match self {
            LexemeTypes::Keyword(Keywords::Fn) => "keyword 'fn'".to_owned(),
            LexemeTypes::Keyword(Keywords::Return) => "keyword 'return'".to_owned(),
            LexemeTypes::Literal(l) => "integer literal".to_owned(),
            LexemeTypes::Idn(s) => "identifier".to_owned(),
            LexemeTypes::OpenParen => "'('".to_owned(),
            LexemeTypes::CloseParen => "')'".to_owned(),
            LexemeTypes::OpenBrace => "'{'".to_owned(),
            LexemeTypes::CloseBrace => "'}'".to_owned(),
            LexemeTypes::Semicolon => "';'".to_owned(),
            LexemeTypes::Delimiter => "','".to_owned(),
            LexemeTypes::Newline => "newline".to_owned(),
        }
    }
}


// ---------------------------------------------------------------------------
// Laws of the lexer
// ---------------------------------------------------------------------------

/// Span order: by line, then by column.
pub open spec fn pos_le(a: PosInfo, b: PosInfo) -> bool {
    a.line < b.line || (a.line == b.line && a.column <= b.column)
}

/// Every span starts no earlier than the zero-based cursor `(line, col)`.
pub open spec fn pos_at_least(p: PosInfo, line: nat, col: nat) -> bool {
    (p.line as nat) > line || ((p.line as nat) == line && (p.column as nat) >= col)
}

/// The lexemes of `ts` are ordered by non-decreasing `(line, column)` pairs.
pub open spec fn sorted_positions(ts: Seq<LexemeV>) -> bool {
    forall|i: int, j: int| 0 <= i <= j < ts.len() ==> pos_le(ts[i].pos, ts[j].pos)
}

proof fn lemma_lex_from_monotone(s: Seq<char>, line: nat, col: nat)
    requires
        line + s.len() <= u64::MAX,
        col + s.len() <= u64::MAX,
    ensures
        (match spec_lex_from(s, line, col) {
            LexOut::Toks(ts) => sorted_positions(ts) && (forall|i: int|
                0 <= i < ts.len() ==> #[trigger] pos_at_least(ts[i].pos, line, col)),
            LexOut::Fail(p, w) => true,
        }),
    decreases s.len(),
{
    if s.len() == 0 {
    } else {
        let c = s[0];
        let emitted = spec_lex_from(s, line, col);
        if is_alpha(c) || is_digit_ch(c) {
            let n: nat = if is_alpha(c) {
                run_alpha(s)
            } else {
                run_digit(s)
            };
            lemma_run_alpha_bounds(s);
            lemma_run_digit_bounds(s);
            lemma_lex_from_monotone(s.skip(n as int), line, col + n);
            let l = LexemeV {
                kind: if is_alpha(c) {
                    spec_classify(s.take(n as int))->Some_0
                } else {
                    LexKind::Literal(Literal::Integer(dec_val(s.take(n as int)) as i64))
                },
                pos: run_pos(line, col, n),
            };
            match spec_lex_from(s.skip(n as int), line, col + n) {
                LexOut::Toks(ts2) => {
                    lemma_cons_sorted(l, ts2, line, col, line, col + n);
                },
                LexOut::Fail(p, w) => {},
            }
        } else if c == '\n' {
            lemma_lex_from_monotone(s.skip(1), line + 1, 0);
            let l = LexemeV { kind: LexKind::Newline, pos: run_pos(line, col, 1) };
            match spec_lex_from(s.skip(1), line + 1, 0) {
                LexOut::Toks(ts2) => {
                    lemma_cons_sorted(l, ts2, line, col, line + 1, 0);
                },
                LexOut::Fail(p, w) => {},
            }
        } else if is_ws(c) {
            lemma_lex_from_monotone(s.skip(1), line, col + 1);
            match spec_lex_from(s.skip(1), line, col + 1) {
                LexOut::Toks(ts2) => {
                    assert forall|i: int| 0 <= i < ts2.len() implies #[trigger] pos_at_least(
                        ts2[i].pos,
                        line,
                        col,
                    ) by {
                        assert(pos_at_least(ts2[i].pos, line, col + 1));
                    }
                },
                LexOut::Fail(p, w) => {},
            }
        } else {
            lemma_lex_from_monotone(s.skip(1), line, col + 1);
            match spec_classify(seq![c]) {
                Some(k) => {
                    let l = LexemeV { kind: k, pos: run_pos(line, col, 1) };
                    match spec_lex_from(s.skip(1), line, col + 1) {
                        LexOut::Toks(ts2) => {
                            lemma_cons_sorted(l, ts2, line, col, line, col + 1);
                        },
                        LexOut::Fail(p, w) => {},
                    }
                },
                None => {},
            }
        }
    }
}

/// Prepending a lexeme whose span starts exactly at `(line, col)` to a sorted
/// sequence whose spans all start at or after the later cursor keeps the
/// sequence sorted.
proof fn lemma_cons_sorted(l: LexemeV, ts2: Seq<LexemeV>, line: nat, col: nat, line2: nat, col2: nat)
    requires
        l.pos.line as nat == line,
        l.pos.column as nat == col,
        line2 > line || (line2 == line && col2 >= col),
        sorted_positions(ts2),
        forall|i: int| 0 <= i < ts2.len() ==> #[trigger] pos_at_least(ts2[i].pos, line2, col2),
    ensures
        sorted_positions(seq![l] + ts2),
        forall|i: int|
            0 <= i < (seq![l] + ts2).len() ==> #[trigger] pos_at_least(
                (seq![l] + ts2)[i].pos,
                line,
                col,
            ),
{
    let ts = seq![l] + ts2;
    assert(ts[0] == l);
    assert forall|i: int| 0 <= i < ts.len() implies #[trigger] pos_at_least(
        ts[i].pos,
        line,
        col,
    ) by {
        if i > 0 {
            assert(ts[i] == ts2[i - 1]);
            assert(pos_at_least(ts2[i - 1].pos, line2, col2));
        }
    }
    assert forall|i: int, j: int| 0 <= i <= j < ts.len() implies pos_le(ts[i].pos, ts[j].pos) by {
        if i == 0 {
            if j > 0 {
                assert(ts[j] == ts2[j - 1]);
                assert(pos_at_least(ts2[j - 1].pos, line2, col2));
            }
        } else {
            assert(ts[i] == ts2[i - 1]);
            assert(ts[j] == ts2[j - 1]);
            assert(pos_le(ts2[i - 1].pos, ts2[j - 1].pos));
        }
    }
}

/// Position monotonicity: in any successfully lexed buffer, the lexemes are
/// ordered by non-decreasing `(line, column)` pairs, matching their order of
/// appearance in the source.
pub proof fn lemma_position_monotonicity(s: Seq<char>)
    requires
        s.len() <= u64::MAX,
    ensures
        (match spec_lex(s) {
            LexOut::Toks(ts) => sorted_positions(ts),
            LexOut::Fail(p, w) => true,
        }),
{
    lemma_lex_from_monotone(s, 0, 0);
}


/// The kind outline of a lexing outcome: the kind sequence on success, the
/// raw text of the offending token on failure; positions are forgotten.
#[verifier::ext_equal]
pub enum KindsOut {
    Kinds(Seq<LexKind>),
    Failed(Seq<char>),
}

/// Forgets the positions of a lexing outcome.
pub open spec fn kinds_of(o: LexOut) -> KindsOut {
    match o {
        LexOut::Toks(ts) => KindsOut::Kinds(ts.map_values(|l: LexemeV| l.kind)),
        LexOut::Fail(p, w) => KindsOut::Failed(w),
    }
}

/// Two outcomes that emit the same front kind and agree on the rest have the
/// same kind outline.
proof fn lemma_kinds_cons(l1: LexemeV, l2: LexemeV, o1: LexOut, o2: LexOut)
    requires
        l1.kind == l2.kind,
        kinds_of(o1) == kinds_of(o2),
    ensures
        kinds_of(lex_cons(l1, o1)) == kinds_of(lex_cons(l2, o2)),
{
    match (o1, o2) {
        (LexOut::Toks(t1), LexOut::Toks(t2)) => {
            assert(t1.map_values(|l: LexemeV| l.kind) == t2.map_values(|l: LexemeV| l.kind));
            assert((seq![l1] + t1).map_values(|l: LexemeV| l.kind) =~= seq![l1.kind]
                + t1.map_values(|l: LexemeV| l.kind));
            assert((seq![l2] + t2).map_values(|l: LexemeV| l.kind) =~= seq![l2.kind]
                + t2.map_values(|l: LexemeV| l.kind));
        },
        (LexOut::Fail(p1, w1), LexOut::Fail(p2, w2)) => {},
        _ => {
            assert(false);
        },
    }
}

/// The kind outline of lexing does not depend on the starting cursor: lines
/// and columns shift, the classification does not.
proof fn lemma_kinds_pos_independent(s: Seq<char>, l1: nat, c1: nat, l2: nat, c2: nat)
    ensures
        kinds_of(spec_lex_from(s, l1, c1)) == kinds_of(spec_lex_from(s, l2, c2)),
    decreases s.len(),
{
    if s.len() > 0 {
        let c = s[0];
        if is_alpha(c) {
            lemma_run_alpha_bounds(s);
            let n = run_alpha(s);
            lemma_kinds_pos_independent(s.skip(n as int), l1, c1 + n, l2, c2 + n);
            lemma_kinds_cons(
                LexemeV { kind: spec_classify(s.take(n as int))->Some_0, pos: run_pos(l1, c1, n) },
                LexemeV { kind: spec_classify(s.take(n as int))->Some_0, pos: run_pos(l2, c2, n) },
                spec_lex_from(s.skip(n as int), l1, c1 + n),
                spec_lex_from(s.skip(n as int), l2, c2 + n),
            );
        } else if is_digit_ch(c) {
            lemma_run_digit_bounds(s);
            let n = run_digit(s);
            if dec_val(s.take(n as int)) <= i64::MAX {
                lemma_kinds_pos_independent(s.skip(n as int), l1, c1 + n, l2, c2 + n);
                lemma_kinds_cons(
                    LexemeV {
                        kind: LexKind::Literal(Literal::Integer(dec_val(s.take(n as int)) as i64)),
                        pos: run_pos(l1, c1, n),
                    },
                    LexemeV {
                        kind: LexKind::Literal(Literal::Integer(dec_val(s.take(n as int)) as i64)),
                        pos: run_pos(l2, c2, n),
                    },
                    spec_lex_from(s.skip(n as int), l1, c1 + n),
                    spec_lex_from(s.skip(n as int), l2, c2 + n),
                );
            }
        } else if c == '\n' {
            lemma_kinds_pos_independent(s.skip(1), l1 + 1, 0, l2 + 1, 0);
            lemma_kinds_cons(
                LexemeV { kind: LexKind::Newline, pos: run_pos(l1, c1, 1) },
                LexemeV { kind: LexKind::Newline, pos: run_pos(l2, c2, 1) },
                spec_lex_from(s.skip(1), l1 + 1, 0),
                spec_lex_from(s.skip(1), l2 + 1, 0),
            );
        } else if is_ws(c) {
            lemma_kinds_pos_independent(s.skip(1), l1, c1 + 1, l2, c2 + 1);
        } else {
            match spec_classify(seq![c]) {
                Some(k) => {
                    lemma_kinds_pos_independent(s.skip(1), l1, c1 + 1, l2, c2 + 1);
                    lemma_kinds_cons(
                        LexemeV { kind: k, pos: run_pos(l1, c1, 1) },
                        LexemeV { kind: k, pos: run_pos(l2, c2, 1) },
                        spec_lex_from(s.skip(1), l1, c1 + 1),
                        spec_lex_from(s.skip(1), l2, c2 + 1),
                    );
                },
                None => {},
            }
        }
    }
}

/// A maximal letter run over a concatenation: the run of the first part, or
/// all of it plus the run of the second part.
proof fn lemma_run_alpha_concat(a: Seq<char>, b: Seq<char>)
    ensures
        run_alpha(a + b) == if run_alpha(a) < a.len() {
            run_alpha(a)
        } else {
            a.len() + run_alpha(b)
        },
    decreases a.len(),
{
    lemma_run_alpha_bounds(a);
    if a.len() == 0 {
        assert(a + b =~= b);
    } else if !is_alpha(a[0]) {
        assert((a + b)[0] == a[0]);
    } else {
        assert((a + b)[0] == a[0]);
        assert((a + b).skip(1) =~= a.skip(1) + b);
        lemma_run_alpha_concat(a.skip(1), b);
    }
}

/// A maximal digit run over a concatenation: the run of the first part, or
/// all of it plus the run of the second part.
proof fn lemma_run_digit_concat(a: Seq<char>, b: Seq<char>)
    ensures
        run_digit(a + b) == if run_digit(a) < a.len() {
            run_digit(a)
        } else {
            a.len() + run_digit(b)
        },
    decreases a.len(),
{
    lemma_run_digit_bounds(a);
    if a.len() == 0 {
        assert(a + b =~= b);
    } else if !is_digit_ch(a[0]) {
        assert((a + b)[0] == a[0]);
    } else {
        assert((a + b)[0] == a[0]);
        assert((a + b).skip(1) =~= a.skip(1) + b);
        lemma_run_digit_concat(a.skip(1), b);
    }
}

/// No letter or digit run continues across the boundary between `u` and `v`.
pub open spec fn run_boundary(u: Seq<char>, v: Seq<char>) -> bool {
    !(u.len() > 0 && v.len() > 0 && ((is_alpha(u.last()) && is_alpha(v[0])) || (is_digit_ch(
        u.last(),
    ) && is_digit_ch(v[0]))))
}

#[verifier::rlimit(80)]
proof fn lemma_ws_insert(u: Seq<char>, v: Seq<char>, c: char, l1: nat, c1: nat, l2: nat, c2: nat)
    requires
        is_ws(c),
        c != '\n',
        run_boundary(u, v),
    ensures
        kinds_of(spec_lex_from(u + v, l1, c1)) == kinds_of(
            spec_lex_from(u + seq![c] + v, l2, c2),
        ),
    decreases u.len(),
{
    let w = u + v;
    let w2 = u + seq![c] + v;
    if u.len() == 0 {
        assert(w =~= v);
        assert(w2 =~= seq![c] + v);
        assert(w2.len() > 0 && w2[0] == c);
        assert(w2.skip(1) =~= v);
        assert(spec_lex_from(w2, l2, c2) == spec_lex_from(v, l2, c2 + 1));
        lemma_kinds_pos_independent(v, l1, c1, l2, c2 + 1);
    } else {
        assert(w[0] == u[0]);
        assert(w2[0] == u[0]);
        assert(u.last() == u[u.len() - 1]);
        assert(w2 =~= u + (seq![c] + v));
        if is_alpha(u[0]) || is_digit_ch(u[0]) {
            let alpha_case = is_alpha(u[0]);
            lemma_run_alpha_bounds(u);
            lemma_run_digit_bounds(u);
            lemma_run_alpha_concat(u, v);
            lemma_run_digit_concat(u, v);
            lemma_run_alpha_concat(u, seq![c] + v);
            lemma_run_digit_concat(u, seq![c] + v);
            if v.len() > 0 {
                assert((seq![c] + v)[0] == c);
            }
            let n: nat = if alpha_case {
                run_alpha(w)
            } else {
                run_digit(w)
            };
            // whether the run stops inside u or uses all of u, it is the same
            // in both buffers, because nothing alphabetic or numeric follows
            // the boundary on the relevant side
            assert(!is_alpha(c) && !is_digit_ch(c));
            if alpha_case {
                if run_alpha(u) == u.len() {
                    assert(is_alpha(u.last()));
                    if v.len() > 0 {
                        assert(!is_alpha(v[0]));
                    }
                    assert(run_alpha(v) == 0);
                    assert(run_alpha(seq![c] + v) == 0);
                }
                assert(run_alpha(w2) == n);
            } else {
                if run_digit(u) == u.len() {
                    assert(is_digit_ch(u.last()));
                    if v.len() > 0 {
                        assert(!is_digit_ch(v[0]));
                    }
                    assert(run_digit(v) == 0);
                    assert(run_digit(seq![c] + v) == 0);
                }
                assert(run_digit(w2) == n);
            }
            assert(1 <= n <= u.len());
            assert(w.take(n as int) =~= u.take(n as int));
            assert(w2.take(n as int) =~= u.take(n as int));
            assert(w.skip(n as int) =~= u.skip(n as int) + v);
            assert(w2.skip(n as int) =~= u.skip(n as int) + seq![c] + v);
            if n < u.len() {
                assert(u.skip(n as int).last() == u.last());
            }
            lemma_ws_insert(u.skip(n as int), v, c, l1, c1 + n, l2, c2 + n);
            if alpha_case {
                lemma_kinds_cons(
                    LexemeV {
                        kind: spec_classify(w.take(n as int))->Some_0,
                        pos: run_pos(l1, c1, n),
                    },
                    LexemeV {
                        kind: spec_classify(w2.take(n as int))->Some_0,
                        pos: run_pos(l2, c2, n),
                    },
                    spec_lex_from(w.skip(n as int), l1, c1 + n),
                    spec_lex_from(w2.skip(n as int), l2, c2 + n),
                );
            } else {
                if dec_val(u.take(n as int)) <= i64::MAX {
                    lemma_kinds_cons(
                        LexemeV {
                            kind: LexKind::Literal(
                                Literal::Integer(dec_val(w.take(n as int)) as i64),
                            ),
                            pos: run_pos(l1, c1, n),
                        },
                        LexemeV {
                            kind: LexKind::Literal(
                                Literal::Integer(dec_val(w2.take(n as int)) as i64),
                            ),
                            pos: run_pos(l2, c2, n),
                        },
                        spec_lex_from(w.skip(n as int), l1, c1 + n),
                        spec_lex_from(w2.skip(n as int), l2, c2 + n),
                    );
                }
            }
        } else if u[0] == '\n' {
            assert(w.skip(1) =~= u.skip(1) + v);
            assert(w2.skip(1) =~= u.skip(1) + seq![c] + v);
            if u.len() > 1 {
                assert(u.skip(1).last() == u.last());
            }
            lemma_ws_insert(u.skip(1), v, c, l1 + 1, 0, l2 + 1, 0);
            lemma_kinds_cons(
                LexemeV { kind: LexKind::Newline, pos: run_pos(l1, c1, 1) },
                LexemeV { kind: LexKind::Newline, pos: run_pos(l2, c2, 1) },
                spec_lex_from(w.skip(1), l1 + 1, 0),
                spec_lex_from(w2.skip(1), l2 + 1, 0),
            );
        } else if is_ws(u[0]) {
            assert(w.skip(1) =~= u.skip(1) + v);
            assert(w2.skip(1) =~= u.skip(1) + seq![c] + v);
            if u.len() > 1 {
                assert(u.skip(1).last() == u.last());
            }
            lemma_ws_insert(u.skip(1), v, c, l1, c1 + 1, l2, c2 + 1);
        } else {
            assert(w.skip(1) =~= u.skip(1) + v);
            assert(w2.skip(1) =~= u.skip(1) + seq![c] + v);
            if u.len() > 1 {
                assert(u.skip(1).last() == u.last());
            }
            match spec_classify(seq![u[0]]) {
                Some(k) => {
                    lemma_ws_insert(u.skip(1), v, c, l1, c1 + 1, l2, c2 + 1);
                    lemma_kinds_cons(
                        LexemeV { kind: k, pos: run_pos(l1, c1, 1) },
                        LexemeV { kind: k, pos: run_pos(l2, c2, 1) },
                        spec_lex_from(w.skip(1), l1, c1 + 1),
                        spec_lex_from(w2.skip(1), l2, c2 + 1),
                    );
                },
                None => {},
            }
        }
    }
}

/// Whitespace invariance: inserting one non-newline ASCII whitespace
/// character at a point that no letter or digit run crosses leaves the lexed
/// kind sequence unchanged (and, on failing inputs, the same offending raw
/// text); only the recorded positions move.
pub proof fn lemma_whitespace_invariance(u: Seq<char>, v: Seq<char>, c: char)
    requires
        is_ws(c),
        c != '\n',
        run_boundary(u, v),
    ensures
        kinds_of(spec_lex(u + v)) == kinds_of(spec_lex(u + seq![c] + v)),
{
    lemma_ws_insert(u, v, c, 0, 0, 0, 0);
}

} // verus!
