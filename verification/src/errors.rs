//! The diagnostic model: a stage-tagged error payload together with the
//! position of the offending span, and renderers for the human-readable
//! message and for a source excerpt with a caret underline.

use crate::common::PosInfo;
use crate::text::append_str;
use crate::text::chars_range;
use crate::text::chars_to_string;
use crate::text::dec_str;
use crate::text::push_dec;
use crate::text::push_repeat;
use crate::text::repeat_seq;
use crate::text::str_to_chars;
use vstd::prelude::*;

verus! {

/// Errors raised by the lexical stage.
#[derive(Debug)]
pub enum LexErrors {
    /// A maximal character run matched no lexeme classification rule; the
    /// payload is the raw text of the run.
    UnrecognisedToken(String),
}

/// Errors raised by the syntactic stage.
#[derive(Debug)]
pub enum ParseErrors {
    /// The lexeme sequence ended where the grammar required another lexeme.
    UnexpectedEof,
    /// The front lexeme did not have the kind the grammar required.
    UnexpectedToken { expected: String, got: String },
    /// A type name resolved to no primitive type.
    UnrecognisedType(String),
    /// A statement form the grammar does not cover yet.
    UnsupportedStatement,
    /// An expression form the grammar does not cover yet.
    UnsupportedExpression,
}

/// An error payload, tagged by the compiler stage that raised it.
#[derive(Debug)]
pub enum ErrType {
    Lex(LexErrors),
    Parse(ParseErrors),
}

/// A positioned diagnostic: a stage-tagged payload and the span it points at.
#[derive(Debug)]
pub struct ShadowError {
    pub ty: ErrType,
    pub pos: PosInfo,
}

impl ShadowError {
    /// Builds a diagnostic from a payload and the three span components.
    pub fn new(err: ErrType, line: u64, column: u64, length: u64) -> (r: Self)
        ensures
            r.ty == err,
            r.pos == (PosInfo { line, column, length }),
    {
        ShadowError { ty: err, pos: PosInfo { line, column, length } }
    }

    /// Builds a diagnostic from a payload and a ready-made span.
    pub fn from_pos(err: ErrType, pos: PosInfo) -> (r: Self)
        ensures
            r.ty == err,
            r.pos == pos,
    {
        ShadowError { ty: err, pos }
    }
}

/// The stage tag line of a rendered diagnostic.
pub open spec fn stage_tag(t: ErrType) -> Seq<char> {
    match t {
        ErrType::Lex(l) => "[SDW E/L]\n"@,
        ErrType::Parse(p) => "[SDW E/P]\n"@,
    }
}

/// The message line of a rendered diagnostic.
pub open spec fn payload_msg(t: ErrType) -> Seq<char> {
    match t {
        ErrType::Lex(l) => match l {
            LexErrors::UnrecognisedToken(raw) => "an unrecognised token was occured: \""@ + raw@
                + "\"\n"@,
        },
        ErrType::Parse(p) => match p {
            ParseErrors::UnexpectedEof => "unexpected end of input\n"@,
            ParseErrors::UnexpectedToken { expected, got } => "expected "@ + expected@ + ", got "@
                + got@ + "\n"@,
            ParseErrors::UnrecognisedType(name) => {
                "'Custom' variable types not implemented yet (given "@ + name@ + ")\n"@
            },
            ParseErrors::UnsupportedStatement => {
                "only function declarations and return statements are supported\n"@
            },
            ParseErrors::UnsupportedExpression => "only literal expressions are supported\n"@,
        },
    }
}

/// The position line of a rendered diagnostic, restated one-based.
pub open spec fn location_msg(p: PosInfo) -> Seq<char> {
    "error occurred at line "@ + dec_str((p.line + 1) as nat) + ", character "@ + dec_str(
        (p.column + 1) as nat,
    ) + ".\n"@
}

/// The full rendered message of a diagnostic: stage tag, payload message, and
/// one-based position.
pub open spec fn message_spec(e: ShadowError) -> Seq<char> {
    stage_tag(e.ty) + payload_msg(e.ty) + location_msg(e.pos)
}

/// Characters of the current line, up to a newline or the end of the input.
pub open spec fn line_len(s: Seq<char>) -> nat
    decreases s.len(),
{
    if s.len() == 0 || s[0] == '\n' {
        0
    } else {
        1 + line_len(s.skip(1))
    }
}

/// The number of newline characters in `s`; `s` splits into one more line
/// than that.
pub open spec fn newline_count(s: Seq<char>) -> nat
    decreases s.len(),
{
    if s.len() == 0 {
        0
    } else {
        (if s[0] == '\n' {
            1nat
        } else {
            0nat
        }) + newline_count(s.skip(1))
    }
}

/// The current line is never longer than the input.
pub proof fn lemma_line_len_bound(s: Seq<char>)
    ensures
        line_len(s) <= s.len(),
    decreases s.len(),
{
    if s.len() > 0 && s[0] != '\n' {
        lemma_line_len_bound(s.skip(1));
    }
}

/// While a later newline exists, the current line stops strictly inside the
/// input, at a newline character.
pub proof fn lemma_line_ends(s: Seq<char>)
    ensures
        newline_count(s) > 0 ==> line_len(s) < s.len() && s[line_len(s) as int] == '\n',
    decreases s.len(),
{
    if s.len() > 0 && s[0] != '\n' {
        lemma_line_ends(s.skip(1));
        assert(s.skip(1) =~= s.subrange(1, s.len() as int));
    }
}

/// The zero-based `k`-th line of `s`, split on newline boundaries.
pub open spec fn line_at(s: Seq<char>, k: nat) -> Seq<char>
    decreases k,
{
    if k == 0 {
        s.take(line_len(s) as int)
    } else {
        line_at(s.skip(line_len(s) as int + 1), (k - 1) as nat)
    }
}

/// The source excerpt for a diagnostic: the offending line printed verbatim
/// between context markers, underlined by a caret span at its column.
pub open spec fn verbose_spec(p: PosInfo, s: Seq<char>) -> Seq<char> {
    "[ .. ]\n"@ + line_at(s, p.line as nat) + "\n"@ + repeat_seq(' ', p.column as nat)
        + repeat_seq('^', p.length as nat) + " - error occured here!\n[ .. ]\n"@
}

impl ShadowError {
    /// Renders the stage tag, the payload message and the one-based position.
    pub fn message(&self) -> (r: String)
        requires
            self.pos.line < u64::MAX,
            self.pos.column < u64::MAX,
        ensures
            r@ == message_spec(*self),
    {
        let mut out: Vec<char> = Vec::new();
        match &self.ty {
            ErrType::Lex(l) => {
                append_str(&mut out, "[SDW E/L]\n");
                match l {
                    LexErrors::UnrecognisedToken(raw) => {
                        append_str(&mut out, "an unrecognised token was occured: \"");
                        append_str(&mut out, raw.as_str());
                        append_str(&mut out, "\"\n");
                    },
                }
            },
            ErrType::Parse(p) => {
                append_str(&mut out, "[SDW E/P]\n");
                match p {
                    ParseErrors::UnexpectedEof => {
                        append_str(&mut out, "unexpected end of input\n");
                    },
                    ParseErrors::UnexpectedToken { expected, got } => {
                        append_str(&mut out, "expected ");
                        append_str(&mut out, expected.as_str());
                        append_str(&mut out, ", got ");
                        append_str(&mut out, got.as_str());
                        append_str(&mut out, "\n");
                    },
                    ParseErrors::UnrecognisedType(name) => {
                        append_str(&mut out, "'Custom' variable types not implemented yet (given ");
                        append_str(&mut out, name.as_str());
                        append_str(&mut out, ")\n");
                    },
                    ParseErrors::UnsupportedStatement => {
                        append_str(
                            &mut out,
                            "only function declarations and return statements are supported\n",
                        );
                    },
                    ParseErrors::UnsupportedExpression => {
                        append_str(&mut out, "only literal expressions are supported\n");
                    },
                }
            },
        }
        append_str(&mut out, "error occurred at line ");
        push_dec(&mut out, self.pos.line + 1);
        append_str(&mut out, ", character ");
        push_dec(&mut out, self.pos.column + 1);
        append_str(&mut out, ".\n");
        proof {
            assert(out@ =~= message_spec(*self));
        }
        chars_to_string(&out)
    }

    /// Renders the source excerpt: the line the diagnostic points into,
    /// re-split from the original source text, with a caret underline. The
    /// stored line index must exist in the given source text; a diagnostic
    /// built against the wrong buffer is a contract violation, not an input
    /// error.
    #[verifier::loop_isolation(false)]
    pub fn verbose(&self, raw: &str) -> (r: String)
        requires
            self.pos.line as nat <= newline_count(raw@),
            self.pos.column <= usize::MAX as u64,
            self.pos.length <= usize::MAX as u64,
        ensures
            r@ == verbose_spec(self.pos, raw@),
    {
        let cs = str_to_chars(raw);
        let n = cs.len();
        let target = self.pos.line;
        let mut idx: usize = 0;
        let mut k: u64 = 0;
        proof {
            assert(cs@.skip(0) =~= cs@);
        }
        while k < target
            invariant
                0 <= idx <= n,
                k <= target,
                (target - k) as nat <= newline_count(cs@.skip(idx as int)),
                line_at(cs@.skip(idx as int), (target - k) as nat) == line_at(
                    cs@,
                    target as nat,
                ),
            decreases n - idx,
        {
            let ghost si = cs@.skip(idx as int);
            proof {
                assert(si.len() > 0) by {
                    if si.len() == 0 {
                        assert(newline_count(si) == 0);
                    }
                }
                assert(si[0] == cs@[idx as int]);
                assert(si.skip(1) =~= cs@.skip(idx as int + 1));
                lemma_line_len_bound(si.skip(1));
            }
            let c = cs[idx];
            if c == '\n' {
                proof {
                    assert(line_len(si) == 0);
                    assert(si.skip(line_len(si) as int + 1) =~= cs@.skip(idx as int + 1));
                }
                k = k + 1;
            } else {
                proof {
                    let m = (target - k) as nat;
                    let ghost sj = cs@.skip(idx as int + 1);
                    assert(newline_count(si) == newline_count(sj));
                    lemma_line_ends(sj);
                    assert(line_len(si) == 1 + line_len(sj));
                    assert(si.skip(line_len(si) as int + 1) =~= sj.skip(line_len(sj) as int + 1));
                    assert(line_at(si, m) == line_at(sj, m));
                }
            }
            idx = idx + 1;
        }
        let ghost s_line = cs@.skip(idx as int);
        let mut j: usize = idx;
        while j < n && cs[j] != '\n'
            invariant
                idx <= j <= n,
                line_len(s_line) == (j - idx) + line_len(cs@.skip(j as int)),
            decreases n - j,
        {
            proof {
                assert(cs@.skip(j as int)[0] == cs@[j as int]);
                assert(cs@.skip(j as int).skip(1) =~= cs@.skip(j as int + 1));
            }
            j = j + 1;
        }
        proof {
            if j < n {
                assert(cs@.skip(j as int)[0] == cs@[j as int]);
            }
            assert(line_len(cs@.skip(j as int)) == 0);
            assert(line_len(s_line) == j - idx);
            assert(line_at(s_line, 0) == s_line.take((j - idx) as int));
        }
        let mut line_chars = chars_range(&cs, idx, j);
        proof {
            assert(line_chars@ =~= s_line.take((j - idx) as int));
        }
        let mut out: Vec<char> = Vec::new();
        append_str(&mut out, "[ .. ]\n");
        out.append(&mut line_chars);
        append_str(&mut out, "\n");
        push_repeat(&mut out, ' ', self.pos.column as usize);
        push_repeat(&mut out, '^', self.pos.length as usize);
        append_str(&mut out, " - error occured here!\n[ .. ]\n");
        proof {
            assert(out@ =~= verbose_spec(self.pos, raw@));
        }
        chars_to_string(&out)
    }
}

/// Rendering is deterministic: the same diagnostic rendered against the same
/// source text twice produces byte-identical output, for the message and for
/// the source excerpt alike.
pub proof fn lemma_render_idempotent(
    e: ShadowError,
    s: Seq<char>,
    m1: Seq<char>,
    m2: Seq<char>,
    v1: Seq<char>,
    v2: Seq<char>,
)
    requires
        m1 == message_spec(e),
        m2 == message_spec(e),
        v1 == verbose_spec(e.pos, s),
        v2 == verbose_spec(e.pos, s),
    ensures
        m1 == m2,
        v1 == v2,
{
}

} // verus!
