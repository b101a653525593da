//! The mathematical model of the scan: a step function that describes what
//! scanning one token from a given cursor position produces, and its closure
//! over the whole source. The executable scanner is proved to return exactly
//! what this model says.

use vstd::prelude::*;

use crate::token::{Diagnostic, LiteralView, TokenType, TokenView};

verus! {

/// ASCII decimal digit.
pub open spec fn is_digit_char(c: char) -> bool {
    '0' as u32 <= c as u32 <= '9' as u32
}

/// ASCII letter or underscore: the characters an identifier may start with.
pub open spec fn is_alpha_char(c: char) -> bool {
    ('a' as u32 <= c as u32 <= 'z' as u32) || ('A' as u32 <= c as u32 <= 'Z' as u32) || c == '_'
}

/// A character an identifier may continue with.
pub open spec fn is_alnum_char(c: char) -> bool {
    is_alpha_char(c) || is_digit_char(c)
}

/// Numeric value of a decimal digit character.
pub open spec fn digit_val(c: char) -> nat {
    if is_digit_char(c) {
        (c as u32 - '0' as u32) as nat
    } else {
        0
    }
}

/// Value of a run of decimal digits, most significant first.
pub open spec fn digits_val(s: Seq<char>) -> nat
    decreases s.len(),
{
    if s.len() == 0 {
        0
    } else {
        digits_val(s.drop_last()) * 10 + digit_val(s.last())
    }
}

/// First position at or after `i` holding a newline, or the end of the
/// source: where a line comment stops.
pub open spec fn comment_end(src: Seq<char>, i: int) -> int
    decreases src.len() - i,
{
    if 0 <= i < src.len() && src[i] != '\n' {
        comment_end(src, i + 1)
    } else {
        i
    }
}

/// First position at or after `i` holding a closing quote, or the end of
/// the source: where a string literal's body stops.
pub open spec fn string_end(src: Seq<char>, i: int) -> int
    decreases src.len() - i,
{
    if 0 <= i < src.len() && src[i] != '"' {
        string_end(src, i + 1)
    } else {
        i
    }
}

/// First position at or after `i` holding a non-digit, or the end of the
/// source: the maximal-munch end of a digit run.
pub open spec fn digits_end(src: Seq<char>, i: int) -> int
    decreases src.len() - i,
{
    if 0 <= i < src.len() && is_digit_char(src[i]) {
        digits_end(src, i + 1)
    } else {
        i
    }
}

/// First position at or after `i` holding a character that cannot continue
/// an identifier, or the end of the source.
pub open spec fn ident_end(src: Seq<char>, i: int) -> int
    decreases src.len() - i,
{
    if 0 <= i < src.len() && is_alnum_char(src[i]) {
        ident_end(src, i + 1)
    } else {
        i
    }
}

/// Number of newline characters in `src[i..j)`.
pub open spec fn nl_count(src: Seq<char>, i: int, j: int) -> nat
    decreases j - i,
{
    if i < j && 0 <= i < src.len() {
        (if src[i] == '\n' {
            1nat
        } else {
            0nat
        }) + nl_count(src, i + 1, j)
    } else {
        0
    }
}

/// The line counter after one more newline; it saturates rather than wrap,
/// so the scan stays total on absurdly long sources.
pub open spec fn bump(line: u32) -> u32 {
    if line == u32::MAX {
        line
    } else {
        (line + 1) as u32
    }
}

/// The line counter after `n` more newlines.
pub open spec fn bump_n(line: u32, n: nat) -> u32 {
    if line + n > u32::MAX {
        u32::MAX
    } else {
        (line + n) as u32
    }
}

/// The token type a reserved word scans to, or `Identifier` for any other
/// identifier text.
pub open spec fn keyword_type(s: Seq<char>) -> TokenType {
    if s == "and"@ {
        TokenType::And
    } else if s == "class"@ {
        TokenType::Class
    } else if s == "else"@ {
        TokenType::Else
    } else if s == "false"@ {
        TokenType::False
    } else if s == "fun"@ {
        TokenType::Fun
    } else if s == "for"@ {
        TokenType::For
    } else if s == "if"@ {
        TokenType::If
    } else if s == "nil"@ {
        TokenType::Nil
    } else if s == "or"@ {
        TokenType::Or
    } else if s == "print"@ {
        TokenType::Print
    } else if s == "return"@ {
        TokenType::Return
    } else if s == "super"@ {
        TokenType::Super
    } else if s == "this"@ {
        TokenType::This
    } else if s == "true"@ {
        TokenType::True
    } else if s == "var"@ {
        TokenType::Var
    } else if s == "while"@ {
        TokenType::While
    } else {
        TokenType::Identifier
    }
}

/// A token over the half-open source range `[start, end)`: its lexeme is by
/// construction the source sliced at its recorded offsets.
pub open spec fn tok(
    src: Seq<char>,
    start: int,
    end: int,
    token_type: TokenType,
    literal: LiteralView,
    line: u32,
) -> TokenView {
    TokenView { token_type, lexeme: src.subrange(start, end), literal, line, start, end }
}

/// The end-of-input token: empty lexeme, no literal, span at the very end.
pub open spec fn eof_tok(src_len: int, line: u32) -> TokenView {
    TokenView {
        token_type: TokenType::Eof,
        lexeme: Seq::<char>::empty(),
        literal: LiteralView::NoValue,
        line,
        start: src_len,
        end: src_len,
    }
}

/// What scanning one token from position `i` produces: the new cursor and
/// line, at most one token, and at most one diagnostic.
pub struct StepRes {
    pub next: int,
    pub line: u32,
    pub toks: Seq<TokenView>,
    pub diags: Seq<Diagnostic>,
}

/// A step that consumes `[i, next)`, emits nothing, and keeps the line.
pub open spec fn skip_step(next: int, line: u32) -> StepRes {
    StepRes { next, line, toks: Seq::empty(), diags: Seq::empty() }
}

/// A step that consumes `[i, end)` and emits one literal-free token.
pub open spec fn plain_step(
    src: Seq<char>,
    i: int,
    end: int,
    token_type: TokenType,
    line: u32,
) -> StepRes {
    StepRes {
        next: end,
        line,
        toks: seq![tok(src, i, end, token_type, LiteralView::NoValue, line)],
        diags: Seq::empty(),
    }
}

/// Operator disambiguation: the two-character token when the next character
/// is `=`, else the one-character token.
pub open spec fn op_step(src: Seq<char>, i: int, two: TokenType, one: TokenType, line: u32) -> StepRes {
    if i + 1 < src.len() && src[i + 1] == '=' {
        plain_step(src, i, i + 2, two, line)
    } else {
        plain_step(src, i, i + 1, one, line)
    }
}

/// Scanning a string literal whose opening quote stands at `i`. The body
/// runs to the matching quote; an unterminated literal consumes the rest of
/// the input and reports its starting line. Embedded newlines advance the
/// line counter, but the token records the line the literal began on.
pub open spec fn string_step(src: Seq<char>, i: int, line: u32) -> StepRes {
    let e = string_end(src, i + 1);
    if e >= src.len() {
        StepRes {
            next: src.len() as int,
            line: bump_n(line, nl_count(src, i + 1, src.len() as int)),
            toks: Seq::empty(),
            diags: seq![Diagnostic::UnterminatedString { line }],
        }
    } else {
        StepRes {
            next: e + 1,
            line: bump_n(line, nl_count(src, i + 1, e)),
            toks: seq![
                tok(
                    src,
                    i,
                    e + 1,
                    TokenType::String,
                    LiteralView::String(src.subrange(i + 1, e)),
                    line,
                )
            ],
            diags: Seq::empty(),
        }
    }
}

/// Scanning a numeric literal whose first digit stands at `i`. A dot joins
/// the literal only when a digit follows it, making the token a float that
/// keeps its exact text; otherwise the digit run alone forms an integer
/// token, or an overflow diagnostic when its value exceeds `u32`.
pub open spec fn number_step(src: Seq<char>, i: int, line: u32) -> StepRes {
    let d1 = digits_end(src, i + 1);
    if d1 < src.len() && src[d1] == '.' && d1 + 1 < src.len() && is_digit_char(src[d1 + 1]) {
        let d2 = digits_end(src, d1 + 1);
        StepRes {
            next: d2,
            line,
            toks: seq![
                tok(
                    src,
                    i,
                    d2,
                    TokenType::Float,
                    LiteralView::Float(src.subrange(i, d2)),
                    line,
                )
            ],
            diags: Seq::empty(),
        }
    } else {
        let v = digits_val(src.subrange(i, d1));
        if v <= u32::MAX {
            StepRes {
                next: d1,
                line,
                toks: seq![
                    tok(src, i, d1, TokenType::Integer, LiteralView::Integer(v as u32), line)
                ],
                diags: Seq::empty(),
            }
        } else {
            StepRes {
                next: d1,
                line,
                toks: Seq::empty(),
                diags: seq![Diagnostic::NumericParseOverflow { line }],
            }
        }
    }
}

/// Scanning an identifier or keyword whose first character stands at `i`.
pub open spec fn ident_step(src: Seq<char>, i: int, line: u32) -> StepRes {
    let e = ident_end(src, i + 1);
    plain_step(src, i, e, keyword_type(src.subrange(i, e)), line)
}

/// One dispatch of the scanner on the character at `i`: maximal munch,
/// single dispatch on the first character.
pub open spec fn step(src: Seq<char>, i: int, line: u32) -> StepRes
    recommends
        0 <= i < src.len(),
{
    let c = src[i];
    if c == '(' {
        plain_step(src, i, i + 1, TokenType::LeftParen, line)
    } else if c == ')' {
        plain_step(src, i, i + 1, TokenType::RightParen, line)
    } else if c == '{' {
        plain_step(src, i, i + 1, TokenType::LeftBrace, line)
    } else if c == '}' {
        plain_step(src, i, i + 1, TokenType::RightBrace, line)
    } else if c == ',' {
        plain_step(src, i, i + 1, TokenType::Comma, line)
    } else if c == '.' {
        plain_step(src, i, i + 1, TokenType::Dot, line)
    } else if c == '-' {
        plain_step(src, i, i + 1, TokenType::Minus, line)
    } else if c == '+' {
        plain_step(src, i, i + 1, TokenType::Plus, line)
    } else if c == ';' {
        plain_step(src, i, i + 1, TokenType::Semicolon, line)
    } else if c == '*' {
        plain_step(src, i, i + 1, TokenType::Star, line)
    } else if c == '!' {
        op_step(src, i, TokenType::BangEqual, TokenType::Bang, line)
    } else if c == '=' {
        op_step(src, i, TokenType::EqualEqual, TokenType::Equal, line)
    } else if c == '<' {
        op_step(src, i, TokenType::LessEqual, TokenType::Less, line)
    } else if c == '>' {
        op_step(src, i, TokenType::GreaterEqual, TokenType::Greater, line)
    } else if c == '/' {
        if i + 1 < src.len() && src[i + 1] == '/' {
            skip_step(comment_end(src, i + 2), line)
        } else {
            plain_step(src, i, i + 1, TokenType::Slash, line)
        }
    } else if c == ' ' || c == '\r' || c == '\t' {
        skip_step(i + 1, line)
    } else if c == '\n' {
        skip_step(i + 1, bump(line))
    } else if c == '"' {
        string_step(src, i, line)
    } else if is_digit_char(c) {
        number_step(src, i, line)
    } else if is_alpha_char(c) {
        ident_step(src, i, line)
    } else {
        StepRes {
            next: i + 1,
            line,
            toks: Seq::empty(),
            diags: seq![Diagnostic::UnknownCharacter { ch: c, line }],
        }
    }
}

/// The tokens, diagnostics and final line of scanning the whole remainder
/// of the source from position `i`.
pub struct ScanOut {
    pub toks: Seq<TokenView>,
    pub diags: Seq<Diagnostic>,
    pub line: u32,
}

/// Iterate `step` from position `i` to the end of the source. The cursor
/// from each step is forced forward and clamped to the source length so the
/// iteration is total; the lemmas below show the force and the clamp never
/// actually fire.
pub open spec fn scan_from(src: Seq<char>, i: int, line: u32) -> ScanOut
    decreases src.len() - i,
{
    if !(0 <= i < src.len()) {
        ScanOut { toks: Seq::empty(), diags: Seq::empty(), line }
    } else {
        let st = step(src, i, line);
        let forced = if st.next > i {
            st.next
        } else {
            i + 1
        };
        let ni = if forced > src.len() {
            src.len() as int
        } else {
            forced
        };
        let rest = scan_from(src, ni, st.line);
        ScanOut { toks: st.toks + rest.toks, diags: st.diags + rest.diags, line: rest.line }
    }
}

/// The full scan of a source: what `Scanner::scan_tokens` returns, short of
/// the trailing end-of-input token it appends with the final line counter.
pub open spec fn scan_spec(src: Seq<char>) -> ScanOut {
    scan_from(src, 0, 1)
}

/// A line comment stops at the first newline at or after `i`, or at the end
/// of the source.
pub proof fn lemma_comment_end_bounds(src: Seq<char>, i: int)
    requires
        0 <= i <= src.len(),
    ensures
        i <= comment_end(src, i) <= src.len(),
        forall|j: int| i <= j < comment_end(src, i) ==> src[j] != '\n',
        comment_end(src, i) < src.len() ==> src[comment_end(src, i)] == '\n',
    decreases src.len() - i,
{
    if i < src.len() && src[i] != '\n' {
        lemma_comment_end_bounds(src, i + 1);
    }
}

/// A string literal's body stops at the first quote at or after `i`, or at
/// the end of the source.
pub proof fn lemma_string_end_bounds(src: Seq<char>, i: int)
    requires
        0 <= i <= src.len(),
    ensures
        i <= string_end(src, i) <= src.len(),
        forall|j: int| i <= j < string_end(src, i) ==> src[j] != '"',
        string_end(src, i) < src.len() ==> src[string_end(src, i)] == '"',
    decreases src.len() - i,
{
    if i < src.len() && src[i] != '"' {
        lemma_string_end_bounds(src, i + 1);
    }
}

/// A digit run stops at the first non-digit at or after `i`, or at the end
/// of the source.
pub proof fn lemma_digits_end_bounds(src: Seq<char>, i: int)
    requires
        0 <= i <= src.len(),
    ensures
        i <= digits_end(src, i) <= src.len(),
        forall|j: int| i <= j < digits_end(src, i) ==> is_digit_char(src[j]),
        digits_end(src, i) < src.len() ==> !is_digit_char(src[digits_end(src, i)]),
    decreases src.len() - i,
{
    if i < src.len() && is_digit_char(src[i]) {
        lemma_digits_end_bounds(src, i + 1);
    }
}

/// An identifier stops at the first character that cannot continue it, or
/// at the end of the source.
pub proof fn lemma_ident_end_bounds(src: Seq<char>, i: int)
    requires
        0 <= i <= src.len(),
    ensures
        i <= ident_end(src, i) <= src.len(),
        forall|j: int| i <= j < ident_end(src, i) ==> is_alnum_char(src[j]),
        ident_end(src, i) < src.len() ==> !is_alnum_char(src[ident_end(src, i)]),
    decreases src.len() - i,
{
    if i < src.len() && is_alnum_char(src[i]) {
        lemma_ident_end_bounds(src, i + 1);
    }
}

/// Extending a range one character to the right adds that character's
/// newline count.
pub proof fn lemma_nl_count_snoc(src: Seq<char>, a: int, j: int)
    requires
        0 <= a <= j < src.len(),
    ensures
        nl_count(src, a, j + 1) == nl_count(src, a, j) + (if src[j] == '\n' {
            1nat
        } else {
            0nat
        }),
    decreases j - a,
{
    if a < j {
        lemma_nl_count_snoc(src, a + 1, j);
        assert(nl_count(src, a, j + 1) == (if src[a] == '\n' {
            1nat
        } else {
            0nat
        }) + nl_count(src, a + 1, j + 1));
        assert(nl_count(src, a, j) == (if src[a] == '\n' {
            1nat
        } else {
            0nat
        }) + nl_count(src, a + 1, j));
    } else {
        assert(nl_count(src, j + 1, j + 1) == 0);
        assert(nl_count(src, a, j) == 0);
    }
}

/// Saturating line bumps compose: one more newline after `n` is `n + 1`.
pub proof fn lemma_bump_n_succ(line: u32, n: nat)
    ensures
        bump(bump_n(line, n)) == bump_n(line, n + 1),
{
}

/// Extending a digit range one digit to the right multiplies its value by
/// ten and adds the digit.
pub proof fn lemma_digits_val_snoc(src: Seq<char>, a: int, k: int)
    requires
        0 <= a <= k < src.len(),
    ensures
        digits_val(src.subrange(a, k + 1)) == digits_val(src.subrange(a, k)) * 10 + digit_val(
            src[k],
        ),
{
    let s = src.subrange(a, k + 1);
    assert(s.drop_last() =~= src.subrange(a, k));
    assert(s.last() == src[k]);
}

/// The value of a digit run never falls when the run is extended to the
/// right: once a prefix already exceeds a bound, the whole run does.
pub proof fn lemma_digits_val_prefix_le(src: Seq<char>, a: int, k: int, j: int)
    requires
        0 <= a <= k <= j <= src.len(),
    ensures
        digits_val(src.subrange(a, k)) <= digits_val(src.subrange(a, j)),
    decreases j - k,
{
    if k < j {
        lemma_digits_val_prefix_le(src, a, k, j - 1);
        lemma_digits_val_snoc(src, a, j - 1);
    }
}

/// Every step consumes at least one character and never runs past the end
/// of the source.
pub proof fn lemma_step_in_range(src: Seq<char>, i: int, line: u32)
    requires
        0 <= i < src.len(),
    ensures
        i < step(src, i, line).next <= src.len(),
{
    let c = src[i];
    if c == '/' && i + 1 < src.len() && src[i + 1] == '/' {
        lemma_comment_end_bounds(src, i + 2);
    } else if c == '"' {
        lemma_string_end_bounds(src, i + 1);
    } else if is_digit_char(c) {
        lemma_digits_end_bounds(src, i + 1);
        let d1 = digits_end(src, i + 1);
        if d1 < src.len() && src[d1] == '.' && d1 + 1 < src.len() && is_digit_char(src[d1 + 1]) {
            lemma_digits_end_bounds(src, d1 + 1);
        }
    } else if is_alpha_char(c) {
        lemma_ident_end_bounds(src, i + 1);
    }
}

/// Every token a step emits starts at the step's own position, spans at
/// least one character inside the source, holds exactly that slice of the
/// source as its lexeme, and is never the end-of-input token.
pub proof fn lemma_step_toks(src: Seq<char>, i: int, line: u32)
    requires
        0 <= i < src.len(),
    ensures
        forall|k: int|
            0 <= k < step(src, i, line).toks.len() ==> {
                let t = #[trigger] step(src, i, line).toks[k];
                &&& t.token_type != TokenType::Eof
                &&& t.start == i
                &&& i < t.end <= src.len()
                &&& t.lexeme == src.subrange(t.start, t.end)
                &&& t.line == line
            },
{
    lemma_step_in_range(src, i, line);
    let c = src[i];
    if c == '"' {
        lemma_string_end_bounds(src, i + 1);
    } else if is_digit_char(c) {
        lemma_digits_end_bounds(src, i + 1);
        let d1 = digits_end(src, i + 1);
        if d1 < src.len() && src[d1] == '.' && d1 + 1 < src.len() && is_digit_char(src[d1 + 1]) {
            lemma_digits_end_bounds(src, d1 + 1);
        }
    } else if is_alpha_char(c) {
        lemma_ident_end_bounds(src, i + 1);
    }
}

/// Unfolding the full scan one step: the iteration's forced-progress guard
/// and clamp coincide with the step's own cursor.
pub proof fn lemma_scan_from_unfold(src: Seq<char>, i: int, line: u32)
    requires
        0 <= i < src.len(),
    ensures
        ({
            let st = step(src, i, line);
            let rest = scan_from(src, st.next, st.line);
            &&& scan_from(src, i, line).toks == st.toks + rest.toks
            &&& scan_from(src, i, line).diags == st.diags + rest.diags
            &&& scan_from(src, i, line).line == rest.line
        }),
{
    lemma_step_in_range(src, i, line);
}

/// Every token of a scan (before the appended end-of-input token) spans a
/// non-empty range of the source and holds exactly that slice as its
/// lexeme; none of them is an end-of-input token.
pub proof fn lemma_scan_from_toks(src: Seq<char>, i: int, line: u32)
    requires
        0 <= i,
    ensures
        forall|k: int|
            0 <= k < scan_from(src, i, line).toks.len() ==> {
                let t = #[trigger] scan_from(src, i, line).toks[k];
                &&& t.token_type != TokenType::Eof
                &&& 0 <= t.start
                &&& t.start < t.end <= src.len()
                &&& t.lexeme == src.subrange(t.start, t.end)
            },
    decreases src.len() - i,
{
    if 0 <= i < src.len() {
        let st = step(src, i, line);
        lemma_step_in_range(src, i, line);
        lemma_step_toks(src, i, line);
        lemma_scan_from_toks(src, st.next, st.line);
        lemma_scan_from_unfold(src, i, line);
    }
}

/// Law: the token sequence a scan returns ends with exactly one
/// end-of-input token — the appended one, whose lexeme is empty and whose
/// literal is no value — and no end-of-input token occurs before it.
pub proof fn lemma_scan_single_eof(src: Seq<char>)
    ensures
        ({
            let out = scan_spec(src);
            let all = out.toks + seq![eof_tok(src.len() as int, out.line)];
            &&& all.len() >= 1
            &&& all.last().token_type == TokenType::Eof
            &&& all.last().lexeme == Seq::<char>::empty()
            &&& all.last().literal == LiteralView::NoValue
            &&& forall|k: int|
                0 <= k < all.len() - 1 ==> (#[trigger] all[k]).token_type != TokenType::Eof
        }),
{
    lemma_scan_from_toks(src, 0, 1);
    let out = scan_spec(src);
    let all = out.toks + seq![eof_tok(src.len() as int, out.line)];
    assert(forall|k: int| 0 <= k < all.len() - 1 ==> all[k] == out.toks[k]);
}

/// Law: the line counter is monotonically non-decreasing — a scan's final
/// line counter never falls below the counter it started with.
pub proof fn lemma_line_monotone(src: Seq<char>, i: int, line: u32)
    ensures
        line <= scan_from(src, i, line).line,
    decreases src.len() - i,
{
    if 0 <= i < src.len() {
        let st = step(src, i, line);
        let forced = if st.next > i {
            st.next
        } else {
            i + 1
        };
        let ni = if forced > src.len() {
            src.len() as int
        } else {
            forced
        };
        lemma_line_monotone(src, ni, st.line);
    }
}

/// Law: re-slicing the source at any scanned token's recorded offsets
/// yields exactly that token's lexeme, and every such lexeme is non-empty.
pub proof fn lemma_scan_round_trip(src: Seq<char>)
    ensures
        forall|k: int|
            0 <= k < scan_spec(src).toks.len() ==> {
                let t = #[trigger] scan_spec(src).toks[k];
                &&& 0 <= t.start
                &&& t.start < t.end <= src.len()
                &&& t.lexeme == src.subrange(t.start, t.end)
                &&& t.lexeme.len() >= 1
            },
{
    lemma_scan_from_toks(src, 0, 1);
}

} // verus!
