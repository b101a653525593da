//! The scanner: a forward-only cursor over the source characters that
//! performs maximal-munch tokenization and is proved to produce exactly the
//! token sequence and diagnostics of the model in `lexspec`.

use vstd::prelude::*;
use vstd::string::StrSliceExecFns;

use crate::lexspec::{
    bump_n, comment_end, digits_end, digits_val, eof_tok, ident_end, ident_step, is_alnum_char,
    is_alpha_char, is_digit_char, keyword_type, lemma_bump_n_succ, lemma_digits_end_bounds,
    lemma_digits_val_prefix_le, lemma_digits_val_snoc, lemma_nl_count_snoc,
    lemma_scan_from_unfold, lemma_step_in_range, nl_count, number_step, scan_from, step,
    string_end, string_step, tok, ScanOut,
};
use crate::token::{Diagnostic, Literal, LiteralView, Token, TokenType, TokenView};

verus! {

broadcast use vstd::std_specs::vec::group_vec_axioms;

/// The mathematical values of the tokens in a vector, in order.
pub open spec fn toks_view(ts: Seq<Token>) -> Seq<TokenView> {
    ts.map_values(|t: Token| t@)
}

/// Appending a token to a vector appends its value to the vector's view.
proof fn lemma_toks_view_push(ts: Seq<Token>, t: Token)
    ensures
        toks_view(ts.push(t)) == toks_view(ts).push(t@),
{
    assert(toks_view(ts.push(t)) =~= toks_view(ts).push(t@));
}

/// Pushing one element is the same as concatenating a singleton.
proof fn lemma_push_concat<A>(s: Seq<A>, x: A)
    ensures
        s.push(x) == s + seq![x],
{
    assert(s.push(x) =~= s + seq![x]);
}

/// Concatenating an empty sequence on the right changes nothing.
proof fn lemma_concat_empty<A>(s: Seq<A>)
    ensures
        s + Seq::<A>::empty() == s,
{
    assert(s + Seq::<A>::empty() =~= s);
}

/// Sequence concatenation is associative.
proof fn lemma_concat_assoc<A>(a: Seq<A>, b: Seq<A>, c: Seq<A>)
    ensures
        (a + b) + c == a + (b + c),
{
    assert((a + b) + c =~= a + (b + c));
}

/// Relies on str::chars (std): iterating a string slice yields exactly its
/// characters in order; they are collected into a vector.
#[verifier::external_body]
fn chars_of(s: &str) -> (r: Vec<char>)
    ensures
        r@ == s@,
{
    s.chars().collect()
}

/// Relies on slice iteration and String::from_iter (std): the characters of
/// `v[start..end]`, gathered in order into a string.
#[verifier::external_body]
fn string_range(v: &Vec<char>, start: usize, end: usize) -> (r: String)
    requires
        start <= end,
        end <= v@.len(),
    ensures
        r@ == v@.subrange(start as int, end as int),
{
    v[start..end].iter().collect()
}

/// Compare a character range of the source against a keyword's text.
fn range_eq_str(v: &Vec<char>, start: usize, end: usize, kw: &str) -> (r: bool)
    requires
        start <= end,
        end <= v@.len(),
    ensures
        r == (v@.subrange(start as int, end as int) == kw@),
{
    let n = kw.unicode_len();
    if n != end - start {
        proof {
            if v@.subrange(start as int, end as int) == kw@ {
                assert(v@.subrange(start as int, end as int).len() == kw@.len());
            }
        }
        return false;
    }
    let mut k: usize = 0;
    while k < n
        invariant
            start <= end,
            end <= v@.len(),
            n == kw@.len(),
            end - start == n,
            0 <= k <= n,
            forall|j: int| 0 <= j < k ==> v@[start + j] == kw@[j],
        decreases n - k,
    {
        let c = v[start + k];
        if c != kw.get_char(k) {
            proof {
                if v@.subrange(start as int, end as int) == kw@ {
                    assert(v@.subrange(start as int, end as int)[k as int] == kw@[k as int]);
                }
            }
            return false;
        }
        k += 1;
    }
    proof {
        assert(v@.subrange(start as int, end as int) =~= kw@);
    }
    true
}

/// Classify an identifier's text: the keyword's token type when the range
/// spells a reserved word, `Identifier` otherwise.
fn keyword_or_identifier(v: &Vec<char>, start: usize, end: usize) -> (tt: TokenType)
    requires
        start <= end,
        end <= v@.len(),
    ensures
        tt == keyword_type(v@.subrange(start as int, end as int)),
{
    if range_eq_str(v, start, end, "and") {
        TokenType::And
    } else if range_eq_str(v, start, end, "class") {
        TokenType::Class
    } else if range_eq_str(v, start, end, "else") {
        TokenType::Else
    } else if range_eq_str(v, start, end, "false") {
        TokenType::False
    } else if range_eq_str(v, start, end, "fun") {
        TokenType::Fun
    } else if range_eq_str(v, start, end, "for") {
        TokenType::For
    } else if range_eq_str(v, start, end, "if") {
        TokenType::If
    } else if range_eq_str(v, start, end, "nil") {
        TokenType::Nil
    } else if range_eq_str(v, start, end, "or") {
        TokenType::Or
    } else if range_eq_str(v, start, end, "print") {
        TokenType::Print
    } else if range_eq_str(v, start, end, "return") {
        TokenType::Return
    } else if range_eq_str(v, start, end, "super") {
        TokenType::Super
    } else if range_eq_str(v, start, end, "this") {
        TokenType::This
    } else if range_eq_str(v, start, end, "true") {
        TokenType::True
    } else if range_eq_str(v, start, end, "var") {
        TokenType::Var
    } else if range_eq_str(v, start, end, "while") {
        TokenType::While
    } else {
        TokenType::Identifier
    }
}

/// Scanner state: the source characters, the tokens and diagnostics
/// produced so far, the start of the token being scanned, the cursor, and
/// the 1-based line counter.
pub struct Scanner {
    source: Vec<char>,
    tokens: Vec<Token>,
    diagnostics: Vec<Diagnostic>,
    start: usize,
    cursor: usize,
    line: u32,
}

/// The mathematical value of a scanner state.
pub struct ScannerView {
    pub source: Seq<char>,
    pub tokens: Seq<TokenView>,
    pub diagnostics: Seq<Diagnostic>,
    pub start: int,
    pub cursor: int,
    pub line: u32,
}

impl View for Scanner {
    type V = ScannerView;

    closed spec fn view(&self) -> ScannerView {
        ScannerView {
            source: self.source@,
            tokens: toks_view(self.tokens@),
            diagnostics: self.diagnostics@,
            start: self.start as int,
            cursor: self.cursor as int,
            line: self.line,
        }
    }
}

impl Scanner {
    /// The cursor never runs past the end of the source.
    pub open spec fn wf(self) -> bool {
        self@.cursor <= self@.source.len()
    }

    /// A fresh scanner over the given source text: cursor at the first
    /// character, line counter at one, nothing produced yet.
    pub fn new(source: String) -> (s: Scanner)
        ensures
            s@.source == source@,
            s@.tokens == Seq::<TokenView>::empty(),
            s@.diagnostics == Seq::<Diagnostic>::empty(),
            s@.start == 0,
            s@.cursor == 0,
            s@.line == 1,
            s.wf(),
    {
        let s = Scanner {
            source: chars_of(source.as_str()),
            tokens: Vec::new(),
            diagnostics: Vec::new(),
            start: 0,
            cursor: 0,
            line: 1,
        };
        proof {
            assert(toks_view(Seq::<Token>::empty()) =~= Seq::<TokenView>::empty());
        }
        s
    }

    /// Whether the cursor has consumed the whole source.
    fn is_at_end(&self) -> (r: bool)
        ensures
            r == (self@.cursor >= self@.source.len()),
    {
        self.cursor >= self.source.len()
    }

    /// The character under the cursor.
    fn current_char(&self) -> (c: char)
        requires
            self@.cursor < self@.source.len(),
        ensures
            c == self@.source[self@.cursor],
    {
        self.source[self.cursor]
    }

    /// The character under the cursor, or a NUL sentinel at the end.
    fn peek(&self) -> (c: char)
        requires
            self.wf(),
        ensures
            c == if self@.cursor < self@.source.len() {
                self@.source[self@.cursor]
            } else {
                '\0'
            },
    {
        if self.is_at_end() {
            '\0'
        } else {
            self.current_char()
        }
    }

    /// The character after the cursor, or a NUL sentinel past the end.
    fn peek_next(&self) -> (c: char)
        requires
            self.wf(),
        ensures
            c == if self@.cursor + 1 < self@.source.len() {
                self@.source[self@.cursor + 1]
            } else {
                '\0'
            },
    {
        if self.source.len() - self.cursor <= 1 {
            '\0'
        } else {
            proof {
                assert(self.source.len() == self@.source.len());
            }
            self.source[self.cursor + 1]
        }
    }

    /// Consume and return the character under the cursor.
    fn advance(&mut self) -> (c: char)
        requires
            old(self)@.cursor < old(self)@.source.len(),
        ensures
            c == old(self)@.source[old(self)@.cursor],
            final(self)@ == (ScannerView { cursor: old(self)@.cursor + 1, ..old(self)@ }),
    {
        let ch = self.current_char();
        proof {
            assert(self.source.len() == self@.source.len());
        }
        self.cursor = self.cursor + 1;
        ch
    }

    /// Lookahead that consumes the next character only when it equals the
    /// expected one.
    fn match_char(&mut self, character: char) -> (r: bool)
        requires
            old(self).wf(),
        ensures
            r == (old(self)@.cursor < old(self)@.source.len() && old(self)@.source[old(
                self,
            )@.cursor] == character),
            r ==> final(self)@ == (ScannerView { cursor: old(self)@.cursor + 1, ..old(self)@ }),
            !r ==> final(self)@ == old(self)@,
    {
        if self.is_at_end() || self.current_char() != character {
            return false;
        }
        proof {
            assert(self.source.len() == self@.source.len());
        }
        self.cursor = self.cursor + 1;
        true
    }

    /// Operator disambiguation: pick the two-character token type when the
    /// next character matches (consuming it), the one-character type
    /// otherwise.
    fn match_cond(&mut self, character: char, tt1: TokenType, tt2: TokenType) -> (tt: TokenType)
        requires
            old(self).wf(),
        ensures
            ({
                let matched = old(self)@.cursor < old(self)@.source.len() && old(self)@.source[old(
                    self,
                )@.cursor] == character;
                &&& tt == if matched {
                    tt1
                } else {
                    tt2
                }
                &&& matched ==> final(self)@ == (ScannerView {
                    cursor: old(self)@.cursor + 1,
                    ..old(self)@
                })
                &&& !matched ==> final(self)@ == old(self)@
            }),
    {
        if self.match_char(character) {
            tt1
        } else {
            tt2
        }
    }

    /// ASCII decimal digit.
    fn is_digit(&self, ch: char) -> (r: bool)
        ensures
            r == is_digit_char(ch),
    {
        let u = ch as u32;
        u >= '0' as u32 && u <= '9' as u32
    }

    /// ASCII letter or underscore.
    fn is_alpha(&self, ch: char) -> (r: bool)
        ensures
            r == is_alpha_char(ch),
    {
        let u = ch as u32;
        (u >= 'a' as u32 && u <= 'z' as u32) || (u >= 'A' as u32 && u <= 'Z' as u32) || ch == '_'
    }

    /// A character that may continue an identifier.
    fn is_alphanumeric(&self, ch: char) -> (r: bool)
        ensures
            r == is_alnum_char(ch),
    {
        self.is_alpha(ch) || self.is_digit(ch)
    }

    /// The source text between `start` and the cursor: the lexeme of the
    /// token being scanned.
    fn extract_str(&self) -> (r: String)
        requires
            self@.start <= self@.cursor,
            self@.cursor <= self@.source.len(),
        ensures
            r@ == self@.source.subrange(self@.start, self@.cursor),
    {
        string_range(&self.source, self.start, self.cursor)
    }

    /// Append a token spanning `[start, cursor)` with the given category,
    /// literal payload, and starting line.
    fn add_token(&mut self, token_type: TokenType, literal: Literal, line: u32)
        requires
            old(self)@.start <= old(self)@.cursor,
            old(self)@.cursor <= old(self)@.source.len(),
        ensures
            final(self)@ == (ScannerView {
                tokens: old(self)@.tokens.push(
                    tok(
                        old(self)@.source,
                        old(self)@.start,
                        old(self)@.cursor,
                        token_type,
                        literal@,
                        line,
                    ),
                ),
                ..old(self)@
            }),
    {
        let text = self.extract_str();
        let ghost pre = self.tokens@;
        let t = Token {
            token_type,
            lexeme: text,
            literal,
            line,
            start: self.start,
            end: self.cursor,
        };
        proof {
            lemma_toks_view_push(pre, t);
        }
        self.tokens.push(t);
    }

    /// Scan a string literal whose opening quote has just been consumed.
    /// The body runs to the closing quote; embedded newlines advance the
    /// line counter; an unterminated literal consumes the rest of the input
    /// and records a diagnostic carrying the literal's starting line.
    fn string(&mut self)
        requires
            old(self)@.cursor == old(self)@.start + 1,
            0 <= old(self)@.start < old(self)@.source.len(),
            old(self)@.source[old(self)@.start] == '"',
        ensures
            ({
                let st = string_step(old(self)@.source, old(self)@.start, old(self)@.line);
                final(self)@ == (ScannerView {
                    cursor: st.next,
                    line: st.line,
                    tokens: old(self)@.tokens + st.toks,
                    diagnostics: old(self)@.diagnostics + st.diags,
                    ..old(self)@
                })
            }),
    {
        let line0: u32 = self.line;
        let ghost src: Seq<char> = self@.source;
        let ghost s0: int = self@.start;
        let ghost t0 = self@.tokens;
        let ghost d0 = self@.diagnostics;
        while !self.is_at_end() && self.current_char() != '"'
            invariant
                self@.source == src,
                self@.start == s0,
                self@.tokens == t0,
                self@.diagnostics == d0,
                0 <= s0 < src.len(),
                s0 + 1 <= self@.cursor <= src.len(),
                self@.line == bump_n(line0, nl_count(src, s0 + 1, self@.cursor)),
                string_end(src, s0 + 1) == string_end(src, self@.cursor),
            decreases src.len() - self@.cursor,
        {
            let ghost cur: int = self@.cursor;
            let c = self.current_char();
            proof {
                lemma_nl_count_snoc(src, s0 + 1, cur);
                lemma_bump_n_succ(line0, nl_count(src, s0 + 1, cur));
            }
            if c == '\n' {
                self.line = if self.line == u32::MAX {
                    u32::MAX
                } else {
                    self.line + 1
                };
            }
            self.advance();
        }
        if self.is_at_end() {
            proof {
                assert(string_end(src, self@.cursor) == self@.cursor);
                lemma_push_concat(d0, Diagnostic::UnterminatedString { line: line0 });
                lemma_concat_empty(t0);
            }
            self.diagnostics.push(Diagnostic::UnterminatedString { line: line0 });
        } else {
            proof {
                assert(string_end(src, self@.cursor) == self@.cursor);
                assert(self.source.len() == self@.source.len());
            }
            self.advance();
            let text = string_range(&self.source, self.start + 1, self.cursor - 1);
            let ghost lit: LiteralView = Literal::String(text)@;
            self.add_token(TokenType::String, Literal::String(text), line0);
            proof {
                lemma_push_concat(
                    t0,
                    tok(src, s0, self@.cursor, TokenType::String, lit, line0),
                );
                lemma_concat_empty(d0);
            }
        }
    }

    /// Scan a numeric literal whose first digit has just been consumed. A
    /// dot joins the literal only when a digit follows it, and the
    /// resulting float token keeps its exact decimal text; a plain digit
    /// run becomes an integer token, or an overflow diagnostic when its
    /// value exceeds the `u32` range.
    fn number(&mut self)
        requires
            old(self)@.cursor == old(self)@.start + 1,
            0 <= old(self)@.start < old(self)@.source.len(),
            is_digit_char(old(self)@.source[old(self)@.start]),
        ensures
            ({
                let st = number_step(old(self)@.source, old(self)@.start, old(self)@.line);
                final(self)@ == (ScannerView {
                    cursor: st.next,
                    tokens: old(self)@.tokens + st.toks,
                    diagnostics: old(self)@.diagnostics + st.diags,
                    ..old(self)@
                })
            }),
    {
        let ghost src: Seq<char> = self@.source;
        let ghost s0: int = self@.start;
        let ghost t0 = self@.tokens;
        let ghost d0 = self@.diagnostics;
        while self.is_digit(self.peek())
            invariant
                self@.source == src,
                self@.start == s0,
                self@.tokens == t0,
                self@.diagnostics == d0,
                self@.line == old(self)@.line,
                0 <= s0 < src.len(),
                s0 + 1 <= self@.cursor <= src.len(),
                digits_end(src, s0 + 1) == digits_end(src, self@.cursor),
            decreases src.len() - self@.cursor,
        {
            self.advance();
        }
        proof {
            assert(digits_end(src, self@.cursor) == self@.cursor);
        }
        let ghost d1: int = self@.cursor;
        if self.peek() == '.' && self.is_digit(self.peek_next()) {
            self.advance();
            while self.is_digit(self.peek())
                invariant
                    self@.source == src,
                    self@.start == s0,
                    self@.tokens == t0,
                    self@.diagnostics == d0,
                    self@.line == old(self)@.line,
                    0 <= s0 < src.len(),
                    d1 + 1 <= self@.cursor <= src.len(),
                    digits_end(src, d1 + 1) == digits_end(src, self@.cursor),
                decreases src.len() - self@.cursor,
            {
                self.advance();
            }
            proof {
                assert(digits_end(src, self@.cursor) == self@.cursor);
            }
            let text = self.extract_str();
            let ghost lit: LiteralView = Literal::Float(text)@;
            let line = self.line;
            self.add_token(TokenType::Float, Literal::Float(text), line);
            proof {
                lemma_push_concat(t0, tok(src, s0, self@.cursor, TokenType::Float, lit, line));
                lemma_concat_empty(d0);
            }
        } else {
            proof {
                lemma_digits_end_bounds(src, s0 + 1);
            }
            let d1_exec: usize = self.cursor;
            let mut k: usize = self.start;
            let mut val: u32 = 0;
            let mut overflowed: bool = false;
            proof {
                assert(src.subrange(s0, s0) =~= Seq::<char>::empty());
            }
            while k < d1_exec && !overflowed
                invariant
                    self@.source == src,
                    self@.cursor == d1,
                    self@.start == s0,
                    d1_exec == d1,
                    s0 <= k <= d1 <= src.len(),
                    0 <= s0 < src.len(),
                    is_digit_char(src[s0]),
                    forall|j: int| s0 + 1 <= j < d1 ==> is_digit_char(src[j]),
                    !overflowed ==> val == digits_val(src.subrange(s0, k as int)),
                    overflowed ==> digits_val(src.subrange(s0, d1)) > u32::MAX,
                decreases
                    d1_exec - k,
                    (if overflowed {
                        0int
                    } else {
                        1int
                    }),
            {
                let c = self.source[k];
                let d: u32 = c as u32 - '0' as u32;
                let w: u64 = (val as u64) * 10 + (d as u64);
                proof {
                    lemma_digits_val_snoc(src, s0, k as int);
                }
                if w > u32::MAX as u64 {
                    overflowed = true;
                    proof {
                        lemma_digits_val_prefix_le(src, s0, k as int + 1, d1);
                    }
                } else {
                    val = w as u32;
                    k = k + 1;
                }
            }
            if overflowed {
                let line = self.line;
                proof {
                    lemma_push_concat(d0, Diagnostic::NumericParseOverflow { line });
                    lemma_concat_empty(t0);
                }
                self.diagnostics.push(Diagnostic::NumericParseOverflow { line });
            } else {
                let line = self.line;
                self.add_token(TokenType::Integer, Literal::Integer(val), line);
                proof {
                    lemma_push_concat(
                        t0,
                        tok(src, s0, d1, TokenType::Integer, LiteralView::Integer(val), line),
                    );
                    lemma_concat_empty(d0);
                }
            }
        }
    }

    /// Scan an identifier or keyword whose first character has just been
    /// consumed: take the maximal run of letters, digits and underscores,
    /// then classify it against the keyword table.
    fn identifier(&mut self)
        requires
            old(self)@.cursor == old(self)@.start + 1,
            0 <= old(self)@.start < old(self)@.source.len(),
            is_alpha_char(old(self)@.source[old(self)@.start]),
        ensures
            ({
                let st = ident_step(old(self)@.source, old(self)@.start, old(self)@.line);
                final(self)@ == (ScannerView {
                    cursor: st.next,
                    tokens: old(self)@.tokens + st.toks,
                    diagnostics: old(self)@.diagnostics + st.diags,
                    ..old(self)@
                })
            }),
    {
        let ghost src: Seq<char> = self@.source;
        let ghost s0: int = self@.start;
        let ghost t0 = self@.tokens;
        let ghost d0 = self@.diagnostics;
        while self.is_alphanumeric(self.peek())
            invariant
                self@.source == src,
                self@.start == s0,
                self@.tokens == t0,
                self@.diagnostics == d0,
                self@.line == old(self)@.line,
                0 <= s0 < src.len(),
                s0 + 1 <= self@.cursor <= src.len(),
                ident_end(src, s0 + 1) == ident_end(src, self@.cursor),
            decreases src.len() - self@.cursor,
        {
            self.advance();
        }
        proof {
            assert(ident_end(src, self@.cursor) == self@.cursor);
        }
        let tt = keyword_or_identifier(&self.source, self.start, self.cursor);
        self.add_nonliteral(tt);
        proof {
            lemma_push_concat(
                t0,
                tok(src, s0, self@.cursor, tt, LiteralView::NoValue, self@.line),
            );
            lemma_concat_empty(d0);
        }
    }

    /// Append a token with no literal payload, recorded on the current line.
    fn add_nonliteral(&mut self, token_type: TokenType)
        requires
            old(self)@.start <= old(self)@.cursor,
            old(self)@.cursor <= old(self)@.source.len(),
        ensures
            final(self)@ == (ScannerView {
                tokens: old(self)@.tokens.push(
                    tok(
                        old(self)@.source,
                        old(self)@.start,
                        old(self)@.cursor,
                        token_type,
                        LiteralView::NoValue,
                        old(self)@.line,
                    ),
                ),
                ..old(self)@
            }),
    {
        let line = self.line;
        self.add_token(token_type, Literal::NoValue, line);
    }

    /// Scan one token starting at the cursor: a single dispatch on the
    /// first character, with one-character lookahead for the two-character
    /// operators. Comments and whitespace consume input and emit nothing.
    fn scan_token(&mut self)
        requires
            old(self)@.start == old(self)@.cursor,
            0 <= old(self)@.cursor < old(self)@.source.len(),
        ensures
            ({
                let st = step(old(self)@.source, old(self)@.cursor, old(self)@.line);
                final(self)@ == (ScannerView {
                    cursor: st.next,
                    line: st.line,
                    tokens: old(self)@.tokens + st.toks,
                    diagnostics: old(self)@.diagnostics + st.diags,
                    ..old(self)@
                })
            }),
    {
        let ghost src: Seq<char> = self@.source;
        let ghost i: int = self@.cursor;
        let ghost line0: u32 = self@.line;
        let ghost t0 = self@.tokens;
        let ghost d0 = self@.diagnostics;
        let c = self.advance();
        if c == '(' {
            self.add_nonliteral(TokenType::LeftParen);
            proof {
                lemma_push_concat(
                    t0,
                    tok(src, i, i + 1, TokenType::LeftParen, LiteralView::NoValue, line0),
                );
                lemma_concat_empty(d0);
            }
        } else if c == ')' {
            self.add_nonliteral(TokenType::RightParen);
            proof {
                lemma_push_concat(
                    t0,
                    tok(src, i, i + 1, TokenType::RightParen, LiteralView::NoValue, line0),
                );
                lemma_concat_empty(d0);
            }
        } else if c == '{' {
            self.add_nonliteral(TokenType::LeftBrace);
            proof {
                lemma_push_concat(
                    t0,
                    tok(src, i, i + 1, TokenType::LeftBrace, LiteralView::NoValue, line0),
                );
                lemma_concat_empty(d0);
            }
        } else if c == '}' {
            self.add_nonliteral(TokenType::RightBrace);
            proof {
                lemma_push_concat(
                    t0,
                    tok(src, i, i + 1, TokenType::RightBrace, LiteralView::NoValue, line0),
                );
                lemma_concat_empty(d0);
            }
        } else if c == ',' {
            self.add_nonliteral(TokenType::Comma);
            proof {
                lemma_push_concat(
                    t0,
                    tok(src, i, i + 1, TokenType::Comma, LiteralView::NoValue, line0),
                );
                lemma_concat_empty(d0);
            }
        } else if c == '.' {
            self.add_nonliteral(TokenType::Dot);
            proof {
                lemma_push_concat(
                    t0,
                    tok(src, i, i + 1, TokenType::Dot, LiteralView::NoValue, line0),
                );
                lemma_concat_empty(d0);
            }
        } else if c == '-' {
            self.add_nonliteral(TokenType::Minus);
            proof {
                lemma_push_concat(
                    t0,
                    tok(src, i, i + 1, TokenType::Minus, LiteralView::NoValue, line0),
                );
                lemma_concat_empty(d0);
            }
        } else if c == '+' {
            self.add_nonliteral(TokenType::Plus);
            proof {
                lemma_push_concat(
                    t0,
                    tok(src, i, i + 1, TokenType::Plus, LiteralView::NoValue, line0),
                );
                lemma_concat_empty(d0);
            }
        } else if c == ';' {
            self.add_nonliteral(TokenType::Semicolon);
            proof {
                lemma_push_concat(
                    t0,
                    tok(src, i, i + 1, TokenType::Semicolon, LiteralView::NoValue, line0),
                );
                lemma_concat_empty(d0);
            }
        } else if c == '*' {
            self.add_nonliteral(TokenType::Star);
            proof {
                lemma_push_concat(
                    t0,
                    tok(src, i, i + 1, TokenType::Star, LiteralView::NoValue, line0),
                );
                lemma_concat_empty(d0);
            }
        } else if c == '!' {
            let tt = self.match_cond('=', TokenType::BangEqual, TokenType::Bang);
            self.add_nonliteral(tt);
            proof {
                lemma_push_concat(
                    t0,
                    tok(src, i, self@.cursor, tt, LiteralView::NoValue, line0),
                );
                lemma_concat_empty(d0);
            }
        } else if c == '=' {
            let tt = self.match_cond('=', TokenType::EqualEqual, TokenType::Equal);
            self.add_nonliteral(tt);
            proof {
                lemma_push_concat(
                    t0,
                    tok(src, i, self@.cursor, tt, LiteralView::NoValue, line0),
                );
                lemma_concat_empty(d0);
            }
        } else if c == '<' {
            let tt = self.match_cond('=', TokenType::LessEqual, TokenType::Less);
            self.add_nonliteral(tt);
            proof {
                lemma_push_concat(
                    t0,
                    tok(src, i, self@.cursor, tt, LiteralView::NoValue, line0),
                );
                lemma_concat_empty(d0);
            }
        } else if c == '>' {
            let tt = self.match_cond('=', TokenType::GreaterEqual, TokenType::Greater);
            self.add_nonliteral(tt);
            proof {
                lemma_push_concat(
                    t0,
                    tok(src, i, self@.cursor, tt, LiteralView::NoValue, line0),
                );
                lemma_concat_empty(d0);
            }
        } else if c == '/' {
            if self.match_char('/') {
                while !self.is_at_end() && self.current_char() != '\n'
                    invariant
                        self@.source == src,
                        self@.start == i,
                        self@.tokens == t0,
                        self@.diagnostics == d0,
                        self@.line == line0,
                        i + 2 <= self@.cursor <= src.len(),
                        comment_end(src, i + 2) == comment_end(src, self@.cursor),
                    decreases src.len() - self@.cursor,
                {
                    self.advance();
                }
                proof {
                    assert(comment_end(src, self@.cursor) == self@.cursor);
                    lemma_concat_empty(t0);
                    lemma_concat_empty(d0);
                }
            } else {
                self.add_nonliteral(TokenType::Slash);
                proof {
                    lemma_push_concat(
                        t0,
                        tok(src, i, i + 1, TokenType::Slash, LiteralView::NoValue, line0),
                    );
                    lemma_concat_empty(d0);
                }
            }
        } else if c == ' ' || c == '\r' || c == '\t' {
            proof {
                lemma_concat_empty(t0);
                lemma_concat_empty(d0);
            }
        } else if c == '\n' {
            self.line = if self.line == u32::MAX {
                u32::MAX
            } else {
                self.line + 1
            };
            proof {
                lemma_concat_empty(t0);
                lemma_concat_empty(d0);
            }
        } else if c == '"' {
            self.string();
        } else if self.is_digit(c) {
            self.number();
        } else if self.is_alpha(c) {
            self.identifier();
        } else {
            let line = self.line;
            proof {
                lemma_push_concat(d0, Diagnostic::UnknownCharacter { ch: c, line: line0 });
                lemma_concat_empty(t0);
            }
            self.diagnostics.push(Diagnostic::UnknownCharacter { ch: c, line });
        }
    }

    /// Run the scanner to completion: scan token after token until the
    /// source is exhausted, then append the single end-of-input token. The
    /// result is the token sequence and the diagnostics of the whole
    /// remaining input, exactly as the model `scan_from` describes them.
    pub fn scan_tokens(self) -> (r: (Vec<Token>, Vec<Diagnostic>))
        requires
            self.wf(),
        ensures
            ({
                let out = scan_from(self@.source, self@.cursor, self@.line);
                &&& toks_view(r.0@) == self@.tokens + out.toks + seq![
                    eof_tok(self@.source.len() as int, out.line),
                ]
                &&& r.1@ == self@.diagnostics + out.diags
            }),
    {
        let mut s = self;
        let ghost src: Seq<char> = s@.source;
        let ghost out0: ScanOut = scan_from(s@.source, s@.cursor, s@.line);
        let ghost t0 = s@.tokens;
        let ghost d0 = s@.diagnostics;
        while !s.is_at_end()
            invariant
                s.wf(),
                s@.source == src,
                t0 + out0.toks == s@.tokens + scan_from(src, s@.cursor, s@.line).toks,
                d0 + out0.diags == s@.diagnostics + scan_from(src, s@.cursor, s@.line).diags,
                out0.line == scan_from(src, s@.cursor, s@.line).line,
            decreases src.len() - s@.cursor,
        {
            s.start = s.cursor;
            let ghost pre: ScannerView = s@;
            s.scan_token();
            proof {
                let st = step(src, pre.cursor, pre.line);
                let rest = scan_from(src, st.next, st.line);
                lemma_step_in_range(src, pre.cursor, pre.line);
                lemma_scan_from_unfold(src, pre.cursor, pre.line);
                lemma_concat_assoc(pre.tokens, st.toks, rest.toks);
                lemma_concat_assoc(pre.diagnostics, st.diags, rest.diags);
            }
        }
        proof {
            lemma_concat_empty(s@.tokens);
            lemma_concat_empty(s@.diagnostics);
        }
        let ghost before_eof = s@.tokens;
        let line = s.line;
        let cursor = s.cursor;
        let eof = Token {
            token_type: TokenType::Eof,
            lexeme: String::new(),
            literal: Literal::NoValue,
            line,
            start: cursor,
            end: cursor,
        };
        proof {
            lemma_toks_view_push(s.tokens@, eof);
            lemma_push_concat(before_eof, eof@);
        }
        s.tokens.push(eof);
        (s.tokens, s.diagnostics)
    }
}

} // verus!
