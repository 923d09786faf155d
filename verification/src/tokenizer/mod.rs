//! The scanner: source text in, tokens and lexical errors out.
//!
//! [`Tokenizer`] is a pull source. Each call of [`Tokenizer::next`] performs
//! one step of the rules in [`model`] and hands out at most one item.

pub mod error;
pub mod laws;
pub mod model;
pub mod token;

use crate::location::span::Span;
use crate::text::{
    char_at, lemma_byte_offset_is_boundary, lemma_byte_offset_order, lemma_byte_offset_step,
    lemma_byte_slice_at_offsets, len_utf8, parse_decimal, same_text, slice, split_first,
};
use crate::tokenizer::error::{TokenError, TokenErrorKind};
use crate::tokenizer::laws::{lemma_step_makes_progress, lemma_step_preserves_wf};
use crate::tokenizer::model::{
    close_levels, dispatch, errors_of, remaining_work, run_end, scan_all, scan_char_literal,
    scan_number, scan_word, span_of, step, tokens_of, top_level, CharClass, ScanItem, ScanState,
    Yield,
};
use crate::tokenizer::token::{keyword_from_str, Token, TokenView};
use vstd::prelude::*;

verus! {

/// A scanning session over one source text.
pub struct Tokenizer<'a> {
    src: &'a str,
    /// The text after the lookahead character.
    rest: &'a str,
    span: Span,
    current: Option<char>,
    next: Option<char>,
    insert_semicolon: bool,
    indent_lvls: Vec<usize>,
    pending_dedents: usize,
    /// Character index at which `span` begins.
    start: Ghost<int>,
    /// Character index of `current`.
    pos: Ghost<int>,
}

impl<'a> View for Tokenizer<'a> {
    type V = ScanState;

    closed spec fn view(&self) -> ScanState {
        ScanState {
            start: self.start@,
            pos: self.pos@,
            indents: self.indent_lvls@,
            pending_dedents: self.pending_dedents as nat,
            insert_semicolon: self.insert_semicolon,
        }
    }
}

/// The item that a token or error kind stands for in contracts.
pub open spec fn item_view(r: Result<Token<'_>, TokenErrorKind>) -> ScanItem {
    match r {
        Ok(token) => Ok(token@),
        Err(kind) => Err(kind),
    }
}

/// Whether `r` hands out exactly `item`, with `span` beside it.
pub open spec fn yields(
    r: Option<Result<(Token<'_>, Span), TokenError>>,
    item: Option<ScanItem>,
    span: Span,
) -> bool {
    match r {
        None => item is None,
        Some(Ok((token, at))) => item == Some(item_view(Ok(token))) && at == span,
        Some(Err(e)) => item == Some(item_view(Err(e.kind))) && e.span == span,
    }
}

/// Tokens and their spans as contracts see them.
pub open spec fn token_views(tokens: Seq<(Token<'_>, Span)>) -> Seq<(TokenView, Span)> {
    tokens.map_values(|t: (Token<'_>, Span)| (t.0@, t.1))
}

impl<'a> Tokenizer<'a> {
    /// The characters of the text being scanned.
    pub closed spec fn source(&self) -> Seq<char> {
        self.src@
    }

    /// The cursor, the lookahead and the span agree with the state that
    /// contracts see, and that state is one that scanning can be in.
    pub closed spec fn wf(&self) -> bool {
        let src = self.src@;
        let pos = self.pos@;
        &&& self@.wf(src)
        &&& self.indent_lvls@.len() + self.pending_dedents <= usize::MAX
        &&& self.current == char_at(src, pos)
        &&& self.next == char_at(src, pos + 1)
        &&& self.rest@ == if pos + 2 <= src.len() {
            src.skip(pos + 2)
        } else {
            Seq::empty()
        }
        &&& self.span == span_of(src, self@)
    }

    /// A well-formed tokenizer is in a state that scanning its text can be in.
    pub proof fn lemma_view_wf(&self)
        requires
            self.wf(),
        ensures
            self@.wf(self.source()),
    {
    }

    /// Begins a session at the first character of `src`, with no
    /// indentation level open.
    pub fn new(src: &'a str) -> (t: Self)
        ensures
            t.wf(),
            t.source() == src@,
            t@ == ScanState::initial(),
    {
        let bytes = src.as_bytes();
        let (current, after) = match split_first(src) {
            Some((c, tail)) => (Some(c), tail),
            None => (None, src),
        };
        let (next, rest) = match split_first(after) {
            Some((c, tail)) => (Some(c), tail),
            None => (None, after),
        };
        proof {
            assert(bytes.len() == bytes@.len());
            lemma_byte_offset_order(src@, 0, src@.len() as int);
            if src@.len() >= 2 {
                assert(rest@ =~= src@.skip(2));
            }
        }
        let t = Self {
            src,
            rest,
            current,
            next,
            span: Span::new(0, 0),
            insert_semicolon: false,
            indent_lvls: Vec::new(),
            pending_dedents: 0,
            start: Ghost(0),
            pos: Ghost(0),
        };
        assert(t.rest@ == if 2 <= src@.len() {
            src@.skip(2)
        } else {
            Seq::empty()
        });
        t
    }

    /// The number of indentation levels that no `Dedent` has closed yet. The
    /// sequence does not close them when the text ends: a consumer that wants
    /// them closed there adds this many `Dedent` tokens itself.
    pub fn unclosed_levels(&self) -> (n: usize)
        requires
            self.wf(),
        ensures
            n == self@.unclosed_levels(),
    {
        self.indent_lvls.len() + self.pending_dedents
    }

    fn is_at_end(&self) -> (b: bool)
        requires
            self.wf(),
        ensures
            b == (self@.pos >= self.source().len()),
    {
        self.current.is_none()
    }

    /// The text that the span under construction covers.
    fn slice(&self) -> (s: &'a str)
        requires
            self.wf(),
        ensures
            s@ == self.source().subrange(self@.start, self@.pos),
    {
        proof {
            lemma_byte_offset_is_boundary(self.src@, self.start@);
            lemma_byte_offset_is_boundary(self.src@, self.pos@);
            lemma_byte_offset_order(self.src@, self.start@, self.pos@);
            lemma_byte_slice_at_offsets(self.src@, self.start@, self.pos@);
        }
        slice(self.src, self.span.start, self.span.end).unwrap()
    }

    fn current_indent_lvl(&self) -> (lvl: usize)
        ensures
            lvl == top_level(self@.indents),
    {
        let n = self.indent_lvls.len();
        if n == 0 {
            0
        } else {
            self.indent_lvls[n - 1]
        }
    }

    /// Consumes the current character, if there is one, and hands it out; the
    /// span grows by the bytes that the character takes.
    fn eat(&mut self) -> (r: Option<char>)
        requires
            old(self).wf(),
        ensures
            final(self).wf(),
            final(self).source() == old(self).source(),
            r == char_at(old(self).source(), old(self)@.pos),
            final(self)@ == (ScanState {
                pos: if r is Some {
                    old(self)@.pos + 1
                } else {
                    old(self)@.pos
                },
                ..old(self)@
            }),
    {
        if let Some(c) = self.current {
            proof {
                lemma_byte_offset_step(self.src@, self.pos@);
                lemma_byte_offset_order(self.src@, self.pos@ + 1, self.pos@ + 1);
            }
            self.span.end = self.span.end + len_utf8(c);
            self.current = self.next;
            match split_first(self.rest) {
                Some((n, tail)) => {
                    proof {
                        assert(tail@ =~= self.src@.skip(self.pos@ + 3));
                    }
                    self.next = Some(n);
                    self.rest = tail;
                },
                None => {
                    self.next = None;
                },
            }
            self.pos = Ghost(self.pos@ + 1);
            assert(self.rest@ == if self.pos@ + 2 <= self.src@.len() {
                self.src@.skip(self.pos@ + 2)
            } else {
                Seq::empty()
            });
            Some(c)
        } else {
            None
        }
    }

    /// Consumes the run of characters of `class` at the cursor and counts
    /// them.
    fn eat_while(&mut self, class: CharClass) -> (count: usize)
        requires
            old(self).wf(),
        ensures
            final(self).wf(),
            final(self).source() == old(self).source(),
            final(self)@ == (ScanState {
                pos: run_end(old(self).source(), old(self)@.pos, class),
                ..old(self)@
            }),
            count == final(self)@.pos - old(self)@.pos,
    {
        let mut count: usize = 0;
        while !self.is_at_end() && class.contains(self.current.unwrap())
            invariant
                self.wf(),
                self.source() == old(self).source(),
                self@ == (ScanState { pos: self@.pos, ..old(self)@ }),
                0 <= old(self)@.pos,
                count == self@.pos - old(self)@.pos,
                run_end(self.source(), self@.pos, class) == run_end(
                    old(self).source(),
                    old(self)@.pos,
                    class,
                ),
            decreases self.source().len() - self@.pos,
        {
            self.eat();
            count = count + 1;
        }
        count
    }

    /// Reads the number that begins at the cursor.
    fn tokenize_number(&mut self) -> (r: Result<Token<'a>, TokenErrorKind>)
        requires
            old(self).wf(),
            old(self)@.start == old(self)@.pos,
            old(self)@.pos < old(self).source().len(),
        ensures
            final(self).wf(),
            final(self).source() == old(self).source(),
            final(self)@ == (ScanState {
                pos: scan_number(old(self).source(), old(self)@.pos).end,
                ..old(self)@
            }),
            item_view(r) == scan_number(old(self).source(), old(self)@.pos).item,
    {
        let first = self.current.unwrap();
        self.eat_while(CharClass::Digit);
        let fraction = match (self.current, self.next) {
            (Some('.'), Some(d)) => CharClass::Digit.contains(d),
            _ => false,
        };
        if fraction {
            self.eat();
            self.eat_while(CharClass::Digit);
            Ok(Token::Float(self.slice()))
        } else {
            match parse_decimal(self.slice()) {
                Some(n) => Ok(Token::Int(n)),
                None => Err(TokenErrorKind::Illegal(first)),
            }
        }
    }

    /// Reads the character literal whose opening quote is at the cursor.
    fn tokenize_char(&mut self) -> (r: Result<Token<'a>, TokenErrorKind>)
        requires
            old(self).wf(),
            old(self)@.pos < old(self).source().len(),
        ensures
            final(self).wf(),
            final(self).source() == old(self).source(),
            final(self)@ == (ScanState {
                pos: scan_char_literal(old(self).source(), old(self)@.pos).end,
                ..old(self)@
            }),
            item_view(r) == scan_char_literal(old(self).source(), old(self)@.pos).item,
    {
        self.eat();
        let c = match self.eat() {
            Some(c) => c,
            None => {
                return Err(TokenErrorKind::UnexpectedEof);
            },
        };
        match self.eat() {
            Some('\'') => Ok(Token::Char(c)),
            _ => Err(TokenErrorKind::Expected('\'')),
        }
    }

    /// Reads the keyword, boolean or identifier that begins at the cursor.
    fn tokenize_alphanum(&mut self) -> (token: Token<'a>)
        requires
            old(self).wf(),
            old(self)@.start == old(self)@.pos,
        ensures
            final(self).wf(),
            final(self).source() == old(self).source(),
            final(self)@ == (ScanState {
                pos: scan_word(old(self).source(), old(self)@.pos).end,
                ..old(self)@
            }),
            Ok::<TokenView, TokenErrorKind>(token@) == scan_word(
                old(self).source(),
                old(self)@.pos,
            ).item,
    {
        self.eat_while(CharClass::Word);
        let slice = self.slice();
        match keyword_from_str(slice) {
            Some(keyword) => keyword,
            None => if same_text(slice, "true") {
                Token::Bool(true)
            } else if same_text(slice, "false") {
                Token::Bool(false)
            } else {
                Token::Ident(slice)
            },
        }
    }

    /// One step of the rules for a scanner that owes no `Dedent`.
    fn next_token(&mut self) -> (r: Option<Result<Token<'a>, TokenErrorKind>>)
        requires
            old(self).wf(),
            old(self)@.pending_dedents == 0,
        ensures
            final(self).wf(),
            final(self).source() == old(self).source(),
            final(self)@ == step(old(self).source(), old(self)@).state,
            match r {
                Some(item) => step(old(self).source(), old(self)@).item == Some(item_view(item)),
                None => step(old(self).source(), old(self)@).item is None,
            },
    {
        if self.insert_semicolon {
            self.insert_semicolon = false;
            return Some(Ok(Token::Semi));
        }
        if let Some('\n') = self.current {
            self.eat();
            let new_indent_lvl = self.eat_while(CharClass::Space);

            if new_indent_lvl > self.current_indent_lvl() {
                self.indent_lvls.push(new_indent_lvl);
                assert(self.indent_lvls.len() == self@.indents.len());
                return Some(Ok(Token::Indent));
            } else if new_indent_lvl < self.current_indent_lvl() {
                let ghost before = self.indent_lvls@;
                let ghost reached = self@;
                let mut counter: usize = 0;
                assert(self.indent_lvls.len() == before.len());
                while new_indent_lvl < self.current_indent_lvl()
                    invariant
                        self.wf(),
                        self.source() == old(self).source(),
                        self@ == (ScanState { indents: self@.indents, ..reached }),
                        self@.indents == before.take(self@.indents.len() as int),
                        self@.indents.len() <= before.len() <= usize::MAX,
                        counter == before.len() - self@.indents.len(),
                        close_levels(self@.indents, new_indent_lvl) == close_levels(
                            before,
                            new_indent_lvl,
                        ),
                    decreases self@.indents.len(),
                {
                    self.indent_lvls.pop();
                    counter = counter + 1;
                }
                proof {
                    if counter == 0 {
                        assert(self@.indents =~= before);
                    }
                }
                self.pending_dedents = self.pending_dedents + (counter - 1);

                return if self.current_indent_lvl() == new_indent_lvl {
                    Some(Ok(Token::Dedent))
                } else {
                    Some(Err(TokenErrorKind::IllegalIndentLvl))
                };
            }
        }
        self.read_token()
    }

    /// An ordinary step: skips whitespace, begins a new span and reads the
    /// token that the current character opens.
    fn read_token(&mut self) -> (r: Option<Result<Token<'a>, TokenErrorKind>>)
        requires
            old(self).wf(),
            old(self)@.pending_dedents == 0,
        ensures
            final(self).wf(),
            final(self).source() == old(self).source(),
            final(self)@ == dispatch(old(self).source(), old(self)@).state,
            match r {
                Some(item) => dispatch(old(self).source(), old(self)@).item == Some(
                    item_view(item),
                ),
                None => dispatch(old(self).source(), old(self)@).item is None,
            },
    {
        self.eat_while(CharClass::Whitespace);
        self.span.start = self.span.end;
        self.start = Ghost(self.pos@);

        let c = match self.current {
            Some(c) => c,
            None => {
                return None;
            },
        };
        let mut infer_semicolon = false;

        let token = match (c, self.next) {
            ('(', _) => {
                self.eat();
                Ok(Token::LParen)
            },
            (')', _) => {
                self.eat();
                infer_semicolon = true;
                Ok(Token::RParen)
            },
            (';', _) => {
                self.eat();
                Ok(Token::Semi)
            },
            ('+', _) => {
                self.eat();
                Ok(Token::Plus)
            },
            ('-', Some('>')) => {
                self.eat();
                self.eat();
                Ok(Token::Arrow)
            },
            ('-', _) => {
                self.eat();
                Ok(Token::Minus)
            },
            ('*', _) => {
                self.eat();
                Ok(Token::Star)
            },
            ('/', _) => {
                self.eat();
                Ok(Token::Slash)
            },
            ('=', _) => {
                self.eat();
                Ok(Token::Eq)
            },
            ('>', _) => {
                self.eat();
                Ok(Token::Gt)
            },
            ('<', _) => {
                self.eat();
                Ok(Token::Lt)
            },
            ('!', Some('=')) => {
                self.eat();
                self.eat();
                Ok(Token::BangEq)
            },
            ('!', _) => {
                self.eat();
                Ok(Token::Bang)
            },
            ('&', _) => {
                self.eat();
                Ok(Token::Amp)
            },
            ('|', _) => {
                self.eat();
                Ok(Token::Pipe)
            },
            ('\'', _) => {
                let token = self.tokenize_char();
                infer_semicolon = token.is_ok();
                token
            },
            ('0'..='9', _) => {
                let token = self.tokenize_number();
                infer_semicolon = token.is_ok();
                token
            },
            ('_' | 'a'..='z' | 'A'..='Z', _) => {
                let token = self.tokenize_alphanum();
                infer_semicolon = match token {
                    Token::Ident(_) | Token::Bool(_) => true,
                    _ => false,
                };
                Ok(token)
            },
            (c, _) => {
                self.eat();
                Err(TokenErrorKind::Illegal(c))
            },
        };

        self.insert_semicolon = infer_semicolon && match (self.current, self.next) {
            (Some('\n'), _) => true,
            (Some('\r'), Some('\n')) => true,
            _ => false,
        };

        Some(token)
    }

    /// Hands out the next item of the token sequence, or `None` once the text
    /// is used up. One call is one step of [`step`]: the state afterwards and
    /// the item are the ones that the rules give, and the span beside the
    /// item is the span of the state afterwards.
    ///
    /// An error does not end the sequence: the scanner has moved past what it
    /// reports, and the next call goes on from there.
    pub fn next(&mut self) -> (r: Option<Result<(Token<'a>, Span), TokenError>>)
        requires
            old(self).wf(),
        ensures
            final(self).wf(),
            final(self).source() == old(self).source(),
            final(self)@ == step(old(self).source(), old(self)@).state,
            yields(
                r,
                step(old(self).source(), old(self)@).item,
                span_of(final(self).source(), final(self)@),
            ),
    {
        let token = if self.pending_dedents > 0 {
            self.pending_dedents = self.pending_dedents - 1;
            Ok(Token::Dedent)
        } else {
            match self.next_token() {
                Some(token) => token,
                None => {
                    return None;
                },
            }
        };

        let with_span = match token {
            Ok(token) => Ok((token, self.span)),
            Err(e) => Err(TokenError::new(e, self.span)),
        };

        Some(with_span)
    }
}

/// Scans all of `src`. Without a lexical error the result is every token of
/// the sequence with its span; otherwise it is every error of the sequence,
/// in order, and no token.
pub fn tokens_from_input(src: &str) -> (r: Result<Vec<(Token<'_>, Span)>, Vec<TokenError>>)
    ensures
        match r {
            Ok(tokens) => {
                &&& errors_of(scan_all(src@, ScanState::initial())).len() == 0
                &&& token_views(tokens@) == tokens_of(scan_all(src@, ScanState::initial()))
            },
            Err(errors) => {
                &&& errors@.len() > 0
                &&& errors@ == errors_of(scan_all(src@, ScanState::initial()))
            },
        },
{
    let mut tokenizer = Tokenizer::new(src);
    let mut has_error = false;
    let mut tokens: Vec<(Token<'_>, Span)> = Vec::new();
    let mut errors: Vec<TokenError> = Vec::new();
    let ghost mut done: Seq<Yield> = Seq::empty();

    proof {
        assert(token_views(tokens@) =~= tokens_of(done));
    }
    loop
        invariant_except_break
            scan_all(src@, ScanState::initial()) == done + scan_all(src@, tokenizer@),
        invariant
            tokenizer.wf(),
            tokenizer.source() == src@,
            errors@ == errors_of(done),
            has_error == (errors@.len() > 0),
            !has_error ==> token_views(tokens@) == tokens_of(done),
        ensures
            scan_all(src@, ScanState::initial()) == done,
        decreases remaining_work(src@, tokenizer@),
    {
        let ghost before = tokenizer@;
        let ghost tokens_before = tokens@;
        proof {
            tokenizer.lemma_view_wf();
            lemma_step_makes_progress(src@, before);
            lemma_step_preserves_wf(src@, before);
        }
        match tokenizer.next() {
            None => {
                proof {
                    assert(scan_all(src@, before) =~= Seq::<Yield>::empty());
                    assert(done + scan_all(src@, before) =~= done);
                }
                break ;
            },
            Some(token_result) => {
                let ghost item = step(src@, before).item->Some_0;
                let ghost y = Yield { item, span: span_of(src@, tokenizer@) };
                proof {
                    assert(scan_all(src@, before) == seq![y] + scan_all(src@, tokenizer@));
                    assert(done + (seq![y] + scan_all(src@, tokenizer@)) =~= done.push(y)
                        + scan_all(src@, tokenizer@));
                    assert(done.push(y).drop_last() =~= done);
                }
                match token_result {
                    Ok(token_span) => {
                        if !has_error {
                            tokens.push(token_span);
                            proof {
                                assert(token_views(tokens@) =~= token_views(tokens_before).push(
                                    (token_span.0@, token_span.1),
                                ));
                            }
                        }
                    },
                    Err(e) => {
                        has_error = true;
                        errors.push(e);
                    },
                }
                proof {
                    done = done.push(y);
                }
            },
        }
    }

    if has_error {
        Err(errors)
    } else {
        Ok(tokens)
    }
}

} // verus!
