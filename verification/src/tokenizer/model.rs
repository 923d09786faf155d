//! The scanning rules as mathematics: what one step of the scanner does to
//! its state and which item it yields, over the characters of the source.
//!
//! Positions here are character indices; [`span_of`] turns them into the byte
//! offsets that spans carry.

use crate::location::span::Span;
use crate::text::{all_decimal_digits, byte_offset, char_at, parsed_decimal};
use crate::tokenizer::error::TokenErrorKind;
use crate::tokenizer::token::{word_token, TokenView};
use crate::tokenizer::error::TokenError;
use crate::tokenizer::laws::lemma_step_makes_progress;
use vstd::prelude::*;
use vstd::utf8::encode_utf8;

verus! {

/// The classes of characters that the scanner consumes in runs.
#[derive(Debug, Clone, Copy, PartialEq, Eq, Structural)]
pub enum CharClass {
    /// The space character alone; it is what indentation is counted in.
    Space,
    /// ASCII whitespace: space, tab, line feed, form feed, carriage return.
    Whitespace,
    /// The decimal digits.
    Digit,
    /// ASCII letters, decimal digits and the underscore.
    Word,
}

impl CharClass {
    pub open spec fn spec_contains(self, c: char) -> bool {
        match self {
            CharClass::Space => c == ' ',
            CharClass::Whitespace => c == ' ' || c == '\t' || c == '\n' || c == '\x0C' || c
                == '\r',
            CharClass::Digit => '0' <= c <= '9',
            CharClass::Word => ('a' <= c <= 'z') || ('A' <= c <= 'Z') || ('0' <= c <= '9') || c
                == '_',
        }
    }

    #[verifier::when_used_as_spec(spec_contains)]
    pub fn contains(self, c: char) -> (b: bool)
        ensures
            b == self.spec_contains(c),
    {
        match self {
            CharClass::Space => c == ' ',
            CharClass::Whitespace => c == ' ' || c == '\t' || c == '\n' || c == '\x0C' || c
                == '\r',
            CharClass::Digit => c >= '0' && c <= '9',
            CharClass::Word => (c >= 'a' && c <= 'z') || (c >= 'A' && c <= 'Z') || (c >= '0' && c
                <= '9') || c == '_',
        }
    }
}

/// Where the run of characters of `class` that begins at `from` ends: the
/// first index at or after `from` whose character is outside the class, or
/// the end of the text.
pub open spec fn run_end(s: Seq<char>, from: int, class: CharClass) -> int
    decreases s.len() - from,
{
    if 0 <= from < s.len() && class.contains(s[from]) {
        run_end(s, from + 1, class)
    } else {
        from
    }
}

/// Whether a line ending begins at `p`: a line feed, or a carriage return
/// with a line feed right after it.
pub open spec fn line_ending_at(s: Seq<char>, p: int) -> bool {
    char_at(s, p) == Some('\n') || (char_at(s, p) == Some('\r') && char_at(s, p + 1) == Some(
        '\n',
    ))
}

/// The width of the innermost open indentation level; zero when none is open.
pub open spec fn top_level(indents: Seq<usize>) -> usize {
    if indents.len() == 0 {
        0
    } else {
        indents.last()
    }
}

/// The levels that stay open when a line is indented by `w`: levels are
/// closed from the innermost outwards for as long as they are wider than `w`.
pub open spec fn close_levels(indents: Seq<usize>, w: usize) -> Seq<usize>
    decreases indents.len(),
{
    if indents.len() > 0 && indents.last() > w {
        close_levels(indents.drop_last(), w)
    } else {
        indents
    }
}

/// What the scanner carries from one step to the next.
pub struct ScanState {
    /// Character index at which the span under construction begins.
    pub start: int,
    /// Character index of the current character.
    pub pos: int,
    /// Widths of the open indentation levels, outermost first.
    pub indents: Seq<usize>,
    /// `Dedent` tokens still owed to the consumer.
    pub pending_dedents: nat,
    /// Whether a `Semi` has to come before anything else.
    pub insert_semicolon: bool,
}

/// An item of the token sequence, as contracts see it.
pub type ScanItem = Result<TokenView, TokenErrorKind>;

/// The outcome of reading one token from the text: the item and the index
/// just past the characters consumed for it.
pub struct Scanned {
    pub item: ScanItem,
    pub end: int,
}

/// The outcome of one step: the state afterwards, and the item yielded, or
/// `None` at the end of the sequence.
pub struct ScanStep {
    pub state: ScanState,
    pub item: Option<ScanItem>,
}

impl ScanState {
    /// The state before the first step.
    pub open spec fn initial() -> ScanState {
        ScanState {
            start: 0,
            pos: 0,
            indents: Seq::empty(),
            pending_dedents: 0,
            insert_semicolon: false,
        }
    }

    /// The states that scanning `src` can be in: the text fits in memory, the
    /// positions lie in the text, the open levels are positive and each is wider than the one
    /// around it, and a separator is never pending while dedents are owed.
    pub open spec fn wf(self, src: Seq<char>) -> bool {
        &&& src.len() <= encode_utf8(src).len() <= usize::MAX
        &&& 0 <= self.start <= self.pos <= src.len()
        &&& forall|i: int| 0 <= i < self.indents.len() ==> 0 < #[trigger] self.indents[i]
        &&& forall|i: int, j: int|
            0 <= i < j < self.indents.len() ==> self.indents[i] < self.indents[j]
        &&& !(self.insert_semicolon && self.pending_dedents > 0)
    }

    /// Indentation levels not yet closed by a `Dedent` handed to the
    /// consumer: the open ones and those whose `Dedent` is still owed.
    pub open spec fn unclosed_levels(self) -> nat {
        self.indents.len() + self.pending_dedents
    }
}

/// The span that goes with an item yielded in state `st`.
pub open spec fn span_of(src: Seq<char>, st: ScanState) -> Span {
    Span { start: byte_offset(src, st.start) as usize, end: byte_offset(src, st.pos) as usize }
}

/// The spellings that a `Float` token can hold: one or more digits, a `.`,
/// and one or more digits.
pub open spec fn is_float_spelling(s: Seq<char>) -> bool {
    exists|dot: int|
        0 < dot < s.len() - 1 && #[trigger] s[dot] == '.' && all_decimal_digits(s.take(dot))
            && all_decimal_digits(s.skip(dot + 1))
}

/// A number that begins at `p`: a run of digits, and, if a `.` with a digit
/// after it follows, that `.` and a second run of digits. Without the
/// fraction it is an integer; one too large for an `i64` is reported as
/// `Illegal` with its first digit. With the fraction it is a `Float` that
/// holds its own spelling.
pub open spec fn scan_number(src: Seq<char>, p: int) -> Scanned {
    let int_end = run_end(src, p, CharClass::Digit);
    if char_at(src, int_end) == Some('.') && (char_at(src, int_end + 1) matches Some(d)
        && CharClass::Digit.contains(d)) {
        let end = run_end(src, int_end + 1, CharClass::Digit);
        Scanned { item: Ok(TokenView::Float(src.subrange(p, end))), end }
    } else {
        Scanned {
            item: match parsed_decimal(src.subrange(p, int_end)) {
                Some(n) => Ok(TokenView::Int(n)),
                None => Err(TokenErrorKind::Illegal(src[p])),
            },
            end: int_end,
        }
    }
}

/// A character literal whose opening quote is at `p`: the quote, any one
/// character, and a closing quote. The character after the literal's
/// character is consumed whether or not it is the quote.
pub open spec fn scan_char_literal(src: Seq<char>, p: int) -> Scanned {
    match char_at(src, p + 1) {
        None => Scanned { item: Err(TokenErrorKind::UnexpectedEof), end: p + 1 },
        Some(c) => match char_at(src, p + 2) {
            None => Scanned { item: Err(TokenErrorKind::Expected('\'')), end: p + 2 },
            Some(q) => Scanned {
                item: if q == '\'' {
                    Ok(TokenView::Char(c))
                } else {
                    Err(TokenErrorKind::Expected('\''))
                },
                end: p + 3,
            },
        },
    }
}

/// A keyword, boolean or identifier that begins at `p`: the longest run of
/// letters, digits and underscores.
pub open spec fn scan_word(src: Seq<char>, p: int) -> Scanned {
    let end = run_end(src, p, CharClass::Word);
    Scanned { item: Ok(word_token(src.subrange(p, end))), end }
}

/// The token that begins at `p`, an index inside the text, chosen by the
/// character there and, for `->` and `!=`, the one after it.
pub open spec fn scan_token(src: Seq<char>, p: int) -> Scanned {
    let c = src[p];
    let n = char_at(src, p + 1);
    if c == '(' {
        Scanned { item: Ok(TokenView::LParen), end: p + 1 }
    } else if c == ')' {
        Scanned { item: Ok(TokenView::RParen), end: p + 1 }
    } else if c == ';' {
        Scanned { item: Ok(TokenView::Semi), end: p + 1 }
    } else if c == '+' {
        Scanned { item: Ok(TokenView::Plus), end: p + 1 }
    } else if c == '-' {
        if n == Some('>') {
            Scanned { item: Ok(TokenView::Arrow), end: p + 2 }
        } else {
            Scanned { item: Ok(TokenView::Minus), end: p + 1 }
        }
    } else if c == '*' {
        Scanned { item: Ok(TokenView::Star), end: p + 1 }
    } else if c == '/' {
        Scanned { item: Ok(TokenView::Slash), end: p + 1 }
    } else if c == '=' {
        Scanned { item: Ok(TokenView::Eq), end: p + 1 }
    } else if c == '>' {
        Scanned { item: Ok(TokenView::Gt), end: p + 1 }
    } else if c == '<' {
        Scanned { item: Ok(TokenView::Lt), end: p + 1 }
    } else if c == '!' {
        if n == Some('=') {
            Scanned { item: Ok(TokenView::BangEq), end: p + 2 }
        } else {
            Scanned { item: Ok(TokenView::Bang), end: p + 1 }
        }
    } else if c == '&' {
        Scanned { item: Ok(TokenView::Amp), end: p + 1 }
    } else if c == '|' {
        Scanned { item: Ok(TokenView::Pipe), end: p + 1 }
    } else if c == '\'' {
        scan_char_literal(src, p)
    } else if CharClass::Digit.contains(c) {
        scan_number(src, p)
    } else if CharClass::Word.contains(c) {
        scan_word(src, p)
    } else {
        Scanned { item: Err(TokenErrorKind::Illegal(c)), end: p + 1 }
    }
}

/// An ordinary step: skip whitespace, line breaks included, and read the
/// token that begins there; the span begins where the token does. The
/// sequence ends where nothing but whitespace is left. After a terminable
/// token that a line ending follows, a separator becomes pending.
pub open spec fn dispatch(src: Seq<char>, st: ScanState) -> ScanStep {
    let p = run_end(src, st.pos, CharClass::Whitespace);
    if p >= src.len() {
        ScanStep { state: ScanState { start: p, pos: p, ..st }, item: None }
    } else {
        let scanned = scan_token(src, p);
        let insert_semicolon = (scanned.item matches Ok(token) && token.is_terminable())
            && line_ending_at(src, scanned.end);
        ScanStep {
            state: ScanState { start: p, pos: scanned.end, insert_semicolon, ..st },
            item: Some(scanned.item),
        }
    }
}

/// A step that begins on a line feed: consume it and the spaces after it, and
/// compare their number `w` with the innermost open level. A wider line opens
/// a level. A narrower one closes every level wider than `w`, which owes one
/// `Dedent` each, the first of them now; if no level of width `w` is left on
/// top, the step yields `IllegalIndentLvl` in place of that first `Dedent`.
/// A line of the same width is an ordinary step from after the spaces.
pub open spec fn layout(src: Seq<char>, st: ScanState) -> ScanStep {
    let after = run_end(src, st.pos + 1, CharClass::Space);
    let w = (after - (st.pos + 1)) as usize;
    let top = top_level(st.indents);
    if w > top {
        ScanStep {
            state: ScanState { pos: after, indents: st.indents.push(w), ..st },
            item: Some(Ok(TokenView::Indent)),
        }
    } else if w < top {
        let kept = close_levels(st.indents, w);
        ScanStep {
            state: ScanState {
                pos: after,
                indents: kept,
                pending_dedents: (st.pending_dedents + (st.indents.len() - kept.len()) - 1) as nat,
                ..st
            },
            item: Some(
                if top_level(kept) == w {
                    Ok(TokenView::Dedent)
                } else {
                    Err(TokenErrorKind::IllegalIndentLvl)
                },
            ),
        }
    } else {
        dispatch(src, ScanState { pos: after, ..st })
    }
}

/// One step of the scanner. A pending separator comes first, then an owed
/// `Dedent`; after those the current character decides.
pub open spec fn step(src: Seq<char>, st: ScanState) -> ScanStep {
    if st.insert_semicolon {
        ScanStep {
            state: ScanState { insert_semicolon: false, ..st },
            item: Some(Ok(TokenView::Semi)),
        }
    } else if st.pending_dedents > 0 {
        ScanStep {
            state: ScanState { pending_dedents: (st.pending_dedents - 1) as nat, ..st },
            item: Some(Ok(TokenView::Dedent)),
        }
    } else if char_at(src, st.pos) == Some('\n') {
        layout(src, st)
    } else {
        dispatch(src, st)
    }
}

/// A bound on the steps still to come: every step that yields an item makes
/// it smaller.
pub open spec fn remaining_work(src: Seq<char>, st: ScanState) -> nat {
    (2 * (src.len() - st.pos) + st.indents.len() + st.pending_dedents + if st.insert_semicolon {
        1int
    } else {
        0int
    }) as nat
}

/// An item of the token sequence with the span handed out beside it.
pub struct Yield {
    pub item: ScanItem,
    pub span: Span,
}

/// Everything that the scanner yields from state `st` on, in order, up to the
/// end of the sequence.
pub open spec fn scan_all(src: Seq<char>, st: ScanState) -> Seq<Yield>
    decreases remaining_work(src, st),
    when st.wf(src)
{
    let s = step(src, st);
    match s.item {
        None => Seq::empty(),
        Some(item) => {
            proof {
                lemma_step_makes_progress(src, st);
            }
            seq![Yield { item, span: span_of(src, s.state) }] + scan_all(src, s.state)
        },
    }
}

/// The state in which the sequence that begins in `st` ends.
pub open spec fn end_state(src: Seq<char>, st: ScanState) -> ScanState
    decreases remaining_work(src, st),
    when st.wf(src)
{
    let s = step(src, st);
    match s.item {
        None => s.state,
        Some(_) => {
            proof {
                lemma_step_makes_progress(src, st);
            }
            end_state(src, s.state)
        },
    }
}

/// The errors among `trace`, in order.
pub open spec fn errors_of(trace: Seq<Yield>) -> Seq<TokenError>
    decreases trace.len(),
{
    if trace.len() == 0 {
        Seq::empty()
    } else {
        let before = errors_of(trace.drop_last());
        match trace.last().item {
            Ok(_) => before,
            Err(kind) => before.push(TokenError { kind, span: trace.last().span }),
        }
    }
}

/// The tokens among `trace`, in order, each with its span.
pub open spec fn tokens_of(trace: Seq<Yield>) -> Seq<(TokenView, Span)>
    decreases trace.len(),
{
    if trace.len() == 0 {
        Seq::empty()
    } else {
        let before = tokens_of(trace.drop_last());
        match trace.last().item {
            Ok(token) => before.push((token, trace.last().span)),
            Err(_) => before,
        }
    }
}

/// How often `token` occurs in `trace`.
pub open spec fn count_of(trace: Seq<Yield>, token: TokenView) -> nat
    decreases trace.len(),
{
    if trace.len() == 0 {
        0
    } else {
        count_of(trace.drop_last(), token) + if trace.last().item == Ok::<
            TokenView,
            TokenErrorKind,
        >(token) {
            1nat
        } else {
            0nat
        }
    }
}

} // verus!
