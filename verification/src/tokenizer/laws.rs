//! What holds of every step of the scanner, and of every token sequence.

use crate::text::{
    byte_offset, byte_slice, char_at, is_decimal_digit, lemma_byte_offset_order,
    lemma_byte_slice_at_offsets,
};
use crate::tokenizer::error::TokenErrorKind;
use crate::tokenizer::model::{
    close_levels, count_of, dispatch, end_state, is_float_spelling, remaining_work, run_end,
    scan_all, scan_number, scan_token, span_of, step, top_level, CharClass, ScanState, Yield,
};
use crate::tokenizer::token::TokenView;
use vstd::prelude::*;
use vstd::utf8::encode_utf8;

verus! {

/// A run ends inside the text, holds characters of its class only, and is
/// not followed by one more of them.
pub proof fn lemma_run_end(s: Seq<char>, from: int, class: CharClass)
    requires
        0 <= from <= s.len(),
    ensures
        from <= run_end(s, from, class) <= s.len(),
        forall|i: int| from <= i < run_end(s, from, class) ==> class.contains(#[trigger] s[i]),
        char_at(s, run_end(s, from, class)) matches Some(c) ==> !class.contains(c),
    decreases s.len() - from,
{
    if from < s.len() && class.contains(s[from]) {
        lemma_run_end(s, from + 1, class);
    }
}

/// Closing levels keeps the outer part of the stack: what is kept is no
/// wider than `w`, and what is closed is wider.
pub proof fn lemma_close_levels(indents: Seq<usize>, w: usize)
    ensures
        close_levels(indents, w).len() <= indents.len(),
        close_levels(indents, w) == indents.take(close_levels(indents, w).len() as int),
        top_level(close_levels(indents, w)) <= w,
        forall|i: int|
            close_levels(indents, w).len() <= i < indents.len() ==> (#[trigger] indents[i]) > w,
    decreases indents.len(),
{
    if indents.len() > 0 && indents.last() > w {
        let outer = indents.drop_last();
        lemma_close_levels(outer, w);
        assert(close_levels(indents, w) =~= indents.take(close_levels(indents, w).len() as int));
        assert forall|i: int| close_levels(indents, w).len() <= i < indents.len() implies (
        #[trigger] indents[i]) > w by {
            if i < outer.len() {
                assert(outer[i] == indents[i]);
            }
        }
    } else {
        assert(indents =~= indents.take(indents.len() as int));
    }
}

/// Reading a token consumes at least its first character and stays inside
/// the text.
pub proof fn lemma_scan_token_end(src: Seq<char>, p: int)
    requires
        0 <= p < src.len(),
    ensures
        p < scan_token(src, p).end <= src.len(),
{
    let c = src[p];
    if c == '\'' {
    } else if CharClass::Digit.contains(c) {
        let int_end = run_end(src, p, CharClass::Digit);
        lemma_run_end(src, p, CharClass::Digit);
        lemma_run_end(src, p + 1, CharClass::Digit);
        if int_end + 1 <= src.len() {
            lemma_run_end(src, int_end + 1, CharClass::Digit);
        }
    } else if CharClass::Word.contains(c) {
        lemma_run_end(src, p + 1, CharClass::Word);
    }
}

/// Scanning a text that fits in memory begins in a state that scanning can
/// be in.
pub proof fn lemma_initial_wf(src: Seq<char>)
    requires
        encode_utf8(src).len() <= usize::MAX,
    ensures
        ScanState::initial().wf(src),
{
    lemma_byte_offset_order(src, 0, src.len() as int);
}

/// A step leads from a state that scanning can be in to another such state.
pub proof fn lemma_step_preserves_wf(src: Seq<char>, st: ScanState)
    requires
        st.wf(src),
    ensures
        step(src, st).state.wf(src),
{
    if st.insert_semicolon || st.pending_dedents > 0 {
    } else {
        let from = if char_at(src, st.pos) == Some('\n') {
            lemma_run_end(src, st.pos + 1, CharClass::Space);
            let after = run_end(src, st.pos + 1, CharClass::Space);
            let w = (after - (st.pos + 1)) as usize;
            lemma_close_levels(st.indents, w);
            after
        } else {
            st.pos
        };
        lemma_run_end(src, from, CharClass::Whitespace);
        let p = run_end(src, from, CharClass::Whitespace);
        if p < src.len() {
            lemma_scan_token_end(src, p);
        }
    }
}

/// Every step that yields an item brings the end of the sequence nearer: a
/// scanner that is pulled again and again comes to an end, whatever errors it
/// reports on the way.
pub proof fn lemma_step_makes_progress(src: Seq<char>, st: ScanState)
    requires
        st.wf(src),
    ensures
        step(src, st).item is Some ==> remaining_work(src, step(src, st).state) < remaining_work(
            src,
            st,
        ),
{
    if st.insert_semicolon || st.pending_dedents > 0 {
    } else {
        let from = if char_at(src, st.pos) == Some('\n') {
            lemma_run_end(src, st.pos + 1, CharClass::Space);
            let after = run_end(src, st.pos + 1, CharClass::Space);
            let w = (after - (st.pos + 1)) as usize;
            lemma_close_levels(st.indents, w);
            after
        } else {
            st.pos
        };
        lemma_run_end(src, from, CharClass::Whitespace);
        let p = run_end(src, from, CharClass::Whitespace);
        if p < src.len() {
            lemma_scan_token_end(src, p);
        }
    }
}

/// The span of a state that scanning can be in holds `start <= end`, lies in
/// the text, and has the byte offsets of the state's two positions.
pub proof fn lemma_span_lies_in_text(src: Seq<char>, st: ScanState)
    requires
        st.wf(src),
    ensures
        span_of(src, st).wf(),
        span_of(src, st).end <= encode_utf8(src).len(),
        span_of(src, st).start == byte_offset(src, st.start),
        span_of(src, st).end == byte_offset(src, st.pos),
{
    lemma_byte_offset_order(src, st.start, st.pos);
}

/// Round trip of spans. When a step reads a token from the text, the span
/// handed out with it cuts from the source exactly the characters consumed
/// for that token: they begin after the whitespace that the step skipped,
/// end at the cursor, and spell the token.
///
/// `Indent` and `Dedent` are inferred, not read, and so is the `Semi` that a
/// pending separator yields; the law leaves them out.
pub proof fn lemma_span_round_trip(src: Seq<char>, st: ScanState)
    requires
        st.wf(src),
        !st.insert_semicolon,
        step(src, st).item matches Some(Ok(token)) && !(token is Indent) && !(token is Dedent),
    ensures
        ({
            let s = step(src, st);
            let span = span_of(src, s.state);
            let text = src.subrange(s.state.start, s.state.pos);
            &&& st.pos <= s.state.start < s.state.pos <= src.len()
            &&& forall|i: int|
                st.pos <= i < s.state.start ==> CharClass::Whitespace.contains(#[trigger] src[i])
            &&& span.wf()
            &&& byte_slice(src, span.start as int, span.end as int) == text
            &&& (s.item matches Some(Ok(token)) && token.spelled_by(text))
        }),
{
    let from = if char_at(src, st.pos) == Some('\n') {
        lemma_run_end(src, st.pos + 1, CharClass::Space);
        let after = run_end(src, st.pos + 1, CharClass::Space);
        let w = (after - (st.pos + 1)) as usize;
        lemma_close_levels(st.indents, w);
        assert forall|i: int| st.pos <= i < after implies CharClass::Whitespace.contains(
            #[trigger] src[i],
        ) by {
            if i > st.pos {
                assert(CharClass::Space.contains(src[i]));
            }
        }
        after
    } else {
        st.pos
    };
    lemma_run_end(src, from, CharClass::Whitespace);
    let p = run_end(src, from, CharClass::Whitespace);
    lemma_scan_token_end(src, p);
    let s = step(src, st);
    assert(s == dispatch(src, ScanState { pos: from, ..st }));
    let end = s.state.pos;
    let text = src.subrange(p, end);
    lemma_byte_offset_order(src, p, end);
    lemma_byte_slice_at_offsets(src, p, end);
    let c = src[p];
    if c == '\'' {
        assert(text =~= seq!['\'', src[p + 1], '\'']);
    } else if CharClass::Digit.contains(c) {
    } else if CharClass::Word.contains(c) {
    } else if c == '-' && char_at(src, p + 1) == Some('>') {
        assert(text =~= seq!['-', '>']);
    } else if c == '!' && char_at(src, p + 1) == Some('=') {
        assert(text =~= seq!['!', '=']);
    } else {
        assert(text =~= seq![c]);
    }
}

/// A `Float` token holds digits, a `.`, and digits, so that a consumer can
/// always read it as a number.
pub proof fn lemma_float_spelling(src: Seq<char>, p: int)
    requires
        0 <= p < src.len(),
        CharClass::Digit.contains(src[p]),
        scan_number(src, p).item matches Ok(TokenView::Float(_)),
    ensures
        scan_number(src, p).item matches Ok(TokenView::Float(spelling)) && is_float_spelling(
            spelling,
        ),
{
    let int_end = run_end(src, p, CharClass::Digit);
    lemma_run_end(src, p, CharClass::Digit);
    lemma_run_end(src, p + 1, CharClass::Digit);
    lemma_run_end(src, int_end + 1, CharClass::Digit);
    lemma_run_end(src, int_end + 2, CharClass::Digit);
    let end = run_end(src, int_end + 1, CharClass::Digit);
    let spelling = src.subrange(p, end);
    let dot = int_end - p;
    assert(spelling[dot] == '.');
    assert forall|i: int| 0 <= i < spelling.take(dot).len() implies is_decimal_digit(
        #[trigger] spelling.take(dot)[i],
    ) by {
        assert(CharClass::Digit.contains(src[p + i]));
    }
    assert forall|i: int| 0 <= i < spelling.skip(dot + 1).len() implies is_decimal_digit(
        #[trigger] spelling.skip(dot + 1)[i],
    ) by {
        assert(CharClass::Digit.contains(src[int_end + 1 + i]));
    }
}

/// Indentation balance, one step at a time. Unless the step reports
/// `IllegalIndentLvl`, an `Indent` adds one unclosed level, a `Dedent` takes
/// one away, and nothing else changes their number.
pub proof fn lemma_step_keeps_balance(src: Seq<char>, st: ScanState)
    requires
        st.wf(src),
        step(src, st).item != Some(Err::<TokenView, TokenErrorKind>(TokenErrorKind::IllegalIndentLvl)),
    ensures
        st.unclosed_levels() + indents_in(step(src, st).item) == step(src, st).state.unclosed_levels()
            + dedents_in(step(src, st).item),
{
    if st.insert_semicolon || st.pending_dedents > 0 {
    } else {
        if char_at(src, st.pos) == Some('\n') {
            let after = run_end(src, st.pos + 1, CharClass::Space);
            let w = (after - (st.pos + 1)) as usize;
            lemma_close_levels(st.indents, w);
            if w < top_level(st.indents) {
                let kept = close_levels(st.indents, w);
                if kept.len() == st.indents.len() {
                    assert(kept =~= st.indents);
                }
            }
        }
    }
}

/// One if `item` is an `Indent`, else zero.
pub open spec fn indents_in(item: Option<Result<TokenView, TokenErrorKind>>) -> nat {
    if item == Some(Ok::<TokenView, TokenErrorKind>(TokenView::Indent)) {
        1
    } else {
        0
    }
}

/// One if `item` is a `Dedent`, else zero.
pub open spec fn dedents_in(item: Option<Result<TokenView, TokenErrorKind>>) -> nat {
    if item == Some(Ok::<TokenView, TokenErrorKind>(TokenView::Dedent)) {
        1
    } else {
        0
    }
}

/// Counting in a sequence that begins with `first`.
pub proof fn lemma_count_of_first(first: Yield, rest: Seq<Yield>, token: TokenView)
    ensures
        count_of(seq![first] + rest, token) == count_of(rest, token) + if first.item == Ok::<
            TokenView,
            TokenErrorKind,
        >(token) {
            1nat
        } else {
            0nat
        },
    decreases rest.len(),
{
    let all = seq![first] + rest;
    if rest.len() == 0 {
        assert(all.drop_last() =~= Seq::<Yield>::empty());
        assert(all.last() == first);
        assert(count_of(all.drop_last(), token) == 0);
        assert(count_of(rest, token) == 0);
    } else {
        assert(all.drop_last() =~= seq![first] + rest.drop_last());
        assert(all.last() == rest.last());
        lemma_count_of_first(first, rest.drop_last(), token);
    }
}

/// Indentation balance. In a token sequence without `IllegalIndentLvl`, the
/// `Indent` tokens are as many as the `Dedent` tokens plus the levels that
/// are still unclosed where the sequence ends. The sequence does not close
/// them: at the end of the text, `end_state(src, st).unclosed_levels()` more
/// `Dedent` tokens would return the stack to empty.
pub proof fn lemma_indentation_balance(src: Seq<char>, st: ScanState)
    requires
        st.wf(src),
        forall|i: int|
            0 <= i < scan_all(src, st).len() ==> (#[trigger] scan_all(src, st)[i]).item != Err::<
                TokenView,
                TokenErrorKind,
            >(TokenErrorKind::IllegalIndentLvl),
    ensures
        st.unclosed_levels() + count_of(scan_all(src, st), TokenView::Indent) == end_state(
            src,
            st,
        ).unclosed_levels() + count_of(scan_all(src, st), TokenView::Dedent),
    decreases remaining_work(src, st),
{
    let s = step(src, st);
    match s.item {
        None => {},
        Some(item) => {
            lemma_step_preserves_wf(src, st);
            let first = Yield { item, span: span_of(src, s.state) };
            let rest = scan_all(src, s.state);
            let all = scan_all(src, st);
            assert(all == seq![first] + rest);
            assert(all[0] == first);
            assert forall|i: int| 0 <= i < rest.len() implies (#[trigger] rest[i]).item != Err::<
                TokenView,
                TokenErrorKind,
            >(TokenErrorKind::IllegalIndentLvl) by {
                assert(all[i + 1] == rest[i]);
            }
            lemma_step_preserves_wf(src, st);
            lemma_step_makes_progress(src, st);
            lemma_step_keeps_balance(src, st);
            lemma_indentation_balance(src, s.state);
            lemma_count_of_first(first, rest, TokenView::Indent);
            lemma_count_of_first(first, rest, TokenView::Dedent);
        },
    }
}

/// Misaligned dedent. A step reports `IllegalIndentLvl` exactly when it
/// begins on a line feed and the line after it is indented less than the
/// innermost open level, by a width that is neither zero nor the width of
/// any open level.
pub proof fn lemma_illegal_indent_iff_misaligned(src: Seq<char>, st: ScanState)
    requires
        st.wf(src),
    ensures
        step(src, st).item == Some(Err::<TokenView, TokenErrorKind>(TokenErrorKind::IllegalIndentLvl))
            <==> ({
            let w = run_end(src, st.pos + 1, CharClass::Space) - (st.pos + 1);
            &&& !st.insert_semicolon
            &&& st.pending_dedents == 0
            &&& char_at(src, st.pos) == Some('\n')
            &&& 0 < w < top_level(st.indents)
            &&& forall|i: int| 0 <= i < st.indents.len() ==> #[trigger] st.indents[i] != w
        }),
{
    if st.insert_semicolon || st.pending_dedents > 0 {
    } else if char_at(src, st.pos) == Some('\n') {
        lemma_run_end(src, st.pos + 1, CharClass::Space);
        let after = run_end(src, st.pos + 1, CharClass::Space);
        let w = (after - (st.pos + 1)) as usize;
        lemma_close_levels(st.indents, w);
        let kept = close_levels(st.indents, w);
        if w < top_level(st.indents) {
            if kept.len() > 0 {
                assert(kept.last() == st.indents[kept.len() - 1]);
            }
            if exists|i: int| 0 <= i < st.indents.len() && st.indents[i] == w {
                let i = choose|i: int| 0 <= i < st.indents.len() && st.indents[i] == w;
                assert(i < kept.len());
                if i < kept.len() - 1 {
                    assert(st.indents[i] < st.indents[kept.len() - 1]);
                }
            }
        } else if w == top_level(st.indents) {
            lemma_dispatch_reports_no_indentation(src, ScanState { pos: after, ..st });
        }
    } else {
        lemma_dispatch_reports_no_indentation(src, st);
    }
}

/// An ordinary step yields neither a layout error nor an `Indent` or
/// `Dedent`.
pub proof fn lemma_dispatch_reports_no_indentation(src: Seq<char>, st: ScanState)
    ensures
        dispatch(src, st).item != Some(
            Err::<TokenView, TokenErrorKind>(TokenErrorKind::IllegalIndentLvl),
        ),
        dispatch(src, st).item != Some(Ok::<TokenView, TokenErrorKind>(TokenView::Indent)),
        dispatch(src, st).item != Some(Ok::<TokenView, TokenErrorKind>(TokenView::Dedent)),
{
}

} // verus!
