use rc_lexer::location::lookup_table::LookupTable;
use rc_lexer::location::span::{HasSpan, Span};
use rc_lexer::tokenizer::error::{TokenError, TokenErrorKind};
use std::cmp::Ordering;

#[test]
fn span_new_keeps_both_offsets() {
    let span = Span::new(3, 8);
    assert_eq!(span.start, 3);
    assert_eq!(span.end, 8);
    assert_eq!(span.as_range(), 3..8);
    assert_eq!(Span::new(4, 4).as_range().len(), 0);
}

#[test]
fn union_is_the_smallest_enclosing_span() {
    assert_eq!(Span::union_of(Span::new(2, 5), Span::new(7, 9)), Span::new(2, 9));
    assert_eq!(Span::union_of(Span::new(7, 9), Span::new(2, 5)), Span::new(2, 9));
    assert_eq!(Span::union_of(Span::new(2, 9), Span::new(3, 4)), Span::new(2, 9));
    assert_eq!(Span::union_of(Span::new(3, 6), Span::new(4, 8)), Span::new(3, 8));
    assert_eq!(Span::union_of(Span::new(1, 1), Span::new(1, 1)), Span::new(1, 1));
}

#[test]
fn spans_are_ordered_by_their_start() {
    let a = Span::new(1, 9);
    let b = Span::new(2, 3);
    let c = Span::new(1, 4);
    assert_eq!(a.partial_cmp(&b), Some(Ordering::Less));
    assert_eq!(b.partial_cmp(&a), Some(Ordering::Greater));
    assert_eq!(a.partial_cmp(&c), Some(Ordering::Equal));
    assert!(a < b);
    assert!(!(a < c) && !(c < a));
    assert_ne!(a, c);
}

#[test]
fn errors_sort_by_span() {
    let mut errors = vec![
        TokenError::new(TokenErrorKind::UnexpectedEof, Span::new(9, 10)),
        TokenError::new(TokenErrorKind::Illegal('$'), Span::new(2, 3)),
        TokenError::new(TokenErrorKind::IllegalIndentLvl, Span::new(4, 8)),
    ];
    errors.sort_by(|a, b| a.span().partial_cmp(&b.span()).unwrap());
    let starts: Vec<usize> = errors.iter().map(|e| e.span().start).collect();
    assert_eq!(starts, vec![2, 4, 9]);
}

#[test]
fn line_breaks_are_found_in_order() {
    let table = LookupTable::new("ab\ncd\n\nef");
    assert_eq!(table.get_or_init(), vec![2, 5, 6]);
    assert_eq!(table.get_or_init(), vec![2, 5, 6]);
    assert_eq!(LookupTable::new("").get_or_init(), Vec::<usize>::new());
    assert_eq!(LookupTable::new("no line feed\r").get_or_init(), Vec::<usize>::new());
    assert_eq!(LookupTable::new("\n\n").get_or_init(), vec![0, 1]);
}

#[test]
fn line_breaks_are_byte_offsets() {
    let table = LookupTable::new("\u{e9}\n\u{1f600}\n");
    assert_eq!(table.get_or_init(), vec![2, 7]);
}

#[test]
fn offsets_resolve_to_line_and_column() {
    let table = LookupTable::new("ab\ncd\n\nef");
    assert_eq!(table.line_col(0), Some((1, 0)));
    assert_eq!(table.line_col(1), Some((1, 1)));
    assert_eq!(table.line_col(2), Some((1, 2)));
    assert_eq!(table.line_col(3), Some((2, 0)));
    assert_eq!(table.line_col(5), Some((2, 2)));
    assert_eq!(table.line_col(6), Some((3, 0)));
    assert_eq!(table.line_col(7), Some((4, 0)));
    assert_eq!(table.line_col(8), Some((4, 1)));
    assert_eq!(table.line_col(9), Some((4, 2)));
    assert_eq!(table.line_col(10), None);
    assert_eq!(table.line_col(usize::MAX), None);
}

#[test]
fn lookups_before_and_after_the_first_agree() {
    let table = LookupTable::new("a\nbc\n");
    assert_eq!(table.line_col(3), Some((2, 1)));
    assert_eq!(table.get_or_init(), vec![1, 4]);
    assert_eq!(table.line_col(3), Some((2, 1)));
    assert_eq!(table.line_col(5), Some((3, 0)));
    let fresh = LookupTable::new("a\nbc\n");
    assert_eq!(fresh.get_or_init(), vec![1, 4]);
    assert_eq!(fresh.line_col(5), Some((3, 0)));
}

#[test]
fn text_without_line_feeds_is_one_line() {
    let table = LookupTable::new("abc");
    assert_eq!(table.line_col(0), Some((1, 0)));
    assert_eq!(table.line_col(3), Some((1, 3)));
    assert_eq!(LookupTable::new("").line_col(0), Some((1, 0)));
    assert_eq!(LookupTable::new("").line_col(1), None);
}

#[test]
fn error_span_resolves_to_its_line() {
    let src = "a\n    b\n  c\n";
    let error = rc_lexer::tokenizer::tokens_from_input(src).unwrap_err()[0];
    assert_eq!(error.kind, TokenErrorKind::IllegalIndentLvl);
    let table = LookupTable::new(src);
    assert_eq!(table.line_col(error.span().end), Some((3, 2)));
}
