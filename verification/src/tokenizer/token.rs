use crate::text::{parsed_decimal, same_text};
use vstd::prelude::*;

verus! {

/// One lexical unit. `Ident` and `Float` borrow their spelling from the source
/// text; turning a `Float` spelling into a machine number is left to the
/// consumer.
#[derive(Debug, Clone, Copy, PartialEq, Eq)]
pub enum Token<'a> {
    LParen,
    RParen,
    Indent,
    Dedent,
    Semi,
    Plus,
    Minus,
    Star,
    Slash,
    Eq,
    Gt,
    Lt,
    BangEq,
    Amp,
    Pipe,
    Bang,
    Int(i64),
    Float(&'a str),
    Bool(bool),
    Char(char),
    Ident(&'a str),
    If,
    Then,
    Else,
    Case,
    Of,
    Arrow,
}

/// A token as contracts see it: borrowed spellings become character sequences.
pub enum TokenView {
    LParen,
    RParen,
    Indent,
    Dedent,
    Semi,
    Plus,
    Minus,
    Star,
    Slash,
    Eq,
    Gt,
    Lt,
    BangEq,
    Amp,
    Pipe,
    Bang,
    Int(i64),
    Float(Seq<char>),
    Bool(bool),
    Char(char),
    Ident(Seq<char>),
    If,
    Then,
    Else,
    Case,
    Of,
    Arrow,
}

impl<'a> View for Token<'a> {
    type V = TokenView;

    open spec fn view(&self) -> TokenView {
        match *self {
            Token::LParen => TokenView::LParen,
            Token::RParen => TokenView::RParen,
            Token::Indent => TokenView::Indent,
            Token::Dedent => TokenView::Dedent,
            Token::Semi => TokenView::Semi,
            Token::Plus => TokenView::Plus,
            Token::Minus => TokenView::Minus,
            Token::Star => TokenView::Star,
            Token::Slash => TokenView::Slash,
            Token::Eq => TokenView::Eq,
            Token::Gt => TokenView::Gt,
            Token::Lt => TokenView::Lt,
            Token::BangEq => TokenView::BangEq,
            Token::Amp => TokenView::Amp,
            Token::Pipe => TokenView::Pipe,
            Token::Bang => TokenView::Bang,
            Token::Int(n) => TokenView::Int(n),
            Token::Float(s) => TokenView::Float(s@),
            Token::Bool(b) => TokenView::Bool(b),
            Token::Char(c) => TokenView::Char(c),
            Token::Ident(s) => TokenView::Ident(s@),
            Token::If => TokenView::If,
            Token::Then => TokenView::Then,
            Token::Else => TokenView::Else,
            Token::Case => TokenView::Case,
            Token::Of => TokenView::Of,
            Token::Arrow => TokenView::Arrow,
        }
    }
}

impl TokenView {
    /// Tokens after which a line ending closes the statement: literals,
    /// identifiers and the closing parenthesis.
    pub open spec fn is_terminable(self) -> bool {
        self is Int || self is Float || self is Bool || self is Char || self is Ident
            || self is RParen
    }

    /// Tokens inferred from the line structure.
    pub open spec fn is_layout(self) -> bool {
        self is Indent || self is Dedent || self is Semi
    }

    /// Whether `text` is a way to write this token in the source. `Indent`
    /// and `Dedent` are never written; a `Semi` that is written is `;`.
    pub open spec fn spelled_by(self, text: Seq<char>) -> bool {
        match self {
            TokenView::LParen => text == seq!['('],
            TokenView::RParen => text == seq![')'],
            TokenView::Indent => false,
            TokenView::Dedent => false,
            TokenView::Semi => text == seq![';'],
            TokenView::Plus => text == seq!['+'],
            TokenView::Minus => text == seq!['-'],
            TokenView::Star => text == seq!['*'],
            TokenView::Slash => text == seq!['/'],
            TokenView::Eq => text == seq!['='],
            TokenView::Gt => text == seq!['>'],
            TokenView::Lt => text == seq!['<'],
            TokenView::BangEq => text == seq!['!', '='],
            TokenView::Amp => text == seq!['&'],
            TokenView::Pipe => text == seq!['|'],
            TokenView::Bang => text == seq!['!'],
            TokenView::Int(n) => parsed_decimal(text) == Some(n),
            TokenView::Float(spelling) => text == spelling,
            TokenView::Bool(b) => text == if b {
                "true"@
            } else {
                "false"@
            },
            TokenView::Char(c) => text == seq!['\'', c, '\''],
            TokenView::Ident(name) => text == name,
            TokenView::If => text == "if"@,
            TokenView::Then => text == "then"@,
            TokenView::Else => text == "else"@,
            TokenView::Case => text == "case"@,
            TokenView::Of => text == "of"@,
            TokenView::Arrow => text == seq!['-', '>'],
        }
    }
}

/// The keyword spelled exactly `text`, if there is one.
pub open spec fn keyword_of(text: Seq<char>) -> Option<TokenView> {
    if text == "if"@ {
        Some(TokenView::If)
    } else if text == "then"@ {
        Some(TokenView::Then)
    } else if text == "else"@ {
        Some(TokenView::Else)
    } else if text == "case"@ {
        Some(TokenView::Case)
    } else if text == "of"@ {
        Some(TokenView::Of)
    } else {
        None
    }
}

/// The token that a run of letters, digits and underscores stands for: a
/// keyword first, then a boolean, and an identifier only if it is neither.
pub open spec fn word_token(text: Seq<char>) -> TokenView {
    match keyword_of(text) {
        Some(keyword) => keyword,
        None => if text == "true"@ {
            TokenView::Bool(true)
        } else if text == "false"@ {
            TokenView::Bool(false)
        } else {
            TokenView::Ident(text)
        },
    }
}

pub fn keyword_from_str(s: &str) -> (r: Option<Token<'_>>)
    ensures
        match r {
            Some(token) => keyword_of(s@) == Some(token@),
            None => keyword_of(s@) is None,
        },
{
    if same_text(s, "if") {
        Some(Token::If)
    } else if same_text(s, "then") {
        Some(Token::Then)
    } else if same_text(s, "else") {
        Some(Token::Else)
    } else if same_text(s, "case") {
        Some(Token::Case)
    } else if same_text(s, "of") {
        Some(Token::Of)
    } else {
        None
    }
}

/// A reserved word is never an identifier, and an identifier keeps its
/// spelling.
pub proof fn lemma_reserved_words_are_not_identifiers(text: Seq<char>)
    ensures
        keyword_of(text) is Some || text == "true"@ || text == "false"@ <==> !(word_token(
            text,
        ) is Ident),
        word_token(text) is Ident ==> word_token(text) == TokenView::Ident(text),
{
}

} // verus!
