use vstd::prelude::*;

verus! {

/// A lexical token, one case per category the lexer emits. Every
/// text-carrying variant borrows a sub-slice of the original source buffer
/// and is valid only as long as that buffer is alive and unmodified.
#[derive(Clone, Copy, Debug, PartialEq)]
pub enum Token<'a> {
    /// A string literal, raw text with its escape sequences unresolved.
    LiteralString(&'a [u8]),
    /// An integer literal, raw text; its optional suffix is not validated here.
    LiteralInteger(&'a [u8]),
    ParensOpen,
    ParensClose,
    RecordOpen,
    RecordClose,
    ArrayOpen,
    ArrayClose,
    /// A symbol: greedy longest match starting from a fixed alphabet of
    /// punctuation and letter-leading characters.
    Symbol(&'a [u8]),
    /// A resolved reader escape: the tag before the opening fence, and the
    /// raw content found between the opening and the closing fence.
    ReaderEscape(&'a [u8], &'a [u8]),
    /// End of the token stream; terminal and absorbing.
    End,
}

/// The mathematical shape of a [`Token`]: the same categories over `Seq<u8>`
/// instead of borrowed slices. Contracts and lemmas speak in this type.
pub enum TokenModel {
    LiteralString(Seq<u8>),
    LiteralInteger(Seq<u8>),
    ParensOpen,
    ParensClose,
    RecordOpen,
    RecordClose,
    ArrayOpen,
    ArrayClose,
    Symbol(Seq<u8>),
    ReaderEscape(Seq<u8>, Seq<u8>),
    End,
}

impl<'a> View for Token<'a> {
    type V = TokenModel;

    open spec fn view(&self) -> TokenModel {
        match *self {
            Token::LiteralString(x) => TokenModel::LiteralString(x@),
            Token::LiteralInteger(x) => TokenModel::LiteralInteger(x@),
            Token::ParensOpen => TokenModel::ParensOpen,
            Token::ParensClose => TokenModel::ParensClose,
            Token::RecordOpen => TokenModel::RecordOpen,
            Token::RecordClose => TokenModel::RecordClose,
            Token::ArrayOpen => TokenModel::ArrayOpen,
            Token::ArrayClose => TokenModel::ArrayClose,
            Token::Symbol(x) => TokenModel::Symbol(x@),
            Token::ReaderEscape(t, c) => TokenModel::ReaderEscape(t@, c@),
            Token::End => TokenModel::End,
        }
    }
}

/// How the lexer currently stands. `Scanning` and `EscapeContentFound` are
/// the live states; the other three are terminal and absorbing, and they
/// distinguish a clean end of input from a truncated escape and from a
/// position no lexical rule matches.
#[derive(Clone, Copy, Debug, PartialEq, Eq)]
pub enum Status {
    /// The last resolved token was an ordinary lexeme.
    Scanning,
    /// The last resolved token was a reader escape; the classifier has been
    /// rebuilt just past the closing fence.
    EscapeContentFound,
    /// The source is exhausted.
    CleanEnd,
    /// An opening fence had no matching closing fence before end of input.
    UnterminatedEscape,
    /// No lexical rule matches at the given absolute byte position.
    NoMatch(usize),
}

impl Status {
    /// True for the absorbing states, in which the lexer keeps yielding the
    /// end-of-stream token.
    pub open spec fn is_terminal(self) -> bool {
        match self {
            Status::Scanning => false,
            Status::EscapeContentFound => false,
            Status::CleanEnd => true,
            Status::UnterminatedEscape => true,
            Status::NoMatch(_) => true,
        }
    }
}

/// The byte offset, relative to the text just past an opening fence, at
/// which the closing fence begins.
pub struct StartIndex(pub(crate) usize);

/// An absolute byte offset just past the end of a primitive match.
pub struct EndIndex(pub(crate) usize);

/// The length of a fence: how many marker characters open an escape and must
/// recur, exactly, to close it.
pub struct SharpCount(pub(crate) usize);

} // verus!
