//! Tokenizer for a small Lisp-family language whose distinguishing feature is
//! a *reader escape*: a tagged, fence-delimited raw block that is sliced out
//! of the source verbatim, after which lexing resumes immediately past the
//! closing fence.
//!
//! The crate is organised in two layers, mirrored by a mathematical model:
//! a primitive classifier that recognises one lexeme at a time, and a lexer
//! facade that resolves reader escapes on top of it, keeping an absolute
//! pivot offset into the one true source buffer.

pub mod classifier;
pub mod laws;
pub mod lexer;
pub mod scan;
pub mod stream;
pub mod token;

pub use lexer::Lexer;
pub use token::EndIndex;
pub use token::SharpCount;
pub use token::StartIndex;
pub use token::Status;
pub use token::Token;
pub use token::TokenModel;
