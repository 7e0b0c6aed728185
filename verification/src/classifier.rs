//! The primitive classifier: executable scanning, proved to compute exactly
//! the matches that the model in [`crate::scan`] describes. A classifier
//! instance holds one current match over its own input slice — a suffix of
//! the original buffer — and is rebuilt from a new suffix whenever the lexer
//! facade resolves a reader escape.

use vstd::prelude::*;

use crate::scan::class_pred;
use crate::scan::escape_match_len;
use crate::scan::int_match_len;
use crate::scan::int_sign_len;
use crate::scan::is_string_escape;
use crate::scan::is_symbol_start;
use crate::scan::lemma_raw_len_range;
use crate::scan::lemma_run_len;
use crate::scan::lemma_ws_end;
use crate::scan::raw_kind_at;
use crate::scan::raw_len_at;
use crate::scan::string_match_len;
use crate::scan::str_tail_len;
use crate::scan::symbol_match_len;
use crate::scan::run_len;
use crate::scan::ws_end;
use crate::scan::ByteClass;
use crate::scan::RawKind;
use crate::scan::BACKSLASH;
use crate::scan::LBRACE;
use crate::scan::LBRACKET;
use crate::scan::LPAREN;
use crate::scan::MINUS;
use crate::scan::PLUS;
use crate::scan::QUOTE;
use crate::scan::RBRACE;
use crate::scan::RBRACKET;
use crate::scan::RPAREN;

verus! {

/// Does `b` belong to the byte class `c`?
pub(crate) fn byte_in_class(b: u8, c: ByteClass) -> (r: bool)
    ensures
        r == class_pred(c)(b),
{
    match c {
        ByteClass::Space => b == 32 || b == 9 || b == 10 || b == 13 || b == 11 || b == 12,
        ByteClass::NonSpace => !(b == 32 || b == 9 || b == 10 || b == 13 || b == 11 || b == 12),
        ByteClass::Digit => 48 <= b && b <= 57,
        ByteClass::Suffix => (97 <= b && b <= 122) || (65 <= b && b <= 90) || b == MINUS
            || b == 95,
        ByteClass::EscapeHead => (97 <= b && b <= 122) || (48 <= b && b <= 57),
        ByteClass::Sharp => b == 35,
    }
}

/// The first byte of a symbol?
fn is_symbol_start_byte(b: u8) -> (r: bool)
    ensures
        r == is_symbol_start(b),
{
    b == 59 || b == 58 || b == 124 || b == 47 || b == BACKSLASH || b == 60 || b == 62
        || b == 44 || b == 46 || b == 95 || b == 61 || b == 126 || b == 94
        || (97 <= b && b <= 122) || (65 <= b && b <= 90) || b == 39 || b == 36 || b == 37
        || b == 38
}

/// May `b` follow a backslash inside a string literal?
fn is_string_escape_byte(b: u8) -> (r: bool)
    ensures
        r == is_string_escape(b),
{
    b == 116 || b == 117 || b == 110 || b == QUOTE || (48 <= b && b <= 57)
}

/// Where the maximal run of bytes of class `c` starting at `pos` ends.
pub(crate) fn run_end(input: &[u8], pos: usize, c: ByteClass) -> (r: usize)
    requires
        pos as int <= input@.len(),
    ensures
        r as int == pos + run_len(input@, pos as int, class_pred(c)),
        pos <= r,
        r as int <= input@.len(),
{
    let ghost p = class_pred(c);
    proof {
        lemma_run_len(input@, pos as int, p);
    }
    let mut i: usize = pos;
    while i < input.len() && byte_in_class(input[i], c)
        invariant
            pos <= i,
            i as int <= input@.len(),
            p == class_pred(c),
            run_len(input@, pos as int, p) == i - pos + run_len(input@, i as int, p),
        decreases input@.len() - i,
    {
        proof {
            assert(run_len(input@, i as int, p) == 1 + run_len(input@, i + 1, p));
        }
        i = i + 1;
    }
    proof {
        assert(run_len(input@, i as int, p) == 0);
    }
    i
}

/// Given an opening quote at `q`, the end of the string-literal match, or
/// `None` when the body never reaches a closing quote.
fn string_end(input: &[u8], q: usize) -> (r: Option<usize>)
    requires
        (q as int) < input@.len(),
        input@[q as int] == QUOTE,
    ensures
        match r {
            Some(e) => q < e && e as int <= input@.len() && string_match_len(input@, q as int)
                == e - q,
            None => string_match_len(input@, q as int) == 0,
        },
{
    let n = input.len();
    let mut j: usize = q + 1;
    loop
        invariant
            q + 1 <= j,
            j as int <= input@.len(),
            (q as int) < input@.len(),
            input@[q as int] == QUOTE,
            match str_tail_len(input@, j as int) {
                Some(l) => str_tail_len(input@, q as int + 1) == Some(j - q - 1 + l),
                None => str_tail_len(input@, q as int + 1) is None,
            },
        decreases input@.len() - j,
    {
        if j >= input.len() {
            return None;
        }
        let b = input[j];
        if b == QUOTE {
            return Some(j + 1);
        } else if b == BACKSLASH {
            if j + 1 < input.len() && is_string_escape_byte(input[j + 1]) {
                j = j + 2;
            } else {
                return None;
            }
        } else {
            j = j + 1;
        }
    }
}

/// The end of the integer-literal match at `q`; `q` itself when none.
fn scan_int(input: &[u8], q: usize) -> (r: usize)
    requires
        (q as int) < input@.len(),
    ensures
        r as int == q + int_match_len(input@, q as int),
        q <= r,
        r as int <= input@.len(),
{
    let n = input.len();
    let b = input[q];
    let j = if b == PLUS || b == MINUS {
        q + 1
    } else {
        q
    };
    proof {
        assert(int_sign_len(input@, q as int) == j - q);
    }
    let d_end = run_end(input, j, ByteClass::Digit);
    if d_end == j {
        q
    } else {
        run_end(input, d_end, ByteClass::Suffix)
    }
}

/// The end of the escape-opener match at `q`; `q` itself when none.
fn scan_escape(input: &[u8], q: usize) -> (r: usize)
    requires
        q as int <= input@.len(),
    ensures
        r as int == q + escape_match_len(input@, q as int),
        q <= r,
        r as int <= input@.len(),
{
    let h_end = run_end(input, q, ByteClass::EscapeHead);
    if h_end == q {
        return q;
    }
    let s_end = run_end(input, h_end, ByteClass::Sharp);
    if s_end == h_end {
        q
    } else {
        s_end
    }
}

/// The end of the symbol match at `q`; `q` itself when none.
fn scan_symbol(input: &[u8], q: usize) -> (r: usize)
    requires
        (q as int) < input@.len(),
    ensures
        r as int == q + symbol_match_len(input@, q as int),
        q <= r,
        r as int <= input@.len(),
{
    let n = input.len();
    if is_symbol_start_byte(input[q]) {
        run_end(input, q + 1, ByteClass::NonSpace)
    } else {
        q
    }
}

/// Scan from `pos`: skip whitespace, then classify the match there. Returns
/// the match's start, kind, and end, exactly as the model describes them.
pub(crate) fn scan_from(input: &[u8], pos: usize) -> (r: (usize, RawKind, usize))
    requires
        pos as int <= input@.len(),
    ensures
        r.0 as int == ws_end(input@, pos as int),
        r.1 == raw_kind_at(input@, r.0 as int),
        r.2 as int == r.0 + raw_len_at(input@, r.0 as int),
        r.0 <= r.2,
        r.2 as int <= input@.len(),
{
    let q = run_end(input, pos, ByteClass::Space);
    proof {
        lemma_raw_len_range(input@, q as int);
    }
    if q == input.len() {
        return (q, RawKind::End, q);
    }
    let b = input[q];
    if b == LPAREN {
        (q, RawKind::ParensOpen, q + 1)
    } else if b == RPAREN {
        (q, RawKind::ParensClose, q + 1)
    } else if b == LBRACE {
        (q, RawKind::RecordOpen, q + 1)
    } else if b == RBRACE {
        (q, RawKind::RecordClose, q + 1)
    } else if b == LBRACKET {
        (q, RawKind::ArrayOpen, q + 1)
    } else if b == RBRACKET {
        (q, RawKind::ArrayClose, q + 1)
    } else if b == QUOTE {
        match string_end(input, q) {
            Some(e) => (q, RawKind::LiteralString, e),
            None => (q, RawKind::Error, q),
        }
    } else {
        let int_end = scan_int(input, q);
        let esc_end = scan_escape(input, q);
        let sym_end = scan_symbol(input, q);
        if esc_end > q && esc_end >= int_end && esc_end >= sym_end {
            (q, RawKind::EscapeOpen, esc_end)
        } else if int_end > q && int_end >= sym_end {
            (q, RawKind::LiteralInteger, int_end)
        } else if sym_end > q {
            (q, RawKind::Symbol, sym_end)
        } else {
            (q, RawKind::Error, q)
        }
    }
}

/// The primitive classifier: its input slice (a suffix of the original
/// buffer) and the current match within it, as a half-open byte range
/// relative to the slice's own start.
pub struct Classifier<'a> {
    pub(crate) input: &'a [u8],
    pub(crate) start: usize,
    pub(crate) end: usize,
    pub(crate) kind: RawKind,
}

impl<'a> Classifier<'a> {
    /// The current match is exactly what the model says stands at `start`,
    /// and `start` sits on no leading whitespace.
    pub(crate) open spec fn wf(self) -> bool {
        &&& self.start <= self.end
        &&& self.end as int <= self.input@.len()
        &&& ws_end(self.input@, self.start as int) == self.start as int
        &&& self.kind == raw_kind_at(self.input@, self.start as int)
        &&& self.end as int == self.start + raw_len_at(self.input@, self.start as int)
    }

    /// Construct over `input` and immediately take the first match.
    pub(crate) fn new(input: &'a [u8]) -> (c: Classifier<'a>)
        ensures
            c.wf(),
            c.input@ == input@,
            c.start as int == ws_end(input@, 0),
    {
        proof {
            lemma_ws_end(input@, 0);
        }
        let r = scan_from(input, 0);
        Classifier { input, start: r.0, kind: r.1, end: r.2 }
    }

    /// Step to the next match, scanning on from the end of the current one.
    pub(crate) fn advance(&mut self)
        requires
            old(self).wf(),
            old(self).kind != RawKind::End,
            old(self).kind != RawKind::Error,
        ensures
            final(self).wf(),
            final(self).input@ == old(self).input@,
            final(self).start as int == ws_end(old(self).input@, old(self).end as int),
    {
        proof {
            lemma_ws_end(self.input@, self.end as int);
        }
        let r = scan_from(self.input, self.end);
        self.start = r.0;
        self.kind = r.1;
        self.end = r.2;
    }
}

} // verus!
