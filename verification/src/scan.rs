//! The mathematical model of the primitive classifier: which lexeme matches
//! at a given position of the source, and how long the match is. The rules
//! follow maximal munch: the longest matching rule wins, and on the one
//! possible tie (a symbol against an escape opener of the same length) the
//! escape opener wins.

use vstd::prelude::*;

verus! {

pub const QUOTE: u8 = 34;
pub const SHARP: u8 = 35;
pub const PLUS: u8 = 43;
pub const MINUS: u8 = 45;
pub const BACKSLASH: u8 = 92;
pub const LPAREN: u8 = 40;
pub const RPAREN: u8 = 41;
pub const LBRACE: u8 = 123;
pub const RBRACE: u8 = 125;
pub const LBRACKET: u8 = 91;
pub const RBRACKET: u8 = 93;

/// Whitespace, skipped between lexemes.
pub open spec fn is_space(b: u8) -> bool {
    b == 32 || b == 9 || b == 10 || b == 13 || b == 11 || b == 12
}

pub open spec fn is_digit(b: u8) -> bool {
    48 <= b <= 57
}

pub open spec fn is_lower(b: u8) -> bool {
    97 <= b <= 122
}

pub open spec fn is_upper(b: u8) -> bool {
    65 <= b <= 90
}

pub open spec fn is_alpha(b: u8) -> bool {
    is_lower(b) || is_upper(b)
}

/// A byte allowed in the suffix of an integer literal: letters, `-`, `_`.
pub open spec fn is_suffix_byte(b: u8) -> bool {
    is_alpha(b) || b == MINUS || b == 95
}

/// A byte allowed in the tag of an escape opener: lower-case letters and digits.
pub open spec fn is_escape_head(b: u8) -> bool {
    is_lower(b) || is_digit(b)
}

pub open spec fn is_sharp(b: u8) -> bool {
    b == SHARP
}

/// The byte that may follow a backslash inside a string literal:
/// `t`, `u`, `n`, a double quote, or a decimal digit. Longer escape forms
/// (a run of digits, or `0x` followed by hexadecimal digits) continue with
/// bytes that the body accepts as plain characters anyway, so this
/// single-byte rule recognises exactly the same literals.
pub open spec fn is_string_escape(b: u8) -> bool {
    b == 116 || b == 117 || b == 110 || b == QUOTE || is_digit(b)
}

/// The first byte of a symbol: a fixed alphabet of punctuation, letters and
/// a few sigils.
pub open spec fn is_symbol_start(b: u8) -> bool {
    b == 59 || b == 58 || b == 124 || b == 47 || b == BACKSLASH || b == 60 || b == 62
        || b == 44 || b == 46 || b == 95 || b == 61 || b == 126 || b == 94 || is_alpha(b)
        || b == 39 || b == 36 || b == 37 || b == 38
}

pub open spec fn space_pred() -> spec_fn(u8) -> bool {
    |b: u8| is_space(b)
}

pub open spec fn nonspace_pred() -> spec_fn(u8) -> bool {
    |b: u8| !is_space(b)
}

pub open spec fn digit_pred() -> spec_fn(u8) -> bool {
    |b: u8| is_digit(b)
}

pub open spec fn suffix_pred() -> spec_fn(u8) -> bool {
    |b: u8| is_suffix_byte(b)
}

pub open spec fn escape_head_pred() -> spec_fn(u8) -> bool {
    |b: u8| is_escape_head(b)
}

pub open spec fn sharp_pred() -> spec_fn(u8) -> bool {
    |b: u8| is_sharp(b)
}

/// The byte classes whose maximal runs the scanner takes.
#[derive(Clone, Copy, Debug, PartialEq, Eq, Structural)]
pub enum ByteClass {
    Space,
    NonSpace,
    Digit,
    Suffix,
    EscapeHead,
    Sharp,
}

/// The predicate a byte class stands for.
pub open spec fn class_pred(c: ByteClass) -> spec_fn(u8) -> bool {
    match c {
        ByteClass::Space => space_pred(),
        ByteClass::NonSpace => nonspace_pred(),
        ByteClass::Digit => digit_pred(),
        ByteClass::Suffix => suffix_pred(),
        ByteClass::EscapeHead => escape_head_pred(),
        ByteClass::Sharp => sharp_pred(),
    }
}

/// Length of the maximal run of bytes satisfying `p`, starting at `i`.
pub open spec fn run_len(s: Seq<u8>, i: int, p: spec_fn(u8) -> bool) -> int
    decreases s.len() - i,
{
    if i < 0 || i >= s.len() || !p(s[i]) {
        0
    } else {
        1 + run_len(s, i + 1, p)
    }
}

/// The position where the whitespace run starting at `i` ends: the first
/// scan position of the next lexeme.
pub open spec fn ws_end(s: Seq<u8>, i: int) -> int {
    i + run_len(s, i, space_pred())
}

/// Inside a string literal body at position `i` (just past the opening
/// quote, or past any prefix of the body): the number of bytes up to and
/// including the closing quote, or `None` when the body cannot reach a
/// closing quote.
pub open spec fn str_tail_len(s: Seq<u8>, i: int) -> Option<int>
    decreases s.len() - i,
{
    if i < 0 || i >= s.len() {
        None
    } else if s[i] == QUOTE {
        Some(1)
    } else if s[i] == BACKSLASH {
        if i + 2 <= s.len() && is_string_escape(s[i + 1]) {
            match str_tail_len(s, i + 2) {
                Some(l) => Some(2 + l),
                None => None,
            }
        } else {
            None
        }
    } else {
        match str_tail_len(s, i + 1) {
            Some(l) => Some(1 + l),
            None => None,
        }
    }
}

/// Length of the string-literal match at `i`, 0 when none.
pub open spec fn string_match_len(s: Seq<u8>, i: int) -> int {
    if 0 <= i < s.len() && s[i] == QUOTE {
        match str_tail_len(s, i + 1) {
            Some(l) => 1 + l,
            None => 0,
        }
    } else {
        0
    }
}

pub open spec fn int_sign_len(s: Seq<u8>, i: int) -> int {
    if 0 <= i < s.len() && (s[i] == PLUS || s[i] == MINUS) {
        1
    } else {
        0
    }
}

/// Length of the integer-literal match at `i`: an optional sign, at least
/// one digit, then an optional alphabetic suffix. 0 when none.
pub open spec fn int_match_len(s: Seq<u8>, i: int) -> int {
    let j = i + int_sign_len(s, i);
    let d = run_len(s, j, digit_pred());
    if d == 0 {
        0
    } else {
        (j - i) + d + run_len(s, j + d, suffix_pred())
    }
}

/// Length of the tag of an escape opener at `i`: the run of tag bytes before
/// the first marker character.
pub open spec fn escape_head_len(s: Seq<u8>, i: int) -> int {
    run_len(s, i, escape_head_pred())
}

/// Length of the escape-opener match at `i`: a non-empty tag followed by a
/// non-empty fence of marker characters. 0 when none.
pub open spec fn escape_match_len(s: Seq<u8>, i: int) -> int {
    let h = escape_head_len(s, i);
    let f = run_len(s, i + h, sharp_pred());
    if h > 0 && f > 0 {
        h + f
    } else {
        0
    }
}

/// Length of the symbol match at `i`: a symbol-start byte, then everything
/// up to the next whitespace. 0 when none.
pub open spec fn symbol_match_len(s: Seq<u8>, i: int) -> int {
    if 0 <= i < s.len() && is_symbol_start(s[i]) {
        1 + run_len(s, i + 1, nonspace_pred())
    } else {
        0
    }
}

/// The discrete kind of a primitive match.
#[derive(Clone, Copy, Debug, PartialEq, Eq, Structural)]
pub enum RawKind {
    End,
    Error,
    LiteralString,
    LiteralInteger,
    ParensOpen,
    ParensClose,
    RecordOpen,
    RecordClose,
    ArrayOpen,
    ArrayClose,
    EscapeOpen,
    Symbol,
}

/// Which rule matches at scan position `i` (assumed to sit on no leading
/// whitespace). Maximal munch over the rules whose first byte can overlap;
/// an escape opener beats a symbol of the same length.
pub open spec fn raw_kind_at(s: Seq<u8>, i: int) -> RawKind {
    if i < 0 || i >= s.len() {
        RawKind::End
    } else {
        let b = s[i];
        if b == LPAREN {
            RawKind::ParensOpen
        } else if b == RPAREN {
            RawKind::ParensClose
        } else if b == LBRACE {
            RawKind::RecordOpen
        } else if b == RBRACE {
            RawKind::RecordClose
        } else if b == LBRACKET {
            RawKind::ArrayOpen
        } else if b == RBRACKET {
            RawKind::ArrayClose
        } else if b == QUOTE {
            if string_match_len(s, i) > 0 {
                RawKind::LiteralString
            } else {
                RawKind::Error
            }
        } else {
            let il = int_match_len(s, i);
            let el = escape_match_len(s, i);
            let sl = symbol_match_len(s, i);
            if el > 0 && el >= il && el >= sl {
                RawKind::EscapeOpen
            } else if il > 0 && il >= sl {
                RawKind::LiteralInteger
            } else if sl > 0 {
                RawKind::Symbol
            } else {
                RawKind::Error
            }
        }
    }
}

/// Length of the match described by [`raw_kind_at`]; 0 for end of input and
/// for a position no rule matches.
pub open spec fn raw_len_at(s: Seq<u8>, i: int) -> int {
    match raw_kind_at(s, i) {
        RawKind::End => 0,
        RawKind::Error => 0,
        RawKind::LiteralString => string_match_len(s, i),
        RawKind::LiteralInteger => int_match_len(s, i),
        RawKind::EscapeOpen => escape_match_len(s, i),
        RawKind::Symbol => symbol_match_len(s, i),
        RawKind::ParensOpen => 1,
        RawKind::ParensClose => 1,
        RawKind::RecordOpen => 1,
        RawKind::RecordClose => 1,
        RawKind::ArrayOpen => 1,
        RawKind::ArrayClose => 1,
    }
}

/// The basic shape of a run: non-negative, within bounds, all its bytes
/// satisfy the predicate, and it is maximal.
pub proof fn lemma_run_len(s: Seq<u8>, i: int, p: spec_fn(u8) -> bool)
    requires
        0 <= i <= s.len(),
    ensures
        0 <= run_len(s, i, p),
        i + run_len(s, i, p) <= s.len(),
        forall|k: int| i <= k < i + run_len(s, i, p) ==> p(s[k]),
        i + run_len(s, i, p) < s.len() ==> !p(s[i + run_len(s, i, p)]),
    decreases s.len() - i,
{
    if i < s.len() && p(s[i]) {
        lemma_run_len(s, i + 1, p);
    }
}

/// A run seen from a suffix of the buffer is the run seen from the buffer.
pub proof fn lemma_run_len_translate(s: Seq<u8>, p: int, r: int, pred: spec_fn(u8) -> bool)
    requires
        0 <= p <= s.len(),
        0 <= r <= s.len() - p,
    ensures
        run_len(s.subrange(p, s.len() as int), r, pred) == run_len(s, p + r, pred),
    decreases s.len() - p - r,
{
    if p + r < s.len() && pred(s[p + r]) {
        lemma_run_len_translate(s, p, r + 1, pred);
    }
}

/// A string-literal body seen from a suffix of the buffer closes exactly as
/// it does seen from the buffer.
pub proof fn lemma_str_tail_translate(s: Seq<u8>, p: int, r: int)
    requires
        0 <= p <= s.len(),
        0 <= r <= s.len() - p,
    ensures
        str_tail_len(s.subrange(p, s.len() as int), r) == str_tail_len(s, p + r),
    decreases s.len() - p - r,
{
    let sub = s.subrange(p, s.len() as int);
    if r < sub.len() {
        if s[p + r] == QUOTE {
        } else if s[p + r] == BACKSLASH {
            if p + r + 2 <= s.len() && is_string_escape(s[p + r + 1]) {
                lemma_str_tail_translate(s, p, r + 2);
            }
        } else {
            lemma_str_tail_translate(s, p, r + 1);
        }
    }
}

/// A closing quote is reached within the buffer, at least one byte away.
pub proof fn lemma_str_tail_range(s: Seq<u8>, i: int)
    requires
        0 <= i <= s.len(),
        str_tail_len(s, i) is Some,
    ensures
        1 <= str_tail_len(s, i)->Some_0,
        i + str_tail_len(s, i)->Some_0 <= s.len(),
    decreases s.len() - i,
{
    if i < s.len() {
        if s[i] == QUOTE {
        } else if s[i] == BACKSLASH {
            lemma_str_tail_range(s, i + 2);
        } else {
            lemma_str_tail_range(s, i + 1);
        }
    }
}

/// Every classification seen from a suffix of the buffer agrees with the
/// classification seen from the buffer at the translated position.
pub proof fn lemma_scan_translate(s: Seq<u8>, p: int, r: int)
    requires
        0 <= p <= s.len(),
        0 <= r <= s.len() - p,
    ensures
        ws_end(s.subrange(p, s.len() as int), r) == ws_end(s, p + r) - p,
        raw_kind_at(s.subrange(p, s.len() as int), r) == raw_kind_at(s, p + r),
        raw_len_at(s.subrange(p, s.len() as int), r) == raw_len_at(s, p + r),
        escape_head_len(s.subrange(p, s.len() as int), r) == escape_head_len(s, p + r),
        string_match_len(s.subrange(p, s.len() as int), r) == string_match_len(s, p + r),
        int_match_len(s.subrange(p, s.len() as int), r) == int_match_len(s, p + r),
        escape_match_len(s.subrange(p, s.len() as int), r) == escape_match_len(s, p + r),
        symbol_match_len(s.subrange(p, s.len() as int), r) == symbol_match_len(s, p + r),
{
    let sub = s.subrange(p, s.len() as int);
    lemma_run_len_translate(s, p, r, space_pred());
    lemma_run_len_translate(s, p, r, escape_head_pred());
    if r < sub.len() {
        lemma_str_tail_translate(s, p, r + 1);
        let j = r + int_sign_len(sub, r);
        assert(int_sign_len(sub, r) == int_sign_len(s, p + r));
        lemma_run_len_translate(s, p, j, digit_pred());
        let d = run_len(sub, j, digit_pred());
        lemma_run_len(s, p + j, digit_pred());
        if d > 0 {
            lemma_run_len_translate(s, p, j + d, suffix_pred());
        }
        let h = escape_head_len(sub, r);
        lemma_run_len(s, p + r, escape_head_pred());
        lemma_run_len_translate(s, p, r + h, sharp_pred());
        lemma_run_len_translate(s, p, r + 1, nonspace_pred());
    }
}

/// A match never runs past the end of the buffer, and an ordinary lexeme is
/// at least one byte long.
pub proof fn lemma_raw_len_range(s: Seq<u8>, i: int)
    requires
        0 <= i <= s.len(),
    ensures
        0 <= raw_len_at(s, i),
        i + raw_len_at(s, i) <= s.len(),
        raw_kind_at(s, i) != RawKind::End && raw_kind_at(s, i) != RawKind::Error
            ==> raw_len_at(s, i) >= 1,
{
    if i < s.len() {
        if s[i] == QUOTE {
            if string_match_len(s, i) > 0 {
                lemma_str_tail_range(s, i + 1);
            }
        } else {
            let j = i + int_sign_len(s, i);
            let d = run_len(s, j, digit_pred());
            lemma_run_len(s, j, digit_pred());
            if d > 0 {
                lemma_run_len(s, j + d, suffix_pred());
            }
            let h = escape_head_len(s, i);
            lemma_run_len(s, i, escape_head_pred());
            lemma_run_len(s, i + h, sharp_pred());
            lemma_run_len(s, i + 1, nonspace_pred());
        }
    }
}

/// The shape of an escape opener: a non-empty tag of head bytes, then a
/// non-empty fence of marker characters, nothing else.
pub proof fn lemma_escape_shape(s: Seq<u8>, i: int)
    requires
        0 <= i <= s.len(),
        raw_kind_at(s, i) == RawKind::EscapeOpen,
    ensures
        1 <= escape_head_len(s, i),
        escape_head_len(s, i) < raw_len_at(s, i),
        raw_len_at(s, i) == escape_head_len(s, i) + run_len(s, i + escape_head_len(s, i), sharp_pred()),
{
    let h = escape_head_len(s, i);
    lemma_run_len(s, i, escape_head_pred());
    lemma_run_len(s, i + h, sharp_pred());
}

/// Skipping whitespace lands on no whitespace, and skipping twice is
/// skipping once.
pub proof fn lemma_ws_end(s: Seq<u8>, i: int)
    requires
        0 <= i <= s.len(),
    ensures
        i <= ws_end(s, i) <= s.len(),
        ws_end(s, ws_end(s, i)) == ws_end(s, i),
        ws_end(s, i) < s.len() ==> !is_space(s[ws_end(s, i)]),
{
    lemma_run_len(s, i, space_pred());
    lemma_run_len(s, ws_end(s, i), space_pred());
    if ws_end(s, i) < s.len() {
        assert(!space_pred()(s[ws_end(s, i)]));
    }
}

} // verus!
