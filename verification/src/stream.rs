//! The mathematical model of the lexer facade: one resolution step, the
//! escape resolver, and the resulting token stream. The whole stream is a
//! function of the source buffer alone; the executable lexer is proved to
//! emit exactly this stream.

use vstd::prelude::*;

use crate::scan::escape_head_len;
use crate::scan::raw_kind_at;
use crate::scan::raw_len_at;
use crate::scan::ws_end;
use crate::scan::RawKind;
use crate::token::Status;
use crate::token::TokenModel;

verus! {

/// Does the needle stand, letter for letter, at position `i` of `h`?
pub open spec fn seq_matches_at(h: Seq<u8>, n: Seq<u8>, i: int) -> bool {
    0 <= i && i + n.len() <= h.len() && h.subrange(i, i + n.len() as int) == n
}

/// The leftmost occurrence of `n` in `h` at or after `i`: a plain substring
/// search, unaware of anything but exact, literal equality. A needle is
/// never empty here (a fence has length at least 1).
pub open spec fn find_sub_from(h: Seq<u8>, n: Seq<u8>, i: int) -> Option<int>
    decreases h.len() - i,
{
    if i < 0 || n.len() == 0 || i + n.len() > h.len() {
        None
    } else if seq_matches_at(h, n, i) {
        Some(i)
    } else {
        find_sub_from(h, n, i + 1)
    }
}

/// What one resolution step of the facade yields: the token it emits, the
/// absolute position from which the next step resolves, and the state the
/// facade is left in. On a terminal outcome the position stands still, which
/// makes the terminal states absorbing.
pub struct StepRes {
    pub token: TokenModel,
    pub next: int,
    pub status: Status,
}

/// The escape resolver, invoked when the primitive match at `q` (of length
/// `l`) is an escape opener. The matched text splits at the first marker
/// character into tag and fence; exactly one separator byte after the
/// opening fence is consumed unconditionally; the first literal occurrence
/// of the fence in the remaining source closes the escape, and scanning
/// resumes immediately past it. Without a close, the stream ends in the
/// distinguishable `UnterminatedEscape` state.
pub open spec fn resolve_escape(s: Seq<u8>, pos: int, q: int, l: int) -> StepRes {
    let h = escape_head_len(s, q);
    let tag = s.subrange(q, q + h);
    let fence = s.subrange(q + h, q + l);
    let rstart = if q + l + 1 <= s.len() {
        q + l + 1
    } else {
        s.len() as int
    };
    let rest = s.subrange(rstart, s.len() as int);
    match find_sub_from(rest, fence, 0) {
        Some(c) => StepRes {
            token: TokenModel::ReaderEscape(tag, rest.subrange(0, c)),
            next: rstart + c + (l - h),
            status: Status::EscapeContentFound,
        },
        None => StepRes {
            token: TokenModel::End,
            next: pos,
            status: Status::UnterminatedEscape,
        },
    }
}

/// One resolution step of the facade from absolute position `pos`: skip
/// whitespace, take the primitive match, and either wrap it directly into
/// the corresponding token, resolve it as a reader escape, or stop.
pub open spec fn step(s: Seq<u8>, pos: int) -> StepRes {
    let q = ws_end(s, pos);
    let l = raw_len_at(s, q);
    match raw_kind_at(s, q) {
        RawKind::End => StepRes {
            token: TokenModel::End,
            next: pos,
            status: Status::CleanEnd,
        },
        RawKind::Error => StepRes {
            token: TokenModel::End,
            next: pos,
            status: Status::NoMatch(q as usize),
        },
        RawKind::LiteralString => StepRes {
            token: TokenModel::LiteralString(s.subrange(q, q + l)),
            next: q + l,
            status: Status::Scanning,
        },
        RawKind::LiteralInteger => StepRes {
            token: TokenModel::LiteralInteger(s.subrange(q, q + l)),
            next: q + l,
            status: Status::Scanning,
        },
        RawKind::ParensOpen => StepRes {
            token: TokenModel::ParensOpen,
            next: q + l,
            status: Status::Scanning,
        },
        RawKind::ParensClose => StepRes {
            token: TokenModel::ParensClose,
            next: q + l,
            status: Status::Scanning,
        },
        RawKind::RecordOpen => StepRes {
            token: TokenModel::RecordOpen,
            next: q + l,
            status: Status::Scanning,
        },
        RawKind::RecordClose => StepRes {
            token: TokenModel::RecordClose,
            next: q + l,
            status: Status::Scanning,
        },
        RawKind::ArrayOpen => StepRes {
            token: TokenModel::ArrayOpen,
            next: q + l,
            status: Status::Scanning,
        },
        RawKind::ArrayClose => StepRes {
            token: TokenModel::ArrayClose,
            next: q + l,
            status: Status::Scanning,
        },
        RawKind::Symbol => StepRes {
            token: TokenModel::Symbol(s.subrange(q, q + l)),
            next: q + l,
            status: Status::Scanning,
        },
        RawKind::EscapeOpen => resolve_escape(s, pos, q, l),
    }
}

/// The absolute position from which token `n` of the stream is resolved.
pub open spec fn stream_pos(s: Seq<u8>, n: nat) -> int
    decreases n,
{
    if n == 0 {
        0
    } else {
        step(s, stream_pos(s, (n - 1) as nat)).next
    }
}

/// Token `n` of the stream of `s`.
pub open spec fn stream_token(s: Seq<u8>, n: nat) -> TokenModel {
    step(s, stream_pos(s, n)).token
}

/// The facade's state after resolving token `n` of the stream of `s`.
pub open spec fn stream_status(s: Seq<u8>, n: nat) -> Status {
    step(s, stream_pos(s, n)).status
}

/// Whatever `find_sub_from` returns lies within the haystack.
pub proof fn lemma_find_sub_range(h: Seq<u8>, n: Seq<u8>, i: int)
    requires
        0 <= i,
    ensures
        find_sub_from(h, n, i) matches Some(c) ==> i <= c && c + n.len() <= h.len(),
    decreases h.len() - i,
{
    if n.len() > 0 && i + n.len() <= h.len() && !seq_matches_at(h, n, i) {
        lemma_find_sub_range(h, n, i + 1);
    }
}

/// A step never leaves the buffer: from a position within the source it
/// resolves to a position within the source, at or after where it began.
pub proof fn lemma_step_range(s: Seq<u8>, pos: int)
    requires
        0 <= pos <= s.len(),
    ensures
        pos <= step(s, pos).next <= s.len(),
{
    let q = ws_end(s, pos);
    crate::scan::lemma_ws_end(s, pos);
    crate::scan::lemma_raw_len_range(s, q);
    let l = raw_len_at(s, q);
    if raw_kind_at(s, q) == RawKind::EscapeOpen {
        crate::scan::lemma_escape_shape(s, q);
        let h = escape_head_len(s, q);
        let fence = s.subrange(q + h, q + l);
        let rstart = if q + l + 1 <= s.len() {
            q + l + 1
        } else {
            s.len() as int
        };
        let rest = s.subrange(rstart, s.len() as int);
        lemma_find_sub_range(rest, fence, 0);
    }
}

/// Stream positions stay within the buffer.
pub proof fn lemma_stream_pos_range(s: Seq<u8>, n: nat)
    ensures
        0 <= stream_pos(s, n) <= s.len(),
    decreases n,
{
    if n > 0 {
        lemma_stream_pos_range(s, (n - 1) as nat);
        lemma_step_range(s, stream_pos(s, (n - 1) as nat));
    }
}

/// A step that ends in a terminal state emits the end token and stands
/// still, so the same step repeats forever after.
pub proof fn lemma_step_terminal(s: Seq<u8>, pos: int)
    ensures
        step(s, pos).status.is_terminal() ==> step(s, pos).next == pos
            && step(s, pos).token == TokenModel::End,
{
}

} // verus!
