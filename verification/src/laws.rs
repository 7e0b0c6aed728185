//! Laws of the token stream, stated over the model in [`crate::scan`] and
//! [`crate::stream`] and proved once and for all. Together with the lexer's
//! contracts — the `n`-th resolved token is exactly `stream_token(source, n)`
//! — they carry over to every run of the executable lexer.

use vstd::prelude::*;

use crate::scan::escape_head_len;
use crate::scan::lemma_escape_shape;
use crate::scan::lemma_raw_len_range;
use crate::scan::lemma_ws_end;
use crate::scan::raw_kind_at;
use crate::scan::raw_len_at;
use crate::scan::run_len;
use crate::scan::sharp_pred;
use crate::scan::ws_end;
use crate::scan::RawKind;
use crate::scan::SHARP;
use crate::stream::find_sub_from;
use crate::stream::lemma_find_sub_range;
use crate::stream::lemma_step_terminal;
use crate::stream::lemma_stream_pos_range;
use crate::stream::seq_matches_at;
use crate::stream::stream_pos;
use crate::stream::stream_status;
use crate::stream::stream_token;
use crate::token::Status;
use crate::token::TokenModel;

verus! {

/// An empty source yields the end-of-stream token, in the clean-end state,
/// at every index of the stream: the first token is already end-of-stream,
/// and so is every subsequent one.
pub proof fn lemma_empty_source(s: Seq<u8>, n: nat)
    requires
        s.len() == 0,
    ensures
        stream_token(s, n) == TokenModel::End,
        stream_status(s, n) == Status::CleanEnd,
        stream_pos(s, n) == 0,
    decreases n,
{
    if n > 0 {
        lemma_empty_source(s, (n - 1) as nat);
    }
}

/// The direct token image of a primitive match: the corresponding variant,
/// carrying the matched text where the variant carries text.
pub open spec fn prim_token_model(k: RawKind, text: Seq<u8>) -> TokenModel {
    match k {
        RawKind::LiteralString => TokenModel::LiteralString(text),
        RawKind::LiteralInteger => TokenModel::LiteralInteger(text),
        RawKind::ParensOpen => TokenModel::ParensOpen,
        RawKind::ParensClose => TokenModel::ParensClose,
        RawKind::RecordOpen => TokenModel::RecordOpen,
        RawKind::RecordClose => TokenModel::RecordClose,
        RawKind::ArrayOpen => TokenModel::ArrayOpen,
        RawKind::ArrayClose => TokenModel::ArrayClose,
        RawKind::Symbol => TokenModel::Symbol(text),
        RawKind::End => TokenModel::End,
        RawKind::Error => TokenModel::End,
        RawKind::EscapeOpen => TokenModel::End,
    }
}

/// On a source where no escape opener ever matches, the lexer is the
/// primitive classifier, one to one: every stream token is the direct image
/// of the primitive match at the scan position — same category, its slice
/// equal to the matched text — and, while scanning, the stream consumes
/// exactly that one match before resolving the next.
pub proof fn lemma_no_escape_passthrough(s: Seq<u8>, n: nat)
    requires
        forall|i: int| 0 <= i <= s.len() ==> raw_kind_at(s, i) != RawKind::EscapeOpen,
    ensures
        ({
            let q = ws_end(s, stream_pos(s, n));
            let l = raw_len_at(s, q);
            stream_token(s, n) == prim_token_model(raw_kind_at(s, q), s.subrange(q, q + l))
                && (stream_status(s, n) == Status::Scanning ==> stream_pos(s, n + 1) == q + l)
        }),
{
    lemma_stream_pos_range(s, n);
    lemma_ws_end(s, stream_pos(s, n));
}

/// A fence of length `f`: `f` marker characters in a row.
pub open spec fn sharps(f: nat) -> Seq<u8> {
    Seq::new(f, |i: int| SHARP)
}

/// `d` begins a closing run: at least `f` consecutive marker characters
/// stand at `d`.
pub open spec fn fence_run_at(h: Seq<u8>, f: nat, d: int) -> bool {
    0 <= d && d + f <= h.len() && (forall|k: int| d <= k < d + f ==> h[k] == SHARP)
}

/// An occurrence of the fence is exactly a run of `f` markers.
pub proof fn lemma_fence_occurrence(h: Seq<u8>, f: nat, d: int)
    requires
        f >= 1,
    ensures
        seq_matches_at(h, sharps(f), d) <==> fence_run_at(h, f, d),
{
    if seq_matches_at(h, sharps(f), d) {
        assert forall|k: int| d <= k < d + f implies h[k] == SHARP by {
            assert(h.subrange(d, d + f as int)[k - d] == sharps(f)[k - d]);
        }
    }
    if fence_run_at(h, f, d) {
        assert(h.subrange(d, d + f as int) =~= sharps(f));
    }
}

/// The search finds the leftmost occurrence at or after `i`, or there is
/// none anywhere at or after `i`.
proof fn lemma_find_sub_leftmost(h: Seq<u8>, n: Seq<u8>, i: int)
    requires
        0 <= i,
        n.len() > 0,
    ensures
        match find_sub_from(h, n, i) {
            Some(c) => seq_matches_at(h, n, c) && (forall|d: int|
                i <= d < c ==> !seq_matches_at(h, n, d)),
            None => forall|d: int| i <= d ==> !seq_matches_at(h, n, d),
        },
    decreases h.len() - i,
{
    if i + n.len() > h.len() {
    } else if seq_matches_at(h, n, i) {
    } else {
        lemma_find_sub_leftmost(h, n, i + 1);
    }
}

/// Wherever the predicate holds on `m` bytes in a row, the run is at least
/// that long.
proof fn lemma_run_len_at_least(h: Seq<u8>, d: int, m: nat, p: spec_fn(u8) -> bool)
    requires
        0 <= d,
        d + m <= h.len(),
        forall|k: int| d <= k < d + m ==> p(h[k]),
    ensures
        run_len(h, d, p) >= m,
    decreases m,
{
    crate::scan::lemma_run_len(h, d, p);
    if m > 0 {
        assert(p(h[d]));
        lemma_run_len_at_least(h, d + 1, (m - 1) as nat, p);
        assert(run_len(h, d, p) == 1 + run_len(h, d + 1, p));
    }
}

/// Fence-length exactness. The search that closes an escape of fence
/// length `f` accepts exactly the positions where `f` markers stand in a
/// row, and takes the leftmost of them: a run shorter than `f` never
/// closes; within a longer run, the close is its first `f`-length prefix;
/// and nothing closes earlier than the position found.
pub proof fn lemma_close_fence_exact(h: Seq<u8>, f: nat)
    requires
        f >= 1,
    ensures
        match find_sub_from(h, sharps(f), 0) {
            Some(c) => fence_run_at(h, f, c) && (forall|d: int|
                0 <= d < c ==> !fence_run_at(h, f, d)),
            None => forall|d: int| !fence_run_at(h, f, d),
        },
        forall|d: int| run_len(h, d, sharp_pred()) < f ==> !fence_run_at(h, f, d),
{
    lemma_find_sub_leftmost(h, sharps(f), 0);
    assert forall|d: int| seq_matches_at(h, sharps(f), d) <==> fence_run_at(h, f, d) by {
        lemma_fence_occurrence(h, f, d);
    }
    assert forall|d: int| run_len(h, d, sharp_pred()) < f implies !fence_run_at(h, f, d) by {
        if fence_run_at(h, f, d) {
            lemma_run_len_at_least(h, d, f, sharp_pred());
        }
    }
}

/// Tokenizing is a pure function of the buffer, with no hidden state: equal
/// sources yield equal streams at every index. Together with the lexer's
/// contracts, re-tokenizing the same buffer from scratch always yields an
/// identical token sequence.
pub proof fn lemma_stream_deterministic(s1: Seq<u8>, s2: Seq<u8>, n: nat)
    requires
        s1 == s2,
    ensures
        stream_token(s1, n) == stream_token(s2, n),
        stream_status(s1, n) == stream_status(s2, n),
{
}

/// Terminal outcomes are absorbing and deterministic: however the stream
/// stops — clean end, unterminated escape, or an unmatchable position — the
/// position stands still, and every index from the stop on yields the
/// end-of-stream token and the same state. In particular, a source whose
/// opening fence has no matching close ends in `UnterminatedEscape`, the
/// same well-defined outcome every time.
pub proof fn lemma_terminal_absorbing(s: Seq<u8>, n: nat, m: nat)
    requires
        n <= m,
        stream_status(s, n).is_terminal(),
    ensures
        stream_status(s, m) == stream_status(s, n),
        stream_token(s, m) == TokenModel::End,
    decreases m - n,
{
    lemma_step_terminal(s, stream_pos(s, n));
    if m > n {
        lemma_terminal_absorbing(s, n + 1, m);
    }
}

/// Is `x` a sub-slice of the buffer `s`?
pub open spec fn is_slice_of(x: Seq<u8>, s: Seq<u8>) -> bool {
    exists|i: int, j: int| 0 <= i <= j <= s.len() && x == s.subrange(i, j)
}

/// Pivot correctness: whatever the stream emits — in particular after any
/// number of resolved escapes — every slice a token carries is a sub-slice
/// of the original buffer, never of a stale or incorrectly offset view.
pub proof fn lemma_token_slices_from_source(s: Seq<u8>, n: nat)
    ensures
        stream_token(s, n) matches TokenModel::LiteralString(x) ==> is_slice_of(x, s),
        stream_token(s, n) matches TokenModel::LiteralInteger(x) ==> is_slice_of(x, s),
        stream_token(s, n) matches TokenModel::Symbol(x) ==> is_slice_of(x, s),
        stream_token(s, n) matches TokenModel::ReaderEscape(t, c) ==> is_slice_of(t, s)
            && is_slice_of(c, s),
{
    lemma_stream_pos_range(s, n);
    let pos = stream_pos(s, n);
    lemma_ws_end(s, pos);
    let q = ws_end(s, pos);
    lemma_raw_len_range(s, q);
    let l = raw_len_at(s, q);
    if raw_kind_at(s, q) == RawKind::EscapeOpen {
        lemma_escape_shape(s, q);
        let h = escape_head_len(s, q);
        let fence = s.subrange(q + h, q + l);
        let rstart = if q + l + 1 <= s.len() {
            q + l + 1
        } else {
            s.len() as int
        };
        let rest = s.subrange(rstart, s.len() as int);
        lemma_find_sub_range(rest, fence, 0);
        match find_sub_from(rest, fence, 0) {
            Some(c) => {
                assert(rest.subrange(0, c) =~= s.subrange(rstart, rstart + c));
                assert(is_slice_of(s.subrange(q, q + h), s));
                assert(is_slice_of(s.subrange(rstart, rstart + c), s));
            },
            None => {},
        }
    } else {
        if raw_kind_at(s, q) != RawKind::End && raw_kind_at(s, q) != RawKind::Error {
            assert(is_slice_of(s.subrange(q, q + l), s));
        }
    }
}

} // verus!
