//! The lexer facade. It owns the current primitive classifier — rebuilt
//! whenever a reader escape is resolved — the absolute pivot offset marking
//! where that classifier's view begins within the one true source buffer,
//! and the currently resolved token. Its contracts tie every resolved token
//! to the token stream defined in [`crate::stream`]: the `n`-th token the
//! facade yields is exactly `stream_token(source, n)`.

use vstd::prelude::*;
use vstd::slice::slice_subrange;

use crate::classifier::run_end;
use crate::classifier::Classifier;
use crate::scan::lemma_escape_shape;
use crate::scan::lemma_scan_translate;
use crate::scan::lemma_ws_end;
use crate::scan::ws_end;
use crate::scan::ByteClass;
use crate::scan::RawKind;
use crate::stream::find_sub_from;
use crate::stream::lemma_find_sub_range;
use crate::stream::lemma_step_terminal;
use crate::stream::lemma_stream_pos_range;
use crate::stream::seq_matches_at;
use crate::stream::stream_pos;
use crate::stream::stream_status;
use crate::stream::stream_token;
use crate::token::EndIndex;
use crate::token::SharpCount;
use crate::token::StartIndex;
use crate::token::Status;
use crate::token::Token;
use crate::token::TokenModel;

verus! {

/// Skipping forward never loses an occurrence: when nothing matches before
/// `i`, searching from the start is searching from `i`.
proof fn lemma_find_sub_skip(h: Seq<u8>, n: Seq<u8>, i: int)
    requires
        0 <= i,
        n.len() > 0,
        forall|d: int| 0 <= d < i ==> !seq_matches_at(h, n, d),
    ensures
        find_sub_from(h, n, 0) == find_sub_from(h, n, i),
    decreases i,
{
    if i > 0 {
        lemma_find_sub_skip(h, n, i - 1);
    }
}

/// The leftmost literal occurrence of `needle` in `h`, by plain substring
/// search.
fn find_first(h: &[u8], needle: &[u8]) -> (r: Option<StartIndex>)
    requires
        needle@.len() >= 1,
    ensures
        match r {
            Some(c) => find_sub_from(h@, needle@, 0) == Some(c.0 as int),
            None => find_sub_from(h@, needle@, 0) is None,
        },
{
    let hn = h.len();
    let nn = needle.len();
    if nn > hn {
        return None;
    }
    let m = hn - nn;
    let mut i: usize = 0;
    while i <= m
        invariant
            nn == needle@.len(),
            hn == h@.len(),
            1 <= nn <= hn,
            m == hn - nn,
            i <= m + 1,
            forall|d: int| 0 <= d < i ==> !seq_matches_at(h@, needle@, d),
        decreases m + 1 - i,
    {
        let mut k: usize = 0;
        while k < nn && h[i + k] == needle[k]
            invariant
                nn == needle@.len(),
                hn == h@.len(),
                1 <= nn <= hn,
                m == hn - nn,
                i <= m,
                k <= nn,
                forall|t: int| 0 <= t < k ==> h@[i + t] == needle@[t],
            decreases nn - k,
        {
            k = k + 1;
        }
        if k == nn {
            proof {
                assert(h@.subrange(i as int, i as int + nn as int) =~= needle@);
                lemma_find_sub_skip(h@, needle@, i as int);
            }
            return Some(StartIndex(i));
        }
        proof {
            assert(!seq_matches_at(h@, needle@, i as int)) by {
                if seq_matches_at(h@, needle@, i as int) {
                    assert(h@.subrange(i as int, i as int + nn as int)[k as int] == h@[i
                        + k as int]);
                }
            }
        }
        i = i + 1;
    }
    proof {
        lemma_find_sub_skip(h@, needle@, m + 1);
    }
    None
}

/// The lexer facade: created once per source buffer, mutated in place by
/// [`Lexer::advance`], never copied. The token it holds borrows the source
/// buffer and is overwritten on every advance.
pub struct Lexer<'a> {
    source: &'a [u8],
    inner: Classifier<'a>,
    pivot: usize,
    token: Token<'a>,
    status: Status,
    steps: Ghost<nat>,
}

impl<'a> Lexer<'a> {
    /// The source buffer, as a mathematical byte sequence.
    pub closed spec fn src(self) -> Seq<u8> {
        self.source@
    }

    /// How many times the current token has been (re)resolved: the index of
    /// the current token within the stream of the source.
    pub closed spec fn steps(self) -> nat {
        self.steps@
    }

    /// The currently resolved token, as its model.
    pub closed spec fn current(self) -> TokenModel {
        self.token@
    }

    /// The facade's current state.
    pub closed spec fn current_status(self) -> Status {
        self.status
    }

    /// The structural part of the invariant: the pivot is within the
    /// source, the classifier's view is exactly the suffix of the source
    /// starting at the pivot, and the classifier holds a faithful match.
    pub closed spec fn core_inv(self) -> bool {
        &&& self.pivot as int <= self.source@.len()
        &&& self.inner.input@ == self.source@.subrange(
            self.pivot as int,
            self.source@.len() as int,
        )
        &&& self.inner.wf()
    }

    /// The classifier currently holds the primitive match from which token
    /// number [`Lexer::steps`] of the stream is resolved, but the token
    /// itself has not been resolved yet.
    pub closed spec fn ready(self) -> bool {
        &&& self.core_inv()
        &&& stream_pos(self.source@, self.steps@) <= self.source@.len()
        &&& ws_end(self.source@, stream_pos(self.source@, self.steps@)) == self.pivot
            + self.inner.start
    }

    /// The full invariant: the held token and status are exactly those of
    /// the stream at index [`Lexer::steps`], and the classifier stands
    /// where the next resolution must pick up.
    pub closed spec fn wf(self) -> bool {
        let s = self.source@;
        let n = self.steps@;
        &&& self.core_inv()
        &&& self.token@ == stream_token(s, n)
        &&& self.status == stream_status(s, n)
        &&& match self.status {
            Status::Scanning => {
                &&& self.pivot + self.inner.end == stream_pos(s, n + 1)
                &&& self.inner.kind != RawKind::End
                &&& self.inner.kind != RawKind::Error
            },
            Status::EscapeContentFound => {
                &&& stream_pos(s, n + 1) <= s.len()
                &&& ws_end(s, stream_pos(s, n + 1)) == self.pivot + self.inner.start
            },
            _ => true,
        }
    }

    /// Construct a lexer over `source` and immediately resolve the first
    /// token: there is no lazy first token.
    pub fn new(source: &'a [u8]) -> (r: Lexer<'a>)
        ensures
            r.wf(),
            r.src() == source@,
            r.steps() == 0,
            r.current() == stream_token(source@, 0),
            r.current_status() == stream_status(source@, 0),
    {
        let inner = Classifier::new(source);
        let mut lx = Lexer {
            source,
            inner,
            pivot: 0,
            token: Token::End,
            status: Status::CleanEnd,
            steps: Ghost(0nat),
        };
        proof {
            assert(source@.subrange(0, source@.len() as int) =~= source@);
        }
        lx.update_token();
        lx
    }

    /// The currently resolved token. It reflects the state after the most
    /// recent `new` or `advance`, never a raw, unresolved primitive match.
    pub fn token(&self) -> (t: &Token<'a>)
        ensures
            t@ == self.current(),
    {
        &self.token
    }

    /// The facade's current state: scanning, just past a resolved escape,
    /// or one of the three terminal outcomes.
    pub fn status(&self) -> (st: Status)
        ensures
            st == self.current_status(),
    {
        self.status
    }

    /// Step once: resolve the next token of the stream. Never fails; once a
    /// terminal state is reached, every further call yields the
    /// end-of-stream token and the same state. Resolving a reader escape
    /// searches the remaining buffer for the closing fence, so one call
    /// costs up to the length of the remaining source, not amortised
    /// constant time.
    pub fn advance(&mut self)
        requires
            old(self).wf(),
        ensures
            final(self).wf(),
            final(self).src() == old(self).src(),
            final(self).steps() == old(self).steps() + 1,
            final(self).current() == stream_token(old(self).src(), old(self).steps() + 1),
            final(self).current_status() == stream_status(old(self).src(), old(self).steps() + 1),
    {
        let ghost s = self.source@;
        let ghost n = self.steps@;
        match self.status {
            Status::Scanning => {
                let ghost old_end = self.inner.end as int;
                self.inner.advance();
                self.steps = Ghost(self.steps@ + 1);
                proof {
                    lemma_scan_translate(s, self.pivot as int, old_end);
                }
                self.update_token();
            },
            Status::EscapeContentFound => {
                self.steps = Ghost(self.steps@ + 1);
                self.update_token();
            },
            _ => {
                self.steps = Ghost(self.steps@ + 1);
                proof {
                    lemma_step_terminal(s, stream_pos(s, n));
                }
            },
        }
    }

    /// Resolve the classifier's current match into the current token:
    /// ordinary lexemes are wrapped directly into their token variant, an
    /// escape opener is handed to the escape resolver, end of input and an
    /// unmatchable position end the stream in their respective states.
    pub fn update_token(&mut self)
        requires
            old(self).ready(),
        ensures
            final(self).wf(),
            final(self).src() == old(self).src(),
            final(self).steps() == old(self).steps(),
            final(self).current() == stream_token(old(self).src(), old(self).steps()),
            final(self).current_status() == stream_status(old(self).src(), old(self).steps()),
    {
        let ghost s = self.source@;
        let ghost n = self.steps@;
        let ghost pos = stream_pos(s, n);
        let len = self.source.len();
        proof {
            lemma_stream_pos_range(s, n);
            lemma_ws_end(s, pos);
            lemma_scan_translate(s, self.pivot as int, self.inner.start as int);
        }
        match self.inner.kind {
            RawKind::End => {
                self.token = Token::End;
                self.status = Status::CleanEnd;
            },
            RawKind::Error => {
                self.token = Token::End;
                self.status = Status::NoMatch(self.pivot + self.inner.start);
            },
            RawKind::LiteralString => {
                let sl = slice_subrange(
                    self.source,
                    self.pivot + self.inner.start,
                    self.pivot + self.inner.end,
                );
                self.token = Token::LiteralString(sl);
                self.status = Status::Scanning;
            },
            RawKind::LiteralInteger => {
                let sl = slice_subrange(
                    self.source,
                    self.pivot + self.inner.start,
                    self.pivot + self.inner.end,
                );
                self.token = Token::LiteralInteger(sl);
                self.status = Status::Scanning;
            },
            RawKind::Symbol => {
                let sl = slice_subrange(
                    self.source,
                    self.pivot + self.inner.start,
                    self.pivot + self.inner.end,
                );
                self.token = Token::Symbol(sl);
                self.status = Status::Scanning;
            },
            RawKind::ParensOpen => {
                self.token = Token::ParensOpen;
                self.status = Status::Scanning;
            },
            RawKind::ParensClose => {
                self.token = Token::ParensClose;
                self.status = Status::Scanning;
            },
            RawKind::RecordOpen => {
                self.token = Token::RecordOpen;
                self.status = Status::Scanning;
            },
            RawKind::RecordClose => {
                self.token = Token::RecordClose;
                self.status = Status::Scanning;
            },
            RawKind::ArrayOpen => {
                self.token = Token::ArrayOpen;
                self.status = Status::Scanning;
            },
            RawKind::ArrayClose => {
                self.token = Token::ArrayClose;
                self.status = Status::Scanning;
            },
            RawKind::EscapeOpen => {
                proof {
                    lemma_escape_shape(s, self.pivot + self.inner.start);
                }
                // Split the matched text at the first marker character into
                // tag and fence.
                let first_sharp = run_end(self.inner.input, self.inner.start, ByteClass::EscapeHead);
                let match_end = EndIndex(self.pivot + self.inner.end);
                let fence_len = SharpCount(self.inner.end - first_sharp);
                let tag = slice_subrange(
                    self.source,
                    self.pivot + self.inner.start,
                    self.pivot + first_sharp,
                );
                let fence = slice_subrange(self.source, self.pivot + first_sharp, match_end.0);
                // Exactly one separator byte after the opening fence is
                // consumed unconditionally and is not part of the content.
                let rest_start = if match_end.0 < len {
                    match_end.0 + 1
                } else {
                    len
                };
                let rest = slice_subrange(self.source, rest_start, len);
                match find_first(rest, fence) {
                    Some(close) => {
                        proof {
                            lemma_find_sub_range(rest@, fence@, 0);
                        }
                        let content = slice_subrange(rest, 0, close.0);
                        let new_pivot = rest_start + close.0 + fence_len.0;
                        self.token = Token::ReaderEscape(tag, content);
                        self.pivot = new_pivot;
                        self.inner = Classifier::new(slice_subrange(self.source, new_pivot, len));
                        self.status = Status::EscapeContentFound;
                        proof {
                            lemma_scan_translate(s, new_pivot as int, 0);
                        }
                    },
                    None => {
                        self.token = Token::End;
                        self.status = Status::UnterminatedEscape;
                    },
                }
            },
        }
    }
}

} // verus!
