use vstd::prelude::*;
use crate::error::FrameError;

verus! {

/// The 8-byte sentinel that begins every frame header.
pub open spec fn magic() -> Seq<u8> {
    seq![0x00u8, 0xF1u8, 0x01u8, 0xE4u8, 0x02u8, 0xFFu8, 0x03u8, 0xDDu8]
}

/// The value of four bytes read as a big-endian unsigned 32-bit integer.
pub open spec fn spec_be32(s: Seq<u8>) -> nat
    recommends
        s.len() == 4,
{
    ((s[0] as nat) * 0x1000000 + (s[1] as nat) * 0x10000 + (s[2] as nat) * 0x100 + (
    s[3] as nat)) as nat
}

/// The four big-endian bytes of `n`, for `n <= u32::MAX`.
pub open spec fn be32_bytes(n: nat) -> Seq<u8>
    recommends
        n <= u32::MAX,
{
    seq![
        (((n / 0x1000000) % 0x100) as u8),
        (((n / 0x10000) % 0x100) as u8),
        (((n / 0x100) % 0x100) as u8),
        ((n % 0x100) as u8),
    ]
}

/// The wire encoding of one payload: `MAGIC || LEN (big-endian u32) || BODY`.
pub open spec fn frame_of(payload: Seq<u8>) -> Seq<u8>
    recommends
        payload.len() <= u32::MAX,
{
    magic() + be32_bytes(payload.len()) + payload
}

/// The concatenation of the frames of a message sequence.
pub open spec fn frames_of(msgs: Seq<Seq<u8>>) -> Seq<u8>
    decreases msgs.len(),
{
    if msgs.len() == 0 {
        Seq::empty()
    } else {
        frame_of(msgs[0]) + frames_of(msgs.drop_first())
    }
}

/// The concatenation of a sequence of delivery chunks.
pub open spec fn concat_chunks(chunks: Seq<Seq<u8>>) -> Seq<u8>
    decreases chunks.len(),
{
    if chunks.len() == 0 {
        Seq::empty()
    } else {
        chunks[0] + concat_chunks(chunks.drop_first())
    }
}

/// The parser's abstract state between two bytes of the stream: either no
/// residue, a partial header, or a partial body with its expected length.
pub ghost enum ParserState {
    Idle,
    AwaitHeader(Seq<u8>),
    AwaitBody(nat, Seq<u8>),
}

/// The abstract value of one parsing outcome.
pub ghost enum ParsedView {
    Completed(Seq<u8>),
    Incompleted(nat, Seq<u8>),
    TruncatedHeader(Seq<u8>),
}

/// Well-formedness of a parser state: a partial header is strictly shorter
/// than a full header and non-empty, and a partial body never holds more
/// bytes than its expected length.
pub open spec fn wf_state(st: ParserState) -> bool {
    match st {
        ParserState::Idle => true,
        ParserState::AwaitHeader(partial) => 1 <= partial.len() <= 11,
        ParserState::AwaitBody(expected, acc) => acc.len() <= expected,
    }
}

/// A measure that orders the states a single byte position can move through
/// without consuming input, so that `spec_parse` terminates.
pub open spec fn state_rank(st: ParserState) -> nat {
    match st {
        ParserState::Idle => 0,
        ParserState::AwaitBody(expected, acc) => 1,
        ParserState::AwaitHeader(partial) => 2,
    }
}

/// The framing state machine: what one `parse` call returns, given the
/// arrived bytes and the state carried over from the previous call.
///
/// Every body completion emits `Completed`; a chunk boundary inside a body or
/// a header emits one terminal `Incompleted` or `TruncatedHeader`; bytes that
/// must begin a header but do not start with the magic sentinel are a
/// `MagicMismatch` failure.
pub open spec fn spec_parse(data: Seq<u8>, st: ParserState) -> Result<Seq<ParsedView>, FrameError>
    decreases data.len(), state_rank(st),
{
    match st {
        ParserState::AwaitBody(expected, acc) => {
            let need: int = if acc.len() <= expected {
                expected - acc.len()
            } else {
                0
            };
            if data.len() < need {
                Ok(seq![ParsedView::Incompleted(expected, acc + data)])
            } else {
                let body = acc + data.take(need);
                match spec_parse(data.skip(need), ParserState::Idle) {
                    Ok(tail) => Ok(seq![ParsedView::Completed(body)] + tail),
                    Err(e) => Err(e),
                }
            }
        },
        ParserState::AwaitHeader(partial) => {
            if partial.len() + data.len() < 12 {
                Ok(seq![ParsedView::TruncatedHeader(partial + data)])
            } else {
                let want: int = if partial.len() <= 12 {
                    12 - partial.len()
                } else {
                    0
                };
                let hdr = (partial + data.take(want)).take(12);
                if hdr.take(8) == magic() {
                    spec_parse(
                        data.skip(want),
                        ParserState::AwaitBody(spec_be32(hdr.skip(8)), Seq::empty()),
                    )
                } else {
                    Err(FrameError::MagicMismatch)
                }
            }
        },
        ParserState::Idle => {
            if data.len() == 0 {
                Ok(Seq::empty())
            } else if data.len() < 12 {
                Ok(seq![ParsedView::TruncatedHeader(data)])
            } else {
                let hdr = data.take(12);
                if hdr.take(8) == magic() {
                    spec_parse(
                        data.skip(12),
                        ParserState::AwaitBody(spec_be32(hdr.skip(8)), Seq::empty()),
                    )
                } else {
                    Err(FrameError::MagicMismatch)
                }
            }
        },
    }
}

/// The bodies of the completed messages among a call's outcomes, in order.
pub open spec fn completed_of(out: Seq<ParsedView>) -> Seq<Seq<u8>>
    decreases out.len(),
{
    if out.len() == 0 {
        Seq::empty()
    } else {
        match out[0] {
            ParsedView::Completed(body) => seq![body] + completed_of(out.drop_first()),
            _ => completed_of(out.drop_first()),
        }
    }
}

/// The state the caller must carry into the next call, read off a call's
/// outcomes: the trailing residue if one was emitted, otherwise no residue.
pub open spec fn residue_of(out: Seq<ParsedView>) -> ParserState {
    if out.len() == 0 {
        ParserState::Idle
    } else {
        match out.last() {
            ParsedView::Completed(body) => ParserState::Idle,
            ParsedView::Incompleted(expected, acc) => ParserState::AwaitBody(expected, acc),
            ParsedView::TruncatedHeader(partial) => ParserState::AwaitHeader(partial),
        }
    }
}

/// The residue invariant on a parser state: a pending body holds strictly
/// fewer bytes than its expected length. This is what every residue the
/// parser hands back satisfies, and what its inputs must satisfy.
pub open spec fn residue_state(st: ParserState) -> bool {
    match st {
        ParserState::Idle => true,
        ParserState::AwaitHeader(partial) => 1 <= partial.len() <= 11,
        ParserState::AwaitBody(expected, acc) => acc.len() < expected,
    }
}

/// One `Completed` outcome per message, in order.
pub open spec fn completed_views(msgs: Seq<Seq<u8>>) -> Seq<ParsedView> {
    msgs.map(|i: int, m: Seq<u8>| ParsedView::Completed(m))
}

/// The shape every successful call's outcomes have: every outcome before the
/// last is a completed message, and a trailing residue is well formed — a
/// partial header of 1 to 11 bytes, or a partial body strictly shorter than
/// its expected length.
pub open spec fn emissions_ok(out: Seq<ParsedView>) -> bool {
    &&& forall|i: int| 0 <= i < out.len() - 1 ==> out[i] is Completed
    &&& (out.len() > 0 ==> match out.last() {
        ParsedView::Completed(body) => true,
        ParsedView::Incompleted(expected, acc) => acc.len() < expected,
        ParsedView::TruncatedHeader(partial) => 1 <= partial.len() <= 11,
    })
}

/// A call's outcomes without the trailing residue, if one was emitted.
pub open spec fn drop_terminal(out: Seq<ParsedView>) -> Seq<ParsedView> {
    if out.len() > 0 && !(out.last() is Completed) {
        out.drop_last()
    } else {
        out
    }
}

/// Feeding a sequence of chunks through the parser one call after the other,
/// carrying the residue between calls: the completed message bodies across
/// all calls, and the residue left after the last one.
pub open spec fn stream_parse(chunks: Seq<Seq<u8>>, st: ParserState) -> Result<
    (Seq<Seq<u8>>, ParserState),
    FrameError,
>
    decreases chunks.len(),
{
    if chunks.len() == 0 {
        Ok((Seq::empty(), st))
    } else {
        match spec_parse(chunks[0], st) {
            Err(e) => Err(e),
            Ok(out) => match stream_parse(chunks.drop_first(), residue_of(out)) {
                Err(e) => Err(e),
                Ok((msgs, fin)) => Ok((completed_of(out) + msgs, fin)),
            },
        }
    }
}

} // verus!
