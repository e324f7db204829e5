use vstd::prelude::*;
use crate::error::FrameError;
use crate::model::ParsedView;
use crate::model::ParserState;
use crate::model::frame_of;
use crate::model::magic;
use crate::model::spec_be32;
use crate::model::be32_bytes;
use crate::model::spec_parse;

verus! {

/// The size of a frame header on the wire: the 8 magic bytes followed by a
/// big-endian unsigned 32-bit body length.
pub const HDR_SIZE: usize = 12;

/// The magic sentinel as owned bytes.
pub fn magic_prefix() -> (m: Vec<u8>)
    ensures
        m@ == magic(),
{
    let mut m: Vec<u8> = Vec::new();
    m.push(0x00);
    m.push(0xF1);
    m.push(0x01);
    m.push(0xE4);
    m.push(0x02);
    m.push(0xFF);
    m.push(0x03);
    m.push(0xDD);
    proof {
        assert(m@ =~= magic());
    }
    m
}

/// Appends the four big-endian bytes of `n`.
fn push_be32(out: &mut Vec<u8>, n: u32)
    ensures
        final(out)@ == old(out)@ + be32_bytes(n as nat),
{
    out.push(((n / 0x1000000) % 0x100) as u8);
    out.push(((n / 0x10000) % 0x100) as u8);
    out.push(((n / 0x100) % 0x100) as u8);
    out.push((n % 0x100) as u8);
    proof {
        assert(out@ =~= old(out)@ + be32_bytes(n as nat));
    }
}

/// Reads the body length out of a complete 12-byte header.
fn decode_len(hdr: &Vec<u8>) -> (n: u32)
    requires
        hdr@.len() == 12,
    ensures
        n as nat == spec_be32(hdr@.skip(8)),
{
    let n = (hdr[8] as u32) * 0x1000000 + (hdr[9] as u32) * 0x10000 + (hdr[10] as u32) * 0x100 + (
    hdr[11] as u32);
    proof {
        assert(hdr@.skip(8)[0] == hdr@[8]);
        assert(hdr@.skip(8)[1] == hdr@[9]);
        assert(hdr@.skip(8)[2] == hdr@[10]);
        assert(hdr@.skip(8)[3] == hdr@[11]);
    }
    n
}

/// Prepends the frame header to a payload.
pub trait FrameWriter: View<V = Seq<u8>> + Sized {
    /// Turns the payload into `MAGIC || LEN || BODY` in place.
    ///
    /// Fails with `CapacityExceeded` exactly when the payload length does not
    /// fit in an unsigned 32-bit length field; the payload is then unchanged.
    fn prepend_frame_in_place(&mut self) -> (r: Result<(), FrameError>)
        ensures
            match r {
                Ok(()) => old(self)@.len() <= u32::MAX && final(self)@ == frame_of(old(self)@),
                Err(e) => e == FrameError::CapacityExceeded && old(self)@.len() > u32::MAX && final(
                self)@ == old(self)@,
            },
    ;

    /// Consumes the payload and returns `MAGIC || LEN || BODY`.
    ///
    /// Fails with `CapacityExceeded` exactly when the payload length does not
    /// fit in an unsigned 32-bit length field.
    fn prepend_frame(self) -> (r: Result<Vec<u8>, FrameError>)
        ensures
            match r {
                Ok(framed) => self@.len() <= u32::MAX && framed@ == frame_of(self@),
                Err(e) => e == FrameError::CapacityExceeded && self@.len() > u32::MAX,
            },
    ;
}

impl FrameWriter for Vec<u8> {
    fn prepend_frame_in_place(&mut self) -> (r: Result<(), FrameError>) {
        if self.len() > u32::MAX as usize {
            return Err(FrameError::CapacityExceeded);
        }
        let n = self.len() as u32;
        let mut framed = magic_prefix();
        push_be32(&mut framed, n);
        framed.append(self);
        proof {
            assert(framed@ =~= frame_of(old(self)@));
        }
        *self = framed;
        Ok(())
    }

    fn prepend_frame(self) -> (r: Result<Vec<u8>, FrameError>) {
        let mut framed = self;
        match framed.prepend_frame_in_place() {
            Ok(()) => Ok(framed),
            Err(e) => Err(e),
        }
    }
}

/// One parsing outcome handed to the caller.
///
/// `Completed` carries a fully reconstructed message body. `Incompleted`
/// carries the expected body length and the body bytes accumulated so far; it
/// is terminal and becomes the next call's pending body. `TruncatedHeader`
/// carries a partial header, also terminal, and becomes the next call's
/// pending header.
#[derive(Debug, PartialEq, Eq)]
pub enum ParsedStreamData {
    Completed(Vec<u8>),
    Incompleted(usize, Vec<u8>),
    TruncatedHeader(Vec<u8>),
}

impl View for ParsedStreamData {
    type V = ParsedView;

    open spec fn view(&self) -> ParsedView {
        match self {
            ParsedStreamData::Completed(body) => ParsedView::Completed(body@),
            ParsedStreamData::Incompleted(expected, acc) => ParsedView::Incompleted(
                *expected as nat,
                acc@,
            ),
            ParsedStreamData::TruncatedHeader(partial) => ParsedView::TruncatedHeader(partial@),
        }
    }
}

/// The abstract parser state that a pair of residues stands for.
pub open spec fn state_of(
    last_incomplete_reception: Option<(usize, Vec<u8>)>,
    is_last_header_truncated: Option<Vec<u8>>,
) -> ParserState {
    match last_incomplete_reception {
        Some((expected, acc)) => ParserState::AwaitBody(expected as nat, acc@),
        None => match is_last_header_truncated {
            Some(partial) => ParserState::AwaitHeader(partial@),
            None => ParserState::Idle,
        },
    }
}

/// The abstract value of a sequence of parsing outcomes.
pub open spec fn emits_of(out: Seq<ParsedStreamData>) -> Seq<ParsedView> {
    out.map(|i: int, p: ParsedStreamData| p@)
}

/// The bytes of an optional partial header.
pub open spec fn pending_header_seq(pending: Option<Vec<u8>>) -> Seq<u8> {
    match pending {
        Some(partial) => partial@,
        None => Seq::empty(),
    }
}

/// How one body-or-header step classified the bytes at hand.
///
/// `Completed` is a message that used the whole buffer; `OneMessageAndRemains`
/// is a message followed by leftover bytes; `DataTooLittle` is a buffer
/// shorter than a freshly announced body; `StartWithNoHeaderAndIncompleted`
/// is a pending body extended by the whole buffer and still incomplete.
#[derive(Debug, PartialEq, Eq)]
pub enum HeaderParsing {
    Completed(usize, Vec<u8>),
    OneMessageAndRemains((usize, Vec<u8>), Vec<u8>),
    DataTooLittle(Vec<u8>),
    StartWithNoHeaderAndIncompleted(usize, Vec<u8>),
}

/// Whether a chunk ends inside the next header.
///
/// `Yes` carries the merged partial header to hand back to the caller; `No`
/// hands the chunk on, with `true` when the next bytes must begin a header.
#[derive(Debug, PartialEq, Eq)]
pub enum Truncating {
    Yes(Vec<u8>),
    No((Vec<u8>, bool)),
}

/// Splits a freshly announced body of length `msg_len` out of `data`.
pub fn has_hdr_first(msg_len: usize, data: Vec<u8>) -> (r: HeaderParsing)
    ensures
        match r {
            HeaderParsing::Completed(n, msg) => data@.len() == msg_len && n == msg_len && msg@
                == data@,
            HeaderParsing::OneMessageAndRemains((n, msg), rest) => data@.len() > msg_len && n
                == msg_len && msg@ == data@.take(msg_len as int) && rest@ == data@.skip(
            msg_len as int),
            HeaderParsing::DataTooLittle(msg) => data@.len() < msg_len && msg@ == data@,
            HeaderParsing::StartWithNoHeaderAndIncompleted(n, msg) => false,
        },
{
    let mut data = data;
    if data.len() == msg_len {
        HeaderParsing::Completed(msg_len, data)
    } else if data.len() > msg_len {
        let rest = data.split_off(msg_len);
        HeaderParsing::OneMessageAndRemains((msg_len, data), rest)
    } else {
        HeaderParsing::DataTooLittle(data)
    }
}

/// Extends a pending body with the bytes of `data`: completes it, completes
/// it with leftover bytes, or keeps accumulating. With no pending body the
/// chunk is handed back unchanged.
pub fn has_no_hdr_start(
    data: Vec<u8>,
    last_incomplete_reception: Option<(usize, Vec<u8>)>,
) -> (r: Result<HeaderParsing, Vec<u8>>)
    requires
        last_incomplete_reception matches Some((msg_len, acc)) ==> acc@.len() <= msg_len,
    ensures
        match r {
            Ok(hp) => last_incomplete_reception matches Some((msg_len, acc)) && {
                let remaining = msg_len - acc@.len();
                match hp {
                    HeaderParsing::Completed(n, msg) => n == msg_len && data@.len() == remaining
                        && msg@ == acc@ + data@,
                    HeaderParsing::OneMessageAndRemains((n, msg), rest) => n == msg_len
                        && data@.len() > remaining && msg@ == acc@ + data@.take(remaining) && rest@
                        == data@.skip(remaining),
                    HeaderParsing::StartWithNoHeaderAndIncompleted(n, msg) => n == msg_len
                        && data@.len() < remaining && msg@ == acc@ + data@,
                    HeaderParsing::DataTooLittle(msg) => false,
                }
            },
            Err(handed_back) => last_incomplete_reception is None && handed_back@ == data@,
        },
{
    let mut data = data;
    match last_incomplete_reception {
        Some((msg_len, acc)) => {
            let mut acc = acc;
            let remaining = msg_len - acc.len();
            if data.len() > remaining {
                let rest = data.split_off(remaining);
                acc.append(&mut data);
                Ok(HeaderParsing::OneMessageAndRemains((msg_len, acc), rest))
            } else if data.len() == remaining {
                acc.append(&mut data);
                Ok(HeaderParsing::Completed(msg_len, acc))
            } else {
                acc.append(&mut data);
                Ok(HeaderParsing::StartWithNoHeaderAndIncompleted(msg_len, acc))
            }
        },
        None => Err(data),
    }
}

/// Assembles a full 12-byte header candidate from an optional partial header
/// and the front of `data`, returning how many bytes of `data` it used.
pub fn compose_header_candidat(data: &[u8], is_last_header_truncated: Option<Vec<u8>>) -> (r:
    Result<(usize, Vec<u8>), FrameError>)
    requires
        match is_last_header_truncated {
            Some(partial) => partial@.len() < 12 && partial@.len() + data@.len() >= 12,
            None => data@.len() >= 12,
        },
    ensures
        r matches Ok((consumed, hdr)) && match is_last_header_truncated {
            Some(partial) => consumed == 12 - partial@.len() && hdr@ == partial@ + data@.take(
            12 - partial@.len()),
            None => consumed == 12 && hdr@ == data@.take(12),
        },
{
    match is_last_header_truncated {
        Some(partial) => {
            let mut hdr = partial;
            let want = 12 - hdr.len();
            let mut suffix = vstd::slice::slice_to_vec(vstd::slice::slice_subrange(data, 0, want));
            hdr.append(&mut suffix);
            proof {
                assert(hdr@ =~= partial@ + data@.take(12 - partial@.len()));
            }
            Ok((want, hdr))
        },
        None => {
            let hdr = vstd::slice::slice_to_vec(vstd::slice::slice_subrange(data, 0, 12));
            proof {
                assert(hdr@ =~= data@.take(12));
            }
            Ok((12, hdr))
        },
    }
}

/// Decides whether the next header is cut off by the end of this chunk.
///
/// With a pending body the question does not arise and the chunk is handed
/// on. Otherwise, when the pending partial header and the chunk together
/// still fall short of the 12 header bytes, the merged partial header is
/// returned and the pending one consumed; else the chunk is handed on and a
/// header boundary is next.
pub fn is_data_size_truncating_next_header(
    data: Vec<u8>,
    last_incomplete_reception: &Option<(usize, Vec<u8>)>,
    is_last_header_truncated: &mut Option<Vec<u8>>,
) -> (t: Truncating)
    requires
        *old(is_last_header_truncated) matches Some(partial) ==> partial@.len() <= 11,
    ensures
        match t {
            Truncating::Yes(merged) => {
                &&& last_incomplete_reception is None
                &&& pending_header_seq(*old(is_last_header_truncated)).len() + data@.len() < 12
                &&& merged@ == pending_header_seq(*old(is_last_header_truncated)) + data@
                &&& *final(is_last_header_truncated) is None
            },
            Truncating::No((handed_on, header_next)) => {
                &&& handed_on@ == data@
                &&& *final(is_last_header_truncated) == *old(is_last_header_truncated)
                &&& header_next == (last_incomplete_reception is None)
                &&& (last_incomplete_reception is None ==> pending_header_seq(
                    *old(is_last_header_truncated)).len() + data@.len() >= 12)
            },
        },
{
    if last_incomplete_reception.is_some() {
        return Truncating::No((data, false));
    }
    let pending_len = match is_last_header_truncated.as_ref() {
        Some(partial) => partial.len(),
        None => 0,
    };
    if data.len() < 12 - pending_len {
        let mut merged = match is_last_header_truncated.take() {
            Some(partial) => partial,
            None => Vec::new(),
        };
        let mut rest = data;
        let ghost arrived = rest@;
        merged.append(&mut rest);
        proof {
            assert(merged@ =~= pending_header_seq(*old(is_last_header_truncated)) + arrived);
        }
        return Truncating::Yes(merged);
    }
    Truncating::No((data, true))
}

/// Parses arrived chunks back into the original message sequence.
pub trait FrameParser: View<V = Seq<u8>> + Sized {
    /// Parses one chunk together with the residues of the previous call.
    ///
    /// Returns exactly the outcomes the framing state machine prescribes for
    /// this chunk: one `Completed` per message body that ends inside the
    /// chunk, in wire order, then at most one terminal `Incompleted` or
    /// `TruncatedHeader` residue for the caller to carry into the next call.
    /// Fails with `MagicMismatch` exactly when the machine reaches a complete
    /// header that does not start with the magic sentinel.
    fn parse_frame_header(
        self,
        last_incomplete_reception: Option<(usize, Vec<u8>)>,
        is_last_header_truncated: Option<Vec<u8>>,
    ) -> (r: Result<Vec<ParsedStreamData>, FrameError>)
        requires
            last_incomplete_reception matches Some((expected, acc)) ==> acc@.len() < expected,
            is_last_header_truncated matches Some(partial) ==> 1 <= partial@.len() <= 11,
            !(last_incomplete_reception is Some && is_last_header_truncated is Some),
        ensures
            match spec_parse(
                self@,
                state_of(last_incomplete_reception, is_last_header_truncated),
            ) {
                Ok(out) => r matches Ok(v) && emits_of(v@) == out,
                Err(e) => r matches Err(e2) && e2 == e,
            },
    ;
}

impl FrameParser for Vec<u8> {
    fn parse_frame_header(
        self,
        last_incomplete_reception: Option<(usize, Vec<u8>)>,
        is_last_header_truncated: Option<Vec<u8>>,
    ) -> (r: Result<Vec<ParsedStreamData>, FrameError>) {
        let ghost data0: Seq<u8> = self@;
        let ghost st0: ParserState = state_of(last_incomplete_reception, is_last_header_truncated);
        let mut data = self;
        let mut pending_body = last_incomplete_reception;
        let mut pending_hdr = is_last_header_truncated;
        let mut output: Vec<ParsedStreamData> = Vec::new();
        proof {
            assert(emits_of(output@) =~= Seq::<ParsedView>::empty());
            let r0 = spec_parse(data0, st0);
            match r0 {
                Ok(tail) => {
                    assert(emits_of(output@) + tail =~= tail);
                },
                Err(e) => {},
            }
        }
        loop
            invariant
                data0 == self@,
                st0 == state_of(last_incomplete_reception, is_last_header_truncated),
                pending_body matches Some((expected, acc)) ==> acc@.len() < expected,
                pending_hdr matches Some(partial) ==> 1 <= partial@.len() <= 11,
                !(pending_body is Some && pending_hdr is Some),
                match spec_parse(data@, state_of(pending_body, pending_hdr)) {
                    Ok(tail) => spec_parse(data0, st0) == Ok::<Seq<ParsedView>, FrameError>(
                        emits_of(output@) + tail,
                    ),
                    Err(e) => spec_parse(data0, st0) == Err::<Seq<ParsedView>, FrameError>(e),
                },
            decreases data@.len(),
        {
            let ghost d_pre = data@;
            let ghost st_pre = state_of(pending_body, pending_hdr);
            let ghost out_pre = output@;
            match pending_body.take() {
                Some(pb) => {
                    let ghost expected = pb.0 as nat;
                    let ghost acc0 = pb.1@;
                    let ghost need: int = expected - acc0.len();
                    proof {
                        assert(st_pre == ParserState::AwaitBody(expected, acc0));
                    }
                    match has_no_hdr_start(data, Some(pb)) {
                        Ok(hp) => match hp {
                            HeaderParsing::OneMessageAndRemains((msg_len, msg), rest) => {
                                let ghost msgv = msg@;
                                let ghost restv = rest@;
                                proof {
                                    assert(msgv == acc0 + d_pre.take(need));
                                    assert(restv == d_pre.skip(need));
                                }
                                output.push(ParsedStreamData::Completed(msg));
                                data = rest;
                                proof {
                                    let item = ParsedView::Completed(msgv);
                                    assert(emits_of(output@) =~= emits_of(out_pre) + seq![item]);
                                    match spec_parse(restv, ParserState::Idle) {
                                        Ok(tail) => {
                                            assert(spec_parse(d_pre, st_pre) == Ok::<
                                                Seq<ParsedView>,
                                                FrameError,
                                            >(seq![item] + tail));
                                            assert(emits_of(out_pre) + (seq![item] + tail) =~= (
                                            emits_of(out_pre) + seq![item]) + tail);
                                        },
                                        Err(e) => {},
                                    }
                                }
                            },
                            HeaderParsing::Completed(msg_len, msg) => {
                                let ghost msgv = msg@;
                                proof {
                                    assert(d_pre.take(need) =~= d_pre);
                                    assert(msgv == acc0 + d_pre.take(need));
                                    assert(d_pre.skip(need) =~= Seq::<u8>::empty());
                                    let item = ParsedView::Completed(msgv);
                                    assert(spec_parse(Seq::<u8>::empty(), ParserState::Idle)
                                        == Ok::<Seq<ParsedView>, FrameError>(Seq::empty()));
                                    assert(seq![item] + Seq::<ParsedView>::empty() =~= seq![item]);
                                    assert(spec_parse(d_pre, st_pre) == Ok::<
                                        Seq<ParsedView>,
                                        FrameError,
                                    >(seq![item]));
                                }
                                output.push(ParsedStreamData::Completed(msg));
                                proof {
                                    let item = ParsedView::Completed(msgv);
                                    assert(emits_of(output@) =~= emits_of(out_pre) + seq![item]);
                                }
                                return Ok(output);
                            },
                            HeaderParsing::StartWithNoHeaderAndIncompleted(msg_len, msg) => {
                                let ghost msgv = msg@;
                                proof {
                                    assert(msgv == acc0 + d_pre);
                                    let item = ParsedView::Incompleted(expected, msgv);
                                    assert(spec_parse(d_pre, st_pre) == Ok::<
                                        Seq<ParsedView>,
                                        FrameError,
                                    >(seq![item]));
                                }
                                output.push(ParsedStreamData::Incompleted(msg_len, msg));
                                proof {
                                    let item = ParsedView::Incompleted(expected, msgv);
                                    assert(emits_of(output@) =~= emits_of(out_pre) + seq![item]);
                                }
                                return Ok(output);
                            },
                            HeaderParsing::DataTooLittle(_) => {
                                return vstd::pervasive::unreached();
                            },
                        },
                        Err(_) => {
                            return vstd::pervasive::unreached();
                        },
                    }
                },
                None => {
                    let ghost ph_pre = pending_hdr;
                    match is_data_size_truncating_next_header(data, &pending_body, &mut pending_hdr) {
                        Truncating::Yes(merged) => {
                            let ghost mergedv = merged@;
                            proof {
                                assert(mergedv == pending_header_seq(ph_pre) + d_pre);
                            }
                            if merged.len() > 0 {
                                output.push(ParsedStreamData::TruncatedHeader(merged));
                            }
                            proof {
                                match st_pre {
                                    ParserState::AwaitHeader(partial) => {
                                        let item = ParsedView::TruncatedHeader(partial + d_pre);
                                        assert(spec_parse(d_pre, st_pre) == Ok::<
                                            Seq<ParsedView>,
                                            FrameError,
                                        >(seq![item]));
                                        assert(emits_of(output@) =~= emits_of(out_pre)
                                            + seq![item]);
                                    },
                                    ParserState::Idle => {
                                        if d_pre.len() == 0 {
                                            assert(emits_of(output@) =~= emits_of(out_pre));
                                        } else {
                                            let item = ParsedView::TruncatedHeader(d_pre);
                                            assert(mergedv =~= d_pre);
                                            assert(spec_parse(d_pre, st_pre) == Ok::<
                                                Seq<ParsedView>,
                                                FrameError,
                                            >(seq![item]));
                                            assert(emits_of(output@) =~= emits_of(out_pre)
                                                + seq![item]);
                                        }
                                    },
                                    ParserState::AwaitBody(expected, acc) => {
                                        assert(false);
                                    },
                                }
                            }
                            return Ok(output);
                        },
                        Truncating::No((handed_on, _)) => {
                            let prev = pending_hdr.take();
                            let ghost pseq = pending_header_seq(prev);
                            let mut d = handed_on;
                            let (consumed, hdr) = match compose_header_candidat(d.as_slice(), prev) {
                                Ok(pair) => pair,
                                Err(_) => {
                                    return vstd::pervasive::unreached();
                                },
                            };
                            proof {
                                assert(hdr@ =~= pseq + d_pre.take(12 - pseq.len()));
                                assert(hdr@.len() == 12);
                            }
                            let rest = d.split_off(consumed);
                            let ghost restv = rest@;
                            proof {
                                assert(restv =~= d_pre.skip(consumed as int));
                            }
                            let ghost hdr_spec: Seq<u8> = match st_pre {
                                ParserState::AwaitHeader(partial) => (partial + d_pre.take(
                                    12 - partial.len(),
                                )).take(12),
                                _ => d_pre.take(12),
                            };
                            proof {
                                assert(hdr_spec =~= hdr@);
                            }
                            if !is_header(hdr.as_slice()) {
                                proof {
                                    assert(spec_parse(d_pre, st_pre) == Err::<
                                        Seq<ParsedView>,
                                        FrameError,
                                    >(FrameError::MagicMismatch));
                                }
                                return Err(FrameError::MagicMismatch);
                            }
                            let n32 = decode_len(&hdr);
                            let n = n32 as usize;
                            let ghost nn = n as nat;
                            proof {
                                assert(hdr@.skip(8) =~= hdr_spec.skip(8));
                                assert(nn == spec_be32(hdr_spec.skip(8)));
                                assert(spec_parse(d_pre, st_pre) == spec_parse(
                                    restv,
                                    ParserState::AwaitBody(nn, Seq::empty()),
                                ));
                            }
                            match has_hdr_first(n, rest) {
                                HeaderParsing::Completed(msg_len, msg) => {
                                    let ghost msgv = msg@;
                                    proof {
                                        assert(Seq::<u8>::empty() + restv.take(nn as int)
                                            =~= msgv);
                                        assert(restv.skip(nn as int) =~= Seq::<u8>::empty());
                                        let item = ParsedView::Completed(msgv);
                                        assert(spec_parse(Seq::<u8>::empty(), ParserState::Idle)
                                            == Ok::<Seq<ParsedView>, FrameError>(Seq::empty()));
                                        assert(seq![item] + Seq::<ParsedView>::empty()
                                            =~= seq![item]);
                                        assert(spec_parse(restv, ParserState::AwaitBody(
                                            nn,
                                            Seq::empty(),
                                        )) == Ok::<Seq<ParsedView>, FrameError>(seq![item]));
                                    }
                                    output.push(ParsedStreamData::Completed(msg));
                                    proof {
                                        let item = ParsedView::Completed(msgv);
                                        assert(emits_of(output@) =~= emits_of(out_pre)
                                            + seq![item]);
                                    }
                                    return Ok(output);
                                },
                                HeaderParsing::OneMessageAndRemains((msg_len, msg), rem) => {
                                    let ghost msgv = msg@;
                                    let ghost remv = rem@;
                                    proof {
                                        assert(Seq::<u8>::empty() + restv.take(nn as int)
                                            =~= msgv);
                                        assert(remv == restv.skip(nn as int));
                                    }
                                    output.push(ParsedStreamData::Completed(msg));
                                    data = rem;
                                    proof {
                                        let item = ParsedView::Completed(msgv);
                                        assert(emits_of(output@) =~= emits_of(out_pre)
                                            + seq![item]);
                                        match spec_parse(remv, ParserState::Idle) {
                                            Ok(tail) => {
                                                assert(spec_parse(restv, ParserState::AwaitBody(
                                                    nn,
                                                    Seq::empty(),
                                                )) == Ok::<Seq<ParsedView>, FrameError>(
                                                    seq![item] + tail,
                                                ));
                                                assert(emits_of(out_pre) + (seq![item] + tail)
                                                    =~= (emits_of(out_pre) + seq![item]) + tail);
                                            },
                                            Err(e) => {},
                                        }
                                        assert(data@.len() < d_pre.len());
                                    }
                                },
                                HeaderParsing::DataTooLittle(msg) => {
                                    let ghost msgv = msg@;
                                    proof {
                                        assert(Seq::<u8>::empty() + restv =~= msgv);
                                        let item = ParsedView::Incompleted(nn, msgv);
                                        assert(spec_parse(restv, ParserState::AwaitBody(
                                            nn,
                                            Seq::empty(),
                                        )) == Ok::<Seq<ParsedView>, FrameError>(seq![item]));
                                    }
                                    output.push(ParsedStreamData::Incompleted(n, msg));
                                    proof {
                                        let item = ParsedView::Incompleted(nn, msgv);
                                        assert(emits_of(output@) =~= emits_of(out_pre)
                                            + seq![item]);
                                    }
                                    return Ok(output);
                                },
                                HeaderParsing::StartWithNoHeaderAndIncompleted(_, _) => {
                                    return vstd::pervasive::unreached();
                                },
                            }
                        },
                    }
                },
            }
        }
    }
}

/// Whether `hdr` is exactly one header-sized buffer that starts with the
/// magic sentinel.
pub fn is_header(hdr: &[u8]) -> (r: bool)
    ensures
        r == (hdr@.len() == 12 && hdr@.take(8) == magic()),
{
    if hdr.len() != 12 {
        return false;
    }
    let ok = hdr[0] == 0x00 && hdr[1] == 0xF1 && hdr[2] == 0x01 && hdr[3] == 0xE4 && hdr[4] == 0x02
        && hdr[5] == 0xFF && hdr[6] == 0x03 && hdr[7] == 0xDD;
    proof {
        if ok {
            assert(hdr@.take(8) =~= magic());
        } else {
            if hdr@.take(8) == magic() {
                assert(forall|i: int| 0 <= i < 8 ==> hdr@.take(8)[i] == hdr@[i]);
                assert(false);
            }
        }
    }
    ok
}

} // verus!
