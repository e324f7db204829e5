use vstd::prelude::*;
use vstd::arithmetic::div_mod::lemma_mod_breakdown;
use vstd::arithmetic::div_mod::lemma_small_mod;
use crate::model::spec_be32;
use crate::model::be32_bytes;
use crate::model::magic;
use crate::model::frame_of;
use crate::model::frames_of;
use crate::model::concat_chunks;
use crate::model::ParserState;
use crate::model::ParsedView;
use crate::model::wf_state;
use crate::model::residue_state;
use crate::model::completed_views;
use crate::model::state_rank;
use crate::model::spec_parse;
use crate::model::stream_parse;
use crate::model::completed_of;
use crate::model::residue_of;
use crate::model::emissions_ok;
use crate::model::drop_terminal;
use crate::error::FrameError;

verus! {

/// Residue invariant: a successful call emits completed messages in order,
/// then at most one trailing residue; a trailing partial header has 1 to 11
/// bytes, and a trailing partial body is strictly shorter than its expected
/// length.
pub proof fn lemma_parse_emissions(data: Seq<u8>, st: ParserState)
    requires
        wf_state(st),
    ensures
        spec_parse(data, st) matches Ok(out) ==> emissions_ok(out),
    decreases data.len(), state_rank(st),
{
    match st {
        ParserState::AwaitBody(expected, acc) => {
            let need: int = expected - acc.len();
            if data.len() < need {
                let out = seq![ParsedView::Incompleted(expected, acc + data)];
                assert(out.last() == ParsedView::Incompleted(expected, acc + data));
                assert(emissions_ok(out));
            } else {
                lemma_parse_emissions(data.skip(need), ParserState::Idle);
                match spec_parse(data.skip(need), ParserState::Idle) {
                    Ok(tail) => {
                        let body = acc + data.take(need);
                        let out = seq![ParsedView::Completed(body)] + tail;
                        assert(spec_parse(data, st) == Ok::<Seq<ParsedView>, FrameError>(out));
                        assert forall|i: int| 0 <= i < out.len() - 1 implies out[i]
                            is Completed by {
                            if i > 0 {
                                assert(out[i] == tail[i - 1]);
                            }
                        }
                        if tail.len() > 0 {
                            assert(out.last() == tail.last());
                        }
                        assert(emissions_ok(out));
                    },
                    Err(e) => {},
                }
            }
        },
        ParserState::AwaitHeader(partial) => {
            if partial.len() + data.len() < 12 {
                let out = seq![ParsedView::TruncatedHeader(partial + data)];
                assert(out.last() == ParsedView::TruncatedHeader(partial + data));
                assert(emissions_ok(out));
            } else {
                let want: int = 12 - partial.len();
                let hdr = (partial + data.take(want)).take(12);
                if hdr.take(8) == magic() {
                    lemma_parse_emissions(
                        data.skip(want),
                        ParserState::AwaitBody(spec_be32(hdr.skip(8)), Seq::empty()),
                    );
                }
            }
        },
        ParserState::Idle => {
            if data.len() == 0 {
            } else if data.len() < 12 {
                let out = seq![ParsedView::TruncatedHeader(data)];
                assert(out.last() == ParsedView::TruncatedHeader(data));
                assert(emissions_ok(out));
            } else {
                let hdr = data.take(12);
                if hdr.take(8) == magic() {
                    lemma_parse_emissions(
                        data.skip(12),
                        ParserState::AwaitBody(spec_be32(hdr.skip(8)), Seq::empty()),
                    );
                }
            }
        },
    }
}

/// The residue a successful call leaves is a well-formed parser state and
/// satisfies the residue invariant.
pub proof fn lemma_residue_wf(out: Seq<ParsedView>)
    requires
        emissions_ok(out),
    ensures
        wf_state(residue_of(out)),
        residue_state(residue_of(out)),
{
}

/// Dropping the trailing residue leaves only completed messages, and the
/// completed bodies unchanged.
proof fn lemma_drop_terminal_completed(out: Seq<ParsedView>)
    requires
        emissions_ok(out),
    ensures
        forall|i: int| 0 <= i < drop_terminal(out).len() ==> drop_terminal(out)[i] is Completed,
        completed_of(drop_terminal(out)) == completed_of(out),
{
    if out.len() > 0 && !(out.last() is Completed) {
        lemma_completed_of_drop_last(out);
        assert forall|i: int| 0 <= i < drop_terminal(out).len() implies drop_terminal(out)[i]
            is Completed by {
            assert(drop_terminal(out)[i] == out[i]);
        }
    } else {
        assert forall|i: int| 0 <= i < drop_terminal(out).len() implies drop_terminal(out)[i]
            is Completed by {
            if i == out.len() - 1 {
                assert(out[i] == out.last());
            }
        }
    }
}

/// Appending further outcomes to a run of completed messages leaves the
/// residue of the appended run.
proof fn lemma_residue_of_append(x: Seq<ParsedView>, y: Seq<ParsedView>)
    requires
        forall|i: int| 0 <= i < x.len() ==> x[i] is Completed,
    ensures
        residue_of(x + y) == residue_of(y),
{
    if y.len() > 0 {
        assert((x + y).last() == y.last());
    } else {
        assert(x + y =~= x);
        if x.len() > 0 {
            assert(x.last() is Completed);
        }
    }
}

/// The completed bodies of concatenated outcome runs are the concatenated
/// completed bodies.
proof fn lemma_completed_of_append(x: Seq<ParsedView>, y: Seq<ParsedView>)
    ensures
        completed_of(x + y) == completed_of(x) + completed_of(y),
    decreases x.len(),
{
    if x.len() == 0 {
        assert(x + y =~= y);
        assert(completed_of(x) + completed_of(y) =~= completed_of(y));
    } else {
        assert((x + y)[0] == x[0]);
        assert((x + y).drop_first() =~= x.drop_first() + y);
        lemma_completed_of_append(x.drop_first(), y);
        match x[0] {
            ParsedView::Completed(body) => {
                assert(seq![body] + (completed_of(x.drop_first()) + completed_of(y)) =~= (
                seq![body] + completed_of(x.drop_first())) + completed_of(y));
            },
            _ => {},
        }
    }
}

/// Dropping a trailing outcome that is not a completed message leaves the
/// completed bodies unchanged.
proof fn lemma_completed_of_drop_last(out: Seq<ParsedView>)
    requires
        out.len() > 0,
        !(out.last() is Completed),
    ensures
        completed_of(out.drop_last()) == completed_of(out),
    decreases out.len(),
{
    if out.len() == 1 {
        assert(out[0] == out.last());
        assert(out.drop_last() =~= Seq::<ParsedView>::empty());
        assert(out.drop_first() =~= Seq::<ParsedView>::empty());
        assert(completed_of(Seq::<ParsedView>::empty()) == Seq::<Seq<u8>>::empty());
        match out[0] {
            ParsedView::Completed(body) => {
                assert(false);
            },
            _ => {
                assert(completed_of(out) == completed_of(out.drop_first()));
            },
        }
    } else {
        assert(out.drop_last()[0] == out[0]);
        assert(out.drop_last().drop_first() =~= out.drop_first().drop_last());
        assert(out.drop_first().last() == out.last());
        lemma_completed_of_drop_last(out.drop_first());
        match out[0] {
            ParsedView::Completed(body) => {
                assert(completed_of(out) == seq![body] + completed_of(out.drop_first()));
                assert(completed_of(out.drop_last()) == seq![body] + completed_of(
                    out.drop_last().drop_first(),
                ));
            },
            _ => {
                assert(completed_of(out) == completed_of(out.drop_first()));
                assert(completed_of(out.drop_last()) == completed_of(
                    out.drop_last().drop_first(),
                ));
            },
        }
    }
}

/// Chunk boundaries do not matter: parsing `a + b` in one call yields the
/// same messages and the same trailing residue as parsing `a`, carrying its
/// residue over, and parsing `b` from it — and the same failure, if any side
/// fails.
/// Chunk boundaries do not matter: parsing `a + b` in one call yields the
/// same messages and the same trailing residue as parsing `a`, carrying its
/// residue over, and parsing `b` from it — and the same failure, if any side
/// fails.
pub proof fn lemma_parse_append(a: Seq<u8>, b: Seq<u8>, st: ParserState)
    requires
        wf_state(st),
    ensures
        match spec_parse(a, st) {
            Err(e) => spec_parse(a + b, st) == Err::<Seq<ParsedView>, FrameError>(e),
            Ok(out1) => match spec_parse(b, residue_of(out1)) {
                Err(e) => spec_parse(a + b, st) == Err::<Seq<ParsedView>, FrameError>(e),
                Ok(out2) => spec_parse(a + b, st) == Ok::<Seq<ParsedView>, FrameError>(
                    drop_terminal(out1) + out2,
                ),
            },
        },
    decreases a.len(), state_rank(st), 1int,
{
    match st {
        ParserState::AwaitBody(expected, acc) => {
            lemma_parse_append_await_body(a, b, st);
        },
        ParserState::AwaitHeader(partial) => {
            lemma_parse_append_await_header(a, b, st);
        },
        ParserState::Idle => {
            lemma_parse_append_idle(a, b, st);
        },
    }
}

#[verifier::spinoff_prover]
proof fn lemma_parse_append_await_body(a: Seq<u8>, b: Seq<u8>, st: ParserState)
    requires
        wf_state(st),
        st is AwaitBody,
    ensures
        match spec_parse(a, st) {
            Err(e) => spec_parse(a + b, st) == Err::<Seq<ParsedView>, FrameError>(e),
            Ok(out1) => match spec_parse(b, residue_of(out1)) {
                Err(e) => spec_parse(a + b, st) == Err::<Seq<ParsedView>, FrameError>(e),
                Ok(out2) => spec_parse(a + b, st) == Ok::<Seq<ParsedView>, FrameError>(
                    drop_terminal(out1) + out2,
                ),
            },
        },
    decreases a.len(), state_rank(st), 0int,
{
    match st {
        ParserState::AwaitBody(expected, acc) => {
            let need: int = expected - acc.len();
            if a.len() < need {
                let out1 = seq![ParsedView::Incompleted(expected, acc + a)];
                assert(spec_parse(a, st) == Ok::<Seq<ParsedView>, FrameError>(out1));
                assert(out1.last() == ParsedView::Incompleted(expected, acc + a));
                assert(residue_of(out1) == ParserState::AwaitBody(expected, acc + a));
                assert(drop_terminal(out1) =~= Seq::<ParsedView>::empty());
                let need2: int = expected - (acc + a).len();
                if b.len() < need2 {
                    assert((acc + a) + b =~= acc + (a + b));
                    let t = seq![ParsedView::Incompleted(expected, acc + (a + b))];
                    assert(spec_parse(b, residue_of(out1)) == Ok::<Seq<ParsedView>, FrameError>(t));
                    assert(spec_parse(a + b, st) == Ok::<Seq<ParsedView>, FrameError>(t));
                    assert(drop_terminal(out1) + t =~= t);
                } else {
                    assert((a + b).len() >= need);
                    assert(acc + (a + b).take(need) =~= (acc + a) + b.take(need2));
                    assert((a + b).skip(need) =~= b.skip(need2));
                    let body = acc + (a + b).take(need);
                    match spec_parse(b.skip(need2), ParserState::Idle) {
                        Ok(tail) => {
                            assert(spec_parse(b, residue_of(out1)) == Ok::<
                                Seq<ParsedView>,
                                FrameError,
                            >(seq![ParsedView::Completed(body)] + tail));
                            assert(spec_parse(a + b, st) == Ok::<Seq<ParsedView>, FrameError>(
                                seq![ParsedView::Completed(body)] + tail,
                            ));
                            assert(drop_terminal(out1) + (seq![ParsedView::Completed(body)] + tail)
                                =~= seq![ParsedView::Completed(body)] + tail);
                        },
                        Err(e) => {
                            assert(spec_parse(b, residue_of(out1)) == Err::<
                                Seq<ParsedView>,
                                FrameError,
                            >(e));
                            assert(spec_parse(a + b, st) == Err::<Seq<ParsedView>, FrameError>(e));
                        },
                    }
                }
            } else {
                assert((a + b).take(need) =~= a.take(need));
                assert((a + b).skip(need) =~= a.skip(need) + b);
                let body = acc + a.take(need);
                lemma_parse_append(a.skip(need), b, ParserState::Idle);
                match spec_parse(a.skip(need), ParserState::Idle) {
                    Err(e) => {
                        assert(spec_parse(a, st) == Err::<Seq<ParsedView>, FrameError>(e));
                        assert(spec_parse(a + b, st) == Err::<Seq<ParsedView>, FrameError>(e));
                    },
                    Ok(tail1) => {
                        let out1 = seq![ParsedView::Completed(body)] + tail1;
                        assert(spec_parse(a, st) == Ok::<Seq<ParsedView>, FrameError>(out1));
                        if tail1.len() > 0 {
                            assert(out1.last() == tail1.last());
                        } else {
                            assert(out1.last() == ParsedView::Completed(body));
                        }
                        assert(residue_of(out1) == residue_of(tail1));
                        match spec_parse(b, residue_of(tail1)) {
                            Err(e) => {
                                assert(spec_parse(a.skip(need) + b, ParserState::Idle) == Err::<
                                    Seq<ParsedView>,
                                    FrameError,
                                >(e));
                                assert(spec_parse(a + b, st) == Err::<Seq<ParsedView>, FrameError>(
                                    e,
                                ));
                            },
                            Ok(out2) => {
                                assert(spec_parse(a.skip(need) + b, ParserState::Idle) == Ok::<
                                    Seq<ParsedView>,
                                    FrameError,
                                >(drop_terminal(tail1) + out2));
                                assert(spec_parse(a + b, st) == Ok::<Seq<ParsedView>, FrameError>(
                                    seq![ParsedView::Completed(body)] + (drop_terminal(tail1)
                                        + out2),
                                ));
                                if tail1.len() == 0 {
                                    assert(drop_terminal(out1) =~= seq![ParsedView::Completed(body)]
                                        + drop_terminal(tail1));
                                } else if tail1.last() is Completed {
                                    assert(drop_terminal(out1) == out1);
                                    assert(drop_terminal(tail1) == tail1);
                                } else {
                                    assert(drop_terminal(out1) == out1.drop_last());
                                    assert(out1.drop_last() =~= seq![ParsedView::Completed(body)]
                                        + tail1.drop_last());
                                }
                                assert(seq![ParsedView::Completed(body)] + (drop_terminal(tail1)
                                    + out2) =~= (seq![ParsedView::Completed(body)] + drop_terminal(
                                    tail1,
                                )) + out2);
                            },
                        }
                    },
                }
            }
        },
        _ => {},
    }
}

#[verifier::spinoff_prover]
proof fn lemma_parse_append_await_header(a: Seq<u8>, b: Seq<u8>, st: ParserState)
    requires
        wf_state(st),
        st is AwaitHeader,
    ensures
        match spec_parse(a, st) {
            Err(e) => spec_parse(a + b, st) == Err::<Seq<ParsedView>, FrameError>(e),
            Ok(out1) => match spec_parse(b, residue_of(out1)) {
                Err(e) => spec_parse(a + b, st) == Err::<Seq<ParsedView>, FrameError>(e),
                Ok(out2) => spec_parse(a + b, st) == Ok::<Seq<ParsedView>, FrameError>(
                    drop_terminal(out1) + out2,
                ),
            },
        },
    decreases a.len(), state_rank(st), 0int,
{
    match st {
        ParserState::AwaitHeader(partial) => {
            if partial.len() + a.len() < 12 {
                let out1 = seq![ParsedView::TruncatedHeader(partial + a)];
                assert(spec_parse(a, st) == Ok::<Seq<ParsedView>, FrameError>(out1));
                assert(out1.last() == ParsedView::TruncatedHeader(partial + a));
                assert(residue_of(out1) == ParserState::AwaitHeader(partial + a));
                assert(drop_terminal(out1) =~= Seq::<ParsedView>::empty());
                if partial.len() + a.len() + b.len() < 12 {
                    assert((partial + a) + b =~= partial + (a + b));
                    let t = seq![ParsedView::TruncatedHeader(partial + (a + b))];
                    assert(spec_parse(b, residue_of(out1)) == Ok::<Seq<ParsedView>, FrameError>(t));
                    assert(spec_parse(a + b, st) == Ok::<Seq<ParsedView>, FrameError>(t));
                    assert(drop_terminal(out1) + t =~= t);
                } else {
                    let want: int = 12 - partial.len();
                    let want2: int = 12 - (partial + a).len();
                    assert(partial + (a + b).take(want) =~= (partial + a) + b.take(want2));
                    assert((a + b).skip(want) =~= b.skip(want2));
                    let merged = (partial + a) + b.take(want2);
                    assert(merged.len() == 12);
                    assert(merged.take(12) =~= merged);
                    let hdr = merged.take(12);
                    if hdr.take(8) == magic() {
                        let n = spec_be32(hdr.skip(8));
                        assert(spec_parse(a + b, st) == spec_parse(
                            b.skip(want2),
                            ParserState::AwaitBody(n, Seq::empty()),
                        ));
                        assert(spec_parse(b, residue_of(out1)) == spec_parse(
                            b.skip(want2),
                            ParserState::AwaitBody(n, Seq::empty()),
                        ));
                        match spec_parse(b.skip(want2), ParserState::AwaitBody(n, Seq::empty())) {
                            Ok(out2) => {
                                assert(drop_terminal(out1) + out2 =~= out2);
                            },
                            Err(e) => {},
                        }
                    } else {
                        assert(spec_parse(a + b, st) == Err::<Seq<ParsedView>, FrameError>(
                            FrameError::MagicMismatch,
                        ));
                        assert(spec_parse(b, residue_of(out1)) == Err::<Seq<ParsedView>, FrameError>(
                            FrameError::MagicMismatch,
                        ));
                    }
                }
            } else {
                let want: int = 12 - partial.len();
                assert((a + b).take(want) =~= a.take(want));
                assert(partial + (a + b).take(want) == partial + a.take(want));
                assert((a + b).skip(want) =~= a.skip(want) + b);
                let hdr = (partial + a.take(want)).take(12);
                if hdr.take(8) == magic() {
                    let n = spec_be32(hdr.skip(8));
                    lemma_parse_append(a.skip(want), b, ParserState::AwaitBody(n, Seq::empty()));
                    assert(spec_parse(a, st) == spec_parse(
                        a.skip(want),
                        ParserState::AwaitBody(n, Seq::empty()),
                    ));
                    assert(spec_parse(a + b, st) == spec_parse(
                        a.skip(want) + b,
                        ParserState::AwaitBody(n, Seq::empty()),
                    ));
                } else {
                    assert(spec_parse(a, st) == Err::<Seq<ParsedView>, FrameError>(
                        FrameError::MagicMismatch,
                    ));
                    assert(spec_parse(a + b, st) == Err::<Seq<ParsedView>, FrameError>(
                        FrameError::MagicMismatch,
                    ));
                }
            }
        },
        _ => {},
    }
}

#[verifier::spinoff_prover]
proof fn lemma_parse_append_idle(a: Seq<u8>, b: Seq<u8>, st: ParserState)
    requires
        wf_state(st),
        st is Idle,
    ensures
        match spec_parse(a, st) {
            Err(e) => spec_parse(a + b, st) == Err::<Seq<ParsedView>, FrameError>(e),
            Ok(out1) => match spec_parse(b, residue_of(out1)) {
                Err(e) => spec_parse(a + b, st) == Err::<Seq<ParsedView>, FrameError>(e),
                Ok(out2) => spec_parse(a + b, st) == Ok::<Seq<ParsedView>, FrameError>(
                    drop_terminal(out1) + out2,
                ),
            },
        },
    decreases a.len(), state_rank(st), 0int,
{
    match st {
        ParserState::Idle => {
            if a.len() == 0 {
                assert(a + b =~= b);
                let out1 = Seq::<ParsedView>::empty();
                assert(spec_parse(a, st) == Ok::<Seq<ParsedView>, FrameError>(out1));
                assert(residue_of(out1) == ParserState::Idle);
                match spec_parse(b, ParserState::Idle) {
                    Ok(out2) => {
                        assert(drop_terminal(out1) + out2 =~= out2);
                    },
                    Err(e) => {},
                }
            } else if a.len() < 12 {
                let out1 = seq![ParsedView::TruncatedHeader(a)];
                assert(spec_parse(a, st) == Ok::<Seq<ParsedView>, FrameError>(out1));
                assert(out1.last() == ParsedView::TruncatedHeader(a));
                assert(residue_of(out1) == ParserState::AwaitHeader(a));
                assert(drop_terminal(out1) =~= Seq::<ParsedView>::empty());
                if a.len() + b.len() < 12 {
                    let t = seq![ParsedView::TruncatedHeader(a + b)];
                    assert(spec_parse(b, residue_of(out1)) == Ok::<Seq<ParsedView>, FrameError>(t));
                    assert(spec_parse(a + b, st) == Ok::<Seq<ParsedView>, FrameError>(t));
                    assert(drop_terminal(out1) + t =~= t);
                } else {
                    let want2: int = 12 - a.len();
                    let merged = a + b.take(want2);
                    assert(merged.len() == 12);
                    assert(merged.take(12) =~= merged);
                    assert((a + b).take(12) =~= merged);
                    assert((a + b).skip(12) =~= b.skip(want2));
                    let hdr = merged.take(12);
                    assert((a + b).take(12).take(8) =~= hdr.take(8));
                    assert((a + b).take(12).skip(8) =~= hdr.skip(8));
                    if hdr.take(8) == magic() {
                        let n = spec_be32(hdr.skip(8));
                        assert(spec_parse(a + b, st) == spec_parse(
                            b.skip(want2),
                            ParserState::AwaitBody(n, Seq::empty()),
                        ));
                        assert(spec_parse(b, residue_of(out1)) == spec_parse(
                            b.skip(want2),
                            ParserState::AwaitBody(n, Seq::empty()),
                        ));
                        match spec_parse(b.skip(want2), ParserState::AwaitBody(n, Seq::empty())) {
                            Ok(out2) => {
                                assert(drop_terminal(out1) + out2 =~= out2);
                            },
                            Err(e) => {},
                        }
                    } else {
                        assert(spec_parse(a + b, st) == Err::<Seq<ParsedView>, FrameError>(
                            FrameError::MagicMismatch,
                        ));
                        assert(spec_parse(b, residue_of(out1)) == Err::<Seq<ParsedView>, FrameError>(
                            FrameError::MagicMismatch,
                        ));
                    }
                }
            } else {
                assert((a + b).take(12) =~= a.take(12));
                assert((a + b).skip(12) =~= a.skip(12) + b);
                let hdr = a.take(12);
                if hdr.take(8) == magic() {
                    let n = spec_be32(hdr.skip(8));
                    lemma_parse_append(a.skip(12), b, ParserState::AwaitBody(n, Seq::empty()));
                    assert(spec_parse(a, st) == spec_parse(
                        a.skip(12),
                        ParserState::AwaitBody(n, Seq::empty()),
                    ));
                    assert(spec_parse(a + b, st) == spec_parse(
                        a.skip(12) + b,
                        ParserState::AwaitBody(n, Seq::empty()),
                    ));
                } else {
                    assert(spec_parse(a, st) == Err::<Seq<ParsedView>, FrameError>(
                        FrameError::MagicMismatch,
                    ));
                    assert(spec_parse(a + b, st) == Err::<Seq<ParsedView>, FrameError>(
                        FrameError::MagicMismatch,
                    ));
                }
            }
        },
        _ => {},
    }
}

/// One whole frame, fed to an idle parser, yields exactly its payload as one
/// completed message and leaves no residue.
pub proof fn lemma_parse_one_frame(payload: Seq<u8>)
    requires
        payload.len() <= u32::MAX,
    ensures
        spec_parse(frame_of(payload), ParserState::Idle) == Ok::<Seq<ParsedView>, FrameError>(
            seq![ParsedView::Completed(payload)],
        ),
{
    let f = frame_of(payload);
    lemma_be32_roundtrip(payload.len());
    assert(f.len() == 12 + payload.len());
    let hdr = f.take(12);
    assert(hdr =~= magic() + be32_bytes(payload.len()));
    assert(hdr.take(8) =~= magic());
    assert(hdr.skip(8) =~= be32_bytes(payload.len()));
    assert(spec_be32(hdr.skip(8)) == payload.len());
    assert(f.skip(12) =~= payload);
    let n = spec_be32(hdr.skip(8));
    assert(spec_parse(f, ParserState::Idle) == spec_parse(
        payload,
        ParserState::AwaitBody(n, Seq::empty()),
    ));
    assert(Seq::<u8>::empty() + payload.take(payload.len() as int) =~= payload);
    assert(payload.skip(payload.len() as int) =~= Seq::<u8>::empty());
    assert(spec_parse(Seq::<u8>::empty(), ParserState::Idle) == Ok::<Seq<ParsedView>, FrameError>(
        Seq::empty(),
    ));
    assert(seq![ParsedView::Completed(payload)] + Seq::<ParsedView>::empty()
        =~= seq![ParsedView::Completed(payload)]);
}

/// The concatenated frames of a message sequence, fed to an idle parser in
/// one call, yield exactly one completed message per payload, in order, and
/// leave no residue.
pub proof fn lemma_parse_frames(msgs: Seq<Seq<u8>>)
    requires
        forall|i: int| 0 <= i < msgs.len() ==> (#[trigger] msgs[i]).len() <= u32::MAX,
    ensures
        spec_parse(frames_of(msgs), ParserState::Idle) == Ok::<Seq<ParsedView>, FrameError>(
            completed_views(msgs),
        ),
    decreases msgs.len(),
{
    if msgs.len() == 0 {
        assert(completed_views(msgs) =~= Seq::<ParsedView>::empty());
    } else {
        let m0 = msgs[0];
        let rest = msgs.drop_first();
        lemma_parse_one_frame(m0);
        assert forall|i: int| 0 <= i < rest.len() implies (#[trigger] rest[i]).len()
            <= u32::MAX by {
            assert(rest[i] == msgs[i + 1]);
        }
        lemma_parse_frames(rest);
        let out1 = seq![ParsedView::Completed(m0)];
        assert(out1.last() == ParsedView::Completed(m0));
        assert(residue_of(out1) == ParserState::Idle);
        assert(drop_terminal(out1) == out1);
        lemma_parse_append(frame_of(m0), frames_of(rest), ParserState::Idle);
        assert(frames_of(msgs) == frame_of(m0) + frames_of(rest));
        assert(out1 + completed_views(rest) =~= completed_views(msgs));
    }
}

/// The completed bodies of one `Completed` outcome per message are the
/// messages themselves.
proof fn lemma_completed_of_views(msgs: Seq<Seq<u8>>)
    ensures
        completed_of(completed_views(msgs)) == msgs,
    decreases msgs.len(),
{
    if msgs.len() == 0 {
        assert(completed_views(msgs) =~= Seq::<ParsedView>::empty());
    } else {
        assert(completed_views(msgs)[0] == ParsedView::Completed(msgs[0]));
        assert(completed_views(msgs).drop_first() =~= completed_views(msgs.drop_first()));
        lemma_completed_of_views(msgs.drop_first());
        assert(seq![msgs[0]] + msgs.drop_first() =~= msgs);
    }
}

/// Feeding chunks one call at a time, carrying the residue, is the same as
/// feeding their concatenation in one call: the same completed messages, the
/// same final residue, and the same failure if one occurs.
pub proof fn lemma_stream_flatten(chunks: Seq<Seq<u8>>, st: ParserState)
    requires
        residue_state(st),
    ensures
        match spec_parse(concat_chunks(chunks), st) {
            Ok(out) => stream_parse(chunks, st) == Ok::<(Seq<Seq<u8>>, ParserState), FrameError>(
                (completed_of(out), residue_of(out)),
            ),
            Err(e) => stream_parse(chunks, st) == Err::<(Seq<Seq<u8>>, ParserState), FrameError>(e),
        },
    decreases chunks.len(),
{
    if chunks.len() == 0 {
        let empty = Seq::<u8>::empty();
        match st {
            ParserState::Idle => {
                assert(spec_parse(empty, st) == Ok::<Seq<ParsedView>, FrameError>(Seq::empty()));
            },
            ParserState::AwaitHeader(partial) => {
                assert(partial + empty =~= partial);
                let out = seq![ParsedView::TruncatedHeader(partial)];
                assert(spec_parse(empty, st) == Ok::<Seq<ParsedView>, FrameError>(out));
                assert(out.last() == ParsedView::TruncatedHeader(partial));
                assert(residue_of(out) == st);
                assert(out.drop_first() =~= Seq::<ParsedView>::empty());
                assert(completed_of(out) == completed_of(Seq::<ParsedView>::empty()));
                assert(completed_of(out) =~= Seq::<Seq<u8>>::empty());
            },
            ParserState::AwaitBody(expected, acc) => {
                assert(acc + empty =~= acc);
                let out = seq![ParsedView::Incompleted(expected, acc)];
                assert(spec_parse(empty, st) == Ok::<Seq<ParsedView>, FrameError>(out));
                assert(out.last() == ParsedView::Incompleted(expected, acc));
                assert(residue_of(out) == st);
                assert(out.drop_first() =~= Seq::<ParsedView>::empty());
                assert(completed_of(out) == completed_of(Seq::<ParsedView>::empty()));
                assert(completed_of(out) =~= Seq::<Seq<u8>>::empty());
            },
        }
    } else {
        let c0 = chunks[0];
        let rest = chunks.drop_first();
        assert(concat_chunks(chunks) == c0 + concat_chunks(rest));
        lemma_parse_append(c0, concat_chunks(rest), st);
        match spec_parse(c0, st) {
            Err(e) => {},
            Ok(out1) => {
                lemma_parse_emissions(c0, st);
                lemma_residue_wf(out1);
                let st1 = residue_of(out1);
                lemma_stream_flatten(rest, st1);
                match spec_parse(concat_chunks(rest), st1) {
                    Err(e) => {},
                    Ok(out2) => {
                        lemma_drop_terminal_completed(out1);
                        lemma_completed_of_append(drop_terminal(out1), out2);
                        lemma_residue_of_append(drop_terminal(out1), out2);
                    },
                }
            },
        }
    }
}

/// Round-trip law: for any payload sequence, framing each payload,
/// concatenating the frames, and feeding the concatenation through the parser
/// under any partitioning into chunks yields exactly the original payloads,
/// in order, with no residue left after the last chunk.
pub proof fn lemma_round_trip(msgs: Seq<Seq<u8>>, chunks: Seq<Seq<u8>>)
    requires
        forall|i: int| 0 <= i < msgs.len() ==> (#[trigger] msgs[i]).len() <= u32::MAX,
        concat_chunks(chunks) == frames_of(msgs),
    ensures
        stream_parse(chunks, ParserState::Idle) == Ok::<(Seq<Seq<u8>>, ParserState), FrameError>(
            (msgs, ParserState::Idle),
        ),
{
    lemma_parse_frames(msgs);
    lemma_stream_flatten(chunks, ParserState::Idle);
    lemma_completed_of_views(msgs);
    if msgs.len() > 0 {
        assert(completed_views(msgs).last() == ParsedView::Completed(msgs.last()));
    }
}

/// Zero-length frames: a frame whose body length is zero yields
/// `Completed` of the empty message immediately upon header completion,
/// before whatever follows it is parsed.
pub proof fn lemma_zero_length_frame(rest: Seq<u8>)
    ensures
        match spec_parse(rest, ParserState::Idle) {
            Ok(tail) => spec_parse(frame_of(Seq::<u8>::empty()) + rest, ParserState::Idle) == Ok::<
                Seq<ParsedView>,
                FrameError,
            >(seq![ParsedView::Completed(Seq::<u8>::empty())] + tail),
            Err(e) => spec_parse(frame_of(Seq::<u8>::empty()) + rest, ParserState::Idle) == Err::<
                Seq<ParsedView>,
                FrameError,
            >(e),
        },
{
    lemma_parse_one_frame(Seq::<u8>::empty());
    let out1 = seq![ParsedView::Completed(Seq::<u8>::empty())];
    assert(out1.last() is Completed);
    assert(residue_of(out1) == ParserState::Idle);
    assert(drop_terminal(out1) == out1);
    lemma_parse_append(frame_of(Seq::<u8>::empty()), rest, ParserState::Idle);
}

/// Encoding a 32-bit value as four big-endian bytes and reading them back
/// yields the value.
pub proof fn lemma_be32_roundtrip(n: nat)
    requires
        n <= u32::MAX,
    ensures
        be32_bytes(n).len() == 4,
        spec_be32(be32_bytes(n)) == n,
{
    lemma_small_mod(n, 0x100000000);
    lemma_mod_breakdown(n as int, 0x1000000, 0x100);
    lemma_mod_breakdown(n as int, 0x10000, 0x100);
    lemma_mod_breakdown(n as int, 0x100, 0x100);
    assert(n % 0x100000000 == 0x1000000 * ((n / 0x1000000) % 0x100) + n % 0x1000000);
    assert(n % 0x1000000 == 0x10000 * ((n / 0x10000) % 0x100) + n % 0x10000);
    assert(n % 0x10000 == 0x100 * ((n / 0x100) % 0x100) + n % 0x100);
}

} // verus!
