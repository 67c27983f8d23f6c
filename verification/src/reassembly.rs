use crate::client::{demux, lemma_demux_wf, DemuxOut, DemuxState};
use crate::frame::FrameModel;
use crate::wire::{encode, le_bytes, le_value, lemma_le_round_trip};
use vstd::prelude::*;

verus! {

/// The completed frame that carries `payload`.
pub open spec fn message(payload: Seq<u8>) -> FrameModel {
    FrameModel { length: payload.len(), bytes: payload }
}

/// The chunks joined into one stream.
pub open spec fn concat(chunks: Seq<Seq<u8>>) -> Seq<u8>
    decreases chunks.len(),
{
    if chunks.len() == 0 {
        Seq::empty()
    } else {
        chunks[0] + concat(chunks.subrange(1, chunks.len() as int))
    }
}

/// The outcome of handing the chunks to a demultiplexer one after another.
pub open spec fn feed(s: DemuxState, chunks: Seq<Seq<u8>>) -> DemuxOut
    decreases chunks.len(),
{
    if chunks.len() == 0 {
        DemuxOut { state: s, frames: Seq::empty() }
    } else {
        let first = demux(s, chunks[0]);
        feed(first.state, chunks.subrange(1, chunks.len() as int)).after(first.frames)
    }
}

/// Where a chunk is cut makes no difference: handing over `a` and then `b`
/// leaves the same state and emits the same frames as handing over `a + b`.
pub proof fn lemma_demux_split(s: DemuxState, a: Seq<u8>, b: Seq<u8>)
    requires
        s.wf(),
    ensures
        demux(s, a + b) == demux(demux(s, a).state, b).after(demux(s, a).frames),
    decreases a.len(), (if s.current is Some { 1nat } else { 0nat }),
{
    let whole = a + b;
    let first = demux(s, a);
    let second = demux(first.state, b);
    match s.current {
        Some(f) => {
            if a.len() < f.needed() {
                let g = f.fed(a);
                assert(g == first.state.current.unwrap());
                assert(g.bytes =~= f.bytes + a);
                assert(g.needed() == f.needed() - a.len());
                assert(f.fed(whole).bytes =~= g.fed(b).bytes);
                assert(f.leftover(whole) =~= g.leftover(b));
                assert(Seq::<FrameModel>::empty() + second.frames =~= second.frames);
            } else {
                let gap = s.between_frames();
                let left = f.leftover(a);
                assert(f.fed(whole).bytes =~= f.fed(a).bytes);
                assert(f.leftover(whole) =~= left + b);
                lemma_demux_split(gap, left, b);
                let inner = demux(gap, left);
                assert(seq![f.fed(a)] + (inner.frames + second.frames) =~= (seq![f.fed(a)]
                    + inner.frames) + second.frames);
            }
        },
        None => {
            let missing = 4 - s.prefix.len();
            if a.len() < missing {
                assert(s.prefix + whole =~= (s.prefix + a) + b);
                assert(Seq::<FrameModel>::empty() + second.frames =~= second.frames);
                if whole.len() >= missing {
                    assert(s.prefix + whole.subrange(0, missing) =~= (s.prefix + a) + b.subrange(
                        0,
                        missing - a.len(),
                    ));
                    assert(whole.subrange(missing, whole.len() as int) =~= b.subrange(
                        missing - a.len(),
                        b.len() as int,
                    ));
                }
            } else {
                assert(whole.subrange(0, missing) =~= a.subrange(0, missing));
                assert(whole.subrange(missing, whole.len() as int) =~= a.subrange(
                    missing,
                    a.len() as int,
                ) + b);
                lemma_demux_split(
                    DemuxState::started(le_value(s.prefix + a.subrange(0, missing))),
                    a.subrange(missing, a.len() as int),
                    b,
                );
            }
        },
    }
}

/// Handing over chunks one after another is handing over their
/// concatenation: how the transport cuts the stream does not show in what a
/// demultiplexer at rest emits or keeps.
pub proof fn lemma_feed_is_demux(s: DemuxState, chunks: Seq<Seq<u8>>)
    requires
        s.wf(),
        s.at_rest(),
    ensures
        feed(s, chunks) == demux(s, concat(chunks)),
    decreases chunks.len(),
{
    if chunks.len() == 0 {
        assert(s.prefix + Seq::<u8>::empty() =~= s.prefix);
        if let Some(f) = s.current {
            assert(f.fed(Seq::<u8>::empty()).bytes =~= f.bytes);
        }
    } else {
        let rest = chunks.subrange(1, chunks.len() as int);
        lemma_demux_wf(s, chunks[0]);
        lemma_feed_is_demux(demux(s, chunks[0]).state, rest);
        lemma_demux_split(s, chunks[0], concat(rest));
    }
}

proof fn lemma_prefix_read(payload: Seq<u8>, tail: Seq<u8>)
    requires
        payload.len() <= u32::MAX,
    ensures
        (encode(payload) + tail).len() >= 4,
        le_value(Seq::<u8>::empty() + (encode(payload) + tail).subrange(0, 4)) == payload.len(),
        (encode(payload) + tail).subrange(4, (encode(payload) + tail).len() as int) == payload
            + tail,
{
    let chunk = encode(payload) + tail;
    let n = payload.len();
    lemma_le_round_trip(n);
    assert(Seq::<u8>::empty() + chunk.subrange(0, 4) =~= le_bytes(n));
    assert(chunk.subrange(4, chunk.len() as int) =~= payload + tail);
}

/// An encoded message at the head of a chunk comes out as one completed
/// frame with the payload's bytes, and what follows it in the chunk is read
/// from a fresh state: the message takes its own bytes and no others.
pub proof fn lemma_message_then(payload: Seq<u8>, tail: Seq<u8>)
    requires
        payload.len() <= u32::MAX,
    ensures
        demux(DemuxState::fresh(), encode(payload) + tail) == demux(DemuxState::fresh(), tail).after(
            seq![message(payload)],
        ),
{
    let chunk = encode(payload) + tail;
    let n = payload.len();
    lemma_prefix_read(payload, tail);
    let f = FrameModel::empty(n);
    assert(demux(DemuxState::fresh(), chunk) == demux(DemuxState::started(n), payload + tail));
    assert(f.fed(payload + tail).bytes =~= payload);
    assert(f.leftover(payload + tail) =~= tail);
    assert(DemuxState::started(n).between_frames() == DemuxState::fresh());
}

/// One encoded message, handed over whole, yields exactly one completed frame
/// with the payload's bytes and leaves the demultiplexer fresh.
pub proof fn lemma_single_message(payload: Seq<u8>)
    requires
        payload.len() <= u32::MAX,
    ensures
        demux(DemuxState::fresh(), encode(payload)) == (DemuxOut {
            state: DemuxState::fresh(),
            frames: seq![message(payload)],
        }),
{
    let none = Seq::<u8>::empty();
    lemma_message_then(payload, none);
    assert(encode(payload) + none =~= encode(payload));
    assert(none + none =~= none);
    assert(seq![message(payload)] + Seq::<FrameModel>::empty() =~= seq![message(payload)]);
}

/// However an encoded message is cut into consecutive chunks, feeding the
/// chunks in order to a fresh demultiplexer yields exactly one completed frame,
/// whose bytes are the payload, and leaves the demultiplexer fresh.
pub proof fn lemma_reassembly(payload: Seq<u8>, chunks: Seq<Seq<u8>>)
    requires
        payload.len() <= u32::MAX,
        concat(chunks) == encode(payload),
    ensures
        feed(DemuxState::fresh(), chunks) == (DemuxOut {
            state: DemuxState::fresh(),
            frames: seq![message(payload)],
        }),
{
    lemma_feed_is_demux(DemuxState::fresh(), chunks);
    lemma_single_message(payload);
}

/// Two encoded messages in one chunk yield two completed frames, in the order
/// of the messages, each with its own length and bytes.
pub proof fn lemma_two_messages(first: Seq<u8>, second: Seq<u8>)
    requires
        first.len() <= u32::MAX,
        second.len() <= u32::MAX,
    ensures
        demux(DemuxState::fresh(), encode(first) + encode(second)) == (DemuxOut {
            state: DemuxState::fresh(),
            frames: seq![message(first), message(second)],
        }),
{
    lemma_message_then(first, encode(second));
    lemma_single_message(second);
    assert(seq![message(first)] + seq![message(second)] =~= seq![message(first), message(second)]);
}

/// A length prefix that arrives in two parts: the first `n < 4` bytes of an
/// encoded message are buffered and emit nothing, and the rest of the message
/// then completes exactly one frame with the payload's bytes.
pub proof fn lemma_split_prefix(payload: Seq<u8>, n: nat)
    requires
        payload.len() <= u32::MAX,
        n < 4,
    ensures
        ({
            let wire = encode(payload);
            let head = demux(DemuxState::fresh(), wire.subrange(0, n as int));
            let rest = demux(head.state, wire.subrange(n as int, wire.len() as int));
            &&& head.frames == Seq::<FrameModel>::empty()
            &&& head.state == (DemuxState { prefix: wire.subrange(0, n as int), current: None })
            &&& rest == (DemuxOut { state: DemuxState::fresh(), frames: seq![message(payload)] })
        }),
{
    let wire = encode(payload);
    let a = wire.subrange(0, n as int);
    let b = wire.subrange(n as int, wire.len() as int);
    assert(a + b =~= wire);
    assert(Seq::<u8>::empty() + a =~= a);
    lemma_demux_split(DemuxState::fresh(), a, b);
    lemma_single_message(payload);
    let head = demux(DemuxState::fresh(), a);
    let rest = demux(head.state, b);
    assert(Seq::<FrameModel>::empty() + rest.frames =~= rest.frames);
}

/// A length prefix of zero completes a frame with no bytes at once, and the
/// bytes behind it are read as the start of the next message.
pub proof fn lemma_empty_message(tail: Seq<u8>)
    ensures
        demux(DemuxState::fresh(), le_bytes(0) + tail) == demux(DemuxState::fresh(), tail).after(
            seq![FrameModel::empty(0)],
        ),
{
    let nothing = Seq::<u8>::empty();
    lemma_message_then(nothing, tail);
    assert(encode(nothing) =~= le_bytes(0));
}

/// The payloads encoded one behind the other, as a sender writes them.
pub open spec fn encode_all(payloads: Seq<Seq<u8>>) -> Seq<u8>
    decreases payloads.len(),
{
    if payloads.len() == 0 {
        Seq::empty()
    } else {
        encode(payloads[0]) + encode_all(payloads.subrange(1, payloads.len() as int))
    }
}

/// The completed frames that carry the payloads, one for one.
pub open spec fn messages(payloads: Seq<Seq<u8>>) -> Seq<FrameModel> {
    Seq::new(payloads.len(), |i: int| message(payloads[i]))
}

/// Any number of encoded messages in one chunk come out as that many
/// completed frames, in the order of the messages, each with its own bytes,
/// and leave the demultiplexer fresh.
pub proof fn lemma_message_stream(payloads: Seq<Seq<u8>>)
    requires
        forall|i: int| 0 <= i < payloads.len() ==> (#[trigger] payloads[i]).len() <= u32::MAX,
    ensures
        demux(DemuxState::fresh(), encode_all(payloads)) == (DemuxOut {
            state: DemuxState::fresh(),
            frames: messages(payloads),
        }),
    decreases payloads.len(),
{
    if payloads.len() == 0 {
        assert(Seq::<u8>::empty() + Seq::<u8>::empty() =~= Seq::<u8>::empty());
        assert(messages(payloads) =~= Seq::<FrameModel>::empty());
    } else {
        let rest = payloads.subrange(1, payloads.len() as int);
        lemma_message_then(payloads[0], encode_all(rest));
        lemma_message_stream(rest);
        assert(seq![message(payloads[0])] + messages(rest) =~= messages(payloads));
    }
}

/// However a stream of encoded messages is cut into consecutive chunks,
/// feeding the chunks in order to a fresh demultiplexer yields exactly the
/// messages that were sent, in the order in which they were sent.
pub proof fn lemma_stream_reassembly(payloads: Seq<Seq<u8>>, chunks: Seq<Seq<u8>>)
    requires
        forall|i: int| 0 <= i < payloads.len() ==> (#[trigger] payloads[i]).len() <= u32::MAX,
        concat(chunks) == encode_all(payloads),
    ensures
        feed(DemuxState::fresh(), chunks) == (DemuxOut {
            state: DemuxState::fresh(),
            frames: messages(payloads),
        }),
{
    lemma_feed_is_demux(DemuxState::fresh(), chunks);
    lemma_message_stream(payloads);
}

} // verus!
