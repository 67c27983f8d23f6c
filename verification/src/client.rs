use crate::frame::{Frame, FrameModel};
use crate::wire::{le_value, read_u32_le};
use vstd::prelude::*;

verus! {

/// What a demultiplexer holds between two chunks: the bytes of a length prefix
/// that has not fully arrived, and the frame in progress, if there is one.
pub struct DemuxState {
    pub prefix: Seq<u8>,
    pub current: Option<FrameModel>,
}

/// What a chunk does to a demultiplexer: the state it leaves and the frames
/// that it completed, in the order in which their last bytes arrived.
pub struct DemuxOut {
    pub state: DemuxState,
    pub frames: Seq<FrameModel>,
}

impl DemuxState {
    /// The state before any byte has arrived.
    pub open spec fn fresh() -> DemuxState {
        DemuxState { prefix: Seq::empty(), current: None }
    }

    /// The state with the frame in progress taken out.
    pub open spec fn between_frames(self) -> DemuxState {
        DemuxState { prefix: self.prefix, current: None }
    }

    /// The state that awaits the payload of a message of `length` bytes.
    pub open spec fn started(length: nat) -> DemuxState {
        DemuxState { prefix: Seq::empty(), current: Some(FrameModel::empty(length)) }
    }

    /// A partial prefix is shorter than four bytes; a frame in progress holds
    /// no more than its declared length, and no prefix is buffered beside it.
    pub open spec fn wf(self) -> bool {
        &&& self.prefix.len() < 4
        &&& self.current matches Some(f) ==> f.wf() && self.prefix.len() == 0
    }

    /// No completed frame is held back: a frame in progress still misses
    /// bytes.
    pub open spec fn at_rest(self) -> bool {
        self.current matches Some(f) ==> !f.complete()
    }
}

impl DemuxOut {
    /// The same outcome with `emitted` put in front of its frames.
    pub open spec fn after(self, emitted: Seq<FrameModel>) -> DemuxOut {
        DemuxOut { state: self.state, frames: emitted + self.frames }
    }
}

/// The outcome of handing `chunk` to a demultiplexer in state `s`.
///
/// A frame in progress takes what it needs from the front of the chunk; once
/// it is complete it is emitted and the rest of the chunk is read as the start
/// of the next message. With no frame in progress the chunk first fills the
/// length prefix up to four bytes; the fourth byte starts a frame of the length
/// that the prefix spells.
pub open spec fn demux(s: DemuxState, chunk: Seq<u8>) -> DemuxOut
    decreases chunk.len(), (if s.current is Some { 1nat } else { 0nat }),
{
    match s.current {
        Some(f) => {
            if chunk.len() < f.needed() {
                DemuxOut {
                    state: DemuxState { prefix: s.prefix, current: Some(f.fed(chunk)) },
                    frames: Seq::empty(),
                }
            } else {
                demux(s.between_frames(), f.leftover(chunk)).after(seq![f.fed(chunk)])
            }
        },
        None => {
            let missing = 4 - s.prefix.len();
            if missing <= 0 || chunk.len() < missing {
                DemuxOut {
                    state: DemuxState { prefix: s.prefix + chunk, current: None },
                    frames: Seq::empty(),
                }
            } else {
                demux(
                    DemuxState::started(le_value(s.prefix + chunk.subrange(0, missing))),
                    chunk.subrange(missing, chunk.len() as int),
                )
            }
        },
    }
}

/// A chunk leaves a well-formed demultiplexer well formed and at rest, and
/// every frame that it emits is complete.
pub proof fn lemma_demux_wf(s: DemuxState, chunk: Seq<u8>)
    requires
        s.wf(),
    ensures
        demux(s, chunk).state.wf(),
        demux(s, chunk).state.at_rest(),
        forall|i: int|
            0 <= i < demux(s, chunk).frames.len() ==> (#[trigger] demux(s, chunk).frames[i]).complete(),
    decreases chunk.len(), (if s.current is Some { 1nat } else { 0nat }),
{
    match s.current {
        Some(f) => {
            if chunk.len() >= f.needed() {
                lemma_demux_wf(s.between_frames(), f.leftover(chunk));
            }
        },
        None => {
            let missing = 4 - s.prefix.len();
            if chunk.len() >= missing {
                lemma_demux_wf(
                    DemuxState::started(le_value(s.prefix + chunk.subrange(0, missing))),
                    chunk.subrange(missing, chunk.len() as int),
                );
            }
        },
    }
}

/// The models of a sequence of frames, one for one.
pub open spec fn models(frames: Seq<Frame>) -> Seq<FrameModel> {
    Seq::new(frames.len(), |i: int| frames[i]@)
}

/// Turns the chunks of a byte stream into the messages that it carries.
pub struct Client {
    msg_start: Vec<u8>,
    current_frame: Option<Frame>,
}

impl View for Client {
    type V = DemuxState;

    closed spec fn view(&self) -> DemuxState {
        DemuxState {
            prefix: self.msg_start@,
            current: match self.current_frame {
                Some(frame) => Some(frame@),
                None => None,
            },
        }
    }
}

impl Client {
    /// The buffered prefix is shorter than four bytes; the frame in progress,
    /// if any, is well formed and has no prefix buffered beside it.
    pub closed spec fn wf(&self) -> bool {
        &&& self.msg_start@.len() < 4
        &&& self.current_frame matches Some(frame) ==> frame.wf() && self.msg_start@.len() == 0
    }

    /// A well-formed demultiplexer has a well-formed state.
    pub proof fn lemma_wf_view(&self)
        requires
            self.wf(),
        ensures
            self@.wf(),
    {
        if let Some(frame) = self.current_frame {
            frame.lemma_wf_view();
        }
    }

    /// A demultiplexer that has seen no byte yet.
    pub fn new() -> (client: Client)
        ensures
            client.wf(),
            client@ == DemuxState::fresh(),
    {
        Client { msg_start: Vec::new(), current_frame: None }
    }

    /// The bytes of a length prefix that has not fully arrived.
    pub fn msg_start(&self) -> (prefix: &Vec<u8>)
        ensures
            prefix@ == self@.prefix,
    {
        &self.msg_start
    }

    /// The frame in progress, if there is one.
    pub fn current_frame(&self) -> (frame: Option<&Frame>)
        requires
            self.wf(),
        ensures
            frame.is_some() == self@.current.is_some(),
            frame.is_some() ==> frame.unwrap()@ == self@.current.unwrap() && frame.unwrap().wf(),
    {
        self.current_frame.as_ref()
    }

    /// Hands the bytes of one read of the stream to the demultiplexer and
    /// returns the frames that they complete, in the order of completion.
    pub fn read_frames(&mut self, received: &[u8]) -> (results: Vec<Frame>)
        requires
            old(self).wf(),
        ensures
            final(self).wf(),
            final(self)@ == demux(old(self)@, received@).state,
            final(self)@.at_rest(),
            models(results@) == demux(old(self)@, received@).frames,
            forall|i: int|
                0 <= i < results@.len() ==> (#[trigger] results@[i]).wf() && results@[i]@.complete(),
    {
        let mut results: Vec<Frame> = Vec::new();
        self.process_frame(received, &mut results);
        proof {
            assert(models(Seq::<Frame>::empty()) + demux(old(self)@, received@).frames =~= demux(
                old(self)@,
                received@,
            ).frames);
        }
        results
    }

    /// Hands one chunk of the stream to the demultiplexer. Every frame that the
    /// chunk completes is appended to `results`, in the order of completion;
    /// what the chunk leaves unfinished stays in the demultiplexer.
    pub fn process_frame(&mut self, buffer: &[u8], results: &mut Vec<Frame>)
        requires
            old(self).wf(),
        ensures
            final(self).wf(),
            final(self)@ == demux(old(self)@, buffer@).state,
            final(self)@.at_rest(),
            final(results)@.len() == old(results)@.len() + demux(old(self)@, buffer@).frames.len(),
            models(final(results)@) == models(old(results)@) + demux(old(self)@, buffer@).frames,
            forall|i: int| 0 <= i < old(results)@.len() ==> final(results)@[i] == old(results)@[i],
            forall|i: int|
                old(results)@.len() <= i < final(results)@.len() ==> (#[trigger] final(results)@[i]).wf()
                    && final(results)@[i]@.complete(),
    {
        let ghost start = self@;
        let ghost before = results@;
        proof {
            self.lemma_wf_view();
        }
        let ghost emitted: Seq<FrameModel> = Seq::empty();
        let len: usize = buffer.len();
        let mut pos: usize = 0;
        proof {
            assert(buffer@.subrange(0, len as int) =~= buffer@);
            assert(demux(self@, buffer@).after(emitted) =~= demux(self@, buffer@));
            assert(models(results@) =~= models(before) + emitted);
        }
        loop
            invariant_except_break
                demux(start, buffer@) == demux(self@, buffer@.subrange(pos as int, len as int)).after(
                    emitted,
                ),
            invariant
                len == buffer@.len(),
                pos <= len,
                self.wf(),
                results@.len() == before.len() + emitted.len(),
                models(results@) == models(before) + emitted,
                forall|i: int| 0 <= i < before.len() ==> results@[i] == before[i],
                forall|i: int| before.len() <= i < results@.len() ==> (#[trigger] results@[i]).wf(),
            ensures
                self@.at_rest(),
                demux(start, buffer@) == (DemuxOut { state: self@, frames: emitted }),
                results@.len() == before.len() + emitted.len(),
                models(results@) == models(before) + emitted,
                forall|i: int| 0 <= i < before.len() ==> results@[i] == before[i],
                forall|i: int| before.len() <= i < results@.len() ==> (#[trigger] results@[i]).wf(),
            decreases len - pos, (if self.current_frame is Some { 1nat } else { 0nat }),
        {
            let rest = vstd::slice::slice_subrange(buffer, pos, len);
            let ghost state = self@;
            let ghost out = demux(state, rest@);
            match self.current_frame.take() {
                Some(mut frame) => {
                    let ghost model = frame@;
                    proof {
                        frame.lemma_wf_view();
                    }
                    let extra = frame.read(rest);
                    let ghost done = frame@;
                    if frame.is_complete() {
                        let ghost previous = results@;
                        results.push(frame);
                        proof {
                            assert(models(results@) =~= models(previous).push(done));
                            let tail = demux(self@, model.leftover(rest@));
                            assert(emitted + (seq![done] + tail.frames) =~= emitted.push(done)
                                + tail.frames);
                            emitted = emitted.push(done);
                            assert(models(results@) =~= models(before) + emitted);
                        }
                    } else {
                        self.current_frame = Some(frame);
                        proof {
                            assert(out == (DemuxOut { state: self@, frames: Seq::empty() }));
                            assert(out.after(emitted) =~= (DemuxOut { state: self@, frames: emitted }));
                        }
                    }
                    match extra {
                        Some(bytes) => {
                            proof {
                                assert(bytes@ =~= buffer@.subrange(
                                    pos + model.needed(),
                                    len as int,
                                ));
                            }
                            pos = len - bytes.len();
                        },
                        None => {
                            proof {
                                if done.complete() {
                                    assert(model.leftover(rest@) =~= Seq::<u8>::empty());
                                    let tail = demux(self@, Seq::<u8>::empty());
                                    assert(self@.prefix + Seq::<u8>::empty() =~= self@.prefix);
                                    assert(tail == (DemuxOut { state: self@, frames: Seq::empty() }));
                                    assert(tail.after(emitted) =~= (DemuxOut {
                                        state: self@,
                                        frames: emitted,
                                    }));
                                }
                            }
                            break ;
                        },
                    }
                },
                None => {
                    let needed: usize = 4 - self.msg_start.len();
                    if rest.len() >= needed {
                        let head = vstd::slice::slice_subrange(rest, 0, needed);
                        self.msg_start.extend_from_slice(head);
                        let frame_len: u32 = read_u32_le(self.msg_start.as_slice());
                        self.msg_start.clear();
                        self.current_frame = Some(Frame::new(frame_len as usize));
                        proof {
                            assert(self@ == DemuxState::started(
                                le_value(state.prefix + rest@.subrange(0, needed as int)),
                            ));
                            assert(rest@.subrange(needed as int, rest@.len() as int)
                                =~= buffer@.subrange(pos + needed, len as int));
                        }
                        pos = pos + needed;
                    } else {
                        self.msg_start.extend_from_slice(rest);
                        proof {
                            assert(self@.prefix == state.prefix + rest@);
                            assert(out == (DemuxOut { state: self@, frames: Seq::empty() }));
                            assert(out.after(emitted) =~= (DemuxOut { state: self@, frames: emitted }));
                        }
                        break ;
                    }
                },
            }
        }
        proof {
            lemma_demux_wf(start, buffer@);
            assert forall|i: int| before.len() <= i < results@.len() implies (
            #[trigger] results@[i])@.complete() by {
                assert(models(results@)[i] == results@[i]@);
                assert(emitted[i - before.len()].complete());
            }
        }
    }
}

} // verus!
