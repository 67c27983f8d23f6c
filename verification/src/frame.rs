use vstd::prelude::*;

verus! {

/// The mathematical content of a frame: the length that was declared for it
/// and the bytes that have arrived so far.
pub struct FrameModel {
    pub length: nat,
    pub bytes: Seq<u8>,
}

impl FrameModel {
    /// A frame that expects `length` bytes and has none yet.
    pub open spec fn empty(length: nat) -> FrameModel {
        FrameModel { length, bytes: Seq::empty() }
    }

    /// The bytes that arrived do not exceed the declared length.
    pub open spec fn wf(self) -> bool {
        self.bytes.len() <= self.length
    }

    /// All declared bytes have arrived.
    pub open spec fn complete(self) -> bool {
        self.bytes.len() == self.length
    }

    /// How many bytes are still missing.
    pub open spec fn needed(self) -> nat {
        if self.bytes.len() <= self.length {
            (self.length - self.bytes.len()) as nat
        } else {
            0
        }
    }

    /// How many bytes of a chunk of `incoming` bytes the frame takes.
    pub open spec fn taken(self, incoming: nat) -> nat {
        if incoming <= self.needed() {
            incoming
        } else {
            self.needed()
        }
    }

    /// The frame after it was offered `chunk`: it takes what it still needs
    /// from the front of the chunk and nothing more.
    pub open spec fn fed(self, chunk: Seq<u8>) -> FrameModel {
        FrameModel {
            length: self.length,
            bytes: self.bytes + chunk.subrange(0, self.taken(chunk.len()) as int),
        }
    }

    /// What of `chunk` the frame leaves untouched.
    pub open spec fn leftover(self, chunk: Seq<u8>) -> Seq<u8> {
        chunk.subrange(self.taken(chunk.len()) as int, chunk.len() as int)
    }
}

/// Reassembles one message of a known length from the chunks of a byte stream.
pub struct Frame {
    length: usize,
    read: usize,
    bytes: Vec<u8>,
}

impl View for Frame {
    type V = FrameModel;

    closed spec fn view(&self) -> FrameModel {
        FrameModel { length: self.length as nat, bytes: self.bytes@ }
    }
}

impl Frame {
    /// The counter of received bytes agrees with the buffer, and the buffer
    /// holds no more than the declared length.
    pub closed spec fn wf(&self) -> bool {
        &&& self.read == self.bytes@.len()
        &&& self.read <= self.length
    }

    /// A well-formed frame has a well-formed model whose length fits the machine.
    pub proof fn lemma_wf_view(&self)
        requires
            self.wf(),
        ensures
            self@.wf(),
            self@.length <= usize::MAX,
    {
    }

    /// A frame that expects exactly `length` bytes and has received none.
    pub fn new(length: usize) -> (frame: Frame)
        ensures
            frame.wf(),
            frame@ == FrameModel::empty(length as nat),
    {
        Frame { length, read: 0, bytes: Vec::new() }
    }

    /// Takes from the front of `new_bytes` what the frame still needs. Returns
    /// the untouched rest of the chunk when the chunk held more than that, and
    /// `None` when all of it was taken.
    pub fn read<'a, 'b>(&'a mut self, new_bytes: &'b [u8]) -> (extra: Option<&'b [u8]>)
        requires
            old(self).wf(),
        ensures
            final(self).wf(),
            final(self)@ == old(self)@.fed(new_bytes@),
            extra.is_some() <==> new_bytes@.len() > old(self)@.needed(),
            extra.is_some() ==> extra.unwrap()@ == old(self)@.leftover(new_bytes@),
    {
        let needed: usize = self.length - self.read;
        let incoming: usize = new_bytes.len();

        if incoming <= needed {
            self.bytes.extend_from_slice(new_bytes);
            self.read += incoming;
            proof {
                assert(new_bytes@.subrange(0, incoming as int) =~= new_bytes@);
                assert(self@.bytes =~= old(self)@.fed(new_bytes@).bytes);
            }
            None
        } else {
            let to_read = vstd::slice::slice_subrange(new_bytes, 0, needed);
            let extra = vstd::slice::slice_subrange(new_bytes, needed, incoming);
            self.bytes.extend_from_slice(to_read);
            self.read += needed;
            proof {
                assert(self@.bytes =~= old(self)@.fed(new_bytes@).bytes);
            }
            Some(extra)
        }
    }

    /// Whether every declared byte has been received.
    pub fn is_complete(&self) -> (done: bool)
        requires
            self.wf(),
        ensures
            done == self@.complete(),
    {
        self.length == self.read
    }

    /// The bytes received so far.
    pub fn bytes(&self) -> (bytes: &Vec<u8>)
        ensures
            bytes@ == self@.bytes,
    {
        &self.bytes
    }

    /// The declared length of the message.
    pub fn len(&self) -> (length: usize)
        ensures
            length == self@.length,
    {
        self.length
    }

    /// The number of bytes received so far.
    pub fn received(&self) -> (count: usize)
        requires
            self.wf(),
        ensures
            count == self@.bytes.len(),
    {
        self.read
    }
}

} // verus!
