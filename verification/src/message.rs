use crate::frame::FrameModel;
use vstd::prelude::*;

verus! {

/// Reassembles one message of a known length from the chunks of a byte stream,
/// and hands what a chunk holds beyond the message back as an owned buffer.
pub struct Message {
    length: usize,
    read: usize,
    bytes: Vec<u8>,
}

impl View for Message {
    type V = FrameModel;

    closed spec fn view(&self) -> FrameModel {
        FrameModel { length: self.length as nat, bytes: self.bytes@ }
    }
}

impl Message {
    /// The counter of received bytes agrees with the buffer, and the buffer
    /// holds no more than the declared length.
    pub closed spec fn wf(&self) -> bool {
        &&& self.read == self.bytes@.len()
        &&& self.read <= self.length
    }

    /// A well-formed message has a well-formed model.
    pub proof fn lemma_wf_view(&self)
        requires
            self.wf(),
        ensures
            self@.wf(),
    {
    }

    /// A message that expects exactly `length` bytes and has received none.
    pub fn new(length: usize) -> (message: Message)
        ensures
            message.wf(),
            message@ == FrameModel::empty(length as nat),
    {
        Message { length, read: 0, bytes: Vec::new() }
    }

    /// Takes from the front of `new_bytes` what the message still needs.
    /// Returns a copy of the untouched rest of the chunk when the chunk held
    /// more than that, and `None` when all of it was taken.
    pub fn read(&mut self, new_bytes: &[u8]) -> (extra: Option<Vec<u8>>)
        requires
            old(self).wf(),
        ensures
            final(self).wf(),
            final(self)@ == old(self)@.fed(new_bytes@),
            extra.is_some() <==> new_bytes@.len() > old(self)@.needed(),
            extra.is_some() ==> extra.unwrap()@ == old(self)@.leftover(new_bytes@),
    {
        let needed: usize = self.length - self.read;
        let incoming: usize = new_bytes.len();

        if incoming <= needed {
            self.bytes.extend_from_slice(new_bytes);
            self.read += incoming;
            proof {
                assert(new_bytes@.subrange(0, incoming as int) =~= new_bytes@);
                assert(self@.bytes =~= old(self)@.fed(new_bytes@).bytes);
            }
            None
        } else {
            let to_read = vstd::slice::slice_subrange(new_bytes, 0, needed);
            let extra = vstd::slice::slice_subrange(new_bytes, needed, incoming);
            self.bytes.extend_from_slice(to_read);
            self.read += needed;
            let mut extra_vec: Vec<u8> = Vec::new();
            extra_vec.extend_from_slice(extra);
            proof {
                assert(self@.bytes =~= old(self)@.fed(new_bytes@).bytes);
                assert(extra_vec@ =~= old(self)@.leftover(new_bytes@));
            }
            Some(extra_vec)
        }
    }

    /// Whether every declared byte has been received.
    pub fn is_complete(&self) -> (done: bool)
        requires
            self.wf(),
        ensures
            done == self@.complete(),
    {
        self.length == self.read
    }

    /// The bytes received so far.
    pub fn bytes(&self) -> (bytes: &Vec<u8>)
        ensures
            bytes@ == self@.bytes,
    {
        &self.bytes
    }

    /// The declared length of the message.
    pub fn len(&self) -> (length: usize)
        ensures
            length == self@.length,
    {
        self.length
    }

    /// The number of bytes received so far.
    pub fn received(&self) -> (count: usize)
        requires
            self.wf(),
        ensures
            count == self@.bytes.len(),
    {
        self.read
    }
}

} // verus!
