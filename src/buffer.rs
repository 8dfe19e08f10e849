//! The byte queue between the thread that reads the pseudo-terminal and the
//! consumer that parses its output.
use vstd::prelude::*;

verus! {

pub struct QueueView {
    /// Bytes appended and not yet drained, oldest first.
    pub pending: Seq<u8>,
    /// Every byte ever appended, in order.
    pub appended: Seq<u8>,
    /// Every byte ever drained, in order.
    pub delivered: Seq<u8>,
}

/// Bytes are appended at the back and drained all at once; each appended
/// byte is delivered exactly once, in the order it came.
pub struct ByteQueue {
    bytes: Vec<u8>,
    appended: Ghost<Seq<u8>>,
    delivered: Ghost<Seq<u8>>,
}

impl View for ByteQueue {
    type V = QueueView;

    closed spec fn view(&self) -> QueueView {
        QueueView { pending: self.bytes@, appended: self.appended@, delivered: self.delivered@ }
    }
}

impl ByteQueue {
    /// What was delivered, followed by what waits, is what was appended:
    /// no byte is lost, repeated or reordered.
    pub open spec fn wf(&self) -> bool {
        self@.delivered + self@.pending == self@.appended
    }

    pub fn new() -> (r: ByteQueue)
        ensures
            r.wf(),
            r@.pending.len() == 0,
            r@.appended.len() == 0,
            r@.delivered.len() == 0,
    {
        let r = ByteQueue { bytes: Vec::new(), appended: Ghost(Seq::empty()), delivered: Ghost(Seq::empty()) };
        assert(r@.delivered + r@.pending =~= r@.appended);
        r
    }

    /// Appends a chunk read from the terminal.
    pub fn append(&mut self, chunk: &[u8])
        requires
            old(self).wf(),
        ensures
            final(self).wf(),
            final(self)@.pending == old(self)@.pending + chunk@,
            final(self)@.appended == old(self)@.appended + chunk@,
            final(self)@.delivered == old(self)@.delivered,
    {
        self.bytes.extend_from_slice(chunk);
        assert(self.bytes@ =~= old(self)@.pending + chunk@);
        self.appended = Ghost(self.appended@ + chunk@);
        assert(self@.delivered + self@.pending =~= self@.appended);
    }

    /// Takes every waiting byte at once, leaving the queue empty.
    pub fn take_all(&mut self) -> (r: Vec<u8>)
        requires
            old(self).wf(),
        ensures
            final(self).wf(),
            r@ == old(self)@.pending,
            final(self)@.pending.len() == 0,
            final(self)@.appended == old(self)@.appended,
            final(self)@.delivered == old(self)@.delivered + r@,
    {
        let mut r: Vec<u8> = Vec::new();
        std::mem::swap(&mut r, &mut self.bytes);
        self.delivered = Ghost(self.delivered@ + r@);
        assert(self@.delivered + self@.pending =~= self@.appended);
        r
    }

    pub fn is_empty(&self) -> (r: bool)
        ensures
            r == (self@.pending.len() == 0),
    {
        self.bytes.len() == 0
    }
}

} // verus!
