//! The event buffers between the cache operations and the housekeeper.
//!
//! An operation does not touch the policy structures itself.  It leaves a
//! note of what it did in a bounded first-in first-out buffer, and the
//! housekeeper replays the notes later.  Notes of reads may be dropped
//! when their buffer is full; notes of writes may not.
//!
//! Each buffer is a bounded channel of `crossbeam_channel`, of which the
//! cache holds both ends.

use vstd::prelude::*;
use crossbeam_channel::Receiver;
use crossbeam_channel::Sender;
use crossbeam_channel::TrySendError;

verus! {

/// The largest capacity a buffer can be made with.
pub const MAX_BUFFER_CAPACITY: usize = 0x1_0000;

/// `crossbeam_channel::Sender`, the sending end of a channel.  Nothing
/// inside it is looked at.
#[verifier::external_type_specification]
#[verifier::external_body]
#[verifier::reject_recursive_types(T)]
pub struct ExSender<T>(Sender<T>);

/// `crossbeam_channel::Receiver`, the receiving end of a channel.  Nothing
/// inside it is looked at; what waits in the channel goes by the name
/// `queued`.
#[verifier::external_type_specification]
#[verifier::external_body]
#[verifier::reject_recursive_types(T)]
pub struct ExReceiver<T>(Receiver<T>);

/// What a note is about.
#[derive(Clone, Copy, PartialEq, Eq, Structural)]
pub enum OpKind {
    /// An entry was read.
    Read,
    /// A new entry was stored.
    Insert,
    /// The value of an entry was replaced.
    Update,
    /// An entry was invalidated.
    Remove,
}

/// A note of one cache operation: what happened, the hash of the key, and
/// the slot and stamp of the entry it happened to.
#[derive(Clone, Copy)]
pub struct Op {
    pub kind: OpKind,
    pub hash: u64,
    pub slot: usize,
    pub stamp: u64,
}

/// The outcome of offering a note to a buffer.
pub enum Offer {
    Accepted,
    Full(Op),
    Disconnected(Op),
}

/// The notes waiting in the channel, oldest first.
pub uninterp spec fn queued(rx: Receiver<Op>) -> Seq<Op>;

/// The capacity the channel was made with.
pub uninterp spec fn bound(rx: Receiver<Op>) -> nat;

/// A bounded first-in first-out buffer of notes.
pub struct OpBuffer {
    tx: Sender<Op>,
    rx: Receiver<Op>,
}

/// `crossbeam_channel::bounded`: a new channel of the given capacity, with
/// nothing in it.  The capacity is positive, so the channel buffers, and
/// small enough for the channel to be allocated.
#[verifier::external_body]
fn channel_bounded(capacity: usize) -> (buf: OpBuffer)
    requires
        0 < capacity <= MAX_BUFFER_CAPACITY,
    ensures
        queued(buf.rx) == Seq::<Op>::empty(),
        bound(buf.rx) == capacity,
{
    let (tx, rx) = crossbeam_channel::bounded(capacity);
    OpBuffer { tx, rx }
}

/// `Sender::try_send`: the note is appended behind the waiting ones if
/// fewer than the capacity are waiting, and handed back otherwise.  The
/// channel cannot be disconnected, because the buffer holds its receiver.
#[verifier::external_body]
fn channel_try_send(buf: &mut OpBuffer, op: Op) -> (r: Offer)
    ensures
        bound(final(buf).rx) == bound(old(buf).rx),
        match r {
            Offer::Accepted => queued(old(buf).rx).len() < bound(old(buf).rx) && queued(
                final(buf).rx,
            ) == queued(old(buf).rx).push(op),
            Offer::Full(back) => back == op && queued(old(buf).rx).len() >= bound(old(buf).rx)
                && queued(final(buf).rx) == queued(old(buf).rx),
            Offer::Disconnected(back) => false,
        },
{
    match buf.tx.try_send(op) {
        Ok(()) => Offer::Accepted,
        Err(TrySendError::Full(back)) => Offer::Full(back),
        Err(TrySendError::Disconnected(back)) => Offer::Disconnected(back),
    }
}

/// `Receiver::try_recv`: the oldest waiting note is taken out and
/// returned; nothing is returned when none is waiting.
#[verifier::external_body]
fn channel_try_recv(buf: &mut OpBuffer) -> (r: Option<Op>)
    ensures
        bound(final(buf).rx) == bound(old(buf).rx),
        match r {
            Some(op) => queued(old(buf).rx).len() > 0 && op == queued(old(buf).rx)[0] && queued(
                final(buf).rx,
            ) == queued(old(buf).rx).drop_first(),
            None => queued(old(buf).rx).len() == 0 && queued(final(buf).rx) == queued(
                old(buf).rx,
            ),
        },
{
    match buf.rx.try_recv() {
        Ok(op) => Some(op),
        Err(_) => None,
    }
}

/// `Receiver::len`: the number of waiting notes, which never exceeds the
/// capacity.
#[verifier::external_body]
fn channel_len(buf: &OpBuffer) -> (n: usize)
    ensures
        n == queued(buf.rx).len(),
        n <= bound(buf.rx),
{
    buf.rx.len()
}

impl View for OpBuffer {
    type V = Seq<Op>;

    closed spec fn view(&self) -> Seq<Op> {
        queued(self.rx)
    }
}

impl OpBuffer {
    /// The number of notes the buffer can hold.
    pub closed spec fn capacity(&self) -> nat {
        bound(self.rx)
    }

    /// An empty buffer that holds up to `capacity` notes.
    pub fn with_capacity(capacity: usize) -> (buf: Self)
        requires
            0 < capacity <= MAX_BUFFER_CAPACITY,
        ensures
            buf@ == Seq::<Op>::empty(),
            buf.capacity() == capacity,
    {
        channel_bounded(capacity)
    }

    /// The number of waiting notes.
    pub fn len(&self) -> (n: usize)
        ensures
            n == self@.len(),
            n <= self.capacity(),
    {
        channel_len(self)
    }

    /// Appends `op` unless the buffer is full, and says whether it did.
    pub fn offer(&mut self, op: Op) -> (accepted: bool)
        ensures
            final(self).capacity() == old(self).capacity(),
            accepted == (old(self)@.len() < old(self).capacity()),
            final(self)@ == (if accepted {
                old(self)@.push(op)
            } else {
                old(self)@
            }),
    {
        match channel_try_send(self, op) {
            Offer::Accepted => true,
            Offer::Full(_) => false,
            Offer::Disconnected(_) => false,
        }
    }

    /// Appends `op` to a buffer that is not full.
    pub fn post(&mut self, op: Op)
        requires
            old(self)@.len() < old(self).capacity(),
        ensures
            final(self).capacity() == old(self).capacity(),
            final(self)@ == old(self)@.push(op),
    {
        self.offer(op);
    }

    /// Takes the oldest note out, if there is one.
    pub fn take(&mut self) -> (r: Option<Op>)
        ensures
            final(self).capacity() == old(self).capacity(),
            match r {
                Some(op) => old(self)@.len() > 0 && op == old(self)@[0] && final(self)@ == old(
                    self,
                )@.drop_first(),
                None => old(self)@.len() == 0 && final(self)@ == old(self)@,
            },
    {
        channel_try_recv(self)
    }
}

} // verus!
