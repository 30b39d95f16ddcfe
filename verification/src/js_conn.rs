//! The receiving side of a message connection: byte chunks arrive on a queue
//! of pending receivers and are read out in arrival order.

use vstd::prelude::*;

verus! {

/// The chunks, one after the other.
pub open spec fn concat_chunks(chunks: Seq<Vec<u8>>) -> Seq<u8>
    decreases chunks.len(),
{
    if chunks.len() == 0 {
        Seq::empty()
    } else {
        concat_chunks(chunks.drop_last()) + chunks.last()@
    }
}

/// What a read does.
pub enum ReadStep {
    /// Hand these bytes to the reader now.
    Ready(Vec<u8>),
    /// Nothing is buffered: ask for more and wait.
    Pending,
}

/// Pending receivers, oldest first, each of which will yield one chunk, and
/// the bytes received but not yet read.
pub struct RecvQueue<R> {
    pub buf_receivers: Vec<R>,
    pub recv_buf: Vec<u8>,
}

impl<R> RecvQueue<R> {
    /// A queue with no pending receiver and no buffered byte.
    pub fn new() -> (res: Self)
        ensures
            res.buf_receivers@.len() == 0,
            res.recv_buf@.len() == 0,
    {
        RecvQueue { buf_receivers: Vec::new(), recv_buf: Vec::new() }
    }

    /// Registers a receiver that will yield the next chunk.
    pub fn push_receiver(&mut self, receiver: R)
        ensures
            final(self).buf_receivers@ == old(self).buf_receivers@.push(receiver),
            final(self).recv_buf@ == old(self).recv_buf@,
    {
        self.buf_receivers.push(receiver);
    }

    /// Polls the pending receivers oldest first with `poll`; the chunk of each
    /// receiver that has one is appended to the buffer and the receiver is
    /// dropped. Stops at the first receiver with nothing yet, which stays
    /// pending with all after it. Returns how many receivers yielded.
    pub fn try_empty_buf_receivers<F: Fn(&R) -> Option<Vec<u8>>>(&mut self, poll: F) -> (received: usize)
        requires
            forall|r: &R| #[trigger] poll.requires((r,)),
        ensures
            received <= old(self).buf_receivers@.len(),
            final(self).buf_receivers@ == old(self).buf_receivers@.skip(received as int),
            exists|chunks: Seq<Vec<u8>>|
                {
                    &&& chunks.len() == received
                    &&& final(self).recv_buf@ == old(self).recv_buf@ + concat_chunks(chunks)
                    &&& forall|i: int| 0 <= i < received ==> poll.ensures((&old(self).buf_receivers@[i],), Some(#[trigger] chunks[i]))
                },
            received < old(self).buf_receivers@.len() ==> poll.ensures((&old(self).buf_receivers@[received as int],), None),
    {
        let ghost start = self.recv_buf@;
        let ghost mut chunks: Seq<Vec<u8>> = Seq::empty();
        let mut count: usize = 0;
        while count < self.buf_receivers.len()
            invariant_except_break
                count <= self.buf_receivers@.len() == old(self).buf_receivers@.len(),
                self.buf_receivers@ == old(self).buf_receivers@,
                forall|r: &R| #[trigger] poll.requires((r,)),
                chunks.len() == count,
                self.recv_buf@ == start + concat_chunks(chunks),
                forall|i: int| 0 <= i < count ==> poll.ensures((&old(self).buf_receivers@[i],), Some(#[trigger] chunks[i])),
            ensures
                count <= self.buf_receivers@.len() == old(self).buf_receivers@.len(),
                self.buf_receivers@ == old(self).buf_receivers@,
                chunks.len() == count,
                self.recv_buf@ == start + concat_chunks(chunks),
                forall|i: int| 0 <= i < count ==> poll.ensures((&old(self).buf_receivers@[i],), Some(#[trigger] chunks[i])),
                count < old(self).buf_receivers@.len() ==> poll.ensures((&old(self).buf_receivers@[count as int],), None),
            decreases self.buf_receivers@.len() - count,
        {
            match poll(&self.buf_receivers[count]) {
                Some(chunk) => {
                    let ghost before = self.recv_buf@;
                    let ghost prev_chunks = chunks;
                    let ghost chunk_view = chunk@;
                    proof {
                        chunks = chunks.push(chunk);
                        assert(chunks.drop_last() =~= chunks.take(count as int));
                    }
                    let mut chunk = chunk;
                    self.recv_buf.append(&mut chunk);
                    proof {
                        let prev = chunks.drop_last();
                        assert(prev =~= prev_chunks);
                        assert(chunks.last()@ == chunk_view);
                        assert(self.recv_buf@ == before + chunk_view);
                        assert(concat_chunks(chunks) == concat_chunks(prev) + chunks.last()@);
                        assert(self.recv_buf@ =~= start + concat_chunks(chunks));
                    }
                    count = count + 1;
                },
                None => {
                    break;
                },
            }
        }
        let rest = self.buf_receivers.split_off(count);
        self.buf_receivers = rest;
        assert(self.buf_receivers@ =~= old(self).buf_receivers@.skip(count as int));
        count
    }

    /// The read decision of the connection: with bytes buffered, take up to
    /// `max` of them, oldest first; with none, the read has to wait.
    pub fn read_step(&mut self, max: usize) -> (step: ReadStep)
        ensures
            final(self).buf_receivers@ == old(self).buf_receivers@,
            old(self).recv_buf@.len() == 0 ==> step is Pending && final(self).recv_buf@ == old(self).recv_buf@,
            old(self).recv_buf@.len() > 0 ==> (step matches ReadStep::Ready(out) && {
                let n = read_len(old(self).recv_buf@.len(), max) as int;
                &&& out@ == old(self).recv_buf@.take(n)
                &&& final(self).recv_buf@ == old(self).recv_buf@.skip(n)
            }),
    {
        if self.recv_buf.len() == 0 {
            return ReadStep::Pending;
        }
        let out = self.take_ready(max);
        assert(out@ =~= old(self).recv_buf@.take(out@.len() as int));
        assert(self.recv_buf@ =~= old(self).recv_buf@.skip(out@.len() as int));
        ReadStep::Ready(out)
    }

    /// Takes up to `max` buffered bytes, oldest first.
    pub fn take_ready(&mut self, max: usize) -> (out: Vec<u8>)
        ensures
            out@.len() == if max < old(self).recv_buf@.len() { max as int } else { old(self).recv_buf@.len() as int },
            out@ + final(self).recv_buf@ == old(self).recv_buf@,
            final(self).buf_receivers@ == old(self).buf_receivers@,
    {
        let n = if max < self.recv_buf.len() { max } else { self.recv_buf.len() };
        let mut out = self.recv_buf.split_off(n);
        std::mem::swap(&mut out, &mut self.recv_buf);
        assert(out@ + self.recv_buf@ =~= old(self).recv_buf@);
        out
    }
}

/// How many bytes a read of at most `max` bytes takes from `len` buffered ones.
pub open spec fn read_len(len: nat, max: usize) -> nat {
    if max < len { max as nat } else { len }
}

/// What a sequence of reads of at most `sizes[0]`, `sizes[1]`, ... bytes
/// returns, one after the other, from the buffered bytes `buf`.
pub open spec fn bytes_read(buf: Seq<u8>, sizes: Seq<usize>) -> Seq<u8>
    decreases sizes.len(),
{
    if sizes.len() == 0 {
        Seq::empty()
    } else {
        let n = read_len(buf.len(), sizes[0]) as int;
        buf.take(n) + bytes_read(buf.skip(n), sizes.drop_first())
    }
}

/// What stays buffered after that sequence of reads.
pub open spec fn bytes_left(buf: Seq<u8>, sizes: Seq<usize>) -> Seq<u8>
    decreases sizes.len(),
{
    if sizes.len() == 0 {
        buf
    } else {
        let n = read_len(buf.len(), sizes[0]) as int;
        bytes_left(buf.skip(n), sizes.drop_first())
    }
}

/// Bytes are read out in the order they arrived: whatever the sizes of a
/// sequence of reads, the bytes they return, followed by those still
/// buffered, are the buffered bytes in order.
pub proof fn lemma_reads_in_arrival_order(buf: Seq<u8>, sizes: Seq<usize>)
    ensures
        bytes_read(buf, sizes) + bytes_left(buf, sizes) == buf,
    decreases sizes.len(),
{
    if sizes.len() > 0 {
        let n = read_len(buf.len(), sizes[0]) as int;
        lemma_reads_in_arrival_order(buf.skip(n), sizes.drop_first());
        assert(buf.take(n) + buf.skip(n) =~= buf);
        assert(bytes_read(buf, sizes) + bytes_left(buf, sizes) =~= buf.take(n) + (bytes_read(buf.skip(n), sizes.drop_first()) + bytes_left(buf.skip(n), sizes.drop_first())));
    }
}

/// An emptying that takes no receiver leaves the queue as it was: the same
/// pending receivers and the same buffered bytes. So emptying a second time,
/// when the oldest pending receiver still has nothing, changes nothing.
pub proof fn lemma_empty_emptying_changes_nothing<R>(receivers: Seq<R>, buffered: Seq<u8>, chunks: Seq<Vec<u8>>)
    requires
        chunks.len() == 0,
    ensures
        receivers.skip(0) == receivers,
        buffered + concat_chunks(chunks) == buffered,
{
    assert(receivers.skip(0) =~= receivers);
    assert(buffered + concat_chunks(chunks) =~= buffered);
}

} // verus!
