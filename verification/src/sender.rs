//! The stream pool and the rounds of a send operation.
//!
//! A [`Sender`] owns the streams and the cursor. It does no I/O itself. One
//! round of a send operation goes through it twice: [`Sender::dispatch`] takes
//! one stream out of the pool for each unsent segment and pairs them, and,
//! once every write of the round has ended, [`Sender::reconcile`] puts the
//! streams of the successful writes back and marks their segments as sent.
//! [`Sender::settle`] then says whether the operation is over.
use bytes::Bytes;
use std::collections::VecDeque;
use vstd::prelude::*;

use crate::message::Sequence;
use crate::octets::contents;
use crate::send_buf::{
    joined, lemma_fresh, lemma_marked_complete, lemma_marked_none, lemma_marked_progress,
    lemma_marked_twice, Segment, SegmentView, SendBufView, SendStreamBuf,
};
use crate::tiling::{lemma_split, lemma_unsent_of_len};

verus! {

/// `std::io::Error`, the error of a failed write, flush or shutdown. It is
/// carried through as it came; nothing is claimed of what it holds.
#[verifier::external_type_specification]
#[verifier::external_body]
pub struct ExIoError(std::io::Error);

/// Why a round failed.
#[derive(Debug)]
pub enum SendError {
    /// The pool was empty when the round began.
    NoStreamLeft,
    /// Some writes of the round failed; their errors, in the order in which
    /// the writes were reported.
    Io(Vec<std::io::Error>),
}

/// The pool is empty: nothing more can be sent.
#[derive(Debug, Clone, Copy, PartialEq, Eq)]
pub struct NoStreamLeft;

/// A segment and the stream that it is to be written to.
pub struct Assignment<W> {
    pub segment: Segment,
    pub stream: W,
}

/// What a sender is: its streams, front first, and the sequence number of
/// the next byte that a send operation will start with.
pub ghost struct SenderView<W> {
    pub pool: Seq<W>,
    pub next: u64,
}

/// The number of segments that a round hands out: one for each stream, as
/// long as there are unsent segments.
pub open spec fn round_width(streams: nat, unsent: nat) -> nat {
    if streams < unsent {
        streams
    } else {
        unsent
    }
}

/// `assignments` pair the first unsent segments with the streams at the
/// front of the pool, in order.
pub open spec fn pairs_up<W>(
    assignments: Seq<Assignment<W>>,
    pool: Seq<W>,
    unsent: Seq<SegmentView>,
) -> bool {
    &&& assignments.len() == round_width(pool.len(), unsent.len())
    &&& forall|i: int|
        0 <= i < assignments.len() ==> (#[trigger] assignments[i]).segment@ == unsent[i]
            && assignments[i].stream == pool[i]
}

/// A pool of output streams that takes a buffer apart and hands its segments
/// out, one stream each.
pub struct Sender<W> {
    streams: VecDeque<W>,
    next: Sequence,
}

impl<W> View for Sender<W> {
    type V = SenderView<W>;

    closed spec fn view(&self) -> SenderView<W> {
        SenderView { pool: self.streams@, next: self.next@ }
    }
}

impl<W> Sender<W> {
    /// A sender over `streams`, the first of them at the front of the pool,
    /// whose cursor is at 0.
    pub fn new(streams: Vec<W>) -> (sender: Self)
        ensures
            sender@.pool == streams@,
            sender@.next == 0,
    {
        let mut rest = streams;
        let mut pool: VecDeque<W> = VecDeque::new();
        while rest.len() > 0
            invariant
                rest@ + pool@ == streams@,
            decreases rest.len(),
        {
            if let Some(stream) = rest.pop() {
                pool.push_front(stream);
            }
        }
        Sender { streams: pool, next: Sequence::new(0) }
    }

    /// The number of streams in the pool.
    pub fn stream_count(&self) -> (n: usize)
        ensures
            n == self@.pool.len(),
    {
        self.streams.len()
    }

    /// The sequence number of the next byte that a send operation will start
    /// with.
    pub fn next_sequence(&self) -> (next: Sequence)
        ensures
            next@ == self@.next,
    {
        self.next
    }

    /// Begins a round: takes one stream from the front of the pool for each
    /// unsent segment of `send_buf`, as long as there are streams, and pairs
    /// them in order. Fails, and touches nothing, where the pool is empty.
    pub fn dispatch(&mut self, send_buf: &SendStreamBuf) -> (round: Result<
        Vec<Assignment<W>>,
        SendError,
    >)
        requires
            send_buf@.wf(),
        ensures
            final(self)@.next == old(self)@.next,
            old(self)@.pool.len() == 0 ==> {
                &&& round matches Err(SendError::NoStreamLeft)
                &&& final(self)@.pool == old(self)@.pool
            },
            old(self)@.pool.len() > 0 ==> {
                &&& round matches Ok(assignments)
                &&& pairs_up(assignments@, old(self)@.pool, send_buf@.unsent())
                &&& final(self)@.pool == old(self)@.pool.skip(assignments@.len() as int)
            },
    {
        if self.streams.len() == 0 {
            return Err(SendError::NoStreamLeft);
        }
        let ghost pool = self.streams@;
        let ghost unsent = send_buf@.unsent();
        let mut segments = send_buf.iter_unsent_segments();
        if segments.len() > self.streams.len() {
            segments.truncate(self.streams.len());
        }
        let ghost taken = segments.deep_view();
        let mut assignments: Vec<Assignment<W>> = Vec::new();
        for segment in it: segments
            invariant
                taken.len() == round_width(pool.len(), unsent.len()),
                forall|i: int| 0 <= i < taken.len() ==> taken[i] == unsent[i],
                it.seq().len() == taken.len(),
                forall|i: int| 0 <= i < taken.len() ==> (#[trigger] it.seq()[i])@ == taken[i],
                assignments.len() == it.index(),
                self.streams@ == pool.skip(it.index() as int),
                self.next == old(self).next,
                forall|i: int|
                    0 <= i < assignments.len() ==> (#[trigger] assignments[i]).segment@ == unsent[i]
                        && assignments[i].stream == pool[i],
        {
            if let Some(stream) = self.streams.pop_front() {
                assignments.push(Assignment { segment, stream });
            }
        }
        Ok(assignments)
    }

    /// Ends a round: for each successful write, in the order of `outcomes`,
    /// puts the stream at the back of the pool and marks the segment that
    /// starts at the reported sequence number as sent. The stream of a failed
    /// write does not come back. Fails with the errors of the failed writes,
    /// in order, where there are any; the pool and the buffer are brought up
    /// to date in either case.
    pub fn reconcile(
        &mut self,
        send_buf: &mut SendStreamBuf,
        outcomes: Vec<Result<(Sequence, W), std::io::Error>>,
    ) -> (round: Result<(), SendError>)
        requires
            old(send_buf)@.wf(),
        ensures
            final(self)@.pool == old(self)@.pool + returned(outcomes@),
            final(self)@.next == old(self)@.next,
            final(send_buf)@ == old(send_buf)@.marked(acknowledged(outcomes@)),
            final(send_buf)@.wf(),
            match round {
                Ok(()) => failures(outcomes@).len() == 0,
                Err(SendError::Io(errors)) => errors@ == failures(outcomes@) && errors@.len() > 0,
                Err(SendError::NoStreamLeft) => false,
            },
    {
        let ghost pool = self.streams@;
        let ghost before = send_buf@;
        let ghost all = outcomes@;
        let mut io_errors: Vec<std::io::Error> = Vec::new();
        proof {
            lemma_marked_none(before);
            assert(acknowledged(all.take(0)) =~= Set::<u64>::empty());
        }
        for outcome in it: outcomes
            invariant
                it.seq() == all,
                self.next == old(self).next,
                self.streams@ == pool + returned(all.take(it.index() as int)),
                io_errors@ == failures(all.take(it.index() as int)),
                send_buf@ == before.marked(acknowledged(all.take(it.index() as int))),
                send_buf@.wf(),
                before.wf(),
        {
            let ghost n = it.index() as int;
            let ghost seen = all.take(n);
            proof {
                assert(all.take(n + 1).drop_last() =~= seen);
                lemma_acknowledged_push(seen, outcome);
                assert(all.take(n + 1) =~= seen.push(outcome));
            }
            match outcome {
                Ok((sequence, stream)) => {
                    self.streams.push_back(stream);
                    send_buf.mark_as_sent(sequence);
                    proof {
                        lemma_marked_twice(before, acknowledged(seen), set![sequence@]);
                    }
                },
                Err(e) => {
                    io_errors.push(e);
                },
            }
        }
        assert(all.take(all.len() as int) =~= all);
        if io_errors.len() > 0 {
            return Err(SendError::Io(io_errors));
        }
        Ok(())
    }

    /// Begins a send operation: a buffer of `data` that starts at the cursor,
    /// cut into at most as many chunks as there are streams in the pool.
    /// `None` where the bytes of `data` would run past the last sequence
    /// number.
    pub fn begin_send(&self, data: Bytes) -> (send_buf: Option<SendStreamBuf>)
        ensures
            match send_buf {
                Some(buf) => {
                    &&& self@.next + contents(data).len() <= u64::MAX
                    &&& buf@ == SendBufView::fresh(self@.next, contents(data)).split(
                        self@.pool.len() as usize,
                    )
                    &&& buf@.wf()
                    &&& buf@.start == self@.next
                    &&& buf@.data == contents(data)
                    &&& buf@.unsent_bytes() == contents(data)
                },
                None => self@.next + contents(data).len() > u64::MAX,
            },
    {
        let ghost whole = SendBufView::fresh(self@.next, contents(data));
        match SendStreamBuf::try_new(data, self.next) {
            Some(mut buf) => {
                proof {
                    lemma_fresh(self@.next, contents(data));
                    lemma_split(whole, self@.pool.len() as usize);
                }
                buf.split_first_unsent_segment(self.streams.len());
                Some(buf)
            },
            None => None,
        }
    }

    /// Decides how a send operation goes on after a round. Without streams it
    /// has failed for good. After failed writes the round is run again, on
    /// what is left of the pool; the errors are handed on, and are no failure
    /// of the operation. After a round without failure the operation is done
    /// once every byte of `send_buf` has been sent, and the cursor then moves
    /// past the buffer; else the round is run again.
    pub fn settle(&mut self, send_buf: &SendStreamBuf, round: Result<(), SendError>) -> (step:
        SendStep)
        requires
            send_buf@.wf(),
            send_buf@.start == old(self)@.next,
        ensures
            follows(step, round, send_buf@.is_complete()),
            final(self)@.pool == old(self)@.pool,
            final(self)@.next == if step is Done {
                old(self)@.next + send_buf@.data.len()
            } else {
                old(self)@.next as int
            },
    {
        match round {
            Err(SendError::NoStreamLeft) => SendStep::Failed(NoStreamLeft),
            Err(SendError::Io(errors)) => SendStep::Retry(errors),
            Ok(()) => {
                if send_buf.done() {
                    self.next = Sequence::new(self.next.inner() + send_buf.len() as u64);
                    SendStep::Done
                } else {
                    SendStep::Retry(Vec::new())
                }
            },
        }
    }

    /// Decides how a visit of every stream goes on, front to back, where the
    /// first `visited` streams have been visited and `last` is how the latest
    /// visit ended (`Ok` before the first). A failure ends the visit at once,
    /// and is handed back: the streams behind the failed one are not visited,
    /// those before it have been. Else the stream to visit next is the one at
    /// index `visited`, or none where all have been visited.
    pub fn fan_out_next(&self, visited: usize, last: Result<(), std::io::Error>) -> (next: Result<
        Option<usize>,
        std::io::Error,
    >)
        ensures
            match last {
                Err(e) => next == Err::<Option<usize>, std::io::Error>(e),
                Ok(()) => next == Ok::<Option<usize>, std::io::Error>(
                    if visited < self@.pool.len() {
                        Some(visited)
                    } else {
                        None
                    },
                ),
            },
    {
        match last {
            Err(e) => Err(e),
            Ok(()) => if visited < self.streams.len() {
                Ok(Some(visited))
            } else {
                Ok(None)
            },
        }
    }

    /// The stream at `index`, counted from the front of the pool, to be
    /// flushed or shut down in place.
    pub fn stream_mut(&mut self, index: usize) -> (stream: &mut W)
        requires
            index < old(self)@.pool.len(),
        ensures
            *stream == old(self)@.pool[index as int],
            final(self)@.pool == old(self)@.pool.update(index as int, *final(stream)),
            final(self)@.next == old(self)@.next,
    {
        slot_mut(&mut self.streams, index)
    }
}

/// `VecDeque`'s `index_mut`: a mutable reference to the item at `index`,
/// counted from the front; nothing else of the deque changes. The call panics
/// where `index` is out of bounds, which the precondition rules out.
#[verifier::external_body]
fn slot_mut<W>(deque: &mut VecDeque<W>, index: usize) -> (item: &mut W)
    requires
        index < old(deque)@.len(),
    ensures
        *item == old(deque)@[index as int],
        final(deque)@ == old(deque)@.update(index as int, *final(item)),
{
    &mut deque[index]
}

/// How a send operation goes on after a round.
#[derive(Debug)]
pub enum SendStep {
    /// Every byte has been sent, and the cursor has moved past the buffer.
    Done,
    /// There are bytes left to send: run another round. The errors are those
    /// of the writes that failed in the round before, if any did.
    Retry(Vec<std::io::Error>),
    /// The pool is empty: the operation has failed, and no round will help.
    Failed(NoStreamLeft),
}

/// `step` is what follows a round that ended in `round`, with the buffer
/// fully sent or not as `complete` says.
pub open spec fn follows(step: SendStep, round: Result<(), SendError>, complete: bool) -> bool {
    match round {
        Err(SendError::NoStreamLeft) => step is Failed,
        Err(SendError::Io(errors)) => step matches SendStep::Retry(swallowed) && swallowed
            == errors,
        Ok(()) => if complete {
            step is Done
        } else {
            step matches SendStep::Retry(swallowed) && swallowed@.len() == 0
        },
    }
}

impl SendError {
    /// What went wrong, in words.
    pub fn message(&self) -> (text: String)
        ensures
            text@ == match self {
                SendError::NoStreamLeft => "No stream left"@,
                SendError::Io(_) => "Stream I/O errors"@,
            },
    {
        match self {
            SendError::NoStreamLeft => "No stream left".to_owned(),
            SendError::Io(_) => "Stream I/O errors".to_owned(),
        }
    }
}

impl NoStreamLeft {
    /// What went wrong, in words.
    pub fn message(&self) -> (text: String)
        ensures
            text@ == "No stream left"@,
    {
        "No stream left".to_owned()
    }
}

/// The streams of the successful writes among `outcomes`, in order.
pub open spec fn returned<W>(outcomes: Seq<Result<(Sequence, W), std::io::Error>>) -> Seq<W>
    decreases outcomes.len(),
{
    if outcomes.len() == 0 {
        Seq::empty()
    } else {
        let before = returned(outcomes.drop_last());
        match outcomes.last() {
            Ok((_, stream)) => before.push(stream),
            Err(_) => before,
        }
    }
}

/// The errors of the failed writes among `outcomes`, in order.
pub open spec fn failures<W>(outcomes: Seq<Result<(Sequence, W), std::io::Error>>) -> Seq<
    std::io::Error,
>
    decreases outcomes.len(),
{
    if outcomes.len() == 0 {
        Seq::empty()
    } else {
        let before = failures(outcomes.drop_last());
        match outcomes.last() {
            Ok(_) => before,
            Err(e) => before.push(e),
        }
    }
}

/// `outcome` is a successful write of the segment that starts at `seq`.
pub open spec fn acknowledges<W>(outcome: Result<(Sequence, W), std::io::Error>, seq: u64) -> bool {
    match outcome {
        Ok((start, _)) => start@ == seq,
        Err(_) => false,
    }
}

/// The sequence numbers at which the segments of the successful writes among
/// `outcomes` start.
pub open spec fn acknowledged<W>(outcomes: Seq<Result<(Sequence, W), std::io::Error>>) -> Set<u64> {
    Set::new(
        |seq: u64| exists|k: int| 0 <= k < outcomes.len() && acknowledges(#[trigger] outcomes[k], seq),
    )
}

/// One more outcome acknowledges what the earlier ones did and, where it is a
/// success, the start of its own segment.
pub proof fn lemma_acknowledged_push<W>(
    outcomes: Seq<Result<(Sequence, W), std::io::Error>>,
    outcome: Result<(Sequence, W), std::io::Error>,
)
    ensures
        acknowledged(outcomes.push(outcome)) == match outcome {
            Ok((start, _)) => acknowledged(outcomes).union(set![start@]),
            Err(_) => acknowledged(outcomes),
        },
{
    let more = outcomes.push(outcome);
    let claim = match outcome {
        Ok((start, _)) => acknowledged(outcomes).union(set![start@]),
        Err(_) => acknowledged(outcomes),
    };
    assert forall|seq: u64| acknowledged(more).contains(seq) implies claim.contains(seq) by {
        let k = choose|k: int| 0 <= k < more.len() && acknowledges(#[trigger] more[k], seq);
        if k < outcomes.len() {
            assert(acknowledges(outcomes[k], seq));
        }
    }
    assert forall|seq: u64| claim.contains(seq) implies acknowledged(more).contains(seq) by {
        if acknowledged(outcomes).contains(seq) {
            let k = choose|k: int|
                0 <= k < outcomes.len() && acknowledges(#[trigger] outcomes[k], seq);
            assert(acknowledges(more[k], seq));
        } else {
            assert(acknowledges(more[outcomes.len() as int], seq));
        }
    }
}

/// Every outcome is a success or a failure: the streams that come back and
/// the errors are as many as the outcomes.
pub proof fn lemma_outcomes_count<W>(outcomes: Seq<Result<(Sequence, W), std::io::Error>>)
    ensures
        returned(outcomes).len() + failures(outcomes).len() == outcomes.len(),
    decreases outcomes.len(),
{
    if outcomes.len() > 0 {
        lemma_outcomes_count(outcomes.drop_last());
    }
}

/// Every stream that comes back is the stream of a successful write.
pub proof fn lemma_returned_succeeded<W>(
    outcomes: Seq<Result<(Sequence, W), std::io::Error>>,
    i: int,
)
    requires
        0 <= i < returned(outcomes).len(),
    ensures
        exists|k: int|
            0 <= k < outcomes.len() && (#[trigger] outcomes[k] matches Ok(pair) && pair.1
                == returned(outcomes)[i]),
    decreases outcomes.len(),
{
    let shorter = outcomes.drop_last();
    if i < returned(shorter).len() {
        lemma_returned_succeeded(shorter, i);
        let j = choose|j: int|
            0 <= j < shorter.len() && (#[trigger] shorter[j] matches Ok(pair) && pair.1
                == returned(shorter)[i]);
        assert(outcomes[j] == shorter[j]);
    } else {
        assert(outcomes[outcomes.len() - 1] is Ok);
    }
}

/// A round in which `handed` streams were handed out and every write was
/// reported leaves the pool smaller by the number of failed writes: the
/// streams that were not handed out stay, those of the successful writes come
/// back behind them, and the others are gone.
pub proof fn lemma_round_shrinks_pool<W>(
    pool: Seq<W>,
    handed: int,
    outcomes: Seq<Result<(Sequence, W), std::io::Error>>,
)
    requires
        0 <= handed <= pool.len(),
        outcomes.len() == handed,
    ensures
        (pool.skip(handed) + returned(outcomes)).len() == pool.len() - failures(outcomes).len(),
        (pool.skip(handed) + returned(outcomes)).len() <= pool.len(),
{
    lemma_outcomes_count(outcomes);
}

/// With at least one stream, and writes that all succeed, a send operation
/// is over after one round. The buffer that the operation begins with has at
/// most one unsent segment for each stream, so the round hands out all of
/// them; their payloads, in the order of their sequence numbers, are the data;
/// and once each of them has been acknowledged the buffer is complete, so
/// that what follows the round is that the operation is done.
pub proof fn lemma_clean_round_completes<W>(
    next: u64,
    data: Seq<u8>,
    streams: usize,
    outcomes: Seq<Result<(Sequence, W), std::io::Error>>,
    step: SendStep,
)
    requires
        streams >= 1,
        next + data.len() <= u64::MAX,
        data.len() <= usize::MAX,
        forall|m: int|
            0 <= m < SendBufView::fresh(next, data).split(streams).unsent().len()
                ==> acknowledged(outcomes).contains(
                (#[trigger] SendBufView::fresh(next, data).split(streams).unsent()[m]).start,
            ),
        follows(
            step,
            Ok(()),
            SendBufView::fresh(next, data).split(streams).marked(
                acknowledged(outcomes),
            ).is_complete(),
        ),
    ensures
        round_width(
            streams as nat,
            SendBufView::fresh(next, data).split(streams).unsent().len(),
        ) == SendBufView::fresh(next, data).split(streams).unsent().len(),
        joined(SendBufView::fresh(next, data).split(streams).unsent()) == data,
        SendBufView::fresh(next, data).split(streams).marked(acknowledged(outcomes)).is_complete(),
        step is Done,
{
    let whole = SendBufView::fresh(next, data);
    lemma_fresh(next, data);
    lemma_split(whole, streams);
    lemma_unsent_of_len(next, data, whole.pieces);
    lemma_marked_complete(whole.split(streams), acknowledged(outcomes));
}

/// Where no write failed, every outcome is a success.
pub proof fn lemma_no_failures<W>(outcomes: Seq<Result<(Sequence, W), std::io::Error>>)
    requires
        failures(outcomes).len() == 0,
    ensures
        forall|k: int| 0 <= k < outcomes.len() ==> (#[trigger] outcomes[k]) is Ok,
    decreases outcomes.len(),
{
    if outcomes.len() > 0 {
        let shorter = outcomes.drop_last();
        lemma_no_failures(shorter);
        assert forall|k: int| 0 <= k < outcomes.len() implies (#[trigger] outcomes[k]) is Ok by {
            if k < shorter.len() {
                assert(outcomes[k] == shorter[k]);
            }
        }
    }
}

/// Every round in which a write was reported brings the send operation
/// closer to its end: streams and unsent segments, counted together, are
/// fewer after it than before. A failed write costs its stream; a successful
/// write of an unsent segment makes that segment sent. So a send operation is
/// over after finitely many rounds, whatever the streams do.
pub proof fn lemma_round_makes_progress<W>(
    pool: Seq<W>,
    buf: SendBufView,
    outcomes: Seq<Result<(Sequence, W), std::io::Error>>,
)
    requires
        buf.wf(),
        1 <= outcomes.len() <= pool.len(),
        forall|k: int|
            0 <= k < outcomes.len() && (#[trigger] outcomes[k]) is Ok ==> exists|m: int|
                0 <= m < buf.unsent().len() && acknowledges(
                    outcomes[k],
                    (#[trigger] buf.unsent()[m]).start,
                ),
    ensures
        (pool.skip(outcomes.len() as int) + returned(outcomes)).len() + buf.marked(
            acknowledged(outcomes),
        ).unsent().len() < pool.len() + buf.unsent().len(),
{
    lemma_outcomes_count(outcomes);
    lemma_marked_progress(buf, acknowledged(outcomes));
    if failures(outcomes).len() == 0 {
        lemma_no_failures(outcomes);
        let m = choose|m: int|
            0 <= m < buf.unsent().len() && acknowledges(
                outcomes[0],
                (#[trigger] buf.unsent()[m]).start,
            );
        assert(acknowledged(outcomes).contains(buf.unsent()[m].start));
    }
}

} // verus!
