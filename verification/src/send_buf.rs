//! The buffer of one send operation and its segments.
//!
//! A [`SendStreamBuf`] owns the bytes of one send operation, knows where they
//! start in the logical byte stream, and keeps them cut into pieces that lie
//! end to end. Each piece is either sent or unsent; the unsent ones are what a
//! round hands to the streams, as [`Segment`]s.
use bytes::Bytes;
use vstd::prelude::*;

use crate::message::Sequence;
use crate::octets::{contents, length, window};
use crate::tiling::{
    lemma_chunk_len, lemma_first_unsent, lemma_split, lemma_tiles_span, lemma_unsent_of_from,
    lemma_unsent_of_has, lemma_unsent_of_marked, lemma_unsent_of_none, lemma_unsent_of_one,
    lemma_unsent_of_ordered,
};

verus! {

/// A stretch of the buffer: `len` bytes from `offset` on, and whether they
/// have been sent.
#[derive(Clone, Copy, Debug)]
pub struct Piece {
    pub offset: usize,
    pub len: usize,
    pub sent: bool,
}

/// What a segment is: the sequence number of its first byte, and its bytes.
pub ghost struct SegmentView {
    pub start: u64,
    pub payload: Seq<u8>,
}

/// What a send buffer is: the sequence number of its first byte, its bytes,
/// and the pieces that they are cut into.
pub ghost struct SendBufView {
    pub start: u64,
    pub data: Seq<u8>,
    pub pieces: Seq<Piece>,
}

/// The segment that `piece` stands for, in a buffer of `data` whose first
/// byte has the sequence number `start`.
pub open spec fn segment_of(start: u64, data: Seq<u8>, piece: Piece) -> SegmentView {
    SegmentView {
        start: (start + piece.offset) as u64,
        payload: data.subrange(piece.offset as int, piece.offset + piece.len),
    }
}

/// The segments of the unsent pieces among `pieces`, in the order of the
/// pieces.
pub open spec fn unsent_of(start: u64, data: Seq<u8>, pieces: Seq<Piece>) -> Seq<SegmentView>
    decreases pieces.len(),
{
    if pieces.len() == 0 {
        Seq::empty()
    } else {
        let before = unsent_of(start, data, pieces.drop_last());
        if pieces.last().sent {
            before
        } else {
            before.push(segment_of(start, data, pieces.last()))
        }
    }
}

/// The payloads of `segments`, one after the other.
pub open spec fn joined(segments: Seq<SegmentView>) -> Seq<u8>
    decreases segments.len(),
{
    if segments.len() == 0 {
        Seq::empty()
    } else {
        joined(segments.drop_last()) + segments.last().payload
    }
}

/// `pieces` lie end to end from `from` to `to`, and none of them is empty.
pub open spec fn tiles(pieces: Seq<Piece>, from: int, to: int) -> bool {
    &&& pieces.len() == 0 ==> from == to
    &&& pieces.len() > 0 ==> pieces.first().offset == from && pieces.last().offset
        + pieces.last().len == to
    &&& forall|i: int| 0 <= i < pieces.len() ==> (#[trigger] pieces[i]).len > 0
    &&& forall|i: int, j: int|
        0 <= i && j == i + 1 && j < pieces.len() ==> (#[trigger] pieces[i]).offset
            + pieces[i].len == (#[trigger] pieces[j]).offset
}

/// The length of the chunks that cut `len` bytes into at most `width` parts:
/// `len / width`, rounded up.
pub open spec fn chunk_len(len: int, width: int) -> int {
    if width <= 0 {
        0
    } else if len % width == 0 {
        len / width
    } else {
        len / width + 1
    }
}

/// The unsent pieces that cut the `len` bytes from `offset` on into chunks of
/// `chunk` bytes, the last of them holding what is left.
pub open spec fn chunks(offset: int, len: int, chunk: int) -> Seq<Piece>
    decreases len,
{
    if len <= 0 || chunk <= 0 {
        Seq::empty()
    } else {
        let l = if chunk < len {
            chunk
        } else {
            len
        };
        seq![Piece { offset: offset as usize, len: l as usize, sent: false }] + chunks(
            offset + l,
            len - l,
            chunk,
        )
    }
}

impl SendBufView {
    /// A buffer of `data` of which nothing has been sent: one piece, or none
    /// where there are no bytes.
    pub open spec fn fresh(start: u64, data: Seq<u8>) -> SendBufView {
        SendBufView {
            start,
            data,
            pieces: if data.len() == 0 {
                Seq::empty()
            } else {
                seq![Piece { offset: 0, len: data.len() as usize, sent: false }]
            },
        }
    }

    /// The pieces cover the bytes exactly, and every byte has a sequence
    /// number.
    pub open spec fn wf(self) -> bool {
        &&& self.start + self.data.len() <= u64::MAX
        &&& self.data.len() <= usize::MAX
        &&& tiles(self.pieces, 0, self.data.len() as int)
    }

    /// The sequence number of the first byte of piece `i`.
    pub open spec fn start_of(self, i: int) -> u64 {
        (self.start + self.pieces[i].offset) as u64
    }

    /// The unsent segments, in the order of their offsets.
    pub open spec fn unsent(self) -> Seq<SegmentView> {
        unsent_of(self.start, self.data, self.pieces)
    }

    /// The bytes that are still to be sent, in order.
    pub open spec fn unsent_bytes(self) -> Seq<u8> {
        joined(self.unsent())
    }

    /// Every piece has been sent.
    pub open spec fn is_complete(self) -> bool {
        forall|i: int| 0 <= i < self.pieces.len() ==> (#[trigger] self.pieces[i]).sent
    }

    /// The buffer after every piece that starts at one of `acks` has been
    /// marked as sent.
    pub open spec fn marked(self, acks: Set<u64>) -> SendBufView {
        SendBufView {
            start: self.start,
            data: self.data,
            pieces: Seq::new(
                self.pieces.len(),
                |i: int|
                    Piece {
                        offset: self.pieces[i].offset,
                        len: self.pieces[i].len,
                        sent: self.pieces[i].sent || acks.contains(self.start_of(i)),
                    },
            ),
        }
    }

    /// The buffer after the piece that starts at `seq`, if there is one, has
    /// been marked as sent.
    pub open spec fn mark_sent(self, seq: u64) -> SendBufView {
        self.marked(set![seq])
    }

    /// `j` is the index of the first unsent piece, or the number of pieces
    /// where all are sent.
    pub open spec fn is_first_unsent(self, j: int) -> bool {
        &&& 0 <= j <= self.pieces.len()
        &&& forall|i: int| 0 <= i < j ==> (#[trigger] self.pieces[i]).sent
        &&& j < self.pieces.len() ==> !self.pieces[j].sent
    }

    /// The index of the first unsent piece, or the number of pieces where all
    /// are sent.
    pub open spec fn first_unsent(self) -> int {
        choose|j: int| self.is_first_unsent(j)
    }

    /// The buffer after its first unsent piece has been cut into at most
    /// `width` chunks of equal length, but for the last. Nothing changes
    /// where every piece is sent or `width` is 0.
    pub open spec fn split(self, width: usize) -> SendBufView {
        let j = self.first_unsent();
        if j >= self.pieces.len() || width == 0 {
            self
        } else {
            let piece = self.pieces[j];
            SendBufView {
                start: self.start,
                data: self.data,
                pieces: self.pieces.take(j) + chunks(
                    piece.offset as int,
                    piece.len as int,
                    chunk_len(piece.len as int, width as int),
                ) + self.pieces.skip(j + 1),
            }
        }
    }
}

/// A contiguous stretch of the buffer, to be written to one stream.
pub struct Segment {
    start: Sequence,
    payload: Bytes,
}

impl View for Segment {
    type V = SegmentView;

    closed spec fn view(&self) -> SegmentView {
        SegmentView { start: self.start@, payload: contents(self.payload) }
    }
}

impl DeepView for Segment {
    type V = SegmentView;

    open spec fn deep_view(&self) -> SegmentView {
        self@
    }
}

impl Segment {
    /// The sequence number of the segment's first byte.
    pub fn start_sequence(&self) -> (start: Sequence)
        ensures
            start@ == self@.start,
    {
        self.start
    }

    /// The bytes of the segment.
    pub fn payload(&self) -> (payload: &Bytes)
        ensures
            contents(*payload) == self@.payload,
    {
        &self.payload
    }

    /// The number of bytes in the segment.
    pub fn len(&self) -> (n: usize)
        ensures
            n == self@.payload.len(),
    {
        length(&self.payload)
    }
}

/// The bytes of one send operation, cut into pieces that are sent or unsent.
pub struct SendStreamBuf {
    data: Bytes,
    start: Sequence,
    pieces: Vec<Piece>,
}

impl View for SendStreamBuf {
    type V = SendBufView;

    closed spec fn view(&self) -> SendBufView {
        SendBufView { start: self.start@, data: contents(self.data), pieces: self.pieces@ }
    }
}

impl SendStreamBuf {
    /// A buffer of `data`, whose first byte has the sequence number `start`
    /// and of which nothing has been sent.
    pub fn new(data: Bytes, start: Sequence) -> (buf: Self)
        requires
            start@ + contents(data).len() <= u64::MAX,
        ensures
            buf@ == SendBufView::fresh(start@, contents(data)),
            buf@.wf(),
    {
        let len: usize = length(&data);
        let mut pieces: Vec<Piece> = Vec::new();
        if len > 0 {
            pieces.push(Piece { offset: 0, len, sent: false });
        }
        SendStreamBuf { data, start, pieces }
    }

    /// A buffer as [`SendStreamBuf::new`] makes it, or `None` where the bytes
    /// of `data` would run past the last sequence number.
    pub fn try_new(data: Bytes, start: Sequence) -> (made: Option<Self>)
        ensures
            match made {
                Some(buf) => {
                    &&& start@ + contents(data).len() <= u64::MAX
                    &&& buf@ == SendBufView::fresh(start@, contents(data))
                    &&& buf@.wf()
                },
                None => start@ + contents(data).len() > u64::MAX,
            },
    {
        let len: usize = length(&data);
        if len as u64 > u64::MAX - start.inner() {
            None
        } else {
            Some(SendStreamBuf::new(data, start))
        }
    }

    /// The sequence number of the buffer's first byte.
    pub fn start(&self) -> (start: Sequence)
        ensures
            start@ == self@.start,
    {
        self.start
    }

    /// The number of bytes in the buffer, sent or not.
    pub fn len(&self) -> (n: usize)
        ensures
            n == self@.data.len(),
    {
        length(&self.data)
    }

    /// Cuts the first unsent piece into at most `width` chunks of equal
    /// length, but for the last, so that each of `width` streams can take one.
    /// With `width` 0, or with nothing unsent, the buffer stays as it is.
    pub fn split_first_unsent_segment(&mut self, width: usize)
        requires
            old(self)@.wf(),
        ensures
            final(self)@ == old(self)@.split(width),
            final(self)@.wf(),
            final(self)@.unsent_bytes() == old(self)@.unsent_bytes(),
    {
        let ghost before = self@;
        proof {
            lemma_split(before, width);
        }
        let n: usize = self.pieces.len();
        let mut j: usize = 0;
        while j < n && self.pieces[j].sent
            invariant
                j <= n,
                n == self.pieces.len(),
                self@ == before,
                forall|i: int| 0 <= i < j ==> (#[trigger] self.pieces[i]).sent,
            decreases n - j,
        {
            j += 1;
        }
        proof {
            lemma_first_unsent(before, j as int);
        }
        if j >= n || width == 0 {
            return ;
        }
        let piece = self.pieces[j];
        proof {
            lemma_chunk_len(piece.len as int, width as int);
            lemma_tiles_span(before.pieces, 0, before.data.len() as int, j as int);
        }
        let chunk: usize = if piece.len % width == 0 {
            piece.len / width
        } else {
            piece.len / width + 1
        };
        let mut tail = self.pieces.split_off(j + 1);
        self.pieces.pop();
        let ghost cut = chunks(piece.offset as int, piece.len as int, chunk as int);
        let mut offset: usize = piece.offset;
        let mut left: usize = piece.len;
        while left > 0
            invariant
                0 < chunk,
                offset + left == piece.offset + piece.len <= usize::MAX,
                self.pieces@ + chunks(offset as int, left as int, chunk as int)
                    == before.pieces.take(j as int) + cut,
                self.start == old(self).start,
                self.data == old(self).data,
            decreases left,
        {
            let l: usize = if chunk < left {
                chunk
            } else {
                left
            };
            self.pieces.push(Piece { offset, len: l, sent: false });
            offset += l;
            left -= l;
        }
        self.pieces.append(&mut tail);
    }

    /// The unsent segments, in the order of their offsets.
    pub fn iter_unsent_segments(&self) -> (segments: Vec<Segment>)
        requires
            self@.wf(),
        ensures
            segments.deep_view() == self@.unsent(),
    {
        let base: u64 = self.start.inner();
        let mut segments: Vec<Segment> = Vec::new();
        let mut i: usize = 0;
        while i < self.pieces.len()
            invariant
                i <= self.pieces.len(),
                self@.wf(),
                base == self@.start,
                segments.deep_view() == unsent_of(
                    self@.start,
                    self@.data,
                    self@.pieces.take(i as int),
                ),
            decreases self.pieces.len() - i,
        {
            let piece = self.pieces[i];
            proof {
                lemma_tiles_span(self@.pieces, 0, self@.data.len() as int, i as int);
                assert(self@.pieces.take(i + 1).drop_last() =~= self@.pieces.take(i as int));
            }
            if !piece.sent {
                let payload = window(&self.data, piece.offset, piece.offset + piece.len);
                let start = Sequence::new(base + piece.offset as u64);
                segments.push(Segment { start, payload });
            }
            i += 1;
        }
        assert(self@.pieces.take(i as int) =~= self@.pieces);
        segments
    }

    /// Marks the piece that starts at `seq` as sent. Nothing changes where no
    /// piece starts there, or where that piece is sent already.
    pub fn mark_as_sent(&mut self, seq: Sequence)
        requires
            old(self)@.wf(),
        ensures
            final(self)@ == old(self)@.mark_sent(seq@),
            final(self)@.wf(),
    {
        let ghost before = self@;
        let base: u64 = self.start.inner();
        let target: u64 = seq.inner();
        let n: usize = self.pieces.len();
        let mut i: usize = 0;
        while i < n
            invariant
                i <= n,
                n == self.pieces.len(),
                n == before.pieces.len(),
                before.wf(),
                base == before.start,
                target == seq@,
                self.start == old(self).start,
                self.data == old(self).data,
                forall|k: int|
                    0 <= k < i ==> #[trigger] self.pieces[k] == before.mark_sent(seq@).pieces[k],
                forall|k: int| i <= k < n ==> #[trigger] self.pieces[k] == before.pieces[k],
            decreases n - i,
        {
            let piece = self.pieces[i];
            proof {
                lemma_tiles_span(before.pieces, 0, before.data.len() as int, i as int);
            }
            if base + piece.offset as u64 == target {
                self.pieces.set(i, Piece { offset: piece.offset, len: piece.len, sent: true });
            }
            i += 1;
        }
        assert(self.pieces@ =~= before.mark_sent(seq@).pieces);
        proof {
            lemma_marked_wf(before, set![seq@]);
        }
    }

    /// Whether every byte of the buffer has been marked as sent.
    pub fn done(&self) -> (complete: bool)
        ensures
            complete == self@.is_complete(),
    {
        let mut i: usize = 0;
        while i < self.pieces.len()
            invariant
                i <= self.pieces.len(),
                forall|k: int| 0 <= k < i ==> (#[trigger] self.pieces[k]).sent,
            decreases self.pieces.len() - i,
        {
            if !self.pieces[i].sent {
                assert(!self@.pieces[i as int].sent);
                return false;
            }
            i += 1;
        }
        true
    }
}

/// Marking pieces as sent moves none of them: the buffer stays well formed.
pub proof fn lemma_marked_wf(buf: SendBufView, acks: Set<u64>)
    requires
        buf.wf(),
    ensures
        buf.marked(acks).wf(),
{
    let after = buf.marked(acks);
    assert forall|i: int, j: int|
        0 <= i && j == i + 1 && j < after.pieces.len() implies (#[trigger] after.pieces[i]).offset
        + after.pieces[i].len == (#[trigger] after.pieces[j]).offset by {
        assert(buf.pieces[i].offset + buf.pieces[i].len == buf.pieces[j].offset);
    }
    assert forall|i: int| 0 <= i < after.pieces.len() implies (#[trigger] after.pieces[i]).len
        > 0 by {
        assert(buf.pieces[i].len > 0);
    }
}

/// Marking nothing changes nothing.
pub proof fn lemma_marked_none(buf: SendBufView)
    ensures
        buf.marked(Set::empty()) == buf,
{
    assert(buf.marked(Set::empty()).pieces =~= buf.pieces);
}

/// Marking in two steps is marking everything at once, in whatever order.
pub proof fn lemma_marked_twice(buf: SendBufView, first: Set<u64>, second: Set<u64>)
    ensures
        buf.marked(first).marked(second) == buf.marked(first.union(second)),
{
    assert(buf.marked(first).marked(second).pieces =~= buf.marked(first.union(second)).pieces);
}

/// Marking the same sequence number as sent a second time changes nothing.
pub proof fn lemma_mark_sent_idempotent(buf: SendBufView, seq: u64)
    ensures
        buf.mark_sent(seq).mark_sent(seq) == buf.mark_sent(seq),
{
    lemma_marked_twice(buf, set![seq], set![seq]);
    assert(set![seq].union(set![seq]) =~= set![seq]);
}

/// A fresh buffer is well formed, and all its bytes are still to be sent.
pub proof fn lemma_fresh(start: u64, data: Seq<u8>)
    requires
        start + data.len() <= u64::MAX,
        data.len() <= usize::MAX,
    ensures
        SendBufView::fresh(start, data).wf(),
        SendBufView::fresh(start, data).unsent_bytes() == data,
{
    if data.len() > 0 {
        lemma_unsent_of_one(start, data, SendBufView::fresh(start, data).pieces[0]);
    }
}

/// The unsent segments of a well-formed buffer come in the order of their
/// sequence numbers, and no two of them overlap: each ends before the next
/// one starts.
pub proof fn lemma_unsent_disjoint(buf: SendBufView, m: int, n: int)
    requires
        buf.wf(),
        0 <= m < n < buf.unsent().len(),
    ensures
        buf.unsent()[m].start + buf.unsent()[m].payload.len() <= buf.unsent()[n].start,
{
    lemma_unsent_of_ordered(buf.start, buf.data, buf.pieces, 0, buf.data.len() as int);
}

/// Once every unsent segment has been acknowledged, the buffer is complete.
pub proof fn lemma_marked_complete(buf: SendBufView, acks: Set<u64>)
    requires
        buf.wf(),
        forall|m: int| 0 <= m < buf.unsent().len() ==> acks.contains((#[trigger] buf.unsent()[m]).start),
    ensures
        buf.marked(acks).is_complete(),
{
    let after = buf.marked(acks);
    assert forall|i: int| 0 <= i < after.pieces.len() implies (#[trigger] after.pieces[i]).sent by {
        if !buf.pieces[i].sent {
            lemma_unsent_of_has(buf.start, buf.data, buf.pieces, i);
            let seg = segment_of(buf.start, buf.data, buf.pieces[i]);
            let m = choose|m: int| 0 <= m < buf.unsent().len() && buf.unsent()[m] == seg;
            assert(acks.contains(buf.unsent()[m].start));
        }
    }
}

/// A buffer is complete exactly when it has no unsent segment.
pub proof fn lemma_complete_iff_nothing_unsent(buf: SendBufView)
    ensures
        buf.is_complete() <==> buf.unsent().len() == 0,
{
    lemma_unsent_of_none(buf.start, buf.data, buf.pieces);
}

/// Marking never brings an unsent segment back, and takes at least one away
/// where one of the unsent segments starts at a marked sequence number.
pub proof fn lemma_marked_progress(buf: SendBufView, acks: Set<u64>)
    requires
        buf.wf(),
    ensures
        buf.marked(acks).unsent().len() <= buf.unsent().len(),
        (exists|m: int| 0 <= m < buf.unsent().len() && acks.contains((#[trigger] buf.unsent()[m]).start))
            ==> buf.marked(acks).unsent().len() < buf.unsent().len(),
{
    lemma_unsent_of_marked(buf.start, buf.data, buf.pieces, buf.marked(acks).pieces, acks);
    if exists|m: int| 0 <= m < buf.unsent().len() && acks.contains((#[trigger] buf.unsent()[m]).start) {
        let m = choose|m: int|
            0 <= m < buf.unsent().len() && acks.contains((#[trigger] buf.unsent()[m]).start);
        lemma_unsent_of_from(buf.start, buf.data, buf.pieces, m);
    }
}

} // verus!
