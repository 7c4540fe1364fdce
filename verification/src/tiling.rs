//! Facts about pieces that lie end to end, and about cutting one of them into
//! chunks.
use vstd::prelude::*;

use crate::send_buf::{
    chunk_len, chunks, joined, segment_of, tiles, unsent_of, Piece, SegmentView, SendBufView,
};

verus! {

/// The unsent segments of two runs of pieces, one after the other, are those
/// of the first run followed by those of the second.
pub proof fn lemma_unsent_of_add(start: u64, data: Seq<u8>, a: Seq<Piece>, b: Seq<Piece>)
    ensures
        unsent_of(start, data, a + b) == unsent_of(start, data, a) + unsent_of(start, data, b),
    decreases b.len(),
{
    if b.len() > 0 {
        lemma_unsent_of_add(start, data, a, b.drop_last());
        assert((a + b).drop_last() =~= a + b.drop_last());
    }
}

/// Joining two runs of segments, one after the other, gives the bytes of the
/// first run followed by those of the second.
pub proof fn lemma_joined_add(x: Seq<SegmentView>, y: Seq<SegmentView>)
    ensures
        joined(x + y) == joined(x) + joined(y),
    decreases y.len(),
{
    if y.len() > 0 {
        lemma_joined_add(x, y.drop_last());
        assert((x + y).drop_last() =~= x + y.drop_last());
    }
}

/// No run of pieces has more unsent segments than pieces.
pub proof fn lemma_unsent_of_len(start: u64, data: Seq<u8>, pieces: Seq<Piece>)
    ensures
        unsent_of(start, data, pieces).len() <= pieces.len(),
    decreases pieces.len(),
{
    if pieces.len() > 0 {
        lemma_unsent_of_len(start, data, pieces.drop_last());
    }
}

/// The chunk length is at least 1 and at most `len`, and `width` chunks of
/// it hold `len` bytes.
pub proof fn lemma_chunk_len(len: int, width: int)
    requires
        len > 0,
        width > 0,
    ensures
        1 <= chunk_len(len, width) <= len,
        len <= width * chunk_len(len, width),
{
    let q = len / width;
    let r = len % width;
    assert(len == width * q + r && 0 <= r < width) by {
        vstd::arithmetic::div_mod::lemma_fundamental_div_mod(len, width);
        vstd::arithmetic::div_mod::lemma_mod_bound(len, width);
    }
    assert(q >= 0) by {
        vstd::arithmetic::div_mod::lemma_div_pos_is_pos(len, width);
    }
    assert(q <= len) by (nonlinear_arith)
        requires
            len == width * q + r,
            0 <= r,
            width >= 1,
            q >= 0,
    ;
    if r == 0 {
        assert(q >= 1) by (nonlinear_arith)
            requires
                len == width * q,
                len > 0,
                width > 0,
        ;
    } else {
        assert(width * (q + 1) == width * q + width) by (nonlinear_arith);
        assert(q + 1 <= len) by (nonlinear_arith)
            requires
                len == width * q + r,
                0 < r,
                width >= 1,
                q >= 0,
        ;
    }
}

/// Chunks lie end to end over the bytes that they cut, and are unsent.
pub proof fn lemma_chunks_tile(offset: int, len: int, chunk: int)
    requires
        0 <= offset,
        0 <= len,
        0 < chunk,
        offset + len <= usize::MAX,
    ensures
        tiles(chunks(offset, len, chunk), offset, offset + len),
        forall|i: int|
            0 <= i < chunks(offset, len, chunk).len() ==> !(#[trigger] chunks(
                offset,
                len,
                chunk,
            )[i]).sent,
        len > 0 ==> chunks(offset, len, chunk).len() > 0,
    decreases len,
{
    if len > 0 {
        let l = if chunk < len {
            chunk
        } else {
            len
        };
        let head = seq![Piece { offset: offset as usize, len: l as usize, sent: false }];
        let tail = chunks(offset + l, len - l, chunk);
        lemma_chunks_tile(offset + l, len - l, chunk);
        lemma_tiles_add(head, tail, offset, offset + l, offset + len);
    }
}

/// Two runs of pieces that lie end to end, the second starting where the
/// first ends, lie end to end together.
pub proof fn lemma_tiles_add(a: Seq<Piece>, b: Seq<Piece>, from: int, mid: int, to: int)
    requires
        tiles(a, from, mid),
        tiles(b, mid, to),
    ensures
        tiles(a + b, from, to),
{
    let c = a + b;
    assert forall|i: int, j: int| 0 <= i && j == i + 1 && j < c.len() implies (#[trigger] c[i]).offset
        + c[i].len == (#[trigger] c[j]).offset by {
        if i < a.len() && j >= a.len() {
            assert(c[i] == a.last() && c[j] == b.first());
        }
    }
}

/// The point at which piece `j` of `pieces` starts; `to`, the end of them
/// all, where `j` is their number.
pub open spec fn boundary(pieces: Seq<Piece>, j: int, to: int) -> int {
    if j < pieces.len() {
        pieces[j].offset as int
    } else {
        to
    }
}

/// A run of pieces that lie end to end can be parted at any piece: both
/// parts lie end to end, and meet where that piece starts.
pub proof fn lemma_tiles_part(pieces: Seq<Piece>, from: int, to: int, j: int)
    requires
        tiles(pieces, from, to),
        0 <= j <= pieces.len(),
    ensures
        tiles(pieces.take(j), from, boundary(pieces, j, to)),
        tiles(pieces.skip(j), boundary(pieces, j, to), to),
        from <= boundary(pieces, j, to) <= to,
{
    if j > 0 {
        lemma_tiles_span(pieces, from, to, j - 1);
    }
    if j < pieces.len() {
        lemma_tiles_span(pieces, from, to, j);
    }
}

/// Every piece of a run that lies end to end from `from` to `to` lies within
/// these two.
pub proof fn lemma_tiles_span(pieces: Seq<Piece>, from: int, to: int, j: int)
    requires
        tiles(pieces, from, to),
        0 <= j < pieces.len(),
    ensures
        from <= pieces[j].offset,
        pieces[j].offset + pieces[j].len <= to,
{
    lemma_tiles_ordered(pieces, from, to, 0, j);
    lemma_tiles_ordered(pieces, from, to, j, pieces.len() - 1);
}

/// Of two pieces of a run that lies end to end, the earlier one ends before
/// the later one starts: no two pieces overlap.
pub proof fn lemma_tiles_ordered(pieces: Seq<Piece>, from: int, to: int, i: int, j: int)
    requires
        tiles(pieces, from, to),
        0 <= i <= j < pieces.len(),
    ensures
        pieces[i].offset <= pieces[j].offset,
        i < j ==> pieces[i].offset + pieces[i].len <= pieces[j].offset,
    decreases j - i,
{
    if i < j {
        lemma_tiles_ordered(pieces, from, to, i, j - 1);
    }
}

/// `width` chunks are enough where `width` times the chunk length is no less
/// than the number of bytes.
pub proof fn lemma_chunks_count(offset: int, len: int, chunk: int, width: int)
    requires
        0 <= len,
        0 < chunk,
        0 <= width,
        len <= width * chunk,
    ensures
        chunks(offset, len, chunk).len() <= width,
    decreases len,
{
    if len > 0 {
        let l = if chunk < len {
            chunk
        } else {
            len
        };
        assert(width >= 1) by (nonlinear_arith)
            requires
                0 < len <= width * chunk,
                0 < chunk,
                0 <= width,
        ;
        assert((width - 1) * chunk == width * chunk - chunk) by (nonlinear_arith);
        lemma_chunks_count(offset + l, len - l, chunk, width - 1);
    }
}

/// The chunks of a stretch of bytes are all unsent segments, and their
/// payloads, joined, are that stretch.
pub proof fn lemma_chunks_joined(start: u64, data: Seq<u8>, offset: int, len: int, chunk: int)
    requires
        0 <= offset,
        0 <= len,
        0 < chunk,
        offset + len <= data.len(),
        data.len() <= usize::MAX,
    ensures
        unsent_of(start, data, chunks(offset, len, chunk)).len() == chunks(
            offset,
            len,
            chunk,
        ).len(),
        joined(unsent_of(start, data, chunks(offset, len, chunk))) == data.subrange(
            offset,
            offset + len,
        ),
    decreases len,
{
    if len > 0 {
        let l = if chunk < len {
            chunk
        } else {
            len
        };
        let piece = Piece { offset: offset as usize, len: l as usize, sent: false };
        let head = seq![piece];
        let tail = chunks(offset + l, len - l, chunk);
        lemma_chunks_joined(start, data, offset + l, len - l, chunk);
        lemma_unsent_of_add(start, data, head, tail);
        lemma_unsent_of_one(start, data, piece);
        lemma_joined_add(unsent_of(start, data, head), unsent_of(start, data, tail));
    }
}

/// One unsent piece gives one unsent segment, whose payload are the bytes of
/// the piece; a sent piece gives none.
pub proof fn lemma_unsent_of_one(start: u64, data: Seq<u8>, piece: Piece)
    ensures
        !piece.sent ==> unsent_of(start, data, seq![piece]) == seq![segment_of(start, data, piece)]
            && joined(unsent_of(start, data, seq![piece])) == segment_of(
            start,
            data,
            piece,
        ).payload,
        piece.sent ==> unsent_of(start, data, seq![piece]) == Seq::<SegmentView>::empty(),
{
    reveal_with_fuel(unsent_of, 2);
    reveal_with_fuel(joined, 2);
}

/// The first unsent piece is the only index that is one.
pub proof fn lemma_first_unsent(buf: SendBufView, j: int)
    requires
        buf.is_first_unsent(j),
    ensures
        buf.first_unsent() == j,
{
}

/// Every buffer has a first unsent piece, or all its pieces are sent.
pub proof fn lemma_first_unsent_exists(buf: SendBufView, i: int)
    requires
        0 <= i <= buf.pieces.len(),
        forall|k: int| 0 <= k < i ==> (#[trigger] buf.pieces[k]).sent,
    ensures
        buf.is_first_unsent(buf.first_unsent()),
    decreases buf.pieces.len() - i,
{
    if i < buf.pieces.len() && buf.pieces[i].sent {
        lemma_first_unsent_exists(buf, i + 1);
    } else {
        assert(buf.is_first_unsent(i));
    }
}

/// Cutting the first unsent piece into chunks keeps the buffer well formed
/// and changes neither its bytes nor the bytes that are still to be sent; it
/// adds fewer than `width` unsent segments.
pub proof fn lemma_split(buf: SendBufView, width: usize)
    requires
        buf.wf(),
    ensures
        buf.split(width).wf(),
        buf.split(width).start == buf.start,
        buf.split(width).data == buf.data,
        buf.split(width).unsent_bytes() == buf.unsent_bytes(),
        buf.unsent().len() <= buf.split(width).unsent().len(),
        width >= 1 ==> buf.split(width).unsent().len() <= buf.unsent().len() + width - 1,
{
    lemma_first_unsent_exists(buf, 0);
    let j = buf.first_unsent();
    if j < buf.pieces.len() && width > 0 {
        let total = buf.data.len() as int;
        let piece = buf.pieces[j];
        let off = piece.offset as int;
        let len = piece.len as int;
        let c = chunk_len(len, width as int);
        let head = buf.pieces.take(j);
        let one = seq![piece];
        let cut = chunks(off, len, c);
        let tail = buf.pieces.skip(j + 1);
        lemma_chunk_len(len, width as int);
        lemma_tiles_span(buf.pieces, 0, total, j);
        lemma_tiles_part(buf.pieces, 0, total, j);
        lemma_tiles_part(buf.pieces, 0, total, j + 1);
        lemma_chunks_tile(off, len, c);
        lemma_tiles_add(head, cut, 0, off, off + len);
        lemma_tiles_add(head + cut, tail, 0, off + len, total);
        assert(buf.pieces =~= head + one + tail);
        lemma_unsent_of_add(buf.start, buf.data, head, one);
        lemma_unsent_of_add(buf.start, buf.data, head + one, tail);
        lemma_unsent_of_add(buf.start, buf.data, head, cut);
        lemma_unsent_of_add(buf.start, buf.data, head + cut, tail);
        lemma_unsent_of_one(buf.start, buf.data, piece);
        lemma_chunks_joined(buf.start, buf.data, off, len, c);
        lemma_chunks_count(off, len, c, width as int);
        let uh = unsent_of(buf.start, buf.data, head);
        let uo = unsent_of(buf.start, buf.data, one);
        let uc = unsent_of(buf.start, buf.data, cut);
        let ut = unsent_of(buf.start, buf.data, tail);
        lemma_joined_add(uh, uo);
        lemma_joined_add(uh + uo, ut);
        lemma_joined_add(uh, uc);
        lemma_joined_add(uh + uc, ut);
    }
}

/// Every unsent piece has its segment among the unsent segments.
pub proof fn lemma_unsent_of_has(start: u64, data: Seq<u8>, pieces: Seq<Piece>, i: int)
    requires
        0 <= i < pieces.len(),
        !pieces[i].sent,
    ensures
        unsent_of(start, data, pieces).contains(segment_of(start, data, pieces[i])),
    decreases pieces.len(),
{
    let all = unsent_of(start, data, pieces);
    let before = unsent_of(start, data, pieces.drop_last());
    if i == pieces.len() - 1 {
        assert(all[before.len() as int] == segment_of(start, data, pieces[i]));
    } else {
        lemma_unsent_of_has(start, data, pieces.drop_last(), i);
        let m = choose|m: int|
            0 <= m < before.len() && before[m] == segment_of(start, data, pieces[i]);
        assert(all[m] == before[m]);
    }
}

/// The unsent segments of pieces that lie end to end from `from` to `to` lie
/// within these two, in the order of their sequence numbers, and no two of
/// them overlap.
pub proof fn lemma_unsent_of_ordered(
    start: u64,
    data: Seq<u8>,
    pieces: Seq<Piece>,
    from: int,
    to: int,
)
    requires
        tiles(pieces, from, to),
        0 <= from,
        to <= data.len(),
        start + to <= u64::MAX,
    ensures
        forall|m: int|
            0 <= m < unsent_of(start, data, pieces).len() ==> start + from <= (#[trigger] unsent_of(
                start,
                data,
                pieces,
            )[m]).start && unsent_of(start, data, pieces)[m].start + unsent_of(
                start,
                data,
                pieces,
            )[m].payload.len() <= start + to,
        forall|m: int, n: int|
            0 <= m < n < unsent_of(start, data, pieces).len() ==> (#[trigger] unsent_of(
                start,
                data,
                pieces,
            )[m]).start + unsent_of(start, data, pieces)[m].payload.len() <= (#[trigger] unsent_of(
                start,
                data,
                pieces,
            )[n]).start,
    decreases pieces.len(),
{
    if pieces.len() > 0 {
        let k = pieces.len() - 1;
        let all = unsent_of(start, data, pieces);
        let before = unsent_of(start, data, pieces.drop_last());
        lemma_tiles_part(pieces, from, to, k);
        lemma_tiles_span(pieces, from, to, k);
        lemma_unsent_of_ordered(start, data, pieces.drop_last(), from, pieces[k].offset as int);
        assert forall|m: int| 0 <= m < all.len() implies start + from <= (#[trigger] all[m]).start
            && all[m].start + all[m].payload.len() <= start + to by {
            if m < before.len() {
                assert(all[m] == before[m]);
            }
        }
        assert forall|m: int, n: int| 0 <= m < n < all.len() implies (#[trigger] all[m]).start
            + all[m].payload.len() <= (#[trigger] all[n]).start by {
            assert(all[m] == before[m]);
            if n < before.len() {
                assert(all[n] == before[n]);
            }
        }
    }
}

/// Every unsent segment is the segment of an unsent piece.
pub proof fn lemma_unsent_of_from(start: u64, data: Seq<u8>, pieces: Seq<Piece>, m: int)
    requires
        0 <= m < unsent_of(start, data, pieces).len(),
    ensures
        exists|i: int|
            0 <= i < pieces.len() && !(#[trigger] pieces[i]).sent && segment_of(
                start,
                data,
                pieces[i],
            ) == unsent_of(start, data, pieces)[m],
    decreases pieces.len(),
{
    if m < unsent_of(start, data, pieces.drop_last()).len() {
        lemma_unsent_of_from(start, data, pieces.drop_last(), m);
        let i = choose|i: int|
            0 <= i < pieces.drop_last().len() && !(#[trigger] pieces.drop_last()[i]).sent
                && segment_of(start, data, pieces.drop_last()[i]) == unsent_of(
                start,
                data,
                pieces.drop_last(),
            )[m];
        assert(pieces[i] == pieces.drop_last()[i]);
    } else {
        assert(!pieces[pieces.len() - 1].sent);
    }
}

/// Pieces have no unsent segment exactly when all of them are sent.
pub proof fn lemma_unsent_of_none(start: u64, data: Seq<u8>, pieces: Seq<Piece>)
    ensures
        unsent_of(start, data, pieces).len() == 0 <==> forall|i: int|
            0 <= i < pieces.len() ==> (#[trigger] pieces[i]).sent,
    decreases pieces.len(),
{
    if pieces.len() > 0 {
        let shorter = pieces.drop_last();
        lemma_unsent_of_none(start, data, shorter);
        if unsent_of(start, data, pieces).len() == 0 {
            assert forall|i: int| 0 <= i < pieces.len() implies (#[trigger] pieces[i]).sent by {
                if i < shorter.len() {
                    assert(shorter[i] == pieces[i]);
                }
            }
        } else if pieces.last().sent {
            let i = choose|i: int| 0 <= i < shorter.len() && !(#[trigger] shorter[i]).sent;
            assert(pieces[i] == shorter[i]);
        }
    }
}

/// Where `after` are the pieces `pieces` with some more of them sent, `after`
/// has no more unsent segments than `pieces`, and fewer where a piece that
/// starts at one of `acks` was unsent.
pub proof fn lemma_unsent_of_marked(
    start: u64,
    data: Seq<u8>,
    pieces: Seq<Piece>,
    after: Seq<Piece>,
    acks: Set<u64>,
)
    requires
        after.len() == pieces.len(),
        forall|i: int|
            0 <= i < pieces.len() ==> (#[trigger] after[i]).sent == (pieces[i].sent
                || acks.contains((start + pieces[i].offset) as u64)),
    ensures
        unsent_of(start, data, after).len() <= unsent_of(start, data, pieces).len(),
        (exists|i: int|
            0 <= i < pieces.len() && !(#[trigger] pieces[i]).sent && acks.contains(
                (start + pieces[i].offset) as u64,
            )) ==> unsent_of(start, data, after).len() < unsent_of(start, data, pieces).len(),
    decreases pieces.len(),
{
    if pieces.len() > 0 {
        let k = pieces.len() - 1;
        assert forall|i: int| 0 <= i < k implies (#[trigger] after.drop_last()[i]).sent == (
        pieces.drop_last()[i].sent || acks.contains(
            (start + pieces.drop_last()[i].offset) as u64,
        )) by {
            assert(after.drop_last()[i] == after[i]);
        }
        lemma_unsent_of_marked(start, data, pieces.drop_last(), after.drop_last(), acks);
        if exists|i: int|
            0 <= i < pieces.len() && !(#[trigger] pieces[i]).sent && acks.contains(
                (start + pieces[i].offset) as u64,
            ) {
            let i = choose|i: int|
                0 <= i < pieces.len() && !(#[trigger] pieces[i]).sent && acks.contains(
                    (start + pieces[i].offset) as u64,
                );
            if i < k {
                assert(pieces.drop_last()[i] == pieces[i]);
            }
        }
    }
}

} // verus!
