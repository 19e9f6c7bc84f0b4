//! The tee with shallow seeking.

use vstd::prelude::*;
use vstd::slice::slice_subrange;

use crate::model::{fresh_bytes, high_water_after, lemma_nothing_fresh, mirrored_by, raised};
use crate::stream::{appended_part_of, Sink, Source};

verus! {

/// Size of the buffer that a forward seek copies through.
const COPY_CHUNK: usize = 8192;

/// Where a seek goes.
#[derive(Debug, Clone, Copy, PartialEq, Eq, Structural)]
pub enum SeekFrom {
    /// An absolute offset.
    Start(u64),
    /// An offset relative to the cursor.
    Current(i64),
    /// An offset relative to the end of the stream, which the tee refuses.
    End(i64),
}

/// Why a seek request names no offset the tee can go to.
#[derive(Debug, Clone, Copy, PartialEq, Eq, Structural)]
pub enum SeekError {
    /// The request is relative to the end of the stream.
    EndRelative,
    /// The cursor or the requested offset exceeds `i64::MAX`.
    OffsetTooLarge,
    /// The requested offset is negative.
    NegativeOffset,
}

/// The failures of a read or a seek on the tee.
#[derive(Debug)]
pub enum TeeError<SE, WE> {
    /// The source failed.
    Source(SE),
    /// The sink failed; the mirror misses some of the bytes it was handed.
    Sink(WE),
    /// The source ended before the offset a forward seek asked for.
    UnexpectedEof,
    /// The seek request names no reachable offset.
    Seek(SeekError),
}

/// Whether `r` is a failure of the sink.
pub open spec fn sink_failed<T, SE, WE>(r: Result<T, TeeError<SE, WE>>) -> bool {
    match r {
        Err(TeeError::Sink(_)) => true,
        _ => false,
    }
}

/// Whether `r` is a failure of the source.
pub open spec fn source_failed<T, SE, WE>(r: Result<T, TeeError<SE, WE>>) -> bool {
    match r {
        Err(TeeError::Source(_)) => true,
        _ => false,
    }
}

/// The offset a seek request goes to from `cursor`. Relative offsets are
/// worked out as signed 64-bit quantities, so a cursor or a result above
/// `i64::MAX` is out of range.
pub open spec fn destination(cursor: u64, pos: SeekFrom) -> Result<u64, SeekError> {
    match pos {
        SeekFrom::Start(n) => Ok(n),
        SeekFrom::Current(d) => {
            if cursor > i64::MAX || cursor + d > i64::MAX {
                Err(SeekError::OffsetTooLarge)
            } else if cursor + d < 0 {
                Err(SeekError::NegativeOffset)
            } else {
                Ok((cursor + d) as u64)
            }
        },
        SeekFrom::End(_) => Err(SeekError::EndRelative),
    }
}

/// A cursor or a relative destination beyond `i64::MAX`.
fn err_ui64() -> (r: SeekError)
    ensures
        r == SeekError::OffsetTooLarge,
{
    SeekError::OffsetTooLarge
}

/// A relative destination below 0.
fn err_iu64() -> (r: SeekError)
    ensures
        r == SeekError::NegativeOffset,
{
    SeekError::NegativeOffset
}

/// Works out the offset that `pos` names from `cursor`.
pub fn resolve(cursor: u64, pos: SeekFrom) -> (r: Result<u64, SeekError>)
    ensures
        r == destination(cursor, pos),
{
    match pos {
        SeekFrom::Start(n) => Ok(n),
        SeekFrom::Current(d) => {
            if cursor > i64::MAX as u64 {
                return Err(err_ui64());
            }
            let c = cursor as i64;
            match c.checked_add(d) {
                None => Err(err_ui64()),
                Some(s) => {
                    if s < 0 {
                        Err(err_iu64())
                    } else {
                        Ok(s as u64)
                    }
                },
            }
        },
        SeekFrom::End(_) => Err(SeekError::EndRelative),
    }
}

/// The model of a tee: its cursor and high-water mark, the content of its
/// source, the log of its sink, what that log held when the tee was made, and
/// whether both streams are reliable.
pub struct TeeView {
    pub cursor: int,
    pub position: int,
    pub high_water: int,
    pub content: Seq<u8>,
    pub log: Seq<u8>,
    pub earlier: Seq<u8>,
    pub reliable: bool,
}

impl TeeView {
    /// The cursor is the source's position, and lies at or below the
    /// high-water mark, which lies within the source.
    pub open spec fn well_formed(self) -> bool {
        &&& self.cursor == self.position
        &&& 0 <= self.cursor <= self.high_water <= self.content.len()
        &&& self.content.len() <= u64::MAX
    }

    /// The sink has received exactly the first `high_water` bytes of the
    /// source since the tee was made.
    pub open spec fn mirror_intact(self) -> bool {
        self.log == self.earlier + self.content.subrange(0, self.high_water)
    }

    /// `next` is this state with the cursor moved to `to`: the high-water mark
    /// rises to `to` where `to` is beyond it, and nothing else of the model
    /// but the sink's log changes.
    pub open spec fn moved_to(self, next: TeeView, to: int) -> bool {
        &&& next.cursor == to
        &&& next.high_water == raised(self.high_water, to)
        &&& next.content == self.content
        &&& next.earlier == self.earlier
        &&& next.reliable == self.reliable
    }

    /// The sink received exactly the fresh bytes of the move to `next.cursor`.
    pub open spec fn mirrored_move(self, next: TeeView) -> bool {
        next.log == self.log + fresh_bytes(self.content, self.high_water, next.cursor)
    }

    /// The sink received a prefix of the fresh bytes of the move to
    /// `next.cursor`.
    pub open spec fn mirrored_part_of_move(self, next: TeeView) -> bool {
        appended_part_of(self.log, next.log, fresh_bytes(self.content, self.high_water, next.cursor))
    }
}

impl TeeView {
    /// A move that hands the sink exactly its fresh bytes keeps the mirror
    /// intact.
    pub proof fn lemma_move_keeps_mirror(self, next: TeeView)
        requires
            self.well_formed(),
            next.well_formed(),
            self.moved_to(next, next.cursor),
            self.mirrored_move(next),
            self.mirror_intact(),
        ensures
            next.mirror_intact(),
    {
        if next.cursor > self.high_water {
            assert(self.content.subrange(0, self.high_water) + self.content.subrange(
                self.high_water,
                next.cursor,
            ) =~= self.content.subrange(0, next.cursor));
        }
        assert(next.log =~= next.earlier + next.content.subrange(0, next.high_water));
    }

    /// A tee follows the trace model: where its cursor has visited `visits`
    /// and its sink holds what the model hands out for them, a read or a seek
    /// that hands the sink all its fresh bytes leaves it as the model puts it
    /// after one more visit, to the new cursor.
    pub proof fn lemma_move_extends_visits(self, next: TeeView, visits: Seq<int>)
        requires
            self.high_water == high_water_after(visits),
            self.log == self.earlier + mirrored_by(self.content, visits),
            self.moved_to(next, next.cursor),
            self.mirrored_move(next),
        ensures
            next.high_water == high_water_after(visits.push(next.cursor)),
            next.log == next.earlier + mirrored_by(next.content, visits.push(next.cursor)),
    {
        let more = visits.push(next.cursor);
        assert(more.drop_last() =~= visits);
        assert(next.log =~= next.earlier + mirrored_by(next.content, more));
    }
}

/// A reader over `source` that mirrors into `sink` every byte it reaches for
/// the first time, while offering reads and seeks over the whole source.
pub struct ShallowTees<R: Source, W: Sink> {
    source: R,
    sink: W,
    /// offset of the source
    cur: u64,
    /// greatest offset reached in the source
    max: u64,
    earlier: Ghost<Seq<u8>>,
}

impl<R: Source, W: Sink> View for ShallowTees<R, W> {
    type V = TeeView;

    closed spec fn view(&self) -> TeeView {
        TeeView {
            cursor: self.cur as int,
            position: self.source.position(),
            high_water: self.max as int,
            content: self.source.content(),
            log: self.sink.written(),
            earlier: self.earlier@,
            reliable: self.source.reliable() && self.sink.reliable(),
        }
    }
}

impl<R: Source, W: Sink> ShallowTees<R, W> {
    /// The tee's state is consistent.
    pub open spec fn wf(&self) -> bool {
        self@.well_formed()
    }

    /// Creates a tee over `read`, which must stand at offset 0, mirroring into
    /// `write`.
    pub fn new(read: R, write: W) -> (r: Self)
        requires
            read.position() == 0,
            read.content().len() <= u64::MAX,
        ensures
            r.wf(),
            r@.cursor == 0,
            r@.high_water == 0,
            r@.content == read.content(),
            r@.log == write.written(),
            r@.earlier == write.written(),
            r@.reliable == (read.reliable() && write.reliable()),
            r@.mirror_intact(),
    {
        let ghost earlier = write.written();
        let r = ShallowTees { source: read, sink: write, cur: 0, max: 0, earlier: Ghost(earlier) };
        assert(r@.log =~= r@.earlier + r@.content.subrange(0, 0));
        r
    }

    /// Reads up to `buf.len()` bytes from the source into `buf`, as the source
    /// itself would, and returns how many were read (0 at the end of the
    /// source). The part of them that lies beyond the high-water mark goes to
    /// the sink, and the mark rises to the new cursor. An empty `buf` returns 0
    /// at once and touches nothing.
    pub fn read(&mut self, buf: &mut [u8]) -> (r: Result<usize, TeeError<R::Error, W::Error>>)
        requires
            old(self).wf(),
        ensures
            final(self).wf(),
            old(self)@.moved_to(final(self)@, final(self)@.cursor),
            old(self)@.cursor <= final(self)@.cursor,
            final(buf)@.len() == old(buf)@.len(),
            !sink_failed(r) ==> old(self)@.mirrored_move(final(self)@),
            old(self)@.mirror_intact() && !sink_failed(r) ==> final(self)@.mirror_intact(),
            sink_failed(r) ==> old(self)@.mirrored_part_of_move(final(self)@)
                && final(self)@.cursor > old(self)@.high_water,
            old(self)@.reliable ==> r is Ok,
            !source_failed(r) ==> final(self)@.cursor - old(self)@.cursor <= old(buf)@.len()
                && final(buf)@.subrange(0, final(self)@.cursor - old(self)@.cursor)
                == old(self)@.content.subrange(old(self)@.cursor, final(self)@.cursor),
            (match r {
                Ok(n) => n == 0 && old(buf)@.len() > 0,
                Err(_) => false,
            }) && old(self)@.mirror_intact() ==> final(self)@.high_water == old(self)@.content.len()
                && final(self)@.log == old(self)@.earlier + old(self)@.content,
            match r {
                Ok(n) => {
                    &&& final(self)@.cursor == old(self)@.cursor + n
                    &&& (n == 0 <==> (old(buf)@.len() == 0 || old(self)@.cursor
                        == old(self)@.content.len()))
                },
                Err(TeeError::Source(_)) => final(self)@ == old(self)@,
                Err(TeeError::Sink(_)) => true,
                Err(_) => false,
            },
            old(buf)@.len() == 0 ==> final(self)@ == old(self)@ && final(buf)@ == old(buf)@
                && (match r {
                Ok(n) => n == 0,
                Err(_) => false,
            }),
    {
        if buf.len() == 0 {
            return Ok(0);
        }
        let size = match self.source.read(buf) {
            Ok(n) => n,
            Err(e) => return Err(TeeError::Source(e)),
        };
        if size == 0 {
            proof {
                lemma_nothing_fresh(old(self)@.log, self@.content, self@.high_water, self@.cursor);
                if old(self)@.mirror_intact() {
                    assert(self@.content.subrange(0, self@.high_water) =~= self@.content);
                }
            }
            return Ok(0);
        }
        let start = self.cur;
        self.cur = self.cur + size as u64;
        if self.max < self.cur {
            let delta = (self.cur - self.max) as usize;
            let old_max = self.max;
            self.max = self.cur;
            let tail = slice_subrange(buf, size - delta, size);
            proof {
                let filled = buf@.subrange(0, size as int);
                assert forall|k: int| 0 <= k < delta implies tail@[k] == self@.content[old_max + k] by {
                    assert(tail@[k] == filled[size - delta + k]);
                }
                assert(tail@ =~= fresh_bytes(self@.content, old_max as int, self.cur as int));
            }
            match self.sink.write_all(tail) {
                Ok(()) => {},
                Err(e) => return Err(TeeError::Sink(e)),
            }
        } else {
            proof {
                lemma_nothing_fresh(old(self)@.log, self@.content, self@.high_water, self@.cursor);
            }
        }
        proof {
            if old(self)@.mirror_intact() {
                old(self)@.lemma_move_keeps_mirror(self@);
            }
        }
        Ok(size)
    }

    /// Moves the cursor to `pos` and returns the new offset. At or below the
    /// high-water mark this only repositions the source. Beyond it, the source
    /// goes to the mark and the span up to the destination is copied into the
    /// sink; where the source ends first, the seek fails with
    /// `UnexpectedEof` and the cursor and the mark stay at the end of the
    /// source. Requests relative to the end, and offsets out of the signed
    /// 64-bit range, fail and change nothing.
    pub fn seek(&mut self, pos: SeekFrom) -> (r: Result<u64, TeeError<R::Error, W::Error>>)
        requires
            old(self).wf(),
        ensures
            final(self).wf(),
            old(self)@.moved_to(final(self)@, final(self)@.cursor),
            !sink_failed(r) ==> old(self)@.mirrored_move(final(self)@),
            sink_failed(r) ==> old(self)@.mirrored_part_of_move(final(self)@),
            old(self)@.mirror_intact() && !sink_failed(r) ==> final(self)@.mirror_intact(),
            match destination(old(self)@.cursor as u64, pos) {
                Err(e) => final(self)@ == old(self)@ && (match r {
                    Err(TeeError::Seek(f)) => f == e,
                    _ => false,
                }),
                Ok(dest) => {
                    &&& r is Ok ==> r->Ok_0 == dest && final(self)@.cursor == dest
                    &&& r is Err ==> (source_failed(r) || sink_failed(r) || r
                        is Err && r->Err_0 is UnexpectedEof)
                    &&& dest <= old(self)@.high_water ==> !sink_failed(r) && final(self)@.log
                        == old(self)@.log && (r is Err ==> final(self)@ == old(self)@)
                    &&& dest > old(self)@.high_water && r is Ok ==> final(self)@.log
                        == old(self)@.log + old(self)@.content.subrange(
                        old(self)@.high_water,
                        dest as int,
                    ) && final(self)@.high_water == dest
                    &&& dest > old(self)@.high_water ==> {
                        ||| final(self)@ == old(self)@
                        ||| old(self)@.high_water <= final(self)@.cursor <= dest
                    }
                    &&& dest > old(self)@.content.len() ==> r is Err
                    &&& (r is Err && r->Err_0 is UnexpectedEof) ==> dest
                        > old(self)@.content.len() && final(self)@.cursor
                        == old(self)@.content.len()
                    &&& old(self)@.reliable ==> !source_failed(r) && !sink_failed(r)
                    &&& old(self)@.reliable && dest <= old(self)@.content.len() ==> r is Ok
                },
            },
    {
        let dest = match resolve(self.cur, pos) {
            Ok(d) => d,
            Err(e) => return Err(TeeError::Seek(e)),
        };
        if dest <= self.max {
            match self.source.seek_to(dest) {
                Ok(()) => {},
                Err(e) => return Err(TeeError::Source(e)),
            }
            self.cur = dest;
            proof {
                lemma_nothing_fresh(
                    old(self)@.log,
                    self@.content,
                    old(self)@.high_water,
                    self@.cursor,
                );
            }
            proof {
                if old(self)@.mirror_intact() {
                    old(self)@.lemma_move_keeps_mirror(self@);
                }
            }
            return Ok(dest);
        }
        match self.source.seek_to(self.max) {
            Ok(()) => {},
            Err(e) => return Err(TeeError::Source(e)),
        }
        self.cur = self.max;
        let r = self.copy_forward(dest);
        proof {
            if old(self)@.mirror_intact() && !sink_failed(r) {
                old(self)@.lemma_move_keeps_mirror(self@);
            }
        }
        r
    }

    /// From the high-water mark, copies the source into the sink up to `dest`.
    fn copy_forward(&mut self, dest: u64) -> (r: Result<u64, TeeError<R::Error, W::Error>>)
        requires
            old(self).wf(),
            old(self)@.cursor == old(self)@.high_water < dest,
        ensures
            final(self).wf(),
            old(self)@.moved_to(final(self)@, final(self)@.cursor),
            old(self)@.high_water <= final(self)@.cursor <= dest,
            !sink_failed(r) ==> old(self)@.mirrored_move(final(self)@),
            sink_failed(r) ==> old(self)@.mirrored_part_of_move(final(self)@),
            r is Ok ==> r->Ok_0 == dest && final(self)@.cursor == dest,
            r is Err ==> (source_failed(r) || sink_failed(r) || r->Err_0 is UnexpectedEof),
            dest > old(self)@.content.len() ==> r is Err,
            (r is Err && r->Err_0 is UnexpectedEof) ==> dest > old(self)@.content.len()
                && final(self)@.cursor == old(self)@.content.len(),
            old(self)@.reliable ==> !source_failed(r) && !sink_failed(r),
    {
        let ghost start = self@;
        while self.cur < dest
            invariant
                self.wf(),
                start == old(self)@,
                start.moved_to(self@, self@.cursor),
                self.cur == self.max,
                start.high_water <= self.cur <= dest,
                start.mirrored_move(self@),
            decreases dest - self.cur,
        {
            let left = dest - self.cur;
            let want: usize = if left < COPY_CHUNK as u64 {
                left as usize
            } else {
                COPY_CHUNK
            };
            let mut buf = vec![0u8; want];
            let size = match self.source.read(buf.as_mut_slice()) {
                Ok(n) => n,
                Err(e) => return Err(TeeError::Source(e)),
            };
            if size == 0 {
                return Err(TeeError::UnexpectedEof);
            }
            let ghost before = self@;
            self.cur = self.cur + size as u64;
            self.max = self.cur;
            let part = slice_subrange(buf.as_slice(), 0, size);
            let ghost gained = self@.content.subrange(before.cursor, self@.cursor);
            assert(part@ =~= gained);
            assert(start.log + fresh_bytes(start.content, start.high_water, self@.cursor)
                =~= before.log + gained);
            match self.sink.write_all(part) {
                Ok(()) => {},
                Err(e) => {
                    proof {
                        assert(self@.log =~= start.log + fresh_bytes(
                            start.content,
                            start.high_water,
                            self@.cursor,
                        ).subrange(0, self@.log.len() - start.log.len()));
                    }
                    return Err(TeeError::Sink(e));
                },
            }
        }
        Ok(dest)
    }

    /// The offset of the source.
    pub fn cursor(&self) -> (r: u64)
        ensures
            r == self@.cursor,
    {
        self.cur
    }

    /// The greatest offset reached in the source, which is how many of its
    /// bytes have been mirrored.
    pub fn high_water(&self) -> (r: u64)
        ensures
            r == self@.high_water,
    {
        self.max
    }

    /// The source.
    pub fn source(&self) -> (r: &R)
        ensures
            r.content() == self@.content,
            r.position() == self@.position,
    {
        &self.source
    }

    /// The sink.
    pub fn sink(&self) -> (r: &W)
        ensures
            r.written() == self@.log,
    {
        &self.sink
    }

    /// Gives the source and the sink back.
    pub fn into_inner(self) -> (r: (R, W))
        ensures
            r.0.content() == self@.content,
            r.0.position() == self@.position,
            r.1.written() == self@.log,
    {
        (self.source, self.sink)
    }
}

} // verus!
