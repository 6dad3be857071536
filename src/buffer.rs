//! A partial-consumption buffer over a seekable or streaming source. The reader
//! keeps the indices; the caller owns the buffer and performs the reads and seeks
//! it asks for, or lets `SliceSource` do them.
use vstd::prelude::*;

verus! {

/// Where a seek is measured from.
#[derive(Clone, Copy, Debug, PartialEq, Eq, Structural)]
pub enum SeekFrom {
    Start(u64),
    End(i64),
    Current(i64),
}

/// Failures of the reader and of its in-memory source.
#[derive(Clone, Copy, Debug, PartialEq, Eq, Structural)]
pub enum BufferError {
    /// A read delivered no byte.
    UnexpectedEof,
    /// A seek before the start or past the end of the source.
    InvalidSeek,
}

/// What `plan_seek` does: a relative seek that stays within the window moves the
/// position; any other is handed back to be issued on the source, measured from
/// where the source stands (the window's end).
pub open spec fn plan_seek_post(
    pre: GrowableBufferedReader,
    post: GrowableBufferedReader,
    target: SeekFrom,
    r: Option<SeekFrom>,
) -> bool {
    &&& post.spec_buf_pos() == pre.spec_buf_pos()
    &&& post.spec_end() == pre.spec_end()
    &&& match target {
        SeekFrom::Current(d) => {
            let new_pos = pre.spec_buf_pos() + pre.spec_pos() + d;
            if new_pos > pre.spec_buf_pos() + pre.spec_end() || new_pos < pre.spec_buf_pos() {
                &&& post == pre
                &&& r matches Some(SeekFrom::Current(d2))
                &&& pre.spec_buf_pos() + pre.spec_end() + d2 == new_pos
            } else {
                &&& r is None
                &&& post.spec_pos() == new_pos - pre.spec_buf_pos()
            }
        },
        _ => post == pre && r == Some(target),
    }
}

/// Something whose available bytes can be marked as used.
pub trait Buffered {
    /// Marks `len` bytes as used.
    fn consume(&mut self, len: usize);
}

/// Partial consumption buffer: `buf[pos..end]` is available, `buf[0..end]` holds the
/// source bytes from `buf_pos` on.
pub struct GrowableBufferedReader {
    buf_pos: usize,
    pos: usize,
    end: usize,
    index: usize,
}

impl GrowableBufferedReader {
    pub closed spec fn spec_buf_pos(&self) -> nat {
        self.buf_pos as nat
    }

    pub closed spec fn spec_pos(&self) -> nat {
        self.pos as nat
    }

    pub closed spec fn spec_end(&self) -> nat {
        self.end as nat
    }

    /// The indices are ordered within a buffer of `n` bytes.
    pub open spec fn wf(&self, n: nat) -> bool {
        self.spec_pos() <= self.spec_end() <= n
    }

    /// A reader at the start of its source, with nothing buffered.
    pub fn new() -> (r: GrowableBufferedReader)
        ensures
            r.spec_buf_pos() == 0,
            r.spec_pos() == 0,
            r.spec_end() == 0,
    {
        GrowableBufferedReader { buf_pos: 0, pos: 0, end: 0, index: 0 }
    }

    /// Moves the available bytes to the front of the buffer; what came before the
    /// current position is dropped.
    pub fn reset_buffer_position(&mut self, buf: &mut Vec<u8>)
        requires
            old(self).wf(old(buf)@.len()),
            old(self).spec_buf_pos() + old(self).spec_pos() <= usize::MAX,
        ensures
            final(self).wf(final(buf)@.len()),
            final(buf)@.len() == old(buf)@.len(),
            final(self).spec_pos() == 0,
            final(self).spec_end() == old(self).spec_end() - old(self).spec_pos(),
            final(self).spec_buf_pos() == old(self).spec_buf_pos() + old(self).spec_pos(),
            final(buf)@.subrange(0, final(self).spec_end() as int) == old(buf)@.subrange(
                old(self).spec_pos() as int,
                old(self).spec_end() as int,
            ),
    {
        let n = self.end - self.pos;
        let mut i: usize = 0;
        while i < n
            invariant
                n == self.end - self.pos,
                self.end <= buf@.len(),
                self.pos == old(self).pos,
                self.end == old(self).end,
                buf@.len() == old(buf)@.len(),
                i <= n,
                forall|k: int| i <= k < buf@.len() ==> buf@[k] == old(buf)@[k],
                forall|k: int| 0 <= k < i ==> buf@[k] == old(buf)@[self.pos + k],
            decreases n - i,
        {
            let b = buf[self.pos + i];
            buf.set(i, b);
            i = i + 1;
        }
        proof {
            assert(buf@.subrange(0, n as int) =~= old(buf)@.subrange(self.pos as int, self.end as int));
        }
        self.buf_pos = self.buf_pos + self.pos;
        self.end = n;
        self.pos = 0;
    }

    /// The number of available bytes.
    pub fn capacity(&self) -> (n: usize)
        requires
            self.spec_pos() <= self.spec_end(),
        ensures
            n == self.spec_end() - self.spec_pos(),
    {
        self.end - self.pos
    }

    /// The number of available bytes.
    pub fn len(&self) -> (n: usize)
        requires
            self.spec_pos() <= self.spec_end(),
        ensures
            n == self.spec_end() - self.spec_pos(),
    {
        self.end - self.pos
    }

    /// Makes room for `more` bytes past the available ones.
    pub fn ensure_additional(&mut self, buf: &mut Vec<u8>, more: usize)
        requires
            old(self).wf(old(buf)@.len()),
            old(self).spec_buf_pos() + old(self).spec_pos() <= usize::MAX,
            old(self).spec_end() - old(self).spec_pos() + more <= usize::MAX,
        ensures
            final(self).wf(final(buf)@.len()),
            final(buf)@.len() >= final(self).spec_end() + more,
            final(buf)@.len() >= old(buf)@.len(),
            final(self).spec_buf_pos() + final(self).spec_pos() == old(self).spec_buf_pos()
                + old(self).spec_pos(),
            final(self).spec_end() - final(self).spec_pos() == old(self).spec_end() - old(self).spec_pos(),
            final(buf)@.subrange(final(self).spec_pos() as int, final(self).spec_end() as int)
                == old(buf)@.subrange(old(self).spec_pos() as int, old(self).spec_end() as int),
    {
        let len = self.end - self.pos;
        self.ensure_capacity(buf, len + more);
    }

    /// Makes room for `len` bytes from the current position on: compacts where that
    /// suffices, else grows the buffer.
    pub fn ensure_capacity(&mut self, buf: &mut Vec<u8>, len: usize)
        requires
            old(self).wf(old(buf)@.len()),
            old(self).spec_buf_pos() + old(self).spec_pos() <= usize::MAX,
        ensures
            final(self).wf(final(buf)@.len()),
            final(buf)@.len() >= final(self).spec_pos() + len,
            old(buf)@.len() - old(self).spec_pos() >= len ==> *final(self) == *old(self) && final(buf)@ == old(buf)@,
            final(buf)@.len() >= old(buf)@.len(),
            final(self).spec_buf_pos() + final(self).spec_pos() == old(self).spec_buf_pos()
                + old(self).spec_pos(),
            final(self).spec_end() - final(self).spec_pos() == old(self).spec_end() - old(self).spec_pos(),
            final(buf)@.subrange(final(self).spec_pos() as int, final(self).spec_end() as int)
                == old(buf)@.subrange(old(self).spec_pos() as int, old(self).spec_end() as int),
            final(buf)@.subrange(0, final(self).spec_end() as int) == old(buf)@.subrange(
                old(self).spec_end() - final(self).spec_end(),
                old(self).spec_end() as int,
            ),
    {
        if buf.len() - self.pos >= len {
            proof {
                assert(buf@.subrange(0, self.end as int) =~= old(buf)@.subrange(0, self.end as int));
            }
            return;
        }
        self.reset_buffer_position(buf);
        while buf.len() < len
            invariant
                self.wf(buf@.len()),
                buf@.len() >= old(buf)@.len(),
                self.pos == 0,
                buf@.subrange(0, self.end as int) == old(buf)@.subrange(
                    old(self).pos as int,
                    old(self).end as int,
                ),
            decreases len - buf@.len(),
        {
            let ghost before = buf@;
            buf.push(0);
            proof {
                assert(buf@.subrange(0, self.end as int) =~= before.subrange(0, self.end as int));
            }
        }
    }

    /// The available bytes.
    pub fn data<'a>(&self, buf: &'a [u8]) -> (r: &'a [u8])
        requires
            self.wf(buf@.len()),
        ensures
            r@ == buf@.subrange(self.spec_pos() as int, self.spec_end() as int),
    {
        crate::ebml::slice_range(buf, self.pos, self.end)
    }

    /// Marks `amt` bytes as used, at most the available ones.
    pub fn consume(&mut self, amt: usize)
        requires
            old(self).spec_pos() <= old(self).spec_end(),
        ensures
            final(self).spec_buf_pos() == old(self).spec_buf_pos(),
            final(self).spec_end() == old(self).spec_end(),
            final(self).spec_pos() == if old(self).spec_pos() + amt <= old(self).spec_end() {
                old(self).spec_pos() + amt
            } else {
                old(self).spec_end() as int
            },
    {
        if amt <= self.end - self.pos {
            self.pos = self.pos + amt;
        } else {
            self.pos = self.end;
        }
        self.index = if self.index <= usize::MAX - amt {
            self.index + amt
        } else {
            usize::MAX
        };
    }

    /// Prepares a read: compacts the buffer and returns the index from which the
    /// next read fills it, or `None` when the buffer is full from the front.
    pub fn fill_target(&mut self, buf: &mut Vec<u8>) -> (r: Option<usize>)
        requires
            old(self).wf(old(buf)@.len()),
            old(self).spec_buf_pos() + old(self).spec_pos() <= usize::MAX,
        ensures
            final(self).wf(final(buf)@.len()),
            final(buf)@.len() == old(buf)@.len(),
            r is None ==> *final(self) == *old(self) && final(buf)@ == old(buf)@,
            r is None <==> old(self).spec_pos() == 0 && old(self).spec_end() == old(buf)@.len(),
            r matches Some(e) ==> {
                &&& e == final(self).spec_end()
                &&& final(self).spec_pos() == 0
                &&& final(self).spec_end() == old(self).spec_end() - old(self).spec_pos()
                &&& final(self).spec_buf_pos() == old(self).spec_buf_pos() + old(self).spec_pos()
                &&& final(buf)@.subrange(0, final(self).spec_end() as int) == old(buf)@.subrange(
                    old(self).spec_pos() as int,
                    old(self).spec_end() as int,
                )
            },
    {
        if self.pos != 0 || self.end != buf.len() {
            self.reset_buffer_position(buf);
            Some(self.end)
        } else {
            None
        }
    }

    /// Records that a read delivered `read` bytes at the index `fill_target` gave.
    pub fn commit_fill(&mut self, read: usize) -> (r: Result<(), BufferError>)
        requires
            old(self).spec_end() + read <= usize::MAX,
        ensures
            read == 0 <==> r is Err,
            r is Err ==> r == Err::<(), BufferError>(BufferError::UnexpectedEof) && *final(self)
                == *old(self),
            r is Ok ==> final(self).spec_end() == old(self).spec_end() + read,
            final(self).spec_pos() == old(self).spec_pos(),
            final(self).spec_buf_pos() == old(self).spec_buf_pos(),
    {
        if read == 0 {
            return Err(BufferError::UnexpectedEof);
        }
        self.end = self.end + read;
        Ok(())
    }

    /// Seeks relative to the current position within the buffered window where
    /// possible (`None`); otherwise returns the seek to issue on the source, after
    /// which `seek_done` records where the source stands.
    pub fn plan_seek(&mut self, target: SeekFrom) -> (r: Result<Option<SeekFrom>, BufferError>)
        requires
            old(self).spec_pos() <= old(self).spec_end(),
            old(self).spec_buf_pos() + old(self).spec_end() <= i64::MAX,
        ensures
            final(self).spec_buf_pos() == old(self).spec_buf_pos(),
            final(self).spec_end() == old(self).spec_end(),
            r is Err <==> (target matches SeekFrom::Current(d) && old(self).spec_buf_pos() + old(self).spec_pos() + d < 0),
            r is Err ==> *final(self) == *old(self) && r == Err::<Option<SeekFrom>, BufferError>(
                BufferError::InvalidSeek,
            ),
            r is Ok ==> plan_seek_post(*old(self), *final(self), target, r->Ok_0),
    {
        match target {
            SeekFrom::Current(d) => {
                let abs_pos: i128 = self.buf_pos as i128 + self.pos as i128;
                let abs_end: i128 = self.buf_pos as i128 + self.end as i128;
                let new_pos: i128 = abs_pos + d as i128;
                if new_pos < 0 {
                    Err(BufferError::InvalidSeek)
                } else if new_pos > abs_end {
                    Ok(Some(SeekFrom::Current((new_pos - abs_end) as i64)))
                } else if new_pos < self.buf_pos as i128 {
                    Ok(Some(SeekFrom::Current((new_pos - abs_end) as i64)))
                } else {
                    self.pos = (new_pos - self.buf_pos as i128) as usize;
                    Ok(None)
                }
            },
            other => Ok(Some(other)),
        }
    }

    /// Records that the source now stands at `abs`; the buffer is emptied.
    pub fn seek_done(&mut self, abs: usize)
        ensures
            final(self).spec_buf_pos() == abs,
            final(self).spec_pos() == 0,
            final(self).spec_end() == 0,
    {
        self.buf_pos = abs;
        self.pos = 0;
        self.end = 0;
    }
}


/// A seekable source over bytes in memory.
pub struct SliceSource {
    data: Vec<u8>,
    pos: usize,
}

impl SliceSource {
    pub closed spec fn content(&self) -> Seq<u8> {
        self.data@
    }

    pub closed spec fn position(&self) -> nat {
        self.pos as nat
    }

    /// The position lies within the bytes, whose count fits an `i64`.
    pub closed spec fn wf(&self) -> bool {
        self.pos <= self.data@.len() <= i64::MAX
    }

    /// A source at the start of `data`.
    pub fn new(data: Vec<u8>) -> (s: SliceSource)
        requires
            data@.len() <= i64::MAX,
        ensures
            s.wf(),
            s.content() == data@,
            s.position() == 0,
    {
        SliceSource { data, pos: 0 }
    }

    /// Copies the next bytes into `buf[at..]`, as many as fit and remain; returns
    /// their count.
    pub fn read_into(&mut self, buf: &mut Vec<u8>, at: usize) -> (n: usize)
        requires
            old(self).wf(),
            at <= old(buf)@.len(),
        ensures
            final(self).wf(),
            final(self).content() == old(self).content(),
            n == min_nat(
                (old(buf)@.len() - at) as nat,
                (old(self).content().len() - old(self).position()) as nat,
            ),
            final(self).position() == old(self).position() + n,
            final(buf)@.len() == old(buf)@.len(),
            final(buf)@.subrange(0, at as int) == old(buf)@.subrange(0, at as int),
            final(buf)@.subrange(at as int, at + n) == old(self).content().subrange(
                old(self).position() as int,
                old(self).position() + n,
            ),
    {
        let room = buf.len() - at;
        let left = self.data.len() - self.pos;
        let n = if room < left {
            room
        } else {
            left
        };
        let dl = self.data.len();
        let bl = buf.len();
        let mut i: usize = 0;
        while i < n
            invariant
                dl == self.data@.len(),
                bl == buf@.len(),
                n <= buf@.len() - at,
                n <= self.data@.len() - self.pos,
                self.pos == old(self).pos,
                self.data == old(self).data,
                buf@.len() == old(buf)@.len(),
                at <= buf@.len(),
                i <= n,
                buf@.subrange(0, at as int) == old(buf)@.subrange(0, at as int),
                buf@.subrange(at as int, at + i) == self.data@.subrange(self.pos as int, self.pos + i),
            decreases n - i,
        {
            let b = self.data[self.pos + i];
            let ghost before = buf@;
            buf.set(at + i, b);
            i = i + 1;
            proof {
                assert(buf@.subrange(0, at as int) =~= before.subrange(0, at as int));
                assert(buf@.subrange(at as int, at + i) =~= self.data@.subrange(
                    self.pos as int,
                    self.pos + i,
                ));
            }
        }
        self.pos = self.pos + n;
        n
    }

    /// Moves the position; before the start or past the end is `InvalidSeek`.
    pub fn seek(&mut self, target: SeekFrom) -> (r: Result<u64, BufferError>)
        requires
            old(self).wf(),
        ensures
            final(self).wf(),
            final(self).content() == old(self).content(),
            ({
                let want: int = match target {
                    SeekFrom::Start(n) => n as int,
                    SeekFrom::End(d) => old(self).content().len() + d,
                    SeekFrom::Current(d) => old(self).position() + d,
                };
                if 0 <= want <= old(self).content().len() {
                    r == Ok::<u64, BufferError>(want as u64) && final(self).position() == want
                } else {
                    r == Err::<u64, BufferError>(BufferError::InvalidSeek) && final(self).position()
                        == old(self).position()
                }
            }),
    {
        let len: i128 = self.data.len() as i128;
        let want: i128 = match target {
            SeekFrom::Start(n) => n as i128,
            SeekFrom::End(d) => len + d as i128,
            SeekFrom::Current(d) => self.pos as i128 + d as i128,
        };
        if want < 0 || want > len {
            return Err(BufferError::InvalidSeek);
        }
        self.pos = want as usize;
        Ok(want as u64)
    }
}

/// The lesser of two numbers.
pub open spec fn min_nat(a: nat, b: nat) -> nat {
    if a < b {
        a
    } else {
        b
    }
}

/// Whether a seek is relative and lands within the buffered window.
pub open spec fn in_window(r: GrowableBufferedReader, target: SeekFrom) -> bool {
    target matches SeekFrom::Current(d) && {
        let p = r.spec_buf_pos() + r.spec_pos() + d;
        r.spec_buf_pos() <= p <= r.spec_buf_pos() + r.spec_end()
    }
}

/// The reader and its buffer agree with the source: the buffer's first `end` bytes
/// are the source's from `buf_pos` on, and the source stands right after them.
pub open spec fn synced(r: GrowableBufferedReader, buf: Seq<u8>, src: SliceSource) -> bool {
    &&& src.wf()
    &&& r.wf(buf.len())
    &&& src.position() == r.spec_buf_pos() + r.spec_end()
    &&& buf.subrange(0, r.spec_end() as int) == src.content().subrange(
        r.spec_buf_pos() as int,
        (r.spec_buf_pos() + r.spec_end()) as int,
    )
}

/// Buffered reader: whenever reader, buffer and source agree, the available bytes
/// are the source's bytes at the absolute position `buf_pos + pos`.
pub proof fn lemma_reader_data(r: GrowableBufferedReader, buf: Seq<u8>, src: SliceSource)
    requires
        synced(r, buf, src),
    ensures
        buf.subrange(r.spec_pos() as int, r.spec_end() as int) == src.content().subrange(
            (r.spec_buf_pos() + r.spec_pos()) as int,
            (r.spec_buf_pos() + r.spec_end()) as int,
        ),
{
    let w = buf.subrange(0, r.spec_end() as int);
    assert(buf.subrange(r.spec_pos() as int, r.spec_end() as int) =~= w.subrange(
        r.spec_pos() as int,
        r.spec_end() as int,
    ));
}

/// The agreement survives consuming.
pub proof fn lemma_consume_synced(
    r0: GrowableBufferedReader,
    r1: GrowableBufferedReader,
    buf: Seq<u8>,
    src: SliceSource,
)
    requires
        synced(r0, buf, src),
        r1.spec_buf_pos() == r0.spec_buf_pos(),
        r1.spec_end() == r0.spec_end(),
        r0.spec_pos() <= r1.spec_pos() <= r1.spec_end(),
    ensures
        synced(r1, buf, src),
{
}

impl GrowableBufferedReader {
    /// Issues one read from `src` into the buffer, compacting it first; a read of
    /// no byte is `UnexpectedEof`. A buffer full from the front is left as it is.
    pub fn fill_buf(&mut self, buf: &mut Vec<u8>, src: &mut SliceSource) -> (r: Result<(), BufferError>)
        requires
            synced(*old(self), old(buf)@, *old(src)),
        ensures
            synced(*final(self), final(buf)@, *final(src)),
            final(src).content() == old(src).content(),
            final(buf)@.len() == old(buf)@.len(),
            final(self).spec_buf_pos() + final(self).spec_pos() == old(self).spec_buf_pos() + old(self).spec_pos(),
            r is Ok ==> final(self).spec_end() - final(self).spec_pos() == min_nat(
                old(buf)@.len(),
                (old(src).content().len() - old(self).spec_buf_pos() - old(self).spec_pos()) as nat,
            ),
            r is Err <==> (old(src).position() == old(src).content().len() && !(old(self).spec_pos()
                == 0 && old(self).spec_end() == old(buf)@.len())),
            r is Err ==> r == Err::<(), BufferError>(BufferError::UnexpectedEof),
    {
        let ghost c = src.content();
        let ghost b0 = buf@;
        match self.fill_target(buf) {
            None => {
                proof {
                    assert(min_nat(
                        b0.len(),
                        (c.len() - old(self).spec_buf_pos() - old(self).spec_pos()) as nat,
                    ) == old(self).spec_end() - old(self).spec_pos());
                }
                Ok(())
            },
            Some(at) => {
                let ghost b1 = buf@;
                let ghost sp = src.position();
                let n = src.read_into(buf, at);
                proof {
                    let bp = self.spec_buf_pos();
                    let ob = old(self).spec_buf_pos();
                    let op = old(self).spec_pos();
                    let oe = old(self).spec_end();
                    assert(bp == ob + op);
                    assert(at == oe - op);
                    assert(sp == ob + oe);
                    assert(b0.subrange(0, oe as int) == c.subrange(ob as int, (ob + oe) as int));
                    assert(b1.subrange(0, at as int) == b0.subrange(op as int, oe as int));
                    assert(b0.subrange(op as int, oe as int) =~= b0.subrange(0, oe as int).subrange(
                        op as int,
                        oe as int,
                    ));
                    assert(c.subrange(ob as int, (ob + oe) as int).subrange(op as int, oe as int)
                        =~= c.subrange(bp as int, (ob + oe) as int));
                    assert(buf@.subrange(0, at as int) == c.subrange(bp as int, (bp + at) as int));
                    assert(buf@.subrange(at as int, (at + n) as int) == c.subrange(
                        sp as int,
                        (sp + n) as int,
                    ));
                    assert(buf@.subrange(0, (at + n) as int) =~= buf@.subrange(0, at as int)
                        + buf@.subrange(at as int, (at + n) as int));
                    assert(c.subrange(bp as int, (bp + at + n) as int) =~= c.subrange(
                        bp as int,
                        (bp + at) as int,
                    ) + c.subrange(sp as int, (sp + n) as int));
                }
                self.commit_fill(n)
            },
        }
    }

    /// Seeks; relative seeks within the buffered window only move the position,
    /// others are issued on `src` and empty the buffer.
    pub fn seek(&mut self, buf: &Vec<u8>, target: SeekFrom, src: &mut SliceSource) -> (r: Result<
        u64,
        BufferError,
    >)
        requires
            synced(*old(self), buf@, *old(src)),
        ensures
            synced(*final(self), buf@, *final(src)),
            final(src).content() == old(src).content(),
            ({
                let want: int = match target {
                    SeekFrom::Start(n) => n as int,
                    SeekFrom::End(d) => old(src).content().len() + d,
                    SeekFrom::Current(d) => old(self).spec_buf_pos() + old(self).spec_pos() + d,
                };
                if 0 <= want <= old(src).content().len() {
                    r == Ok::<u64, BufferError>(want as u64) && final(self).spec_buf_pos() + final(self).spec_pos() == want
                } else {
                    r == Err::<u64, BufferError>(BufferError::InvalidSeek)
                }
            }),
            in_window(*old(self), target) ==> final(self).spec_buf_pos() == old(self).spec_buf_pos()
                && final(self).spec_end() == old(self).spec_end() && final(src).position() == old(src).position(),
            !in_window(*old(self), target) && r is Ok ==> final(self).spec_pos() == 0
                && final(self).spec_end() == 0 && final(self).spec_buf_pos() == r->Ok_0,
            r is Err ==> *final(self) == *old(self) && final(src).position() == old(src).position(),
    {
        match self.plan_seek(target) {
            Err(e) => Err(e),
            Ok(None) => Ok((self.buf_pos + self.pos) as u64),
            Ok(Some(t)) => {
                let p = src.seek(t)?;
                self.seek_done(p as usize);
                proof {
                    assert(buf@.subrange(0, 0) =~= src.content().subrange(p as int, p as int));
                }
                Ok(p)
            },
        }
    }
}


impl Buffered for GrowableBufferedReader {
    /// Marks `len` bytes as used, at most the available ones.
    fn consume(&mut self, len: usize) {
        if self.pos <= self.end {
            GrowableBufferedReader::consume(self, len);
        }
    }
}

} // verus!
