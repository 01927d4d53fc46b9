//! The output side: records are packed into fixed-size blocks; each completed
//! block becomes one aligned write, and closing pads the final block and
//! reports the exact length to truncate back to.

use vstd::prelude::*;

verus! {

use crate::{ALIGN, CHUNK_SIZE, LINE_WIDTH_INCL_NEWLINE};
use crate::lines::{lemma_render_line, pow10, render_digits, render_line, valid_line, line_val};

/// One positional write to issue: `data` belongs at byte `offset` of the
/// output file.
pub struct WriteOp {
    pub offset: usize,
    pub data: Vec<u8>,
}

/// Serializes values back into records.
pub struct TimeFormatter {
    last_serialized: Vec<u8>,
}

impl TimeFormatter {
    /// The serialization buffer always holds one whole record, newline
    /// included.
    pub closed spec fn wf(self) -> bool {
        &&& self.last_serialized@.len() == LINE_WIDTH_INCL_NEWLINE
        &&& self.last_serialized@[13] == 10
    }

    /// Starts with a buffer holding the all-zero record.
    pub fn new() -> (r: Self)
        ensures
            r.wf(),
    {
        let mut buf: Vec<u8> = Vec::new();
        let mut i: usize = 0;
        while i < 13
            invariant
                i <= 13,
                buf@.len() == i,
            decreases 13 - i,
        {
            buf.push(48);
            i = i + 1;
        }
        buf.push(10);
        TimeFormatter { last_serialized: buf }
    }

    /// Writes the 13 decimal digits of `v` and a newline into the buffer and
    /// returns a copy of the record.
    pub fn serialized_bytes(&mut self, v: u64) -> (line: Vec<u8>)
        requires
            old(self).wf(),
        ensures
            final(self).wf(),
            line@ == render_line(v as nat),
    {
        let mut r = v;
        let mut j: usize = 0;
        while j < 13
            invariant
                self.last_serialized@.len() == LINE_WIDTH_INCL_NEWLINE,
                self.last_serialized@[13] == 10,
                j <= 13,
                render_digits(v as nat, 13) == render_digits(r as nat, (13 - j) as nat)
                    + self.last_serialized@.subrange(13 - j, 13),
            decreases 13 - j,
        {
            let ghost pre = self.last_serialized@;
            let d = (r % 10) as u8 + 48;
            let pos = 12 - j;
            self.last_serialized.set(pos, d);
            proof {
                let post = self.last_serialized@;
                let m = (12 - j) as nat;
                assert(post.subrange(12 - j, 13) =~= seq![d] + pre.subrange(13 - j, 13));
                assert(render_digits(r as nat, (13 - j) as nat) == render_digits(
                    (r / 10) as nat,
                    m,
                ).push(d));
                assert(render_digits((r / 10) as nat, m).push(d) + pre.subrange(13 - j, 13)
                    =~= render_digits((r / 10) as nat, m) + (seq![d] + pre.subrange(13 - j, 13)));
            }
            r = r / 10;
            j = j + 1;
        }
        proof {
            assert(self.last_serialized@.subrange(0, 13) =~= render_digits(v as nat, 13));
            assert(self.last_serialized@ =~= render_line(v as nat));
        }
        let mut line: Vec<u8> = Vec::new();
        let mut i: usize = 0;
        while i < LINE_WIDTH_INCL_NEWLINE
            invariant
                self.last_serialized@.len() == LINE_WIDTH_INCL_NEWLINE,
                i <= LINE_WIDTH_INCL_NEWLINE,
                line@ == self.last_serialized@.subrange(0, i as int),
            decreases LINE_WIDTH_INCL_NEWLINE - i,
        {
            line.push(self.last_serialized[i]);
            assert(line@ =~= self.last_serialized@.subrange(0, i + 1));
            i = i + 1;
        }
        assert(line@ =~= self.last_serialized@);
        line
    }
}

/// Packs records into blocks of `CHUNK_SIZE` bytes. Completed blocks are
/// returned as aligned writes; the bytes accepted so far are the
/// concatenation of the flushed blocks and the block being filled.
pub struct OutputFile {
    cur_buf: Vec<u8>,
    flushed_len: usize,
    flushed: Ghost<Seq<u8>>,
    fmt: TimeFormatter,
}

impl OutputFile {
    /// The bytes of all blocks handed out so far, padding excluded (none has
    /// any).
    pub closed spec fn flushed_bytes(self) -> Seq<u8> {
        self.flushed@
    }

    /// Every byte accepted so far, flushed or still in the open block.
    pub closed spec fn emitted(self) -> Seq<u8> {
        self.flushed@ + self.cur_buf@
    }

    /// The open block is never full, every flushed block was exactly
    /// `CHUNK_SIZE` bytes, and the byte count fits the machine.
    pub closed spec fn inv(self) -> bool {
        &&& self.cur_buf@.len() < CHUNK_SIZE
        &&& self.flushed_len == self.flushed@.len()
        &&& self.flushed@.len() % CHUNK_SIZE as nat == 0
        &&& self.flushed@.len() + self.cur_buf@.len() <= usize::MAX
        &&& self.fmt.wf()
    }

    /// Opens an empty output stream: nothing accepted, nothing flushed.
    pub fn new() -> (r: Self)
        ensures
            r.inv(),
            r.emitted() == Seq::<u8>::empty(),
            r.flushed_bytes() == Seq::<u8>::empty(),
    {
        let r = OutputFile {
            cur_buf: Vec::new(),
            flushed_len: 0,
            flushed: Ghost(Seq::empty()),
            fmt: TimeFormatter::new(),
        };
        proof {
            assert(r.emitted() =~= Seq::<u8>::empty());
        }
        r
    }

    /// Appends `count` bytes of `line` starting at `from` to the open block.
    fn push_range(&mut self, line: &[u8], from: usize, count: usize)
        requires
            from + count <= line@.len(),
            old(self).cur_buf@.len() + count <= CHUNK_SIZE,
        ensures
            final(self).cur_buf@ == old(self).cur_buf@ + line@.subrange(
                from as int,
                from + count,
            ),
            final(self).flushed == old(self).flushed,
            final(self).flushed_len == old(self).flushed_len,
            final(self).fmt == old(self).fmt,
    {
        let llen = line.len();
        let mut i: usize = 0;
        while i < count
            invariant
                i <= count,
                llen == line@.len(),
                from + count <= llen,
                self.cur_buf@ == old(self).cur_buf@ + line@.subrange(from as int, from + i),
                self.flushed == old(self).flushed,
                self.flushed_len == old(self).flushed_len,
                self.fmt == old(self).fmt,
            decreases count - i,
        {
            self.cur_buf.push(line[from + i]);
            assert(self.cur_buf@ =~= old(self).cur_buf@ + line@.subrange(
                from as int,
                from + i + 1,
            ));
            i = i + 1;
        }
    }

    /// Hands the (full) open block out as a write and starts a fresh block.
    fn flush_full(&mut self) -> (op: WriteOp)
        requires
            old(self).flushed_len == old(self).flushed@.len(),
            old(self).flushed@.len() % CHUNK_SIZE as nat == 0,
            old(self).cur_buf@.len() == CHUNK_SIZE,
            old(self).flushed@.len() + CHUNK_SIZE <= usize::MAX,
        ensures
            final(self).flushed@ == old(self).flushed@ + op.data@,
            final(self).cur_buf@ == Seq::<u8>::empty(),
            final(self).flushed_len == old(self).flushed_len + CHUNK_SIZE,
            final(self).fmt == old(self).fmt,
            op.data@ == old(self).cur_buf@,
            op.data@.len() == CHUNK_SIZE,
            op.offset == old(self).flushed@.len(),
            op.offset as int % ALIGN as int == 0,
    {
        let mut full: Vec<u8> = Vec::new();
        core::mem::swap(&mut full, &mut self.cur_buf);
        let op = WriteOp { offset: self.flushed_len, data: full };
        proof {
            self.flushed@ = self.flushed@ + op.data@;
        }
        self.flushed_len = self.flushed_len + CHUNK_SIZE;
        op
    }

    /// Appends one record. If the open block fills up, the completed block
    /// comes back as an aligned write of exactly `CHUNK_SIZE` bytes to issue
    /// at the running offset; a record crossing the block boundary is split
    /// over the two blocks.
    pub fn write_bytes(&mut self, line: &[u8]) -> (op: Option<WriteOp>)
        requires
            old(self).inv(),
            line@.len() == LINE_WIDTH_INCL_NEWLINE,
            old(self).emitted().len() + LINE_WIDTH_INCL_NEWLINE <= usize::MAX,
        ensures
            final(self).inv(),
            final(self).emitted() == old(self).emitted() + line@,
            match op {
                None => final(self).flushed_bytes() == old(self).flushed_bytes(),
                Some(op) => {
                    &&& final(self).flushed_bytes() == old(self).flushed_bytes() + op.data@
                    &&& op.data@.len() == CHUNK_SIZE
                    &&& op.offset == old(self).flushed_bytes().len()
                    &&& op.offset as int % ALIGN as int == 0
                },
            },
    {
        let cap = CHUNK_SIZE - self.cur_buf.len();
        if cap < LINE_WIDTH_INCL_NEWLINE {
            self.push_range(line, 0, cap);
            let op = self.flush_full();
            self.push_range(line, cap, LINE_WIDTH_INCL_NEWLINE - cap);
            proof {
                assert(final(self).emitted() =~= old(self).emitted() + line@);
            }
            Some(op)
        } else {
            self.push_range(line, 0, LINE_WIDTH_INCL_NEWLINE);
            proof {
                assert(line@.subrange(0, LINE_WIDTH_INCL_NEWLINE as int) =~= line@);
            }
            if self.cur_buf.len() == CHUNK_SIZE {
                let op = self.flush_full();
                proof {
                    assert(final(self).emitted() =~= old(self).emitted() + line@);
                }
                Some(op)
            } else {
                proof {
                    assert(final(self).emitted() =~= old(self).emitted() + line@);
                }
                None
            }
        }
    }

    /// Serializes `v` as a record and appends it.
    pub fn write_u64(&mut self, v: u64) -> (op: Option<WriteOp>)
        requires
            old(self).inv(),
            v < 10000000000000,
            old(self).emitted().len() + LINE_WIDTH_INCL_NEWLINE <= usize::MAX,
        ensures
            final(self).inv(),
            final(self).emitted() == old(self).emitted() + render_line(v as nat),
            valid_line(render_line(v as nat)),
            line_val(render_line(v as nat)) == v,
            match op {
                None => final(self).flushed_bytes() == old(self).flushed_bytes(),
                Some(op) => {
                    &&& final(self).flushed_bytes() == old(self).flushed_bytes() + op.data@
                    &&& op.data@.len() == CHUNK_SIZE
                    &&& op.offset == old(self).flushed_bytes().len()
                    &&& op.offset as int % ALIGN as int == 0
                },
            },
    {
        proof {
            assert(pow10(13) == 10000000000000) by {
                reveal_with_fuel(pow10, 14);
            }
            lemma_render_line(v as nat);
        }
        let line = self.fmt.serialized_bytes(v);
        self.write_bytes(line.as_slice())
    }

    /// Closes the stream: the still-open block, if any, is padded with
    /// zeros up to the alignment and returned as the one final (possibly
    /// shorter) write; the second component is the exact byte length the
    /// file must be truncated to.
    pub fn close(self) -> (r: (Option<WriteOp>, usize))
        requires
            self.inv(),
        ensures
            r.1 == self.emitted().len(),
            match r.0 {
                None => self.flushed_bytes() == self.emitted(),
                Some(op) => {
                    &&& op.offset == self.flushed_bytes().len()
                    &&& op.offset as int % ALIGN as int == 0
                    &&& op.data@.len() % ALIGN as nat == 0
                    &&& 0 < op.data@.len() <= CHUNK_SIZE
                    &&& op.offset + op.data@.len() >= r.1
                    &&& op.offset + op.data@.len() - r.1 < ALIGN
                    &&& (self.flushed_bytes() + op.data@).subrange(0, r.1 as int)
                        == self.emitted()
                    &&& forall|i: int|
                        r.1 - op.offset <= i < op.data@.len() ==> op.data@[i] == 0
                },
            },
    {
        let mut me = self;
        if me.cur_buf.len() == 0 {
            proof {
                assert(me.emitted() =~= me.flushed_bytes());
            }
            (None, me.flushed_len)
        } else {
            let used = me.cur_buf.len();
            let tlen = me.flushed_len + used;
            let rem = used % ALIGN;
            let padn = if rem == 0 {
                0
            } else {
                ALIGN - rem
            };
            let ghost cur0 = me.cur_buf@;
            let mut i: usize = 0;
            while i < padn
                invariant
                    i <= padn,
                    used + padn <= CHUNK_SIZE,
                    me.cur_buf@.len() == used + i,
                    me.cur_buf@.subrange(0, used as int) == cur0,
                    forall|k: int| used <= k < used + i ==> me.cur_buf@[k] == 0,
                    me.flushed == self.flushed,
                    me.flushed_len == self.flushed_len,
                decreases padn - i,
            {
                me.cur_buf.push(0);
                assert(me.cur_buf@.subrange(0, used as int) =~= cur0);
                i = i + 1;
            }
            let op = WriteOp { offset: me.flushed_len, data: me.cur_buf };
            proof {
                assert((self.flushed_bytes() + op.data@).subrange(0, tlen as int)
                    =~= self.emitted());
            }
            (Some(op), tlen)
        }
    }
}

} // verus!
