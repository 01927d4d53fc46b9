//! A sorted input stream: an aligned buffer refilled block by block, a carry
//! region holding the partial record left over by the previous refill, and a
//! peek/advance cursor over the parsed values and the raw record bytes.
//!
//! However the refills happen to chunk the file, the stream yields exactly
//! the records of the normalized input, in file order.

use vstd::prelude::*;

verus! {

use crate::{ALIGN, CHUNK_SIZE, LINE_WIDTH_INCL_NEWLINE};
use crate::decimal::{decodable, parse_packed_4bit, PackedVal};
use crate::lines::{
    digits_up_to, input_ok, lemma_to_lines_slice, lines_sorted, lines_valid, norm, packed_of,
    to_lines, valid_line,
};
use vstd::slice::slice_subrange;

pub struct SortedFile {
    /// Raw byte length of the input, before newline normalization.
    pub file_size: u64,
    file_idx: u8,
    content: Vec<u8>,
    read_pos: usize,
    aligned_buf: Vec<u8>,
    pos: usize,
    filled: usize,
    partial_line_bytes: usize,
    parsed_lines: Vec<PackedVal>,
    parsed_line_pos: usize,
    batch_start: Ghost<nat>,
}

impl SortedFile {
    /// The normalized input: the final record's newline restored if absent.
    pub closed spec fn nc(self) -> Seq<u8> {
        norm(self.content@)
    }

    /// Records already consumed through `next`.
    pub closed spec fn done(self) -> nat {
        self.batch_start@ + self.parsed_line_pos as nat
    }

    /// The records not yet consumed, in file order.
    pub closed spec fn lines(self) -> Seq<Seq<u8>> {
        to_lines(self.nc()).skip(self.done() as int)
    }

    /// The tag carried into every parsed value of this stream.
    pub closed spec fn spec_file_idx(self) -> u8 {
        self.file_idx
    }

    /// Raw byte length of the input, as a spec value.
    pub closed spec fn spec_file_size(self) -> u64 {
        self.file_size
    }

    /// Bytes of the normalized input materialized so far: consumed records,
    /// the current batch, and the carried partial record.
    spec fn materialized(self) -> nat {
        14 * (self.batch_start@ + self.parsed_lines@.len()) + self.partial_line_bytes as nat
    }

    spec fn inv_core(self) -> bool {
        let bs = self.batch_start@;
        let bl = self.parsed_lines@.len();
        let m = self.materialized();
        let n = self.nc();
        let clen = self.content@.len();
        &&& input_ok(self.content@)
        &&& self.file_size == clen
        &&& self.aligned_buf@.len() == ALIGN + CHUNK_SIZE
        &&& self.parsed_line_pos <= bl
        &&& self.partial_line_bytes < LINE_WIDTH_INCL_NEWLINE
        &&& m <= n.len()
        &&& (m <= clen ==> self.read_pos == m)
        &&& (m > clen ==> self.read_pos == clen && m == n.len())
        &&& self.pos <= ALIGN
        &&& self.filled == self.pos + 14 * bl
        &&& self.filled <= ALIGN + CHUNK_SIZE
        &&& self.aligned_buf@.subrange(self.pos as int, self.filled as int) == n.subrange(
            14 * bs as int,
            14 * (bs + bl) as int,
        )
        &&& self.aligned_buf@.subrange(0, self.partial_line_bytes as int) == n.subrange(
            14 * (bs + bl) as int,
            m as int,
        )
        &&& forall|i: int|
            0 <= i < bl ==> (#[trigger] self.parsed_lines@[i]).spec_inner() as nat == packed_of(
                to_lines(n)[bs as int + i],
                self.file_idx,
            )
    }

    /// The public invariant: between operations the cursor either sits on an
    /// unconsumed record of the current batch, or the whole input has been
    /// consumed.
    pub closed spec fn inv(self) -> bool {
        &&& self.inv_core()
        &&& (self.parsed_line_pos < self.parsed_lines@.len() || (self.parsed_lines@.len() == 0
            && self.parsed_line_pos == 0 && self.materialized() == self.nc().len()
            && self.partial_line_bytes == 0))
    }

    /// The remaining records are well formed and sorted; at most `total`
    /// many are left.
    pub proof fn lemma_lines_wf(self)
        requires
            self.inv(),
        ensures
            lines_valid(self.lines()),
            lines_sorted(self.lines()),
            self.lines().len() <= self.nc().len() / 14,
    {
        let all = to_lines(self.nc());
        assert(forall|k: int|
            0 <= k < self.lines().len() ==> #[trigger] self.lines()[k] == all[self.done() + k]);
    }

    /// Opens a stream over one input's bytes; the first batch is primed
    /// immediately.
    #[verifier::loop_isolation(false)]
    pub fn new(content: Vec<u8>, file_idx: u8) -> (r: Self)
        requires
            input_ok(content@),
        ensures
            r.inv(),
            r.lines() == to_lines(norm(content@)),
            r.spec_file_idx() == file_idx,
            r.spec_file_size() == content@.len(),
    {
        let file_size = content.len() as u64;
        let mut buf: Vec<u8> = Vec::new();
        let mut i: usize = 0;
        while i < ALIGN + CHUNK_SIZE
            invariant
                i <= ALIGN + CHUNK_SIZE,
                buf@.len() == i,
            decreases ALIGN + CHUNK_SIZE - i,
        {
            buf.push(0);
            i = i + 1;
        }
        let mut r = SortedFile {
            file_size,
            file_idx,
            content,
            read_pos: 0,
            aligned_buf: buf,
            pos: ALIGN,
            filled: ALIGN,
            partial_line_bytes: 0,
            parsed_lines: Vec::new(),
            parsed_line_pos: 0,
            batch_start: Ghost(0),
        };
        proof {
            assert(r.aligned_buf@.subrange(r.pos as int, r.filled as int) =~= r.nc().subrange(
                0,
                0,
            ));
            assert(r.aligned_buf@.subrange(0, 0) =~= r.nc().subrange(0, 0));
        }
        r.fill_parsed_lines();
        proof {
            assert(r.lines() =~= to_lines(r.nc()));
        }
        r
    }

    /// The packed value of the current record, or `None` at end of stream.
    pub fn peek(&self) -> (r: Option<u64>)
        requires
            self.inv(),
        ensures
            match r {
                None => self.lines().len() == 0,
                Some(v) => self.lines().len() > 0 && v as nat == packed_of(
                    self.lines()[0],
                    self.spec_file_idx(),
                ),
            },
    {
        if self.parsed_line_pos < self.parsed_lines.len() {
            let v = self.parsed_lines[self.parsed_line_pos].inner();
            proof {
                let all = to_lines(self.nc());
                assert(self.lines()[0] == all[self.done() as int]);
                assert(self.done() == self.batch_start@ + self.parsed_line_pos as nat);
            }
            Some(v)
        } else {
            proof {
                assert(self.lines().len() == 0);
            }
            None
        }
    }

    /// The raw bytes of the current record, or `None` at end of stream.
    #[verifier::loop_isolation(false)]
    pub fn peek_bytes(&self) -> (r: Option<Vec<u8>>)
        requires
            self.inv(),
        ensures
            match r {
                None => self.lines().len() == 0,
                Some(b) => self.lines().len() > 0 && b@ == self.lines()[0],
            },
    {
        let start = self.pos + self.parsed_line_pos * LINE_WIDTH_INCL_NEWLINE;
        if start + LINE_WIDTH_INCL_NEWLINE > self.filled {
            proof {
                assert(self.parsed_line_pos == self.parsed_lines@.len());
                assert(self.lines().len() == 0);
            }
            return None;
        }
        let mut b: Vec<u8> = Vec::new();
        let mut i: usize = 0;
        while i < LINE_WIDTH_INCL_NEWLINE
            invariant
                i <= LINE_WIDTH_INCL_NEWLINE,
                start + LINE_WIDTH_INCL_NEWLINE <= self.filled,
                self.filled <= self.aligned_buf@.len(),
                b@ == self.aligned_buf@.subrange(start as int, start as int + i),
            decreases LINE_WIDTH_INCL_NEWLINE - i,
        {
            b.push(self.aligned_buf[start + i]);
            assert(b@ =~= self.aligned_buf@.subrange(start as int, start as int + i + 1));
            i = i + 1;
        }
        proof {
            let n = self.nc();
            let bs = self.batch_start@;
            let p = self.parsed_line_pos as int;
            let all = to_lines(n);
            assert(self.parsed_line_pos < self.parsed_lines@.len());
            assert(b@ =~= self.aligned_buf@.subrange(self.pos as int, self.filled as int)
                .subrange(14 * p, 14 * p + 14));
            assert(n.subrange(14 * bs as int, 14 * (bs + self.parsed_lines@.len()) as int)
                .subrange(14 * p, 14 * p + 14) =~= n.subrange(
                14 * (bs as int + p),
                14 * (bs as int + p) + 14,
            ));
            assert(all[bs as int + p] == n.subrange(
                14 * (bs as int + p),
                14 * (bs as int + p) + 14,
            ));
            assert(self.lines()[0] == all[self.done() as int]);
        }
        Some(b)
    }

    /// Consumes the current record; refills the batch exactly when it is
    /// exhausted.
    pub fn next(&mut self)
        requires
            old(self).inv(),
        ensures
            final(self).inv(),
            final(self).spec_file_idx() == old(self).spec_file_idx(),
            final(self).spec_file_size() == old(self).spec_file_size(),
            old(self).lines().len() > 0 ==> final(self).lines() == old(self).lines().skip(1),
            old(self).lines().len() == 0 ==> final(self).lines() == old(self).lines(),
    {
        if self.parsed_line_pos < self.parsed_lines.len() {
            self.parsed_line_pos = self.parsed_line_pos + 1;
            self.fill_parsed_lines();
            proof {
                assert(final(self).lines() =~= old(self).lines().skip(1));
            }
        } else {
            proof {
                assert(old(self).lines().len() == 0);
            }
        }
    }

    /// Refills the batch from the buffer: relocates the carried partial
    /// record to just below the read area, reads more bytes, decodes every
    /// complete record, and carries the new partial record to the front.
    #[verifier::loop_isolation(false)]
    #[verifier::rlimit(60)]
    fn fill_parsed_lines(&mut self)
        requires
            old(self).inv_core(),
        ensures
            final(self).inv(),
            final(self).done() == old(self).done(),
            final(self).content == old(self).content,
            final(self).file_idx == old(self).file_idx,
            final(self).file_size == old(self).file_size,
    {
        if self.parsed_line_pos < self.parsed_lines.len() {
            return ;
        }
        let ghost n = self.nc();
        let ghost old_bl = self.parsed_lines@.len() as nat;
        self.parsed_lines.clear();
        proof {
            self.batch_start@ = self.batch_start@ + old_bl;
        }
        let ghost bs = self.batch_start@;
        self.pos = ALIGN;
        self.filled = ALIGN;
        let carry = self.partial_line_bytes;
        if carry > 0 {
            self.pos = ALIGN - carry;
            let ghost mid = *self;
            let ghost pre = self.aligned_buf@;
            let mut k: usize = 0;
            while k < carry
                invariant
                    k <= carry,
                    carry < 14,
                    self.pos == ALIGN - carry,
                    self.batch_start == mid.batch_start,
                    self.content == mid.content,
                    self.file_idx == mid.file_idx,
                    self.file_size == mid.file_size,
                    self.parsed_lines == mid.parsed_lines,
                    self.parsed_line_pos == mid.parsed_line_pos,
                    self.partial_line_bytes == mid.partial_line_bytes,
                    self.read_pos == mid.read_pos,
                    self.filled == mid.filled,
                    self.aligned_buf@.len() == ALIGN + CHUNK_SIZE,
                    self.aligned_buf@.subrange(0, carry as int) == pre.subrange(0, carry as int),
                    self.aligned_buf@.subrange(self.pos as int, self.pos as int + k as int)
                        == pre.subrange(0, k as int),
                decreases carry - k,
            {
                let b = self.aligned_buf[k];
                let ghost prebuf = self.aligned_buf@;
                self.aligned_buf.set(self.pos + k, b);
                proof {
                    assert(self.aligned_buf@.subrange(0, carry as int) =~= pre.subrange(
                        0,
                        carry as int,
                    ));
                    assert forall|i2: int| 0 <= i2 < k + 1 implies #[trigger] self.aligned_buf@[
                        self.pos + i2] == pre[i2] by {
                        if i2 < k {
                            assert(prebuf.subrange(
                                self.pos as int,
                                self.pos as int + k as int,
                            )[i2] == pre.subrange(0, k as int)[i2]);
                        } else {
                            assert(prebuf.subrange(0, carry as int)[i2] == pre.subrange(
                                0,
                                carry as int,
                            )[i2]);
                            assert(b == prebuf[k as int]);
                        }
                    }
                    assert(self.aligned_buf@.subrange(self.pos as int, self.pos as int + k + 1)
                        =~= pre.subrange(0, k + 1));
                }
                k = k + 1;
            }
            self.partial_line_bytes = 0;
            proof {
                assert forall|i2: int| 0 <= i2 < carry implies #[trigger] self.aligned_buf@[self.pos
                    + i2] == n[14 * bs + i2] by {
                    assert(self.aligned_buf@.subrange(self.pos as int, ALIGN as int)[i2]
                        == pre.subrange(0, carry as int)[i2]);
                    assert(old(self).aligned_buf@.subrange(
                        0,
                        old(self).partial_line_bytes as int,
                    )[i2] == n.subrange(14 * bs as int, 14 * bs as int + carry as int)[i2]);
                }
                assert(self.aligned_buf@.subrange(self.pos as int, ALIGN as int) =~= n.subrange(
                    14 * bs as int,
                    14 * bs as int + carry as int,
                ));
            }
        }
        proof {
            assert(self.aligned_buf@.subrange(self.pos as int, ALIGN as int) =~= n.subrange(
                14 * bs as int,
                14 * bs as int + (ALIGN - self.pos as int),
            ));
        }
        self.fill_buf();
        let avail = self.filled - self.pos;
        let num_complete = avail / LINE_WIDTH_INCL_NEWLINE;
        self.partial_line_bytes = avail % LINE_WIDTH_INCL_NEWLINE;
        let ghost m2 = 14 * bs + avail as nat;
        proof {
            assert(14 * (num_complete as int) + (avail as int % 14) == avail as int);
            assert(m2 <= n.len());
            assert(m2 <= self.content@.len() ==> self.read_pos == m2);
            assert(m2 > self.content@.len() ==> self.read_pos == self.content@.len() && m2
                == n.len());
        }
        let data = slice_subrange(
            self.aligned_buf.as_slice(),
            self.pos,
            self.pos + num_complete * LINE_WIDTH_INCL_NEWLINE,
        );
        proof {
            assert(self.aligned_buf@.subrange(self.pos as int, self.filled as int) == n.subrange(
                14 * bs as int,
                m2 as int,
            ));
            assert forall|i2: int| 0 <= i2 < 14 * (num_complete as int) implies #[trigger] data@[i2]
                == n[14 * bs + i2] by {
                assert(data@[i2] == self.aligned_buf@[self.pos + i2]);
                assert(self.aligned_buf@.subrange(self.pos as int, self.filled as int)[i2]
                    == n.subrange(14 * bs as int, m2 as int)[i2]);
            }
            assert(data@ =~= n.subrange(14 * bs as int, 14 * (bs + num_complete as nat) as int));
            lemma_to_lines_slice(n, 14 * bs as int, num_complete as int);
            assert(n.len() % 14 == 0);
            assert forall|kk: int| 0 <= kk < data@.len() / 14 implies digits_up_to(
                #[trigger] to_lines(data@)[kk],
                13,
            ) by {
                assert(to_lines(data@)[kk] == to_lines(n)[bs as int + kk]);
                assert(14 * (bs as int + kk) + 14 <= n.len());
                assert(bs as int + kk < n.len() / 14);
                assert(valid_line(to_lines(n)[bs as int + kk]));
            }
            assert(decodable(data@));
        }
        let ghost prelen = self.parsed_lines@.len() as int;
        parse_packed_4bit(data, &mut self.parsed_lines, self.file_idx);
        proof {
            assert(prelen == 0);
            assert forall|i: int| 0 <= i < self.parsed_lines@.len() implies (#[trigger] self
                .parsed_lines@[i]).spec_inner() as nat == packed_of(
                to_lines(n)[bs as int + i],
                self.file_idx,
            ) by {
                assert(self.parsed_lines@[prelen + i].spec_inner() == packed_of(
                    to_lines(data@)[i],
                    self.file_idx,
                ));
                assert(to_lines(data@)[i] == to_lines(n)[bs as int + i]);
            }
        }
        let partial = self.partial_line_bytes;
        let from = self.filled - partial;
        let ghost mid2 = *self;
        let mut k: usize = 0;
        while k < partial
            invariant
                k <= partial,
                partial < 14,
                from == self.filled - partial,
                self.pos >= ALIGN - 13,
                self.pos <= from,
                self.pos == mid2.pos,
                self.filled == mid2.filled,
                self.read_pos == mid2.read_pos,
                self.content == mid2.content,
                self.parsed_lines == mid2.parsed_lines,
                self.parsed_line_pos == mid2.parsed_line_pos,
                self.partial_line_bytes == mid2.partial_line_bytes,
                self.batch_start == mid2.batch_start,
                self.file_idx == mid2.file_idx,
                self.file_size == mid2.file_size,
                self.filled <= self.aligned_buf@.len(),
                self.aligned_buf@.len() == ALIGN + CHUNK_SIZE,
                self.aligned_buf@.subrange(self.pos as int, self.filled as int) == n.subrange(
                    14 * bs as int,
                    14 * bs as int + (self.filled - self.pos),
                ),
                self.aligned_buf@.subrange(0, k as int) == self.aligned_buf@.subrange(
                    from as int,
                    from as int + k as int,
                ),
            decreases partial - k,
        {
            let b = self.aligned_buf[from + k];
            let ghost prebuf = self.aligned_buf@;
            self.aligned_buf.set(k, b);
            proof {
                assert forall|i2: int| 0 <= i2 < self.filled - self.pos implies
                    #[trigger] self.aligned_buf@[self.pos + i2] == n[14 * bs + i2] by {
                    assert(self.aligned_buf@[self.pos + i2] == prebuf[self.pos + i2]);
                    assert(prebuf.subrange(self.pos as int, self.filled as int)[i2]
                        == n.subrange(14 * bs as int, 14 * bs as int + (self.filled
                        - self.pos))[i2]);
                }
                assert(self.aligned_buf@.subrange(self.pos as int, self.filled as int)
                    =~= n.subrange(14 * bs as int, 14 * bs as int + (self.filled - self.pos)));
                assert forall|i2: int| 0 <= i2 < k + 1 implies #[trigger] self.aligned_buf@[i2]
                    == self.aligned_buf@[from + i2] by {
                    if i2 < k {
                        assert(prebuf.subrange(0, k as int)[i2] == prebuf.subrange(
                            from as int,
                            from as int + k as int,
                        )[i2]);
                    }
                }
                assert(self.aligned_buf@.subrange(0, k + 1) =~= self.aligned_buf@.subrange(
                    from as int,
                    from as int + k + 1,
                ));
            }
            k = k + 1;
        }
        self.filled = self.filled - partial;
        self.parsed_line_pos = 0;
        proof {
            assert(14 * bs as int + (self.filled as int + partial - self.pos) == m2);
            assert(m2 <= n.len());
            assert forall|i2: int| 0 <= i2 < self.filled - self.pos implies
                #[trigger] self.aligned_buf@[self.pos + i2] == n[14 * bs + i2] by {
                assert(self.aligned_buf@.subrange(self.pos as int, self.filled as int
                    + partial)[i2] == n.subrange(14 * bs as int, m2 as int)[i2]);
            }
            assert(self.aligned_buf@.subrange(self.pos as int, self.filled as int) =~= n.subrange(
                14 * bs as int,
                14 * (bs + self.parsed_lines@.len()) as int,
            ));
            assert forall|i2: int| 0 <= i2 < partial implies #[trigger] self.aligned_buf@[i2]
                == n[14 * (bs + self.parsed_lines@.len()) as int + i2] by {
                assert(self.aligned_buf@.subrange(0, partial as int)[i2]
                    == self.aligned_buf@.subrange(from as int, from as int + partial as int)[i2]);
                assert(self.aligned_buf@.subrange(self.pos as int, self.filled as int
                    + partial)[from - self.pos + i2] == n.subrange(14 * bs as int, m2 as int)[from
                    - self.pos + i2]);
            }
            assert(self.aligned_buf@.subrange(0, partial as int) =~= n.subrange(
                14 * (bs + self.parsed_lines@.len()) as int,
                m2 as int,
            ));
        }
    }

    /// The buffered window `[pos, filled)` holds exactly the normalized
    /// bytes from `14 * batch_start` on, and `read_pos` is how far into the
    /// raw input that window reaches.
    spec fn window_ok(self) -> bool {
        let m = 14 * self.batch_start@ + (self.filled - self.pos);
        let n = norm(self.content@);
        let clen = self.content@.len();
        &&& self.pos <= self.filled <= ALIGN + CHUNK_SIZE
        &&& self.aligned_buf@.len() == ALIGN + CHUNK_SIZE
        &&& m <= n.len()
        &&& (m <= clen ==> self.read_pos == m)
        &&& (m > clen ==> self.read_pos == clen && m == n.len())
        &&& self.aligned_buf@.subrange(self.pos as int, self.filled as int) == n.subrange(
            14 * self.batch_start@ as int,
            m,
        )
    }

    /// Everything `fill_buf` leaves alone.
    spec fn same_but_buffer(pre: Self, post: Self) -> bool {
        &&& post.pos == pre.pos
        &&& post.batch_start == pre.batch_start
        &&& post.content == pre.content
        &&& post.file_idx == pre.file_idx
        &&& post.file_size == pre.file_size
        &&& post.parsed_lines == pre.parsed_lines
        &&& post.parsed_line_pos == pre.parsed_line_pos
        &&& post.partial_line_bytes == pre.partial_line_bytes
    }

    /// Reads from the input until at least one whole record is buffered or
    /// the input ends; a final record missing its newline gets one appended.
    #[verifier::loop_isolation(false)]
    #[verifier::rlimit(60)]
    fn fill_buf(&mut self)
        requires
            input_ok(old(self).content@),
            old(self).window_ok(),
            old(self).filled == ALIGN,
            old(self).pos <= ALIGN,
            ALIGN - old(self).pos < 14,
        ensures
            Self::same_but_buffer(*old(self), *final(self)),
            final(self).window_ok(),
            final(self).filled - final(self).pos >= LINE_WIDTH_INCL_NEWLINE || (final(self).filled
                == final(self).pos && 14 * old(self).batch_start@ == norm(
                old(self).content@,
            ).len()),
    {
        let ghost n = norm(old(self).content@);
        let ghost bs = old(self).batch_start@;
        let clen = self.content.len();
        while self.filled - self.pos < LINE_WIDTH_INCL_NEWLINE && self.read_pos < clen
            invariant
                clen == self.content@.len(),
                input_ok(self.content@),
                n == norm(self.content@),
                bs == self.batch_start@,
                Self::same_but_buffer(*old(self), *self),
                self.window_ok(),
            decreases clen - self.read_pos,
        {
            let space = ALIGN + CHUNK_SIZE - self.filled;
            let remaining = clen - self.read_pos;
            let want = if space < remaining {
                space
            } else {
                remaining
            };
            proof {
                assert(want > 0);
                assert(14 * bs + (self.filled - self.pos) == self.read_pos);
            }
            let ghost fill0 = self.filled as int;
            let ghost read0 = self.read_pos as int;
            let mut k: usize = 0;
            while k < want
                invariant
                    k <= want,
                    clen == self.content@.len(),
                    n == norm(self.content@),
                    bs == self.batch_start@,
                    read0 + want <= clen,
                    fill0 + want <= ALIGN + CHUNK_SIZE,
                    self.read_pos == read0,
                    self.filled == fill0,
                    Self::same_but_buffer(*old(self), *self),
                    self.window_ok(),
                    self.aligned_buf@.subrange(fill0, fill0 + k as int) == self.content@.subrange(
                        read0,
                        read0 + k as int,
                    ),
                decreases want - k,
            {
                let b = self.content[self.read_pos + k];
                self.aligned_buf.set(self.filled + k, b);
                proof {
                    assert(self.aligned_buf@.subrange(self.pos as int, fill0) =~= n.subrange(
                        14 * bs as int,
                        14 * bs + (fill0 - self.pos),
                    ));
                    assert(self.aligned_buf@.subrange(fill0, fill0 + k + 1)
                        =~= self.content@.subrange(read0, read0 + k + 1));
                }
                k = k + 1;
            }
            self.read_pos = self.read_pos + want;
            self.filled = self.filled + want;
            proof {
                assert(forall|i: int| 0 <= i < clen ==> n[i] == #[trigger] self.content@[i]);
                assert(read0 == 14 * bs + (fill0 - self.pos));
                assert(self.read_pos == read0 + want);
                assert(14 * bs + (self.filled - self.pos) == self.read_pos);
                assert(14 * bs + (self.filled - self.pos) <= n.len());
                assert forall|i: int| 0 <= i < self.filled - self.pos implies
                    #[trigger] self.aligned_buf@[self.pos + i] == n[14 * bs + i] by {
                    if i < fill0 - self.pos {
                        assert(self.aligned_buf@.subrange(self.pos as int, fill0)[i]
                            == n.subrange(14 * bs as int, 14 * bs + (fill0 - self.pos))[i]);
                    } else {
                        let j = self.pos + i - fill0;
                        assert(self.aligned_buf@.subrange(fill0, fill0 + want as int)[j]
                            == self.content@.subrange(read0, read0 + want as int)[j]);
                        assert(read0 + j == 14 * bs + i);
                    }
                }
                let w = self.filled - self.pos;
                assert(self.aligned_buf@.subrange(self.pos as int, self.filled as int).len()
                    == w);
                assert(n.subrange(14 * bs as int, 14 * bs + w as int).len() == w);
                assert forall|j: int| 0 <= j < w implies self.aligned_buf@.subrange(
                    self.pos as int,
                    self.filled as int,
                )[j] == n.subrange(14 * bs as int, 14 * bs + w as int)[j] by {
                    assert(self.aligned_buf@[self.pos + j] == n[14 * bs + j]);
                }
                assert(self.aligned_buf@.subrange(self.pos as int, self.filled as int)
                    =~= n.subrange(14 * bs as int, 14 * bs + (self.filled - self.pos)));
            }
        }
        let avail = self.filled - self.pos;
        if avail > 0 && avail < LINE_WIDTH_INCL_NEWLINE {
            proof {
                let m = 14 * bs + avail as int;
                assert(self.read_pos == clen);
                if m > clen {
                    assert(m == n.len());
                    assert(n.len() % 14 == 0);
                    assert(m % 14 == avail as int % 14);
                    assert(false);
                }
                assert(m == clen);
                assert(clen as int % 14 == avail as int % 14);
                assert(self.content@.len() % 14 == 13);
                assert(avail == 13);
                assert(n == self.content@.push(10));
                assert(n.len() == clen + 1);
            }
            let ghost bufpre = self.aligned_buf@;
            self.aligned_buf.set(self.filled, 10);
            self.filled = self.filled + 1;
            proof {
                assert forall|i: int| 0 <= i < self.filled - self.pos implies
                    #[trigger] self.aligned_buf@[self.pos + i] == n[14 * bs + i] by {
                    if i < avail as int {
                        assert(self.aligned_buf@[self.pos + i] == bufpre[self.pos + i]);
                        assert(bufpre.subrange(self.pos as int, self.pos + avail as int)[i]
                            == n.subrange(14 * bs as int, 14 * bs + avail as int)[i]);
                    } else {
                        assert(self.aligned_buf@[self.pos + i] == 10);
                        assert(14 * bs + i == clen);
                    }
                }
                assert(self.aligned_buf@.subrange(self.pos as int, self.filled as int)
                    =~= n.subrange(14 * bs as int, 14 * bs + (self.filled - self.pos)));
            }
        } else {
            proof {
                if avail == 0 {
                    let m = 14 * bs;
                    if m <= clen {
                        assert(self.read_pos == m);
                        assert(self.read_pos == clen);
                        assert(clen as int % 14 == 0);
                        assert(norm(self.content@) == self.content@);
                        assert(m == n.len());
                    }
                }
            }
        }
    }
}

} // verus!
