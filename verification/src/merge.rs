//! The selection loop: across all live input streams, repeatedly pick the
//! stream whose current packed value is least, emit its record, and advance
//! it. `merged` is the mathematical mirror of that loop, so the writer's
//! contract pins the output byte for byte.

use vstd::prelude::*;

verus! {

use crate::{CHUNK_SIZE, LINE_WIDTH_INCL_NEWLINE};
use crate::iodirect::output_file::{OutputFile, WriteOp};
use crate::iodirect::sorted_file::SortedFile;
use crate::lines::{
    lemma_packed_order, lemma_to_lines_cons, line_val, lines_sorted, lines_valid, packed_of,
    to_lines, valid_line,
};
use vstd::multiset::Multiset;

/// What the selection loop sees of one stream: its file tag and the records
/// it has not yet handed out.
pub ghost struct StreamModel {
    pub tag: u8,
    pub lines: Seq<Seq<u8>>,
}

/// The model of one open stream.
pub open spec fn stream_model(f: SortedFile) -> StreamModel {
    StreamModel { tag: f.spec_file_idx(), lines: f.lines() }
}

/// The models of a collection of streams.
pub open spec fn models_of(files: Seq<SortedFile>) -> Seq<StreamModel> {
    files.map_values(|f: SortedFile| stream_model(f))
}

/// The comparison key of a stream: the packed value of its current record;
/// an exhausted stream compares greater than every live one.
pub open spec fn stream_key(m: StreamModel) -> nat {
    if m.lines.len() == 0 {
        u64::MAX as nat
    } else {
        packed_of(m.lines[0], m.tag)
    }
}

/// Records left over all streams.
pub open spec fn sum_len(ms: Seq<StreamModel>) -> nat
    decreases ms.len(),
{
    if ms.len() == 0 {
        0
    } else {
        ms[0].lines.len() + sum_len(ms.drop_first())
    }
}

/// The index the linear scan settles on: the first stream whose key is
/// least.
pub open spec fn first_min_idx(ms: Seq<StreamModel>) -> int
    decreases ms.len(),
{
    if ms.len() <= 1 {
        0
    } else {
        let r = first_min_idx(ms.drop_last());
        if stream_key(ms.last()) < stream_key(ms[r]) {
            ms.len() - 1
        } else {
            r
        }
    }
}

/// A stream with its current record consumed.
pub open spec fn pop_first(m: StreamModel) -> StreamModel {
    StreamModel { tag: m.tag, lines: m.lines.skip(1) }
}

/// `first_min_idx` lands on a valid index whose key no stream beats.
pub proof fn lemma_first_min_idx(ms: Seq<StreamModel>)
    requires
        ms.len() > 0,
    ensures
        0 <= first_min_idx(ms) < ms.len(),
        forall|j: int|
            0 <= j < ms.len() ==> stream_key(ms[first_min_idx(ms)]) <= stream_key(#[trigger] ms[j]),
    decreases ms.len(),
{
    if ms.len() > 1 {
        lemma_first_min_idx(ms.drop_last());
        assert(forall|j: int| 0 <= j < ms.len() - 1 ==> ms.drop_last()[j] == #[trigger] ms[j]);
    }
}

/// Replacing one stream's model changes the total record count by exactly
/// the difference at that index.
pub proof fn lemma_sum_len_update(ms: Seq<StreamModel>, i: int, m: StreamModel)
    requires
        0 <= i < ms.len(),
    ensures
        sum_len(ms.update(i, m)) + ms[i].lines.len() == sum_len(ms) + m.lines.len(),
    decreases ms.len(),
{
    if i == 0 {
        assert(ms.update(0, m).drop_first() =~= ms.drop_first());
    } else {
        assert(ms.update(i, m).drop_first() =~= ms.drop_first().update(i - 1, m));
        lemma_sum_len_update(ms.drop_first(), i - 1, m);
    }
}

/// The byte sequence the selection loop emits: repeatedly the current record
/// of the first stream with the least key, until every stream is exhausted.
pub open spec fn merged(ms: Seq<StreamModel>) -> Seq<u8>
    decreases sum_len(ms),
    via merged_decreases
{
    if ms.len() == 0 {
        Seq::empty()
    } else {
        let i = first_min_idx(ms);
        if stream_key(ms[i]) == u64::MAX as nat {
            Seq::empty()
        } else {
            ms[i].lines[0] + merged(ms.update(i, pop_first(ms[i])))
        }
    }
}

#[via_fn]
proof fn merged_decreases(ms: Seq<StreamModel>) {
    if ms.len() > 0 {
        let i = first_min_idx(ms);
        lemma_first_min_idx(ms);
        if stream_key(ms[i]) != u64::MAX as nat {
            lemma_sum_len_update(ms, i, pop_first(ms[i]));
        }
    }
}

/// The bytes of a run of writes, in order.
pub open spec fn ops_bytes(ops: Seq<WriteOp>) -> Seq<u8>
    decreases ops.len(),
{
    if ops.len() == 0 {
        Seq::empty()
    } else {
        ops_bytes(ops.drop_last()) + ops.last().data@
    }
}

/// The multiset of records the streams still hold, all together.
pub open spec fn lines_multiset(ms: Seq<StreamModel>) -> Multiset<Seq<u8>>
    decreases ms.len(),
{
    if ms.len() == 0 {
        Multiset::empty()
    } else {
        ms[0].lines.to_multiset().add(lines_multiset(ms.drop_first()))
    }
}

proof fn lemma_lines_multiset_empty(ms: Seq<StreamModel>)
    requires
        forall|j: int| 0 <= j < ms.len() ==> (#[trigger] ms[j]).lines.len() == 0,
    ensures
        lines_multiset(ms) == Multiset::<Seq<u8>>::empty(),
    decreases ms.len(),
{
    broadcast use vstd::seq_lib::group_to_multiset_ensures;
    broadcast use vstd::multiset::group_multiset_axioms;

    if ms.len() > 0 {
        lemma_lines_multiset_empty(ms.drop_first());
        assert(ms[0].lines.to_multiset().len() == 0);
        assert(lines_multiset(ms) =~= Multiset::<Seq<u8>>::empty());
    }
}

proof fn lemma_sum_len_zero(ms: Seq<StreamModel>)
    requires
        forall|j: int| 0 <= j < ms.len() ==> (#[trigger] ms[j]).lines.len() == 0,
    ensures
        sum_len(ms) == 0,
    decreases ms.len(),
{
    if ms.len() > 0 {
        lemma_sum_len_zero(ms.drop_first());
    }
}

proof fn lemma_lines_multiset_update(ms: Seq<StreamModel>, i: int, m: StreamModel)
    requires
        0 <= i < ms.len(),
    ensures
        lines_multiset(ms.update(i, m)).add(ms[i].lines.to_multiset()) == lines_multiset(
            ms,
        ).add(m.lines.to_multiset()),
    decreases ms.len(),
{
    broadcast use vstd::multiset::group_multiset_axioms;

    if i == 0 {
        assert(ms.update(0, m).drop_first() =~= ms.drop_first());
        assert(lines_multiset(ms.update(0, m)).add(ms[0].lines.to_multiset())
            =~= lines_multiset(ms).add(m.lines.to_multiset()));
    } else {
        let dropf = ms.drop_first();
        assert(ms.update(i, m).drop_first() =~= dropf.update(i - 1, m));
        lemma_lines_multiset_update(dropf, i - 1, m);
        assert(dropf[i - 1] == ms[i]);
        assert forall|x: Seq<u8>| true implies lines_multiset(ms.update(i, m)).add(
            ms[i].lines.to_multiset(),
        ).count(x) == lines_multiset(ms).add(m.lines.to_multiset()).count(x) by {
            assert(lines_multiset(ms.update(i, m)) == ms[0].lines.to_multiset().add(
                lines_multiset(dropf.update(i - 1, m)),
            ));
            assert(lines_multiset(ms) == ms[0].lines.to_multiset().add(lines_multiset(dropf)));
            assert(lines_multiset(dropf.update(i - 1, m)).add(dropf[i - 1].lines.to_multiset())
                .count(x) == lines_multiset(dropf).add(m.lines.to_multiset()).count(x));
        }
        assert(lines_multiset(ms.update(i, m)).add(ms[i].lines.to_multiset())
            =~= lines_multiset(ms).add(m.lines.to_multiset()));
    }
}

/// Every record in the combined multiset is well formed and no smaller than
/// `v`, provided that holds of each stream's records.
proof fn lemma_lines_multiset_lower(ms: Seq<StreamModel>, v: nat, x: Seq<u8>)
    requires
        forall|j: int| 0 <= j < ms.len() ==> lines_valid((#[trigger] ms[j]).lines),
        forall|j: int, k: int|
            0 <= j < ms.len() && 0 <= k < ms[j].lines.len() ==> line_val(
                #[trigger] ms[j].lines[k],
            ) >= v,
        lines_multiset(ms).count(x) > 0,
    ensures
        line_val(x) >= v,
        valid_line(x),
    decreases ms.len(),
{
    broadcast use vstd::seq_lib::group_to_multiset_ensures;
    broadcast use vstd::multiset::group_multiset_axioms;

    assert(ms.len() > 0);
    let dropf = ms.drop_first();
    assert(lines_multiset(ms) == ms[0].lines.to_multiset().add(lines_multiset(dropf)));
    assert(lines_multiset(ms).count(x) == ms[0].lines.to_multiset().count(x) + lines_multiset(
        dropf,
    ).count(x));
    if ms[0].lines.to_multiset().count(x) > 0 {
        assert(ms[0].lines.contains(x));
        let k = choose|k: int| 0 <= k < ms[0].lines.len() && ms[0].lines[k] == x;
        assert(line_val(ms[0].lines[k]) >= v);
        assert(valid_line(ms[0].lines[k]));
    } else {
        assert(forall|j: int| 0 <= j < dropf.len() ==> #[trigger] dropf[j] == ms[j + 1]);
        assert forall|j: int| 0 <= j < dropf.len() implies lines_valid(
            (#[trigger] dropf[j]).lines,
        ) by {
            assert(dropf[j] == ms[j + 1]);
        }
        assert forall|j: int, k: int|
            0 <= j < dropf.len() && 0 <= k < dropf[j].lines.len() implies line_val(
            #[trigger] dropf[j].lines[k],
        ) >= v by {
            assert(dropf[j] == ms[j + 1]);
            assert(line_val(ms[j + 1].lines[k]) >= v);
        }
        lemma_lines_multiset_lower(dropf, v, x);
    }
}

/// What the merge emits is precisely the streams' records, sorted by value:
/// the output decomposes into well-formed records, their multiset is the sum
/// of the streams' multisets, their values never decrease, and the byte
/// count is fourteen per record.
pub proof fn lemma_merged_props(ms: Seq<StreamModel>)
    requires
        forall|j: int| 0 <= j < ms.len() ==> lines_valid((#[trigger] ms[j]).lines),
        forall|j: int| 0 <= j < ms.len() ==> lines_sorted((#[trigger] ms[j]).lines),
    ensures
        merged(ms).len() == 14 * sum_len(ms),
        merged(ms).len() % 14 == 0,
        to_lines(merged(ms)).to_multiset() == lines_multiset(ms),
        lines_valid(to_lines(merged(ms))),
        lines_sorted(to_lines(merged(ms))),
    decreases sum_len(ms),
{
    broadcast use vstd::seq_lib::group_to_multiset_ensures;
    broadcast use vstd::multiset::group_multiset_axioms;

    if ms.len() == 0 {
        assert(to_lines(merged(ms)).len() == 0);
        assert(to_lines(merged(ms)).to_multiset() =~= lines_multiset(ms));
    } else {
        let i = first_min_idx(ms);
        lemma_first_min_idx(ms);
        if stream_key(ms[i]) == u64::MAX as nat {
            assert forall|j: int| 0 <= j < ms.len() implies (#[trigger] ms[j]).lines.len()
                == 0 by {
                if ms[j].lines.len() > 0 {
                    lemma_packed_order(ms[j].lines[0], ms[j].lines[0], ms[j].tag, ms[j].tag);
                }
            }
            lemma_sum_len_zero(ms);
            lemma_lines_multiset_empty(ms);
            assert(to_lines(merged(ms)).len() == 0);
            assert(to_lines(merged(ms)).to_multiset() =~= lines_multiset(ms));
        } else {
            let h = ms[i].lines[0];
            let hv = line_val(h);
            let pop = pop_first(ms[i]);
            let ms2 = ms.update(i, pop);
            assert(valid_line(h));
            // the popped stream still has valid, sorted records
            assert(lines_valid(pop.lines) && lines_sorted(pop.lines)) by {
                assert(forall|k: int|
                    0 <= k < pop.lines.len() ==> #[trigger] pop.lines[k] == ms[i].lines[k + 1]);
            }
            assert(forall|j: int| 0 <= j < ms2.len() ==> lines_valid((#[trigger] ms2[j]).lines));
            assert(forall|j: int| 0 <= j < ms2.len() ==> lines_sorted((#[trigger] ms2[j]).lines));
            lemma_sum_len_update(ms, i, pop);
            lemma_merged_props(ms2);
            let tail = merged(ms2);
            assert(merged(ms) == h + tail);
            lemma_to_lines_cons(h, tail);
            let tl = to_lines(tail);
            assert(to_lines(merged(ms)) == seq![h] + tl);
            // h is no larger than any record still held by any stream of ms2
            assert forall|j: int, k: int|
                0 <= j < ms2.len() && 0 <= k < ms2[j].lines.len() implies line_val(
                #[trigger] ms2[j].lines[k],
            ) >= hv by {
                let mj = ms[j];
                if mj.lines.len() > 0 {
                    assert(valid_line(mj.lines[0]));
                    assert(stream_key(ms[i]) <= stream_key(ms[j]));
                    lemma_packed_order(mj.lines[0], h, mj.tag, ms[i].tag);
                    assert(line_val(mj.lines[0]) >= hv);
                }
                if j == i {
                    assert(ms2[j].lines[k] == mj.lines[k + 1]);
                    assert(line_val(mj.lines[k + 1]) >= line_val(mj.lines[0]));
                } else {
                    assert(ms2[j].lines[k] == mj.lines[k]);
                    assert(line_val(mj.lines[k]) >= line_val(mj.lines[0]));
                }
            }
            // multiset bookkeeping: removing h from stream i and prepending
            // it to the output cancel out
            lemma_lines_multiset_update(ms, i, pop);
            assert(ms[i].lines.remove(0) =~= pop.lines);
            assert(pop.lines.to_multiset() == ms[i].lines.to_multiset().remove(h));
            assert(ms[i].lines.contains(h));
            assert(ms[i].lines.to_multiset().count(h) > 0);
            assert(to_lines(merged(ms)).to_multiset() == lines_multiset(ms)) by {
                assert((seq![h] + tl).to_multiset() == seq![h].to_multiset().add(
                    tl.to_multiset(),
                )) by {
                    vstd::seq_lib::lemma_multiset_commutative(seq![h], tl);
                }
                assert(seq![h] =~= Seq::<Seq<u8>>::empty().push(h));
                assert(seq![h].to_multiset() == Multiset::<Seq<u8>>::empty().insert(h));
                assert(to_lines(merged(ms)).to_multiset() =~= lines_multiset(ms2).insert(h));
                assert forall|x: Seq<u8>| true implies lines_multiset(ms2).insert(h).count(x)
                    == lines_multiset(ms).count(x) by {
                    assert(lines_multiset(ms2).add(ms[i].lines.to_multiset()).count(x)
                        == lines_multiset(ms).add(pop.lines.to_multiset()).count(x));
                    assert(lines_multiset(ms2).count(x) + ms[i].lines.to_multiset().count(x)
                        == lines_multiset(ms).count(x) + pop.lines.to_multiset().count(x));
                }
                assert(lines_multiset(ms2).insert(h) =~= lines_multiset(ms));
            }
            // sortedness: h first, then a sorted tail none of whose records
            // is smaller
            assert forall|x: Seq<u8>| tl.to_multiset().count(x) > 0 implies line_val(x) >= hv by {
                assert(lines_multiset(ms2).count(x) > 0);
                lemma_lines_multiset_lower(ms2, hv, x);
            }
            assert(lines_sorted(to_lines(merged(ms)))) by {
                let out = to_lines(merged(ms));
                assert forall|a: int, b: int| 0 <= a <= b < out.len() implies line_val(
                    #[trigger] out[a],
                ) <= line_val(#[trigger] out[b]) by {
                    if a == 0 && b > 0 {
                        assert(tl.contains(tl[b - 1]));
                        assert(tl.to_multiset().count(tl[b - 1]) > 0);
                        assert(line_val(out[b]) >= hv);
                    } else if a > 0 {
                        assert(out[a] == tl[a - 1] && out[b] == tl[b - 1]);
                    }
                }
            }
            assert(lines_valid(to_lines(merged(ms)))) by {
                let out = to_lines(merged(ms));
                assert forall|a: int| 0 <= a < out.len() implies valid_line(
                    #[trigger] out[a],
                ) by {
                    if a > 0 {
                        assert(out[a] == tl[a - 1]);
                    }
                }
            }
        }
    }
}

/// The round trip, stated once: the merge output is the one and only byte
/// sequence that decomposes into exactly the streams' records, values never
/// decreasing. Any candidate with those properties is byte-identical to it.
pub proof fn lemma_merged_unique(ms: Seq<StreamModel>, out: Seq<u8>)
    requires
        forall|j: int| 0 <= j < ms.len() ==> lines_valid((#[trigger] ms[j]).lines),
        forall|j: int| 0 <= j < ms.len() ==> lines_sorted((#[trigger] ms[j]).lines),
        out.len() % 14 == 0,
        lines_valid(to_lines(out)),
        lines_sorted(to_lines(out)),
        to_lines(out).to_multiset() == lines_multiset(ms),
    ensures
        out == merged(ms),
{
    lemma_merged_props(ms);
    crate::lines::lemma_sorted_lines_unique(to_lines(out), to_lines(merged(ms)));
    crate::lines::lemma_to_lines_injective(out, merged(ms));
}

/// No stream holds more records than all of them together.
pub proof fn lemma_sum_len_at(ms: Seq<StreamModel>, i: int)
    requires
        0 <= i < ms.len(),
    ensures
        ms[i].lines.len() <= sum_len(ms),
    decreases ms.len(),
{
    if i > 0 {
        lemma_sum_len_at(ms.drop_first(), i - 1);
    }
}

/// Drives the merge: feeds the globally least record to the writer until
/// every stream is exhausted.
pub struct SortingWriter(Vec<SortedFile>);

impl SortingWriter {
    /// The streams being merged.
    pub closed spec fn files(self) -> Seq<SortedFile> {
        self.0@
    }

    /// Their models.
    pub open spec fn models(self) -> Seq<StreamModel> {
        models_of(self.files())
    }

    /// Every stream is in its operating state.
    pub open spec fn all_inv(self) -> bool {
        forall|i: int| 0 <= i < self.files().len() ==> (#[trigger] self.files()[i]).inv()
    }

    /// Takes ownership of the streams to merge.
    pub fn new(sfs: Vec<SortedFile>) -> (r: Self)
        ensures
            r.files() == sfs@,
    {
        SortingWriter(sfs)
    }

    /// Merges every stream into `dest`. The bytes accepted by `dest` grow by
    /// exactly `merged` of the streams' models; the completed blocks that
    /// became due during the merge are returned, each one block long, at
    /// consecutive block offsets.
    pub fn write_to(&mut self, dest: &mut OutputFile) -> (ops: Vec<WriteOp>)
        requires
            old(self).all_inv(),
            old(dest).inv(),
            old(dest).emitted().len() + 14 * sum_len(old(self).models()) <= usize::MAX,
        ensures
            final(self).all_inv(),
            final(dest).inv(),
            final(dest).emitted() == old(dest).emitted() + merged(old(self).models()),
            final(dest).flushed_bytes() == old(dest).flushed_bytes() + ops_bytes(ops@),
            ops_bytes(ops@).len() == CHUNK_SIZE * ops@.len(),
            forall|i: int|
                0 <= i < ops@.len() ==> (#[trigger] ops@[i]).data@.len() == CHUNK_SIZE
                    && ops@[i].offset == old(dest).flushed_bytes().len() + CHUNK_SIZE * i,
            forall|i: int|
                0 <= i < final(self).models().len() ==> (#[trigger] final(self).models()[i]).lines.len() == 0,
    {
        let ghost ms0 = old(self).models();
        proof {
            assert(ms0 == models_of(old(self).files()));
        }
        let ghost e0 = old(dest).emitted();
        let ghost f0 = old(dest).flushed_bytes();
        let mut ops: Vec<WriteOp> = Vec::new();
        loop
            invariant
                self.all_inv(),
                dest.inv(),
                dest.emitted() + merged(self.models()) == e0 + merged(ms0),
                dest.emitted().len() + 14 * sum_len(self.models()) <= usize::MAX,
                dest.flushed_bytes() == f0 + ops_bytes(ops@),
                ops_bytes(ops@).len() == CHUNK_SIZE * ops@.len(),
                forall|i: int|
                    0 <= i < ops@.len() ==> (#[trigger] ops@[i]).data@.len() == CHUNK_SIZE
                        && ops@[i].offset == f0.len() + CHUNK_SIZE * i,
            ensures
                self.all_inv(),
                dest.inv(),
                dest.emitted() == e0 + merged(ms0),
                dest.flushed_bytes() == f0 + ops_bytes(ops@),
                ops_bytes(ops@).len() == CHUNK_SIZE * ops@.len(),
                forall|i: int|
                    0 <= i < ops@.len() ==> (#[trigger] ops@[i]).data@.len() == CHUNK_SIZE
                        && ops@[i].offset == f0.len() + CHUNK_SIZE * i,
                forall|i: int|
                    0 <= i < self.models().len() ==> (#[trigger] self.models()[i]).lines.len()
                        == 0,
            decreases sum_len(self.models()),
        {
            let ghost msp = self.models();
            let ghost fsp = self.files();
            let len = self.0.len();
            let mut best: usize = 0;
            let mut best_key: u64 = u64::MAX;
            let mut i: usize = 0;
            while i < len
                invariant
                    len == self.files().len(),
                    self.all_inv(),
                    i <= len,
                    msp == self.models(),
                    i == 0 ==> best == 0 && best_key == u64::MAX,
                    i > 0 ==> best < i && best == first_min_idx(msp.take(i as int)) && best_key
                        as nat == stream_key(msp[best as int]),
                    best_key as nat >= stream_key(msp.take(i as int)[first_min_idx(
                        msp.take(i as int),
                    )]) || i == 0,
                decreases len - i,
            {
                let k = match self.0[i].peek() {
                    Some(v) => v,
                    None => u64::MAX,
                };
                proof {
                    let m = msp[i as int];
                    self.files()[i as int].lemma_lines_wf();
                    if self.files()[i as int].lines().len() > 0 {
                        lemma_packed_order(m.lines[0], m.lines[0], m.tag, m.tag);
                    }
                    assert(k as nat == stream_key(m));
                    assert(k == u64::MAX ==> m.lines.len() == 0);
                    let tk1 = msp.take(i + 1);
                    assert(tk1.drop_last() =~= msp.take(i as int));
                    assert(tk1.last() == msp[i as int]);
                }
                if k < best_key {
                    best = i;
                    best_key = k;
                }
                i = i + 1;
            }
            proof {
                assert(msp.take(len as int) =~= msp);
            }
            if best_key == u64::MAX {
                proof {
                    if len > 0 {
                        lemma_first_min_idx(msp);
                        assert forall|j: int| 0 <= j < msp.len() implies (#[trigger] msp[j]).lines.len() == 0 by {
                            self.files()[j].lemma_lines_wf();
                            if msp[j].lines.len() > 0 {
                                lemma_packed_order(msp[j].lines[0], msp[j].lines[0], msp[j].tag,
                                    msp[j].tag);
                            }
                        }
                    }
                    assert(merged(msp) =~= Seq::<u8>::empty());
                    assert(dest.emitted() + merged(self.models()) =~= dest.emitted());
                }
                break ;
            }
            proof {
                assert(len > 0);
                lemma_first_min_idx(msp);
                assert(best == first_min_idx(msp));
                assert(stream_key(msp[best as int]) < u64::MAX as nat);
                assert(msp[best as int].lines.len() > 0);
                lemma_sum_len_at(msp, best as int);
            }
            let lb = self.0[best].peek_bytes();
            let line = match lb {
                Some(l) => l,
                None => {
                    proof {
                        assert(false);
                    }
                    Vec::new()
                },
            };
            proof {
                self.files()[best as int].lemma_lines_wf();
                assert(line@.len() == LINE_WIDTH_INCL_NEWLINE);
            }
            let wop = dest.write_bytes(line.as_slice());
            let ghost opspre = ops@;
            match wop {
                Some(op) => {
                    ops.push(op);
                    proof {
                        assert(ops@.drop_last() =~= opspre);
                        assert(ops@.last() == op);
                    }
                },
                None => {},
            }
            let mut f = self.0.remove(best);
            f.next();
            self.0.insert(best, f);
            proof {
                let msn = msp.update(best as int, pop_first(msp[best as int]));
                assert(self.files() =~= fsp.update(best as int, f));
                assert(self.models() =~= msn);
                assert(merged(msp) == msp[best as int].lines[0] + merged(msn));
                assert(dest.emitted() + merged(self.models()) =~= e0 + merged(ms0));
                lemma_sum_len_update(msp, best as int, pop_first(msp[best as int]));
            }
        }
        ops
    }
}

} // verus!
