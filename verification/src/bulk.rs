//! Batch reader: groups delimiter-separated records from a byte stream into
//! bounded batches.
//!
//! A record is the bytes up to and including the next delimiter occurrence;
//! when the stream ends without a trailing delimiter, the remaining bytes
//! form a final record with no delimiter.

use vstd::prelude::*;

verus! {

/// Position just past the record that starts at `pos`: one past the first
/// delimiter occurrence at or after `pos`, or the end of the stream when no
/// delimiter remains.
pub open spec fn record_end(data: Seq<u8>, pos: int, delim: u8) -> int
    decreases data.len() - pos,
    when 0 <= pos <= data.len()
{
    if pos >= data.len() {
        data.len() as int
    } else if data[pos] == delim {
        pos + 1
    } else {
        record_end(data, pos + 1, delim)
    }
}

pub proof fn lemma_record_end_bounds(data: Seq<u8>, pos: int, delim: u8)
    requires
        0 <= pos <= data.len(),
    ensures
        pos <= record_end(data, pos, delim) <= data.len(),
        pos < data.len() ==> pos < record_end(data, pos, delim),
    decreases data.len() - pos,
{
    if pos < data.len() && data[pos] != delim {
        lemma_record_end_bounds(data, pos + 1, delim);
    }
}

/// Scanning past delimiter-free bytes does not move the record boundary.
pub proof fn lemma_record_end_skip(data: Seq<u8>, pos: int, j: int, delim: u8)
    requires
        0 <= pos <= j <= data.len(),
        forall|k: int| pos <= k < j ==> data[k] != delim,
    ensures
        record_end(data, pos, delim) == record_end(data, j, delim),
    decreases j - pos,
{
    if pos < j {
        lemma_record_end_skip(data, pos + 1, j, delim);
    }
}

/// The records of `data` from `pos` on: each is the bytes up to and
/// including its delimiter, the last possibly undelimited.
pub open spec fn records_from(data: Seq<u8>, pos: int, delim: u8) -> Seq<Seq<u8>>
    decreases data.len() - pos,
    when 0 <= pos <= data.len()
{
    if pos >= data.len() {
        Seq::empty()
    } else {
        let end = record_end(data, pos, delim);
        if pos < end <= data.len() {
            seq![data.subrange(pos, end)] + records_from(data, end, delim)
        } else {
            Seq::empty()
        }
    }
}

/// One step of the record decomposition.
pub proof fn lemma_records_from_unfold(data: Seq<u8>, pos: int, delim: u8)
    requires
        0 <= pos < data.len(),
    ensures
        records_from(data, pos, delim) == seq![
            data.subrange(pos, record_end(data, pos, delim)),
        ] + records_from(data, record_end(data, pos, delim), delim),
{
    lemma_record_end_bounds(data, pos, delim);
}

proof fn lemma_record_end_prefix(data: Seq<u8>, pos: int, delim: u8)
    requires
        0 <= pos <= data.len(),
    ensures
        forall|k: int| pos <= k < record_end(data, pos, delim) - 1 ==> data[k] != delim,
    decreases data.len() - pos,
{
    if pos < data.len() && data[pos] != delim {
        lemma_record_end_prefix(data, pos + 1, delim);
        lemma_record_end_bounds(data, pos + 1, delim);
    }
}

/// Within a record, the delimiter can stand only as the final byte: record
/// boundaries consume the first delimiter occurrence.
pub proof fn lemma_record_delim_only_last(data: Seq<u8>, pos: int, delim: u8, i: int)
    requires
        0 <= pos <= data.len(),
        0 <= i < records_from(data, pos, delim).len(),
    ensures
        forall|j: int| 0 <= j < records_from(data, pos, delim)[i].len() - 1 ==> records_from(
            data,
            pos,
            delim,
        )[i][j] != delim,
    decreases data.len() - pos,
{
    let recs = records_from(data, pos, delim);
    assert(pos < data.len());
    lemma_records_from_unfold(data, pos, delim);
    lemma_record_end_bounds(data, pos, delim);
    let e = record_end(data, pos, delim);
    if i == 0 {
        lemma_record_end_prefix(data, pos, delim);
        assert(recs[0] == data.subrange(pos, e));
        assert forall|j: int| 0 <= j < recs[0].len() - 1 implies recs[0][j] != delim by {
            assert(recs[0][j] == data[pos + j]);
        }
    } else {
        lemma_record_delim_only_last(data, e, delim, i - 1);
        assert(recs[i] == records_from(data, e, delim)[i - 1]);
    }
}

/// The sizes of the successive batches that reading `k` records with batch
/// capacity `cap` produces: full batches of `cap` records, then a final
/// shorter one for the remainder.
pub open spec fn batch_sizes(k: nat, cap: nat) -> Seq<nat>
    decreases k,
    when cap >= 1
{
    if k == 0 {
        Seq::empty()
    } else if k <= cap {
        seq![k]
    } else {
        seq![cap] + batch_sizes((k - cap) as nat, cap)
    }
}

pub open spec fn seq_sum(s: Seq<nat>) -> nat
    decreases s.len(),
{
    if s.len() == 0 {
        0
    } else {
        s[0] + seq_sum(s.skip(1))
    }
}

/// Round-trip count: a stream of `k` records read with batch capacity `cap`
/// comes back as exactly `ceil(k / cap)` batches, and the batch sizes sum
/// back to `k`.
pub proof fn lemma_round_trip_count(k: nat, cap: nat)
    requires
        cap >= 1,
    ensures
        batch_sizes(k, cap).len() == (k + cap - 1) / (cap as int),
        seq_sum(batch_sizes(k, cap)) == k,
    decreases k,
{
    if k == 0 {
        vstd::arithmetic::div_mod::lemma_basic_div(cap - 1, cap as int);
    } else if k <= cap {
        vstd::arithmetic::div_mod::lemma_div_plus_one(k - 1, cap as int);
        vstd::arithmetic::div_mod::lemma_basic_div((k - 1) as int, cap as int);
        assert((k - 1) as int / (cap as int) == 0);
        assert(seq![k].skip(1) =~= Seq::<nat>::empty());
        assert(batch_sizes(k, cap) == seq![k]);
        assert(seq_sum(seq![k]) == k + seq_sum(seq![k].skip(1)));
        assert(seq_sum(batch_sizes(k, cap)) == k);
    } else {
        lemma_round_trip_count((k - cap) as nat, cap);
        vstd::arithmetic::div_mod::lemma_div_plus_one((k - 1) as int, cap as int);
        assert((seq![cap] + batch_sizes((k - cap) as nat, cap)).skip(1) =~= batch_sizes(
            (k - cap) as nat,
            cap,
        ));
        let s = seq![cap] + batch_sizes((k - cap) as nat, cap);
        assert(batch_sizes(k, cap) == s);
        assert(s[0] == cap);
        assert(seq_sum(s) == cap + seq_sum(s.skip(1)));
        assert(seq_sum(batch_sizes(k, cap)) == k);
    }
}

/// Groups records pulled from an in-memory byte stream into batches of at
/// most `size` records (a size of zero acts as one).
pub struct BulkReader {
    data: Vec<u8>,
    pos: usize,
    size: usize,
}

impl BulkReader {
    /// The byte stream this reader consumes.
    pub closed spec fn stream(&self) -> Seq<u8> {
        self.data@
    }

    /// How many leading bytes of the stream have been consumed.
    pub closed spec fn cursor(&self) -> int {
        self.pos as int
    }

    /// Records per batch; a configured size of zero still yields one record
    /// per read.
    pub closed spec fn capacity(&self) -> int {
        if self.size == 0 {
            1
        } else {
            self.size as int
        }
    }

    pub closed spec fn wf(&self) -> bool {
        self.pos <= self.data@.len()
    }

    pub fn new(data: Vec<u8>, size: usize) -> (r: BulkReader)
        ensures
            r.wf(),
            r.stream() == data@,
            r.cursor() == 0,
            r.capacity() == if size == 0 { 1int } else { size as int },
    {
        BulkReader { data, pos: 0, size }
    }

    /// Pull the next batch: up to `capacity` records, each split off at the
    /// next occurrence of `byte`.  A count of zero signals the end of the
    /// stream.
    pub fn read(&mut self, byte: u8) -> (r: (Vec<Vec<u8>>, usize))
        requires
            old(self).wf(),
        ensures
            final(self).wf(),
            final(self).stream() == old(self).stream(),
            final(self).capacity() == old(self).capacity(),
            old(self).cursor() <= final(self).cursor() <= final(self).stream().len(),
            ({
                let recs = records_from(old(self).stream(), old(self).cursor(), byte);
                let k = if recs.len() <= old(self).capacity() {
                    recs.len() as int
                } else {
                    old(self).capacity()
                };
                r.1 == k && r.0.deep_view() == recs.take(k) && records_from(
                    final(self).stream(),
                    final(self).cursor(),
                    byte,
                ) == recs.skip(k)
            }),
            r.1 == 0 <==> final(self).cursor() == old(self).cursor(),
            r.1 == 0 <==> old(self).cursor() == old(self).stream().len(),
    {
        let ghost pos0 = self.pos as int;
        let ghost recs = records_from(self.data@, pos0, byte);
        let cap: usize = if self.size == 0 {
            1
        } else {
            self.size
        };
        let mut bulk: Vec<Vec<u8>> = Vec::new();
        let mut cnt: usize = 0;
        while cnt < cap && self.pos < self.data.len()
            invariant
                self.wf(),
                self.data@ == old(self).data@,
                self.size == old(self).size,
                cap == old(self).capacity(),
                pos0 == old(self).cursor(),
                pos0 <= self.pos as int <= self.data@.len(),
                cnt <= cap,
                cnt as int <= recs.len(),
                recs == records_from(self.data@, pos0, byte),
                bulk.deep_view() == recs.take(cnt as int),
                records_from(self.data@, self.pos as int, byte) == recs.skip(cnt as int),
                cnt == 0 <==> self.pos as int == pos0,
            decreases cap - cnt,
        {
            let ghost posb = self.pos as int;
            let ghost cnt0 = cnt as int;
            // scan for the next delimiter
            let mut j: usize = self.pos;
            while j < self.data.len() && self.data[j] != byte
                invariant
                    self.pos <= j,
                    j <= self.data@.len(),
                    forall|k: int| self.pos as int <= k < j as int ==> self.data@[k] != byte,
                decreases self.data@.len() - j,
            {
                j = j + 1;
            }
            let end: usize = if j < self.data.len() {
                j + 1
            } else {
                j
            };
            proof {
                lemma_record_end_skip(self.data@, posb, j as int, byte);
                assert(record_end(self.data@, posb, byte) == end as int);
            }
            // copy the record, delimiter included
            let mut buf: Vec<u8> = Vec::new();
            let mut k: usize = self.pos;
            while k < end
                invariant
                    self.pos <= k <= end,
                    end <= self.data@.len(),
                    buf@ == self.data@.subrange(self.pos as int, k as int),
                decreases end - k,
            {
                buf.push(self.data[k]);
                proof {
                    assert(self.data@.subrange(self.pos as int, k + 1 as int) =~= self.data@
                        .subrange(self.pos as int, k as int).push(self.data@[k as int]));
                }
                k = k + 1;
            }
            self.pos = end;
            proof {
                lemma_records_from_unfold(self.data@, posb, byte);
                assert(recs.skip(cnt0) == seq![buf@] + records_from(self.data@, end as int, byte));
                assert(recs.skip(cnt0).len() >= 1);
                assert(cnt0 + 1 <= recs.len());
                assert(recs.skip(cnt0).skip(1) =~= recs.skip(cnt0 + 1));
                assert((seq![buf@] + records_from(self.data@, end as int, byte)).skip(1)
                    =~= records_from(self.data@, end as int, byte));
                assert(recs.skip(cnt0 + 1) == records_from(self.data@, end as int, byte));
                assert(recs.skip(cnt0)[0] == buf@);
                assert(recs[cnt0] == buf@);
                assert(recs.take(cnt0 + 1) =~= recs.take(cnt0).push(recs[cnt0]));
            }
            let ghost prev = bulk.deep_view();
            let ghost bufv = buf@;
            bulk.push(buf);
            cnt = cnt + 1;
            proof {
                assert(bulk@.len() == cnt0 + 1);
                assert forall|i: int| 0 <= i < cnt0 + 1 implies #[trigger] bulk.deep_view()[i]
                    == recs.take(cnt0 + 1)[i] by {
                    if i < cnt0 {
                        assert(bulk.deep_view()[i] == prev[i]);
                        assert(prev[i] == recs.take(cnt0)[i]);
                    } else {
                        assert(bulk.deep_view()[i] =~= bufv);
                    }
                }
                assert(bulk.deep_view() =~= recs.take(cnt as int));
            }
        }
        proof {
            if self.pos == self.data@.len() && cnt < cap {
                assert(records_from(self.data@, self.pos as int, byte) =~= Seq::<Seq<u8>>::empty());
                assert(recs.skip(cnt as int).len() == 0);
            }
            let k = if recs.len() <= old(self).capacity() {
                recs.len() as int
            } else {
                old(self).capacity()
            };
            assert(cnt as int == k);
        }
        (bulk, cnt)
    }

    /// Read batches until the stream is exhausted.  The batches concatenate
    /// back to the remaining records in order, and their sizes are exactly
    /// `batch_sizes`, so there are `ceil(k / capacity)` of them.
    pub fn read_all(&mut self, byte: u8) -> (r: Vec<Vec<Vec<u8>>>)
        requires
            old(self).wf(),
        ensures
            final(self).wf(),
            ({
                let recs = records_from(old(self).stream(), old(self).cursor(), byte);
                r.deep_view().flatten() == recs && r.deep_view().map_values(
                    |b: Seq<Seq<u8>>| b.len(),
                ) == batch_sizes(recs.len(), old(self).capacity() as nat)
            }),
    {
        let ghost recs = records_from(self.data@, self.pos as int, byte);
        let ghost cap = self.capacity() as nat;
        let mut out: Vec<Vec<Vec<u8>>> = Vec::new();
        proof {
            assert(out.deep_view() =~= Seq::<Seq<Seq<u8>>>::empty());
        }
        while self.pos < self.data.len()
            invariant
                self.wf(),
                self.data@ == old(self).data@,
                cap == self.capacity() as nat,
                cap >= 1,
                recs == records_from(old(self).stream(), old(self).cursor(), byte),
                out.deep_view().flatten() + records_from(self.data@, self.pos as int, byte)
                    == recs,
                out.deep_view().map_values(|b: Seq<Seq<u8>>| b.len()) + batch_sizes(
                    records_from(self.data@, self.pos as int, byte).len(),
                    cap,
                ) == batch_sizes(recs.len(), cap),
            decreases self.data@.len() - self.pos,
        {
            let ghost rem = records_from(self.data@, self.pos as int, byte);
            let ghost dv0 = out.deep_view();
            let (bulk, cnt) = self.read(byte);
            let ghost bv = bulk.deep_view();
            out.push(bulk);
            proof {
                let k = if rem.len() <= cap { rem.len() as int } else { cap as int };
                assert(cnt as int == k);
                assert(k >= 1);
                assert(out.deep_view() =~= dv0.push(bv));
                dv0.lemma_flatten_push(bv);
                assert((dv0.flatten() + bv) + rem.skip(k) =~= dv0.flatten() + (bv + rem.skip(k)));
                assert(bv + rem.skip(k) =~= rem);
                assert(out.deep_view().map_values(|b: Seq<Seq<u8>>| b.len()) =~= dv0.map_values(
                    |b: Seq<Seq<u8>>| b.len(),
                ).push((rem.len() - rem.skip(k).len()) as nat));
                assert(batch_sizes(rem.len(), cap) == seq![(k as nat)] + batch_sizes(
                    rem.skip(k).len(),
                    cap,
                ));
                assert(dv0.map_values(|b: Seq<Seq<u8>>| b.len()).push((k as nat)) + batch_sizes(
                    rem.skip(k).len(),
                    cap,
                ) =~= dv0.map_values(|b: Seq<Seq<u8>>| b.len()) + batch_sizes(rem.len(), cap));
            }
        }
        proof {
            assert(records_from(self.data@, self.pos as int, byte) =~= Seq::<Seq<u8>>::empty());
            assert(out.deep_view().flatten() + Seq::<Seq<u8>>::empty() =~= out.deep_view()
                .flatten());
            assert(out.deep_view().map_values(|b: Seq<Seq<u8>>| b.len()) + Seq::<nat>::empty()
                =~= out.deep_view().map_values(|b: Seq<Seq<u8>>| b.len()));
        }
        out
    }
}

} // verus!
