//! Cutting an inclusive byte interval into consecutive blocks of a bounded
//! size, each with the `Range` header value that asks a server for it.
use vstd::prelude::*;
use vstd::string::*;

use crate::text::{decimal, push_decimal};

verus! {

/// One block: its first byte, and the header value `bytes=<first>-<last>`.
#[derive(Debug)]
pub struct Range {
    pub prev_size: u64,
    pub range_str: String,
}

/// Walks the blocks of the inclusive interval `[start, end]`, at most
/// `buffer_size` bytes each.
pub struct BlockRangeIter {
    start: u64,
    end: u64,
    buffer_size: u32,
}

/// The size of the block that begins at `start`.
pub open spec fn block_len(start: int, end: int, buf: int) -> int {
    if buf < end - start + 1 {
        buf
    } else {
        end - start + 1
    }
}

/// The blocks, first and last byte of each, that cover `[start, end]` in
/// order, every one `buf` bytes long but the last.
pub open spec fn chunks(start: int, end: int, buf: int) -> Seq<(int, int)>
    decreases end - start + 1,
{
    if start > end || buf <= 0 {
        seq![]
    } else {
        let next = start + block_len(start, end, buf);
        seq![(start, next - 1)] + chunks(next, end, buf)
    }
}

/// The header value that asks for the bytes `first` to `last`.
pub open spec fn range_header(first: nat, last: nat) -> Seq<char> {
    "bytes="@ + decimal(first) + "-"@ + decimal(last)
}

/// `r` is the block `c`.
pub open spec fn describes(r: Range, c: (int, int)) -> bool {
    &&& r.prev_size == c.0
    &&& c.0 <= c.1
    &&& r.range_str@ == range_header(c.0 as nat, c.1 as nat)
}

/// The next block can be cut without leaving the range of `u64`.
pub open spec fn step_fits(v: (u64, u64, u32)) -> bool {
    v.0 > v.1 || (v.1 - v.0 < u64::MAX && v.0 + block_len(v.0 as int, v.1 as int, v.2 as int)
        <= u64::MAX)
}

impl View for BlockRangeIter {
    type V = (u64, u64, u32);

    closed spec fn view(&self) -> (u64, u64, u32) {
        (self.start, self.end, self.buffer_size)
    }
}

impl BlockRangeIter {
    #[verifier::type_invariant]
    spec fn wf(self) -> bool {
        self.buffer_size > 0
    }

    /// The blocks still to come.
    pub open spec fn remaining(&self) -> Seq<(int, int)> {
        chunks(self@.0 as int, self@.1 as int, self@.2 as int)
    }

    /// Starts at `start`; refuses a block size of zero.
    pub fn new(start: u64, end: u64, buffer_size: u32) -> (r: Result<Self, &'static str>)
        ensures
            r is Err <==> buffer_size == 0,
            r matches Err(e) ==> e@ == "无效"@,
            r matches Ok(it) ==> it@ == (start, end, buffer_size),
    {
        if buffer_size == 0 {
            return Err("无效");
        }
        Ok(BlockRangeIter { start, end, buffer_size })
    }

    /// The next block, or `None` once the interval is covered.
    pub fn next(&mut self) -> (r: Option<Range>)
        requires
            step_fits(old(self)@),
        ensures
            final(self)@.1 == old(self)@.1,
            final(self)@.2 == old(self)@.2,
            old(self).remaining().len() == 0 ==> r is None && final(self)@ == old(self)@,
            old(self).remaining().len() > 0 ==> (r matches Some(range) && describes(
                range,
                old(self).remaining()[0],
            ) && final(self).remaining() == old(self).remaining().drop_first()),
    {
        proof {
            use_type_invariant(&*self);
        }
        if self.start > self.end {
            return None;
        }
        let prev_start = self.start;
        let left = self.end - self.start + 1;
        let block = if (self.buffer_size as u64) < left {
            self.buffer_size as u64
        } else {
            left
        };
        self.start = self.start + block;
        let last = self.start - 1;
        let mut header = String::new();
        header.append("bytes=");
        push_decimal(&mut header, prev_start);
        header.append("-");
        push_decimal(&mut header, last);
        assert(header@ =~= range_header(prev_start as nat, last as nat));
        Some(Range { prev_size: prev_start, range_str: header })
    }
}

/// Every block of `[start, end]`, in order; refuses a block size of zero.
pub fn get_range(start: u64, end: u64, buffer_size: u32) -> (r: Result<Vec<Range>, &'static str>)
    requires
        buffer_size == 0 || start > end || end < u64::MAX,
    ensures
        r is Err <==> buffer_size == 0,
        r matches Err(e) ==> e@ == "无效"@,
        r matches Ok(v) ==> {
            let c = chunks(start as int, end as int, buffer_size as int);
            &&& v.len() == c.len()
            &&& forall|i: int| 0 <= i < c.len() ==> describes(#[trigger] v[i], c[i])
        },
{
    if buffer_size == 0 {
        return Err("无效");
    }
    let mut it = BlockRangeIter::new(start, end, buffer_size)?;
    let ghost all = chunks(start as int, end as int, buffer_size as int);
    let mut out: Vec<Range> = Vec::new();
    loop
        invariant
            it@.1 == end,
            it@.2 == buffer_size,
            buffer_size > 0,
            start > end || end < u64::MAX,
            start > end ==> it@.0 > it@.1,
            all == chunks(start as int, end as int, buffer_size as int),
            out.len() + it.remaining().len() == all.len(),
            it.remaining() == all.skip(out.len() as int),
            forall|i: int| 0 <= i < out.len() ==> describes(#[trigger] out[i], all[i]),
        ensures
            out.len() == all.len(),
            forall|i: int| 0 <= i < out.len() ==> describes(#[trigger] out[i], all[i]),
        decreases it.remaining().len(),
    {
        let ghost before = it.remaining();
        match it.next() {
            Some(range) => {
                assert(before[0] == all[out.len() as int]);
                out.push(range);
                assert(it.remaining() =~= all.skip(out.len() as int));
            },
            None => {
                break ;
            },
        }
    }
    Ok(out)
}

/// Law: the blocks tile `[start, end]`. The first begins at `start`, the last
/// ends at `end`, each begins right after the one before it ends, and each is
/// `buf` bytes long but the last, which is no longer.
pub proof fn lemma_chunks_tile(start: int, end: int, buf: int)
    requires
        buf > 0,
        start <= end,
    ensures
        ({
            let c = chunks(start, end, buf);
            &&& c.len() > 0
            &&& c[0].0 == start
            &&& c[c.len() - 1].1 == end
            &&& forall|k: int| 0 <= k < c.len() ==> #[trigger] c[k].0 <= c[k].1 && c[k].1 - c[k].0 < buf
            &&& forall|k: int|
                0 <= k < c.len() - 1 ==> #[trigger] c[k].1 + 1 == c[k + 1].0 && c[k].1 - c[k].0 + 1
                    == buf
        }),
    decreases end - start,
{
    let c = chunks(start, end, buf);
    let next = start + block_len(start, end, buf);
    if next > end {
        assert(chunks(next, end, buf) =~= Seq::<(int, int)>::empty());
        assert(c =~= seq![(start, end)]);
    } else {
        lemma_chunks_tile(next, end, buf);
        let rest = chunks(next, end, buf);
        assert(c == seq![(start, next - 1)] + rest);
        assert forall|k: int| 0 <= k < c.len() implies #[trigger] c[k].0 <= c[k].1 && c[k].1 - c[k].0
            < buf by {
            if k > 0 {
                assert(c[k] == rest[k - 1]);
            }
        }
        assert forall|k: int| 0 <= k < c.len() - 1 implies #[trigger] c[k].1 + 1 == c[k + 1].0
            && c[k].1 - c[k].0 + 1 == buf by {
            assert(c[k + 1] == rest[k]);
            if k > 0 {
                assert(c[k] == rest[k - 1]);
            }
        }
    }
}

/// Law: the blocks in closed form. Cutting `[start, end]` into blocks of
/// `buf` gives `(end - start) / buf + 1` blocks, and block `k` runs from
/// `start + k * buf` to `start + k * buf + buf - 1`, or to `end` where that is
/// sooner. These are the blocks that successive calls of
/// `BlockRangeIter::next` return, and that `get_range` collects.
pub proof fn lemma_chunks_closed_form(start: int, end: int, buf: int)
    requires
        buf > 0,
        start <= end,
    ensures
        chunks(start, end, buf).len() == (end - start) / buf + 1,
        forall|k: int|
            0 <= k < chunks(start, end, buf).len() ==> #[trigger] chunks(start, end, buf)[k] == (
                start + k * buf,
                if start + k * buf + buf - 1 < end {
                    start + k * buf + buf - 1
                } else {
                    end
                },
            ),
    decreases end - start,
{
    let c = chunks(start, end, buf);
    let next = start + block_len(start, end, buf);
    if next > end {
        assert(chunks(next, end, buf) =~= Seq::<(int, int)>::empty());
        assert(c =~= seq![(start, end)]);
        assert((end - start) / buf == 0) by (nonlinear_arith)
            requires
                0 <= end - start < buf,
        ;
        assert(c[0] == (start + 0 * buf, end));
    } else {
        assert(next == start + buf);
        lemma_chunks_closed_form(next, end, buf);
        let rest = chunks(next, end, buf);
        assert(c == seq![(start, next - 1)] + rest);
        assert((end - next) / buf + 1 == (end - start) / buf) by (nonlinear_arith)
            requires
                next == start + buf,
                next <= end,
                buf > 0,
        ;
        assert forall|k: int| 0 <= k < c.len() implies #[trigger] c[k] == (
            start + k * buf,
            if start + k * buf + buf - 1 < end {
                start + k * buf + buf - 1
            } else {
                end
            },
        ) by {
            if k == 0 {
                assert(0 * buf == 0);
            } else {
                assert(c[k] == rest[k - 1]);
                assert(next + (k - 1) * buf == start + k * buf) by (nonlinear_arith)
                    requires
                        next == start + buf,
                ;
            }
        }
    }
}

} // verus!
