//! The file being downloaded: its blocks are kept one file each under
//! `.down/`, named by the offset at which the block starts, and joined in the
//! order of their offsets once every block is in.
use vstd::prelude::*;
use vstd::string::*;

use crate::block_range_iter::chunks;
use crate::text::{decimal, parse_u64, parse_u64_str, push_decimal};

verus! {

broadcast use vstd::seq_lib::group_to_multiset_ensures;

/// The target file of a download and its expected size.
#[derive(Debug)]
pub struct Dowloadfile<'a> {
    file_name: &'a str,
    wote_size: u64,
    file_size: u64,
}

/// `s[lo..hi]` is in ascending order.
pub open spec fn sorted_between(s: Seq<u64>, lo: int, hi: int) -> bool {
    forall|a: int, b: int| lo <= a < b < hi ==> #[trigger] s[a] <= #[trigger] s[b]
}

/// `s` is in ascending order.
pub open spec fn sorted(s: Seq<u64>) -> bool {
    sorted_between(s, 0, s.len() as int)
}

/// What the block names `names` read as, where each reads as a number.
pub open spec fn offsets_of(names: Seq<String>) -> Seq<u64> {
    names.map_values(|n: String| parse_u64(n@).unwrap())
}

/// Every one of `names` reads as a number.
pub open spec fn all_offsets(names: Seq<String>) -> bool {
    forall|i: int| 0 <= i < names.len() ==> (#[trigger] parse_u64(names[i]@)) is Some
}

/// The path of the block that begins at `offset`.
pub open spec fn chunk_path_of(offset: u64) -> Seq<char> {
    ".down/"@ + decimal(offset as nat)
}

proof fn lemma_swap_multiset(s: Seq<u64>, i: int, j: int)
    requires
        0 <= i < s.len(),
        0 <= j < s.len(),
    ensures
        s.update(i, s[j]).update(j, s[i]).to_multiset() == s.to_multiset(),
{
    broadcast use vstd::multiset::group_multiset_axioms;

    let s1 = s.update(i, s[j]);
    assert(s1[j] == s[j] || i == j);
    if i == j {
        assert(s.update(i, s[j]).update(j, s[i]) =~= s);
    } else {
        assert(s1.to_multiset() == s.to_multiset().insert(s[j]).remove(s[i]));
        assert(s1.update(j, s[i]).to_multiset() == s1.to_multiset().insert(s[i]).remove(s[j]));
        assert(s.to_multiset().insert(s[j]).remove(s[i]).insert(s[i]).remove(s[j])
            =~= s.to_multiset());
    }
}

impl<'a> Dowloadfile<'a> {
    pub closed spec fn spec_file_name(&self) -> Seq<char> {
        self.file_name@
    }

    pub closed spec fn spec_file_size(&self) -> u64 {
        self.file_size
    }

    pub closed spec fn spec_wote_size(&self) -> u64 {
        self.wote_size
    }

    /// A download of `fsize` bytes into `file_name`, nothing written yet.
    pub fn new<'b>(file_name: &'b str, fsize: u64) -> (r: Box<Dowloadfile<'b>>)
        ensures
            r.spec_file_name() == file_name@,
            r.spec_file_size() == fsize,
            r.spec_wote_size() == 0,
    {
        Box::new(Dowloadfile { file_name, wote_size: 0, file_size: fsize })
    }

    /// The name of the target file.
    pub fn file_name(&self) -> (r: &'a str)
        ensures
            r@ == self.spec_file_name(),
    {
        self.file_name
    }

    /// The expected size of the target file.
    pub fn file_size(&self) -> (r: u64)
        ensures
            r == self.spec_file_size(),
    {
        self.file_size
    }

    /// The number of bytes recorded as written.
    pub fn wote_size(&self) -> (r: u64)
        ensures
            r == self.spec_wote_size(),
    {
        self.wote_size
    }

    /// The path under which the block that begins at `offset` is kept:
    /// `.down/<offset>`.
    pub fn chunk_path(offset: u64) -> (r: String)
        ensures
            r@ == chunk_path_of(offset),
    {
        let mut p = String::new();
        p.append(".down/");
        push_decimal(&mut p, offset);
        p
    }

    /// The offsets that the block names `names` stand for, in ascending
    /// order; `None` where a name is not a number.
    pub fn merge_order(names: &Vec<String>) -> (r: Option<Vec<u64>>)
        ensures
            r is Some <==> all_offsets(names@),
            r matches Some(v) ==> sorted(v@) && v@.to_multiset() == offsets_of(
                names@,
            ).to_multiset(),
    {
        let mut offsets: Vec<u64> = Vec::new();
        let mut i: usize = 0;
        while i < names.len()
            invariant
                i <= names.len(),
                offsets@ == offsets_of(names@).take(i as int),
                forall|k: int| 0 <= k < i ==> (#[trigger] parse_u64(names@[k]@)) is Some,
            decreases names.len() - i,
        {
            match parse_u64_str(names[i].as_str()) {
                Some(o) => {
                    offsets.push(o);
                    assert(offsets@ =~= offsets_of(names@).take(i + 1));
                },
                None => {
                    return None;
                },
            }
            i = i + 1;
        }
        assert(offsets_of(names@).take(i as int) =~= offsets_of(names@));
        Dowloadfile::insert_sort(&mut offsets);
        Some(offsets)
    }

    /// Sorts `vectors` in place, in ascending order, by insertion.
    pub fn insert_sort(vectors: &mut Vec<u64>) -> (r: &Vec<u64>)
        ensures
            sorted(final(vectors)@),
            final(vectors)@.to_multiset() == old(vectors)@.to_multiset(),
            r@ == final(vectors)@,
    {
        let len = vectors.len();
        let ghost orig = vectors@;
        if len == 0 {
            return vectors;
        }
        let mut i: usize = 1;
        while i < len
            invariant
                1 <= i <= len,
                len == vectors.len(),
                sorted_between(vectors@, 0, i as int),
                vectors@.to_multiset() == orig.to_multiset(),
            decreases len - i,
        {
            let current = vectors[i];
            let mut j: usize = i - 1;
            loop
                invariant_except_break
                    j < i < len,
                    len == vectors.len(),
                    vectors@[j + 1] == current,
                    sorted_between(vectors@, 0, j + 1),
                    sorted_between(vectors@, j + 2, i + 1),
                    forall|b: int| j + 2 <= b <= i ==> current < #[trigger] vectors@[b],
                    forall|a: int, b: int|
                        0 <= a <= j && j + 2 <= b <= i ==> #[trigger] vectors@[a]
                            <= #[trigger] vectors@[b],
                    vectors@.to_multiset() == orig.to_multiset(),
                ensures
                    len == vectors.len(),
                    sorted_between(vectors@, 0, i + 1),
                    vectors@.to_multiset() == orig.to_multiset(),
                decreases j,
            {
                if !(current < vectors[j]) {
                    assert(sorted_between(vectors@, 0, i + 1)) by {
                        assert forall|a: int, b: int| 0 <= a < b < i + 1 implies #[trigger] vectors@[a]
                            <= #[trigger] vectors@[b] by {
                            if b == j + 1 && a < j {
                                assert(vectors@[a] <= vectors@[j as int]);
                            }
                        }
                    }
                    break ;
                }
                let ghost before = vectors@;
                let middle = vectors[j + 1];
                let moved = vectors[j];
                vectors.set(j + 1, moved);
                vectors.set(j, middle);
                proof {
                    lemma_swap_multiset(before, j + 1, j as int);
                    assert(vectors@ == before.update(j + 1, before[j as int]).update(
                        j as int,
                        before[j + 1],
                    ));
                }
                if j > 0 {
                    assert forall|b: int| j + 1 <= b <= i implies current < #[trigger] vectors@[b] by {
                        if b > j + 1 {
                            assert(vectors@[b] == before[b]);
                        }
                    }
                    assert forall|a: int, b: int|
                        0 <= a <= j - 1 && j + 1 <= b <= i implies #[trigger] vectors@[a]
                        <= #[trigger] vectors@[b] by {
                        assert(before[a] <= before[j as int]);
                        if b > j + 1 {
                            assert(before[j as int] <= before[b]);
                        }
                    }
                    assert(sorted_between(vectors@, j + 1, i + 1)) by {
                        assert forall|a: int, b: int| j + 1 <= a < b < i + 1 implies #[trigger] vectors@[a]
                            <= #[trigger] vectors@[b] by {
                            if a == j + 1 {
                                assert(before[j as int] <= before[b]);
                            }
                        }
                    }
                    j = j - 1;
                } else {
                    assert(sorted_between(vectors@, 0, i + 1)) by {
                        assert forall|a: int, b: int| 0 <= a < b < i + 1 implies #[trigger] vectors@[a]
                            <= #[trigger] vectors@[b] by {
                            if a == 0 {
                                if b > 1 {
                                    assert(current < before[b]);
                                }
                            } else if a == 1 {
                                assert(before[0] <= before[b]);
                            }
                        }
                    }
                    break ;
                }
            }
            i = i + 1;
        }
        vectors
    }
}

/// The offsets at which the blocks of `[start, end]` begin, in the order in
/// which they are cut.
pub open spec fn block_starts(start: int, end: int, buf: int) -> Seq<u64> {
    chunks(start, end, buf).map_values(|c: (int, int)| c.0 as u64)
}

proof fn lemma_chunk_starts_increase(start: int, end: int, buf: int)
    requires
        buf > 0,
    ensures
        ({
            let c = chunks(start, end, buf);
            &&& forall|i: int| 0 <= i < c.len() ==> start <= #[trigger] c[i].0 <= end
            &&& forall|i: int, j: int| 0 <= i < j < c.len() ==> #[trigger] c[i].0 < #[trigger] c[j].0
        }),
    decreases end - start + 1,
{
    if start <= end {
        let next = start + crate::block_range_iter::block_len(start, end, buf);
        lemma_chunk_starts_increase(next, end, buf);
        let c = chunks(start, end, buf);
        let rest = chunks(next, end, buf);
        assert(c == seq![(start, next - 1)] + rest);
        assert forall|i: int| 0 <= i < c.len() implies start <= #[trigger] c[i].0 <= end by {
            if i > 0 {
                assert(c[i] == rest[i - 1]);
            }
        }
        assert forall|i: int, j: int| 0 <= i < j < c.len() implies #[trigger] c[i].0
            < #[trigger] c[j].0 by {
            assert(c[j] == rest[j - 1]);
            if i > 0 {
                assert(c[i] == rest[i - 1]);
            }
        }
    }
}

/// Law: the blocks of `[start, end]` are joined in the order in which they
/// were cut. Whatever order their offsets are found in, the ascending
/// arrangement that `merge_order` returns is the sequence of block starts.
pub proof fn lemma_join_order_is_block_order(start: u64, end: u64, buf: u32, order: Seq<u64>)
    requires
        buf > 0,
        sorted(order),
        order.to_multiset() == block_starts(start as int, end as int, buf as int).to_multiset(),
    ensures
        order == block_starts(start as int, end as int, buf as int),
{
    let s = block_starts(start as int, end as int, buf as int);
    let c = chunks(start as int, end as int, buf as int);
    lemma_chunk_starts_increase(start as int, end as int, buf as int);
    let leq = |a: u64, b: u64| a <= b;
    assert(vstd::relations::total_ordering(leq));
    assert forall|i: int, j: int| 0 <= i < j < s.len() implies #[trigger] leq(s[i], s[j]) by {
        assert(c[i].0 < c[j].0);
    }
    assert forall|i: int, j: int| 0 <= i < j < order.len() implies #[trigger] leq(
        order[i],
        order[j],
    ) by {
        assert(order[i] <= order[j]);
    }
    vstd::seq_lib::lemma_sorted_unique(order, s, leq);
}

/// Law: a block kept under the name of its offset is read back, from that
/// name, as the same offset.
pub proof fn lemma_chunk_name_round_trip(offset: u64)
    ensures
        parse_u64(decimal(offset as nat)) == Some(offset),
        chunk_path_of(offset) == ".down/"@ + decimal(offset as nat),
{
    crate::text::lemma_decimal_round_trip(offset);
}

} // verus!
