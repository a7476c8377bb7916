//! The chunking engine: exact partitioning of a byte sequence into parts of
//! a fixed maximum size, and reassembly of parts by concatenation.
//!
//! The part cap is a hard limit: a part never exceeds the cap, every part
//! except the last is exactly the cap, and the last part holds whatever
//! remains (never empty). An empty source yields zero parts. Concatenating
//! the parts in order reproduces the source byte-for-byte.

use vstd::prelude::*;
use crate::PartError;

verus! {

use vstd::arithmetic::div_mod::lemma_fundamental_div_mod_converse;

/// The byte sequences a vector of in-memory parts holds, part by part.
pub open spec fn part_views(parts: Seq<Vec<u8>>) -> Seq<Seq<u8>> {
    Seq::new(parts.len(), |i: int| parts[i]@)
}

/// The concatenation of a sequence of parts, in order.
pub open spec fn concat_all(parts: Seq<Seq<u8>>) -> Seq<u8>
    decreases parts.len(),
{
    if parts.len() == 0 {
        Seq::empty()
    } else {
        parts.first() + concat_all(parts.drop_first())
    }
}

/// The sum of the part lengths: the total byte count a reassembly processes.
pub open spec fn total_len(parts: Seq<Seq<u8>>) -> nat
    decreases parts.len(),
{
    if parts.len() == 0 {
        0
    } else {
        parts.first().len() + total_len(parts.drop_first())
    }
}

/// The exact split of `data` at part cap `cap`: the first `cap` bytes form a
/// part, and the rest is split in the same way. A source of at most `cap`
/// bytes is a single part; an empty source has no parts.
pub open spec fn spec_split(data: Seq<u8>, cap: nat) -> Seq<Seq<u8>>
    recommends
        cap > 0,
    decreases data.len(),
{
    if data.len() == 0 {
        Seq::empty()
    } else if data.len() <= cap || cap == 0 {
        // the `cap == 0` disjunct only bounds the recursion; callers
        // always pass a positive cap
        seq![data]
    } else {
        seq![data.take(cap as int)] + spec_split(data.skip(cap as int), cap)
    }
}

/// Concatenation distributes over appending part sequences.
pub proof fn lemma_concat_all_append(a: Seq<Seq<u8>>, b: Seq<Seq<u8>>)
    ensures
        concat_all(a + b) == concat_all(a) + concat_all(b),
    decreases a.len(),
{
    if a.len() == 0 {
        assert(a + b =~= b);
        assert(concat_all(a) + concat_all(b) =~= concat_all(b));
    } else {
        assert((a + b).drop_first() =~= a.drop_first() + b);
        lemma_concat_all_append(a.drop_first(), b);
        assert(concat_all(a + b) =~= concat_all(a) + concat_all(b));
    }
}

/// Concatenating one more part appends its bytes.
pub proof fn lemma_concat_all_push(parts: Seq<Seq<u8>>, p: Seq<u8>)
    ensures
        concat_all(parts.push(p)) == concat_all(parts) + p,
{
    assert(parts.push(p) =~= parts + seq![p]);
    lemma_concat_all_append(parts, seq![p]);
    assert(seq![p].drop_first() =~= Seq::<Seq<u8>>::empty());
    assert(concat_all(Seq::<Seq<u8>>::empty()) == Seq::<u8>::empty());
    assert(concat_all(seq![p]) =~= p);
}

/// Round trip: reassembling the exact split of any byte sequence, at any
/// positive part cap, reproduces the sequence bit-for-bit, same length.
pub proof fn lemma_round_trip(data: Seq<u8>, cap: nat)
    requires
        cap > 0,
    ensures
        concat_all(spec_split(data, cap)) == data,
    decreases data.len(),
{
    if data.len() == 0 {
    } else if data.len() <= cap {
        assert(seq![data].drop_first() =~= Seq::<Seq<u8>>::empty());
        assert(concat_all(Seq::<Seq<u8>>::empty()) == Seq::<u8>::empty());
        assert(concat_all(spec_split(data, cap)) =~= data);
    } else {
        lemma_round_trip(data.skip(cap as int), cap);
        lemma_concat_all_append(seq![data.take(cap as int)], spec_split(data.skip(cap as int), cap));
        assert(seq![data.take(cap as int)].drop_first() =~= Seq::<Seq<u8>>::empty());
        assert(concat_all(Seq::<Seq<u8>>::empty()) == Seq::<u8>::empty());
        assert(concat_all(seq![data.take(cap as int)]) =~= data.take(cap as int));
        assert(data.take(cap as int) + data.skip(cap as int) =~= data);
    }
}

/// Part cap: every part of an exact split except the last is exactly the
/// cap; the last part is never empty and never exceeds the cap; and the
/// part count is the least number of cap-sized parts that covers the
/// source. An empty source has no parts at all.
pub proof fn lemma_split_shape(data: Seq<u8>, cap: nat)
    requires
        cap > 0,
    ensures
        spec_split(data, cap).len() == 0 <==> data.len() == 0,
        forall|i: int|
            0 <= i < spec_split(data, cap).len() - 1 ==> (#[trigger] spec_split(data, cap)[i]).len()
                == cap,
        spec_split(data, cap).len() > 0 ==> 0 < spec_split(data, cap).last().len() <= cap,
        data.len() <= spec_split(data, cap).len() * cap,
        spec_split(data, cap).len() > 0 ==> (spec_split(data, cap).len() - 1) * cap < data.len(),
        spec_split(data, cap).len() > 0 ==> spec_split(data, cap).last().len() == data.len() - (
        spec_split(data, cap).len() - 1) * cap,
    decreases data.len(),
{
    let parts = spec_split(data, cap);
    if data.len() == 0 {
    } else if data.len() <= cap {
        assert(parts == seq![data]);
        assert(parts.last() == data);
        assert(parts.len() * cap == cap) by (nonlinear_arith)
            requires
                parts.len() == 1,
        ;
        assert((parts.len() - 1) * cap == 0) by (nonlinear_arith)
            requires
                parts.len() == 1,
        ;
    } else {
        let sub = spec_split(data.skip(cap as int), cap);
        lemma_split_shape(data.skip(cap as int), cap);
        let subn = sub.len() as int;
        assert(parts.len() == subn + 1);
        assert(parts.len() * cap == subn * cap + cap) by (nonlinear_arith)
            requires
                parts.len() == subn + 1,
        ;
        assert((parts.len() - 1) * cap == subn * cap) by (nonlinear_arith)
            requires
                parts.len() == subn + 1,
        ;
        assert(subn * cap == (subn - 1) * cap + cap) by (nonlinear_arith);
        assert(parts.last() == sub.last());
        assert forall|i: int| 0 <= i < parts.len() - 1 implies (#[trigger] parts[i]).len()
            == cap by {
            if i > 0 {
                assert(parts[i] == sub[i - 1]);
            }
        }
    }
}

/// The part count of an exact split is the ceiling of the source length
/// divided by the cap.
pub proof fn lemma_chunk_count(data: Seq<u8>, cap: nat)
    requires
        cap > 0,
    ensures
        spec_split(data, cap).len() == (data.len() + cap - 1) / (cap as int),
{
    lemma_split_shape(data, cap);
    let count = spec_split(data, cap).len() as int;
    let len = data.len() as int;
    let c = cap as int;
    if len == 0 {
        lemma_fundamental_div_mod_converse(c - 1, c, 0, c - 1);
    } else {
        let r = len + c - 1 - count * c;
        assert((count - 1) * c == count * c - c) by (nonlinear_arith);
        lemma_fundamental_div_mod_converse(len + c - 1, c, count, r);
    }
}

/// The last part's size is the source length modulo the cap, or the full
/// cap when the length divides evenly.
pub proof fn lemma_last_part_size(data: Seq<u8>, cap: nat)
    requires
        cap > 0,
        data.len() > 0,
    ensures
        data.len() % cap == 0 ==> spec_split(data, cap).last().len() == cap,
        data.len() % cap != 0 ==> spec_split(data, cap).last().len() == data.len() % cap,
{
    lemma_split_shape(data, cap);
    let count = spec_split(data, cap).len() as int;
    let len = data.len() as int;
    let c = cap as int;
    let last = spec_split(data, cap).last().len() as int;
    assert(len == (count - 1) * c + last);
    if last == c {
        assert(count * c == (count - 1) * c + c) by (nonlinear_arith);
        lemma_fundamental_div_mod_converse(len, c, count, 0);
    } else {
        lemma_fundamental_div_mod_converse(len, c, count - 1, last);
    }
}

/// Progress accounting is exact: the part lengths, the increments a reporter
/// receives one per part, sum to precisely the length of the reassembled
/// whole — nothing is dropped or double-counted at part boundaries.
pub proof fn lemma_total_len(parts: Seq<Seq<u8>>)
    ensures
        total_len(parts) == concat_all(parts).len(),
    decreases parts.len(),
{
    if parts.len() > 0 {
        lemma_total_len(parts.drop_first());
    }
}

/// Splits `data` into parts of exactly `cap` bytes, the last part holding
/// the remainder. The result is precisely the exact split of `data`.
pub fn split_bytes(data: &Vec<u8>, cap: usize) -> (parts: Vec<Vec<u8>>)
    requires
        cap > 0,
    ensures
        part_views(parts@) == spec_split(data@, cap as nat),
{
    let mut parts: Vec<Vec<u8>> = Vec::new();
    let mut offset: usize = 0;
    proof {
        assert(data@.skip(0) =~= data@);
        assert(part_views(parts@) =~~= Seq::<Seq<u8>>::empty());
        assert(part_views(parts@) + spec_split(data@, cap as nat) =~= spec_split(
            data@,
            cap as nat,
        ));
    }
    while offset < data.len()
        invariant
            cap > 0,
            offset <= data@.len(),
            spec_split(data@, cap as nat) == part_views(parts@) + spec_split(
                data@.skip(offset as int),
                cap as nat,
            ),
        decreases data@.len() - offset,
    {
        let remaining = data.len() - offset;
        let take = if remaining < cap {
            remaining
        } else {
            cap
        };
        let n: usize = data.len();
        let mut chunk: Vec<u8> = Vec::new();
        let mut j: usize = 0;
        while j < take
            invariant
                j <= take,
                offset + take <= n,
                n == data@.len(),
                chunk@ == data@.subrange(offset as int, offset + j),
            decreases take - j,
        {
            chunk.push(data[offset + j]);
            proof {
                assert(chunk@ =~= data@.subrange(offset as int, offset + j + 1));
            }
            j += 1;
        }
        proof {
            let ghost rem = data@.skip(offset as int);
            let ghost old_parts = part_views(parts@);
            if remaining <= cap {
                assert(chunk@ =~= rem);
                assert(spec_split(rem, cap as nat) =~= seq![rem]);
            } else {
                assert(chunk@ =~= rem.take(cap as int));
                assert(rem.skip(cap as int) =~= data@.skip(offset + take));
            }
        }
        let ghost pre_parts = part_views(parts@);
        let ghost pre_offset = offset;
        parts.push(chunk);
        offset = offset + take;
        proof {
            assert(part_views(parts@) =~~= pre_parts.push(chunk@));
            let ghost rem = data@.skip(pre_offset as int);
            if rem.len() <= cap {
                assert(pre_parts.push(chunk@) + spec_split(data@.skip(offset as int), cap as nat)
                    =~= pre_parts + spec_split(rem, cap as nat));
            } else {
                assert(spec_split(rem, cap as nat) == seq![rem.take(cap as int)] + spec_split(
                    rem.skip(cap as int),
                    cap as nat,
                ));
                assert(pre_parts.push(chunk@) + spec_split(data@.skip(offset as int), cap as nat)
                    =~= pre_parts + spec_split(rem, cap as nat));
            }
        }
    }
    proof {
        assert(data@.skip(data@.len() as int) =~= Seq::<u8>::empty());
        assert(part_views(parts@) + spec_split(data@.skip(offset as int), cap as nat)
            =~= part_views(parts@));
    }
    parts
}

/// Reassembles `parts` by concatenating them in the order given. Fails with
/// `EmptyInput`, writing nothing, exactly when there are no parts at all;
/// otherwise the output is the concatenation of all parts, whose length is
/// the sum of the part lengths.
pub fn combine_bytes(parts: &Vec<Vec<u8>>) -> (r: Result<Vec<u8>, PartError>)
    ensures
        r is Err <==> parts@.len() == 0,
        r is Err ==> r == Err::<Vec<u8>, PartError>(PartError::EmptyInput),
        r matches Ok(out) ==> out@ == concat_all(part_views(parts@)),
        r matches Ok(out) ==> out@.len() == total_len(part_views(parts@)),
{
    if parts.len() == 0 {
        return Err(PartError::EmptyInput);
    }
    let mut out: Vec<u8> = Vec::new();
    let mut i: usize = 0;
    while i < parts.len()
        invariant
            i <= parts@.len(),
            out@ == concat_all(part_views(parts@).take(i as int)),
        decreases parts@.len() - i,
    {
        let part = &parts[i];
        let mut j: usize = 0;
        let ghost pre_out = out@;
        while j < part.len()
            invariant
                j <= part@.len(),
                out@ == pre_out + part@.subrange(0, j as int),
            decreases part@.len() - j,
        {
            out.push(part[j]);
            proof {
                assert(pre_out + part@.subrange(0, j + 1) =~= out@);
            }
            j += 1;
        }
        proof {
            assert(part@.subrange(0, part@.len() as int) =~= part@);
            lemma_concat_all_push(part_views(parts@).take(i as int), part@);
            assert(part_views(parts@).take(i as int).push(part@) =~~= part_views(parts@).take(
                i + 1,
            ));
        }
        i += 1;
    }
    proof {
        assert(part_views(parts@).take(parts@.len() as int) =~= part_views(parts@));
        lemma_total_len(part_views(parts@));
    }
    Ok(out)
}

} // verus!
