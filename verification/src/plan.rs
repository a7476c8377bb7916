//! The two operation plans.
//!
//! `split_plan` turns a source size and a part cap into the exact list of
//! part sizes a split writes, so a streaming copy loop has nothing left to
//! decide; `combine_order` turns an unordered directory listing into the
//! exact list of part names a combine reads, in order. Both return only
//! plain values, so everything around the actual file I/O is decided here.

use vstd::prelude::*;
use crate::PartError;
use crate::chunking::{part_views, spec_split};
use crate::naming::{spec_is_part_name, MAX_PARTS};
use crate::ordering::{sort_names, sorted_lex};

verus! {

use vstd::arithmetic::div_mod::lemma_fundamental_div_mod_converse;

/// The part sizes of an exact split of `len` bytes at cap `cap`: the sizes
/// of the parts of `spec_split`, for any source of that length.
pub open spec fn spec_plan(len: nat, cap: nat) -> Seq<nat>
    recommends
        cap > 0,
    decreases len,
{
    if len == 0 {
        Seq::empty()
    } else if len <= cap || cap == 0 {
        seq![len]
    } else {
        seq![cap] + spec_plan((len - cap) as nat, cap)
    }
}

/// The sizes as mathematical numbers.
pub open spec fn sizes_as_nats(s: Seq<u64>) -> Seq<nat> {
    Seq::new(s.len(), |i: int| s[i] as nat)
}

/// The sum of a list of sizes.
pub open spec fn sum_sizes(s: Seq<nat>) -> nat
    decreases s.len(),
{
    if s.len() == 0 {
        0
    } else {
        s.first() + sum_sizes(s.drop_first())
    }
}

/// The plan's sizes are exactly the part lengths of the exact split: the
/// split of any source of length `len` produces parts of these sizes, in
/// this order.
pub proof fn lemma_plan_is_split_sizes(data: Seq<u8>, cap: nat)
    requires
        cap > 0,
    ensures
        spec_plan(data.len(), cap).len() == spec_split(data, cap).len(),
        forall|i: int|
            0 <= i < spec_plan(data.len(), cap).len() ==> #[trigger] spec_plan(data.len(), cap)[i]
                == spec_split(data, cap)[i].len(),
    decreases data.len(),
{
    if data.len() == 0 {
    } else if data.len() <= cap {
    } else {
        lemma_plan_is_split_sizes(data.skip(cap as int), cap);
    }
}

/// Idempotent progress accounting: the planned sizes, each reported once,
/// sum to exactly the source length — no byte is counted twice at a part
/// boundary and none is dropped.
pub proof fn lemma_plan_total(len: nat, cap: nat)
    requires
        cap > 0,
    ensures
        sum_sizes(spec_plan(len, cap)) == len,
    decreases len,
{
    if len == 0 {
    } else if len <= cap {
        assert(seq![len].drop_first() =~= Seq::<nat>::empty());
        assert(sum_sizes(Seq::<nat>::empty()) == 0);
    } else {
        lemma_plan_total((len - cap) as nat, cap);
        assert((seq![cap] + spec_plan((len - cap) as nat, cap)).drop_first() =~= spec_plan(
            (len - cap) as nat,
            cap,
        ));
    }
}

/// Computes the list of part sizes for splitting `file_size` bytes at part
/// cap `cap`: every size is `cap` except the last, which holds the
/// remainder and is never zero; an empty source plans zero parts. Fails
/// with `InvalidInput`, planning nothing, exactly when the split would need
/// more part names than the fixed-width naming scheme can represent.
pub fn split_plan(file_size: u64, cap: u64) -> (r: Result<Vec<u64>, PartError>)
    requires
        cap > 0,
    ensures
        r is Ok <==> spec_plan(file_size as nat, cap as nat).len() <= MAX_PARTS,
        r is Err ==> r == Err::<Vec<u64>, PartError>(PartError::InvalidInput),
        r matches Ok(sizes) ==> sizes_as_nats(sizes@) == spec_plan(file_size as nat, cap as nat),
{
    let q = file_size / cap;
    let rem = file_size % cap;
    proof {
        lemma_plan_count(file_size as nat, cap as nat);
    }
    if q > MAX_PARTS || (q == MAX_PARTS && rem != 0) {
        return Err(PartError::InvalidInput);
    }
    let mut sizes: Vec<u64> = Vec::new();
    let mut remaining = file_size;
    proof {
        assert(sizes_as_nats(sizes@) =~= Seq::<nat>::empty());
        assert(Seq::<nat>::empty() + spec_plan(file_size as nat, cap as nat) =~= spec_plan(
            file_size as nat,
            cap as nat,
        ));
    }
    while remaining > 0
        invariant
            cap > 0,
            spec_plan(file_size as nat, cap as nat) == sizes_as_nats(sizes@) + spec_plan(
                remaining as nat,
                cap as nat,
            ),
        decreases remaining,
    {
        let take = if remaining < cap {
            remaining
        } else {
            cap
        };
        let ghost pre = sizes_as_nats(sizes@);
        let ghost pre_remaining = remaining as nat;
        sizes.push(take);
        remaining = remaining - take;
        proof {
            assert(sizes_as_nats(sizes@) =~= pre.push(take as nat));
            if pre_remaining <= cap {
                assert(spec_plan(pre_remaining, cap as nat) =~= seq![pre_remaining]);
                assert(pre.push(take as nat) + spec_plan(remaining as nat, cap as nat) =~= pre
                    + spec_plan(pre_remaining, cap as nat));
            } else {
                assert(spec_plan(pre_remaining, cap as nat) == seq![cap as nat] + spec_plan(
                    remaining as nat,
                    cap as nat,
                ));
                assert(pre.push(take as nat) + spec_plan(remaining as nat, cap as nat) =~= pre
                    + spec_plan(pre_remaining, cap as nat));
            }
        }
    }
    proof {
        assert(sizes_as_nats(sizes@) + spec_plan(0, cap as nat) =~= sizes_as_nats(sizes@));
    }
    Ok(sizes)
}

/// The plan's part count is the ceiling of the length divided by the cap,
/// written without the subtraction: `len / cap`, plus one when a remainder
/// is left.
pub proof fn lemma_plan_count(len: nat, cap: nat)
    requires
        cap > 0,
    ensures
        spec_plan(len, cap).len() == len / cap + (if len % cap != 0 {
            1int
        } else {
            0int
        }),
{
    let data = Seq::new(len, |i: int| 0u8);
    lemma_plan_is_split_sizes(data, cap);
    crate::chunking::lemma_split_shape(data, cap);
    let count = spec_plan(len, cap).len() as int;
    let c = cap as int;
    if len == 0 {
        assert(0int * c == 0) by (nonlinear_arith);
        lemma_fundamental_div_mod_converse(0, c, 0, 0);
    } else {
        let last = len - (count - 1) * c;
        if last == c {
            assert(count * c == (count - 1) * c + c) by (nonlinear_arith);
            lemma_fundamental_div_mod_converse(len as int, c, count, 0);
        } else {
            lemma_fundamental_div_mod_converse(len as int, c, count - 1, last);
        }
    }
}

/// Copies a file name.
fn clone_name(v: &Vec<u8>) -> (r: Vec<u8>)
    ensures
        r@ == v@,
{
    let r = v.clone();
    proof {
        assert(r@ =~= v@);
    }
    r
}

/// Decides which directory entries a combine reads and in which order: the
/// entries whose names qualify as part names, each exactly as often as it
/// occurs, sorted ascending — by name, and therewith by sequence number.
/// Entries with any other name are ignored. Fails with `EmptyInput`,
/// reading nothing, exactly when no entry qualifies.
pub fn combine_order(entries: &Vec<Vec<u8>>) -> (r: Result<Vec<Vec<u8>>, PartError>)
    ensures
        r is Err <==> part_views(entries@).filter(|s: Seq<u8>| spec_is_part_name(s)).len() == 0,
        r is Err ==> r == Err::<Vec<Vec<u8>>, PartError>(PartError::EmptyInput),
        r matches Ok(ordered) ==> sorted_lex(part_views(ordered@)),
        r matches Ok(ordered) ==> part_views(ordered@).to_multiset() == part_views(
            entries@,
        ).filter(|s: Seq<u8>| spec_is_part_name(s)).to_multiset(),
{
    broadcast use vstd::seq_lib::group_filter_ensures;

    let mut qualifying: Vec<Vec<u8>> = Vec::new();
    let mut i: usize = 0;
    proof {
        reveal(Seq::filter);
        assert(part_views(entries@).take(0) =~= Seq::<Seq<u8>>::empty());
        assert(part_views(qualifying@) =~= Seq::<Seq<u8>>::empty());
        assert(Seq::<Seq<u8>>::empty().filter(|s: Seq<u8>| spec_is_part_name(s))
            =~= Seq::<Seq<u8>>::empty());
    }
    while i < entries.len()
        invariant
            i <= entries@.len(),
            part_views(qualifying@) == part_views(entries@).take(i as int).filter(
                |s: Seq<u8>| spec_is_part_name(s),
            ),
        decreases entries@.len() - i,
    {
        let ghost pre = part_views(qualifying@);
        if crate::naming::is_part_name(&entries[i]) {
            let name = clone_name(&entries[i]);
            qualifying.push(name);
            proof {
                assert(part_views(qualifying@) =~= pre.push(entries@[i as int]@));
            }
        }
        proof {
            reveal(Seq::filter);
            let all = part_views(entries@);
            assert(all.take(i + 1).drop_last() =~= all.take(i as int));
            assert(all.take(i + 1).last() == entries@[i as int]@);
        }
        i += 1;
    }
    proof {
        assert(part_views(entries@).take(entries@.len() as int) =~= part_views(entries@));
    }
    if qualifying.len() == 0 {
        return Err(PartError::EmptyInput);
    }
    sort_names(&mut qualifying);
    Ok(qualifying)
}

} // verus!
