//! Ordering of part names.
//!
//! The combiner must process parts in ascending sequence-number order no
//! matter in which order a directory enumeration hands them over. Part
//! names are sorted lexicographically as byte strings; because the naming
//! scheme keeps every name the same width, lexicographic order on names
//! coincides with numeric order on sequence numbers (`lemma_lex_le_is_numeric_le`).

use vstd::prelude::*;

verus! {

use crate::naming::{all_digits, is_digit, numeric_value, DIGIT_ZERO};

/// Lexicographic order on byte strings: `a` is at most `b`.
pub open spec fn lex_le(a: Seq<u8>, b: Seq<u8>) -> bool
    decreases a.len(),
{
    if a.len() == 0 {
        true
    } else if b.len() == 0 {
        false
    } else if a.first() < b.first() {
        true
    } else if a.first() > b.first() {
        false
    } else {
        lex_le(a.drop_first(), b.drop_first())
    }
}

/// A sequence of byte strings in ascending lexicographic order.
pub open spec fn sorted_lex(s: Seq<Seq<u8>>) -> bool {
    forall|i: int, j: int| 0 <= i < j < s.len() ==> lex_le(#[trigger] s[i], #[trigger] s[j])
}

/// Lexicographic order is reflexive.
pub proof fn lemma_lex_le_refl(a: Seq<u8>)
    ensures
        lex_le(a, a),
    decreases a.len(),
{
    if a.len() > 0 {
        lemma_lex_le_refl(a.drop_first());
    }
}

/// Lexicographic order is total: of any two byte strings, one is at most
/// the other.
pub proof fn lemma_lex_le_total(a: Seq<u8>, b: Seq<u8>)
    ensures
        lex_le(a, b) || lex_le(b, a),
    decreases a.len(),
{
    if a.len() > 0 && b.len() > 0 && a.first() == b.first() {
        lemma_lex_le_total(a.drop_first(), b.drop_first());
    }
}

/// Lexicographic order is transitive.
pub proof fn lemma_lex_le_trans(a: Seq<u8>, b: Seq<u8>, c: Seq<u8>)
    requires
        lex_le(a, b),
        lex_le(b, c),
    ensures
        lex_le(a, c),
    decreases a.len(),
{
    if a.len() > 0 && b.len() > 0 && c.len() > 0 && a.first() == b.first() && b.first()
        == c.first() {
        lemma_lex_le_trans(a.drop_first(), b.drop_first(), c.drop_first());
    }
}

/// On digit strings of one common width, lexicographic order is numeric
/// order: sorting zero-padded part names by name sorts them by sequence
/// number. This is the invariant the fixed-width naming scheme preserves
/// and the combiner relies on.
pub proof fn lemma_lex_le_is_numeric_le(a: Seq<u8>, b: Seq<u8>)
    requires
        all_digits(a),
        all_digits(b),
        a.len() == b.len(),
    ensures
        lex_le(a, b) <==> numeric_value(a) <= numeric_value(b),
    decreases a.len(),
{
    if a.len() > 0 {
        crate::naming::lemma_numeric_value_first(a);
        crate::naming::lemma_numeric_value_first(b);
        crate::naming::lemma_numeric_value_bound(a.drop_first());
        crate::naming::lemma_numeric_value_bound(b.drop_first());
        crate::naming::lemma_pow10_pos((a.len() - 1) as nat);
        let p = crate::naming::pow10((a.len() - 1) as nat) as int;
        let da = a.first() - DIGIT_ZERO;
        let db = b.first() - DIGIT_ZERO;
        let ra = numeric_value(a.drop_first()) as int;
        let rb = numeric_value(b.drop_first()) as int;
        assert(is_digit(a.first()) && is_digit(b.first()));
        if a.first() < b.first() {
            assert(da * p + ra < db * p + rb) by (nonlinear_arith)
                requires
                    da < db,
                    p >= 1,
                    0 <= ra < p,
                    0 <= rb,
            ;
        } else if a.first() > b.first() {
            assert(db * p + rb < da * p + ra) by (nonlinear_arith)
                requires
                    db < da,
                    p >= 1,
                    0 <= rb < p,
                    0 <= ra,
            ;
        } else {
            lemma_lex_le_is_numeric_le(a.drop_first(), b.drop_first());
        }
    }
}

/// A lexicographically sorted list of digit names of one common width is
/// sorted by sequence number: the order in which the combiner concatenates
/// parts is ascending numeric order, however the directory was enumerated.
pub proof fn lemma_sorted_names_are_numeric(s: Seq<Seq<u8>>, w: nat)
    requires
        sorted_lex(s),
        forall|i: int| 0 <= i < s.len() ==> all_digits(#[trigger] s[i]) && s[i].len() == w,
    ensures
        forall|i: int, j: int|
            0 <= i < j < s.len() ==> numeric_value(#[trigger] s[i]) <= numeric_value(
                #[trigger] s[j],
            ),
{
    assert forall|i: int, j: int| 0 <= i < j < s.len() implies numeric_value(#[trigger] s[i])
        <= numeric_value(#[trigger] s[j]) by {
        lemma_lex_le_is_numeric_le(s[i], s[j]);
    }
}

/// Decides the lexicographic order on two byte strings.
pub fn lex_le_bytes(a: &Vec<u8>, b: &Vec<u8>) -> (r: bool)
    ensures
        r == lex_le(a@, b@),
{
    let mut i: usize = 0;
    let bound = if a.len() < b.len() {
        a.len()
    } else {
        b.len()
    };
    proof {
        assert(a@.skip(0) =~= a@);
        assert(b@.skip(0) =~= b@);
    }
    while i < bound
        invariant
            i <= bound,
            bound <= a@.len(),
            bound <= b@.len(),
            lex_le(a@, b@) == lex_le(a@.skip(i as int), b@.skip(i as int)),
            lex_le(b@, a@) == lex_le(b@.skip(i as int), a@.skip(i as int)),
        decreases bound - i,
    {
        let x = a[i];
        let y = b[i];
        proof {
            assert(a@.skip(i as int).first() == a@[i as int]);
            assert(b@.skip(i as int).first() == b@[i as int]);
        }
        if x < y {
            return true;
        }
        if x > y {
            return false;
        }
        proof {
            assert(a@.skip(i as int).drop_first() =~= a@.skip(i + 1));
            assert(b@.skip(i as int).drop_first() =~= b@.skip(i + 1));
        }
        i += 1;
    }
    proof {
        if a@.len() <= b@.len() {
            assert(a@.skip(i as int) =~= Seq::<u8>::empty());
        } else {
            assert(b@.skip(i as int) =~= Seq::<u8>::empty());
            assert(a@.skip(i as int).len() > 0);
        }
    }
    a.len() <= b.len()
}

/// Sorts part names into ascending lexicographic order. The result holds
/// exactly the names given, each as often as it was given.
pub fn sort_names(names: &mut Vec<Vec<u8>>)
    ensures
        sorted_lex(crate::chunking::part_views(final(names)@)),
        crate::chunking::part_views(final(names)@).to_multiset() == crate::chunking::part_views(
            old(names)@,
        ).to_multiset(),
{
    broadcast use vstd::seq_lib::group_to_multiset_ensures;
    broadcast use vstd::multiset::group_multiset_axioms;

    let ghost orig = crate::chunking::part_views(names@);
    let mut result: Vec<Vec<u8>> = Vec::new();
    proof {
        assert(crate::chunking::part_views(result@) =~= Seq::<Seq<u8>>::empty());
        assert(Seq::<Seq<u8>>::empty().to_multiset().add(orig.to_multiset())
            =~= orig.to_multiset());
    }
    while names.len() > 0
        invariant
            sorted_lex(crate::chunking::part_views(result@)),
            forall|p: int, q: int|
                0 <= p < result@.len() && 0 <= q < names@.len() ==> lex_le(
                    #[trigger] result@[p]@,
                    #[trigger] names@[q]@,
                ),
            crate::chunking::part_views(result@).to_multiset().add(
                crate::chunking::part_views(names@).to_multiset(),
            ) == orig.to_multiset(),
        decreases names@.len(),
    {
        let mut m: usize = 0;
        let mut k: usize = 1;
        proof {
            lemma_lex_le_refl(names@[0]@);
        }
        while k < names.len()
            invariant
                m < k <= names@.len(),
                forall|q: int| 0 <= q < k ==> lex_le(names@[m as int]@, #[trigger] names@[q]@),
            decreases names@.len() - k,
        {
            if lex_le_bytes(&names[m], &names[k]) {
                proof {
                    assert forall|q: int| 0 <= q < k + 1 implies lex_le(
                        names@[m as int]@,
                        #[trigger] names@[q]@,
                    ) by {
                        if q == k {
                        }
                    }
                }
            } else {
                proof {
                    lemma_lex_le_total(names@[m as int]@, names@[k as int]@);
                    assert forall|q: int| 0 <= q < k + 1 implies lex_le(
                        names@[k as int]@,
                        #[trigger] names@[q]@,
                    ) by {
                        if q < k {
                            lemma_lex_le_trans(names@[k as int]@, names@[m as int]@, names@[q]@);
                        } else {
                            lemma_lex_le_refl(names@[k as int]@);
                        }
                    }
                }
                m = k;
            }
            k += 1;
        }
        let ghost pre_names = crate::chunking::part_views(names@);
        let ghost pre_result = crate::chunking::part_views(result@);
        let elem = names.remove(m);
        result.push(elem);
        proof {
            broadcast use vstd::seq_lib::group_to_multiset_ensures;
            broadcast use vstd::multiset::group_multiset_axioms;

            let views = crate::chunking::part_views(names@);
            assert(views =~= pre_names.remove(m as int));
            assert(crate::chunking::part_views(result@) =~= pre_result.push(elem@));
            assert(pre_result.push(elem@).to_multiset() =~= pre_result.to_multiset().insert(
                elem@,
            ));
            assert(pre_names.remove(m as int).to_multiset() =~= pre_names.to_multiset().remove(
                elem@,
            ));
            assert(pre_names.to_multiset().count(elem@) > 0);
            assert(pre_result.to_multiset().insert(elem@).add(
                pre_names.to_multiset().remove(elem@),
            ) =~= pre_result.to_multiset().add(pre_names.to_multiset()));
            assert forall|p: int, q: int|
                0 <= p < q < crate::chunking::part_views(result@).len() implies lex_le(
                #[trigger] crate::chunking::part_views(result@)[p],
                #[trigger] crate::chunking::part_views(result@)[q],
            ) by {
                if q < pre_result.len() {
                    assert(lex_le(pre_result[p], pre_result[q]));
                } else {
                    assert(crate::chunking::part_views(result@)[q] == elem@);
                    assert(lex_le(pre_result[p], elem@));
                }
            }
            assert forall|p: int, q: int|
                0 <= p < result@.len() && 0 <= q < names@.len() implies lex_le(
                #[trigger] result@[p]@,
                #[trigger] names@[q]@,
            ) by {
                let prev_q: int = if q < m { q } else { q + 1 };
                assert(names@[q]@ == pre_names[prev_q]);
                if p < pre_result.len() {
                    assert(lex_le(pre_result[p], pre_names[prev_q]));
                } else {
                    assert(result@[p]@ == elem@);
                    assert(lex_le(elem@, pre_names[prev_q]));
                }
            }
        }
    }
    proof {
        assert(crate::chunking::part_views(names@) =~= Seq::<Seq<u8>>::empty());
        assert(crate::chunking::part_views(result@).to_multiset().add(
            Seq::<Seq<u8>>::empty().to_multiset(),
        ) =~= crate::chunking::part_views(result@).to_multiset());
    }
    let mut moved = result;
    core::mem::swap(names, &mut moved);
}

} // verus!
