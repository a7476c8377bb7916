//! The part naming scheme and the file-name predicates.
//!
//! Parts are named by an ascending sequence number starting at 1, written as
//! exactly two ASCII decimal digits (`01`, `02`, ..., `99`). Keeping every
//! part name the same width makes lexicographic order on names coincide with
//! numeric order on sequence numbers, which the combiner relies on; splits
//! that would need more than 99 parts are rejected rather than widened, so
//! the equivalence holds by construction.
//!
//! File names are handled as byte strings throughout.

use vstd::prelude::*;

verus! {

/// The ASCII code of `0`.
pub const DIGIT_ZERO: u8 = 48;

/// Largest sequence number the two-digit naming scheme can represent.
pub const MAX_PARTS: u64 = 99;

/// Whether `b` is an ASCII decimal digit.
pub open spec fn is_digit(b: u8) -> bool {
    DIGIT_ZERO <= b <= DIGIT_ZERO + 9
}

/// Whether every byte of `s` is an ASCII decimal digit.
pub open spec fn all_digits(s: Seq<u8>) -> bool {
    forall|i: int| 0 <= i < s.len() ==> is_digit(#[trigger] s[i])
}

/// A part name: non-empty and made of decimal digits only.
pub open spec fn spec_is_part_name(s: Seq<u8>) -> bool {
    s.len() > 0 && all_digits(s)
}

/// The number a digit string denotes, read in base 10.
pub open spec fn numeric_value(s: Seq<u8>) -> nat
    decreases s.len(),
{
    if s.len() == 0 {
        0
    } else {
        (numeric_value(s.drop_last()) * 10 + (s.last() - DIGIT_ZERO)) as nat
    }
}

/// Powers of ten, for relating a digit string to the number it denotes.
pub open spec fn pow10(n: nat) -> nat
    decreases n,
{
    if n == 0 {
        1
    } else {
        10 * pow10((n - 1) as nat)
    }
}

/// Powers of ten are positive.
pub proof fn lemma_pow10_pos(n: nat)
    ensures
        pow10(n) >= 1,
    decreases n,
{
    if n > 0 {
        lemma_pow10_pos((n - 1) as nat);
    }
}

/// A digit string of length `n` denotes a number below `10^n`.
pub proof fn lemma_numeric_value_bound(s: Seq<u8>)
    requires
        all_digits(s),
    ensures
        numeric_value(s) < pow10(s.len()),
    decreases s.len(),
{
    if s.len() > 0 {
        lemma_numeric_value_bound(s.drop_last());
        let v = numeric_value(s.drop_last()) as int;
        let p = pow10((s.len() - 1) as nat) as int;
        assert(v * 10 <= (p - 1) * 10) by (nonlinear_arith)
            requires
                v <= p - 1,
        ;
    }
}

/// The leading digit carries a full power of ten: the value of a digit
/// string is its first digit times `10^(len-1)` plus the value of the rest.
pub proof fn lemma_numeric_value_first(s: Seq<u8>)
    requires
        s.len() > 0,
        all_digits(s),
    ensures
        numeric_value(s) == (s.first() - DIGIT_ZERO) * pow10((s.len() - 1) as nat)
            + numeric_value(s.drop_first()),
    decreases s.len(),
{
    if s.len() == 1 {
        assert(s.drop_last() =~= Seq::<u8>::empty());
        assert(s.drop_first() =~= Seq::<u8>::empty());
        assert(s.first() == s.last());
        assert(numeric_value(Seq::<u8>::empty()) == 0);
        assert(numeric_value(s) == s.last() - DIGIT_ZERO);
        assert(pow10(0) == 1);
        assert((s.first() - DIGIT_ZERO) * 1 == s.first() - DIGIT_ZERO) by (nonlinear_arith);
    } else {
        let head = s.drop_last();
        assert(all_digits(head)) by {
            assert(forall|i: int| 0 <= i < head.len() ==> head[i] == s[i]);
        }
        lemma_numeric_value_first(head);
        assert(head.drop_first() =~= s.drop_first().drop_last());
        assert(head.first() == s.first());
        assert(s.drop_first().last() == s.last());
        let d0 = (s.first() - DIGIT_ZERO) as int;
        let p = pow10((s.len() - 2) as nat) as int;
        let rest = numeric_value(s.drop_first().drop_last()) as int;
        assert((d0 * p + rest) * 10 == d0 * (10 * p) + rest * 10) by (nonlinear_arith);
    }
}

/// Decides whether `name` qualifies as a part file name: non-empty, decimal
/// digits only. Entries of a part directory that fail this predicate are
/// ignored by the combiner, never treated as errors.
pub fn is_part_name(name: &Vec<u8>) -> (r: bool)
    ensures
        r == spec_is_part_name(name@),
{
    if name.len() == 0 {
        return false;
    }
    let mut i: usize = 0;
    while i < name.len()
        invariant
            i <= name.len(),
            forall|j: int| 0 <= j < i ==> is_digit(#[trigger] name@[j]),
        decreases name.len() - i,
    {
        let b = name[i];
        if b < DIGIT_ZERO || b > DIGIT_ZERO + 9 {
            return false;
        }
        i += 1;
    }
    true
}

/// The name of part number `n`: exactly two digits, zero-padded.
pub fn part_name(n: u64) -> (name: Vec<u8>)
    requires
        1 <= n <= MAX_PARTS,
    ensures
        name@.len() == 2,
        name@[0] == DIGIT_ZERO + n / 10,
        name@[1] == DIGIT_ZERO + n % 10,
        spec_is_part_name(name@),
        numeric_value(name@) == n,
{
    let mut name: Vec<u8> = Vec::new();
    name.push(DIGIT_ZERO + (n / 10) as u8);
    name.push(DIGIT_ZERO + (n % 10) as u8);
    proof {
        let d1 = (DIGIT_ZERO + n / 10) as u8;
        let d2 = (DIGIT_ZERO + n % 10) as u8;
        assert(name@ =~= seq![d1, d2]);
        assert(seq![d1, d2].drop_last() =~= seq![d1]);
        assert(seq![d1].drop_last() =~= Seq::<u8>::empty());
        assert(numeric_value(Seq::<u8>::empty()) == 0);
        assert(numeric_value(seq![d1]) == n / 10);
        assert(numeric_value(seq![d1, d2]) == (n / 10) * 10 + n % 10);
        assert((n / 10) * 10 + n % 10 == n) by (nonlinear_arith);
    }
    name
}

/// The ASCII code of `.`.
pub const DOT: u8 = 46;

/// The `.nsp` archive extension, as bytes.
pub open spec fn nsp_ext() -> Seq<u8> {
    seq![46u8, 110u8, 115u8, 112u8]
}

/// The `.xci` archive extension, as bytes.
pub open spec fn xci_ext() -> Seq<u8> {
    seq![46u8, 120u8, 99u8, 105u8]
}

/// Whether `s` ends with `suffix`.
pub open spec fn has_suffix(s: Seq<u8>, suffix: Seq<u8>) -> bool {
    s.len() >= suffix.len() && s.subrange(s.len() - suffix.len(), s.len() as int) == suffix
}

/// An archive name: one that ends with a recognized archive extension.
pub open spec fn spec_is_archive_name(s: Seq<u8>) -> bool {
    has_suffix(s, nsp_ext()) || has_suffix(s, xci_ext())
}

/// Decides whether `name` ends with one of the recognized archive
/// extensions.
pub fn is_archive_name(name: &Vec<u8>) -> (r: bool)
    ensures
        r == spec_is_archive_name(name@),
{
    if name.len() < 4 {
        return false;
    }
    let n = name.len();
    let b0 = name[n - 4];
    let b1 = name[n - 3];
    let b2 = name[n - 2];
    let b3 = name[n - 1];
    proof {
        let tail = name@.subrange(name@.len() - 4, name@.len() as int);
        assert(tail.len() == 4);
        assert(tail[0] == b0 && tail[1] == b1 && tail[2] == b2 && tail[3] == b3);
        if b0 == 46 && b1 == 110 && b2 == 115 && b3 == 112 {
            assert(tail =~= nsp_ext());
        }
        if b0 == 46 && b1 == 120 && b2 == 99 && b3 == 105 {
            assert(tail =~= xci_ext());
        }
    }
    (b0 == DOT && b1 == 110 && b2 == 115 && b3 == 112) || (b0 == DOT && b1 == 120 && b2 == 99
        && b3 == 105)
}

/// Whether a directory listing shows the entry: archive names and
/// pure-numeric part names match; every other name is ignored.
pub open spec fn spec_is_listing_match(s: Seq<u8>) -> bool {
    spec_is_archive_name(s) || spec_is_part_name(s)
}

/// Decides whether a directory listing shows the entry.
pub fn is_listing_match(name: &Vec<u8>) -> (r: bool)
    ensures
        r == spec_is_listing_match(name@),
{
    if is_archive_name(name) {
        true
    } else {
        is_part_name(name)
    }
}

/// The index of the last `.` in `s`, or `-1` if there is none.
pub open spec fn find_last_dot(s: Seq<u8>) -> int
    decreases s.len(),
{
    if s.len() == 0 {
        -1
    } else if s.last() == DOT {
        s.len() - 1
    } else {
        find_last_dot(s.drop_last())
    }
}

/// The base name of a file name without its extension: everything before
/// the last `.`, except that a name whose only `.` is its first byte (a
/// hidden file) or that has no `.` at all is its own stem.
pub open spec fn spec_file_stem(s: Seq<u8>) -> Seq<u8> {
    let d = find_last_dot(s);
    if d <= 0 {
        s
    } else {
        s.take(d)
    }
}

/// A name that has no stem to derive an output directory from: empty, or
/// one of the two relative-path names.
pub open spec fn spec_stem_err(s: Seq<u8>) -> bool {
    s.len() == 0 || s == seq![46u8] || s == seq![46u8, 46u8]
}

/// Copies the first `count` bytes of `name`.
fn copy_prefix(name: &Vec<u8>, count: usize) -> (r: Vec<u8>)
    requires
        count <= name@.len(),
    ensures
        r@ == name@.take(count as int),
{
    let mut r: Vec<u8> = Vec::new();
    let mut i: usize = 0;
    while i < count
        invariant
            i <= count,
            count <= name@.len(),
            r@ == name@.take(count as int).take(i as int),
        decreases count - i,
    {
        r.push(name[i]);
        proof {
            assert(r@ =~= name@.take(count as int).take(i + 1));
        }
        i += 1;
    }
    proof {
        assert(name@.take(count as int).take(count as int) =~= name@.take(count as int));
    }
    r
}

/// Derives the output directory name for a split: the source file's base
/// name without its extension. Fails with `InvalidInput` exactly on a name
/// that has no stem.
pub fn file_stem(name: &Vec<u8>) -> (r: Result<Vec<u8>, crate::PartError>)
    ensures
        r is Err <==> spec_stem_err(name@),
        r is Err ==> r == Err::<Vec<u8>, crate::PartError>(crate::PartError::InvalidInput),
        r matches Ok(stem) ==> stem@ == spec_file_stem(name@),
{
    if name.len() == 0 {
        return Err(crate::PartError::InvalidInput);
    }
    if name.len() == 1 && name[0] == DOT {
        proof {
            assert(name@ =~= seq![46u8]);
        }
        return Err(crate::PartError::InvalidInput);
    }
    if name.len() == 2 && name[0] == DOT && name[1] == DOT {
        proof {
            assert(name@ =~= seq![46u8, 46u8]);
        }
        return Err(crate::PartError::InvalidInput);
    }
    proof {
        if name@ == seq![46u8] {
            assert(name@.len() == 1 && name@[0] == 46);
        }
        if name@ == seq![46u8, 46u8] {
            assert(name@.len() == 2 && name@[0] == 46 && name@[1] == 46);
        }
        assert(!spec_stem_err(name@));
        assert(name@.take(0) =~= Seq::<u8>::empty());
    }
    let mut dot: usize = 0;
    let mut found = false;
    let mut i: usize = 0;
    while i < name.len()
        invariant
            i <= name@.len(),
            found ==> dot < i,
            find_last_dot(name@.take(i as int)) == if found {
                dot as int
            } else {
                -1int
            },
        decreases name@.len() - i,
    {
        proof {
            assert(name@.take(i + 1).drop_last() =~= name@.take(i as int));
            assert(name@.take(i + 1).last() == name@[i as int]);
        }
        if name[i] == DOT {
            dot = i;
            found = true;
        }
        i += 1;
    }
    proof {
        assert(name@.take(name@.len() as int) =~= name@);
    }
    if !found || dot == 0 {
        Ok(copy_prefix(name, name.len()))
    } else {
        Ok(copy_prefix(name, dot))
    }
}

/// Derives the output file name for a combine: the part directory's name
/// with the archive extension appended.
pub fn combined_file_name(dir_name: &Vec<u8>) -> (r: Vec<u8>)
    ensures
        r@ == dir_name@ + nsp_ext(),
{
    let mut r = copy_prefix(dir_name, dir_name.len());
    r.push(DOT);
    r.push(110);
    r.push(115);
    r.push(112);
    proof {
        assert(dir_name@.take(dir_name@.len() as int) =~= dir_name@);
        assert(r@ =~= dir_name@ + nsp_ext());
    }
    r
}

} // verus!
