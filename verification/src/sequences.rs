//! Facts about byte sequences: bytes that a sequence lacks, occurrences of
//! one sequence in another, and what writing over a part leaves as it was.

use crate::bytes::overwritten;
use crate::scanner::occurs_at;
use vstd::prelude::*;

verus! {

/// No byte of `s` is `b`.
pub open spec fn lacks(s: Seq<u8>, b: u8) -> bool {
    forall|i: int| 0 <= i < s.len() ==> #[trigger] s[i] != b
}

/// None of the first `k` bytes of `s` is `b`.
pub open spec fn lacks_upto(s: Seq<u8>, b: u8, k: nat) -> bool
    decreases k,
{
    k == 0 || (s[k - 1] != b && lacks_upto(s, b, (k - 1) as nat))
}

/// What holds of the first `k` bytes one by one holds of each of them.
pub proof fn lemma_lacks_upto(s: Seq<u8>, b: u8, k: nat)
    requires
        lacks_upto(s, b, k),
    ensures
        forall|i: int| 0 <= i < k ==> #[trigger] s[i] != b,
    decreases k,
{
    if k > 0 {
        lemma_lacks_upto(s, b, (k - 1) as nat);
    }
}

/// Sequences that lack a byte lack it when joined.
pub proof fn lemma_lacks_joined(a: Seq<u8>, b: Seq<u8>, x: u8)
    requires
        lacks(a, x),
        lacks(b, x),
    ensures
        lacks(a + b, x),
{
    assert forall|i: int| 0 <= i < (a + b).len() implies #[trigger] (a + b)[i] != x by {
        if i < a.len() {
            assert((a + b)[i] == a[i]);
        } else {
            assert((a + b)[i] == b[i - a.len()]);
        }
    }
}

/// Nowhere in `s` does `b` follow `a`.
pub open spec fn pair_free(s: Seq<u8>, a: u8, b: u8) -> bool {
    forall|i: int| 0 <= i && i + 1 < s.len() ==> !(#[trigger] s[i] == a && s[i + 1] == b)
}

/// Nowhere in the first `k + 1` bytes of `s` does `b` follow `a`.
pub open spec fn pair_free_upto(s: Seq<u8>, a: u8, b: u8, k: nat) -> bool
    decreases k,
{
    k == 0 || (!(s[k - 1] == a && s[k as int] == b) && pair_free_upto(s, a, b, (k - 1) as nat))
}

/// What holds of the first `k` pairs one by one holds of each of them.
pub proof fn lemma_pair_free_upto(s: Seq<u8>, a: u8, b: u8, k: nat)
    requires
        pair_free_upto(s, a, b, k),
    ensures
        forall|i: int| 0 <= i < k ==> !(#[trigger] s[i] == a && s[i + 1] == b),
    decreases k,
{
    if k > 0 {
        lemma_pair_free_upto(s, a, b, (k - 1) as nat);
    }
}

/// Sequences in which `b` never follows `a` stay so when joined, unless
/// the first ends with `a` and the second starts with `b`.
pub proof fn lemma_pair_free_joined(x: Seq<u8>, y: Seq<u8>, a: u8, b: u8)
    requires
        pair_free(x, a, b),
        pair_free(y, a, b),
        x.len() > 0 && y.len() > 0 ==> !(x.last() == a && y[0] == b),
    ensures
        pair_free(x + y, a, b),
{
    assert forall|i: int| 0 <= i && i + 1 < (x + y).len() implies !(#[trigger] (x + y)[i] == a && (x
        + y)[i + 1] == b) by {
        if i + 1 < x.len() {
            assert((x + y)[i] == x[i]);
            assert((x + y)[i + 1] == x[i + 1]);
        } else if i < x.len() {
            assert((x + y)[i] == x.last());
            assert((x + y)[i + 1] == y[0]);
        } else {
            assert((x + y)[i] == y[i - x.len()]);
            assert((x + y)[i + 1] == y[i - x.len() + 1]);
        }
    }
}

/// A needle of two bytes or more occurs nowhere in a sequence in which its
/// second byte never follows its first.
pub proof fn lemma_pair_free_no_occurrence(hay: Seq<u8>, needle: Seq<u8>, j: int)
    requires
        needle.len() >= 2,
        pair_free(hay, needle[0], needle[1]),
    ensures
        !occurs_at(hay, needle, j),
{
    if occurs_at(hay, needle, j) {
        let found = hay.subrange(j, j + needle.len());
        assert(found[0] == hay[j]);
        assert(found[1] == hay[j + 1]);
    }
}

/// The byte at an offset, as an occurrence of a needle of one byte.
pub proof fn lemma_byte_occurs(hay: Seq<u8>, b: u8, at: int)
    requires
        0 <= at < hay.len(),
    ensures
        occurs_at(hay, seq![b], at) <==> hay[at] == b,
{
    if hay[at] == b {
        assert(hay.subrange(at, at + 1) =~= seq![b]);
    }
    if occurs_at(hay, seq![b], at) {
        assert(hay.subrange(at, at + 1)[0] == hay[at]);
    }
}

/// Writing over bytes leaves the length and every other byte as it was.
pub proof fn lemma_overwritten(s: Seq<u8>, at: int, patch: Seq<u8>)
    requires
        0 <= at,
        at + patch.len() <= s.len(),
    ensures
        overwritten(s, at, patch).len() == s.len(),
        forall|i: int|
            0 <= i < s.len() ==> #[trigger] overwritten(s, at, patch)[i] == (if at <= i < at
                + patch.len() {
                patch[i - at]
            } else {
                s[i]
            }),
{
}

/// A part that writing does not reach stays as it was.
pub proof fn lemma_part_kept(s: Seq<u8>, at: int, patch: Seq<u8>, from: int, to: int)
    requires
        0 <= at,
        at + patch.len() <= s.len(),
        0 <= from <= to <= s.len(),
        to <= at || at + patch.len() <= from,
    ensures
        overwritten(s, at, patch).subrange(from, to) == s.subrange(from, to),
{
    lemma_overwritten(s, at, patch);
    assert(overwritten(s, at, patch).subrange(from, to) =~= s.subrange(from, to));
}

/// What was written stands where it was written.
pub proof fn lemma_part_written(s: Seq<u8>, at: int, patch: Seq<u8>)
    requires
        0 <= at,
        at + patch.len() <= s.len(),
    ensures
        overwritten(s, at, patch).subrange(at, at + patch.len()) == patch,
{
    lemma_overwritten(s, at, patch);
    assert(overwritten(s, at, patch).subrange(at, at + patch.len()) =~= patch);
}

/// A needle that stands in a part that writing does not reach still
/// stands there.
pub proof fn lemma_occurrence_kept(
    s: Seq<u8>,
    at: int,
    patch: Seq<u8>,
    needle: Seq<u8>,
    j: int,
)
    requires
        0 <= at,
        at + patch.len() <= s.len(),
        occurs_at(s, needle, j),
        j + needle.len() <= at || at + patch.len() <= j,
    ensures
        occurs_at(overwritten(s, at, patch), needle, j),
{
    lemma_part_kept(s, at, patch, j, j + needle.len());
}

} // verus!
