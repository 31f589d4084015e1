//! Growing and overwriting byte buffers.

use vstd::prelude::*;

verus! {

/// Appends `bytes` to `out`.
pub fn append(out: &mut Vec<u8>, bytes: &[u8])
    ensures
        final(out)@ == old(out)@ + bytes@,
{
    out.extend_from_slice(bytes);
    assert(final(out)@ =~= old(out)@ + bytes@);
}

/// `s` with the bytes from `at` on replaced by `patch`, as far as `patch`
/// reaches.
pub open spec fn overwritten(s: Seq<u8>, at: int, patch: Seq<u8>) -> Seq<u8> {
    s.subrange(0, at) + patch + s.subrange(at + patch.len(), s.len() as int)
}

/// Overwrites the bytes of `buf` from `at` on with `patch`. The length of
/// `buf` stays what it was.
pub fn overwrite(buf: &mut Vec<u8>, at: usize, patch: &[u8])
    requires
        at + patch.len() <= old(buf).len(),
    ensures
        final(buf)@ == overwritten(old(buf)@, at as int, patch@),
        final(buf)@.len() == old(buf)@.len(),
{
    let mut k: usize = 0;
    while k < patch.len()
        invariant
            k <= patch.len(),
            at + patch.len() <= buf.len(),
            buf@.len() == old(buf)@.len(),
            buf@ == overwritten(old(buf)@, at as int, patch@.subrange(0, k as int)),
        decreases patch.len() - k,
    {
        buf.set(at + k, patch[k]);
        k = k + 1;
        assert(buf@ =~= overwritten(old(buf)@, at as int, patch@.subrange(0, k as int)));
    }
    assert(patch@.subrange(0, k as int) =~= patch@);
}

/// The bytes of each of `items`.
pub open spec fn byte_views(items: Seq<Vec<u8>>) -> Seq<Seq<u8>> {
    Seq::new(items.len(), |i: int| items[i]@)
}

/// The bytes of `parts` one after another.
pub open spec fn joined(parts: Seq<Seq<u8>>) -> Seq<u8>
    decreases parts.len(),
{
    if parts.len() == 0 {
        Seq::<u8>::empty()
    } else {
        joined(parts.drop_last()) + parts.last()
    }
}

/// Appends each of `parts` to `out`, in their order.
pub fn append_all(out: &mut Vec<u8>, parts: &Vec<Vec<u8>>)
    ensures
        final(out)@ == old(out)@ + joined(byte_views(parts@)),
{
    let ghost all = byte_views(parts@);
    let mut i: usize = 0;
    assert(all.subrange(0, 0) =~= Seq::<Seq<u8>>::empty());
    assert(out@ =~= old(out)@ + joined(all.subrange(0, 0)));
    while i < parts.len()
        invariant
            i <= parts.len(),
            all == byte_views(parts@),
            out@ == old(out)@ + joined(all.subrange(0, i as int)),
        decreases parts.len() - i,
    {
        let ghost seen = joined(all.subrange(0, i as int));
        proof {
            assert(all.subrange(0, i + 1).drop_last() =~= all.subrange(0, i as int));
            assert(all.subrange(0, i + 1).last() == parts@[i as int]@);
        }
        append(out, parts[i].as_slice());
        assert(out@ =~= old(out)@ + (seen + parts@[i as int]@));
        i = i + 1;
    }
    assert(all.subrange(0, parts@.len() as int) =~= all);
}

} // verus!
