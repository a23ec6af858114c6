use vstd::prelude::*;

verus! {

/// `s` after the `len` items starting at `src` were moved to start at `dst`,
/// with memmove semantics: the destination receives the source as it stood
/// before the move, and every item outside the destination keeps its value.
pub open spec fn moved<A>(s: Seq<A>, src: int, len: int, dst: int) -> Seq<A> {
    Seq::new(s.len(), |i: int| if dst <= i < dst + len { s[src + (i - dst)] } else { s[i] })
}

/// Moves `len` bytes of `v` from `src` to `dst`; the two ranges may overlap.
pub fn move_block(v: &mut Vec<u8>, src: usize, len: usize, dst: usize)
    requires
        src + len <= old(v).len(),
        dst + len <= old(v).len(),
    ensures
        final(v)@ == moved(old(v)@, src as int, len as int, dst as int),
{
    if dst <= src {
        // Forward: each read lies at or after every position written so far.
        let mut k: usize = 0;
        while k < len
            invariant
                v.len() == old(v).len(),
                src + len <= v.len(),
                dst + len <= v.len(),
                dst <= src,
                k <= len,
                forall|i: int|
                    0 <= i < v.len() ==> v@[i] == (if dst <= i < dst + k {
                        old(v)@[src + (i - dst)]
                    } else {
                        old(v)@[i]
                    }),
            decreases len - k,
        {
            let x = v[src + k];
            v.set(dst + k, x);
            k = k + 1;
        }
    } else {
        // Backward: each read lies before every position written so far.
        let mut k: usize = len;
        while k > 0
            invariant
                v.len() == old(v).len(),
                src + len <= v.len(),
                dst + len <= v.len(),
                src < dst,
                k <= len,
                forall|i: int|
                    0 <= i < v.len() ==> v@[i] == (if dst + k <= i < dst + len {
                        old(v)@[src + (i - dst)]
                    } else {
                        old(v)@[i]
                    }),
            decreases k,
        {
            let x = v[src + k - 1];
            v.set(dst + k - 1, x);
            k = k - 1;
        }
    }
    assert(v@ =~= moved(old(v)@, src as int, len as int, dst as int));
}

} // verus!
