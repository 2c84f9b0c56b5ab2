use vstd::prelude::*;

verus! {

/// `s` rotated left by `k`: the first `k` items move to the end.
pub open spec fn rotated_left<T>(s: Seq<T>, k: int) -> Seq<T> {
    s.subrange(k, s.len() as int) + s.subrange(0, k)
}

/// `s` rotated right by `k`: the last `k` items move to the front.
pub open spec fn rotated_right<T>(s: Seq<T>, k: int) -> Seq<T> {
    rotated_left(s, s.len() - k)
}

/// Item `i` of `s` rotated left by `k` is item `(i + k) mod len` of `s`.
pub proof fn lemma_rotated_left_index<T>(s: Seq<T>, k: int, i: int)
    requires
        0 <= k <= s.len(),
        0 <= i < s.len(),
    ensures
        rotated_left(s, k).len() == s.len(),
        rotated_left(s, k)[i] == s[if i + k < s.len() { i + k } else { i + k - s.len() }],
{
}

/// Rotating right by `k` undoes rotating left by `k`.
pub proof fn lemma_rotate_left_then_right<T>(s: Seq<T>, k: int)
    requires
        0 <= k <= s.len(),
    ensures
        rotated_right(rotated_left(s, k), k) == s,
{
    let r = rotated_left(s, k);
    assert(rotated_right(r, k) =~= s);
}

/// Rotating left by `k` undoes rotating right by `k`.
pub proof fn lemma_rotate_right_then_left<T>(s: Seq<T>, k: int)
    requires
        0 <= k <= s.len(),
    ensures
        rotated_left(rotated_right(s, k), k) == s,
{
    let r = rotated_right(s, k);
    assert(rotated_left(r, k) =~= s);
}

/// Rotates `v` left by `k` in place.
pub fn rotate_vec_left<T>(v: &mut Vec<T>, k: usize)
    requires
        k <= old(v)@.len(),
    ensures
        final(v)@ == rotated_left(old(v)@, k as int),
{
    let mut tail = v.split_off(k);
    tail.append(v);
    v.append(&mut tail);
}

/// Rotates `v` right by `k` in place.
pub fn rotate_vec_right<T>(v: &mut Vec<T>, k: usize)
    requires
        k <= old(v)@.len(),
    ensures
        final(v)@ == rotated_right(old(v)@, k as int),
{
    let n = v.len();
    rotate_vec_left(v, n - k);
}

/// Rotates the part `start .. start + len` of `s` left by `k`, leaving the rest alone.
pub fn rotate_segment_left(s: &mut [u8], start: usize, len: usize, k: usize)
    requires
        start + len <= old(s)@.len(),
        k <= len,
    ensures
        final(s)@ == old(s)@.subrange(0, start as int)
            + rotated_left(old(s)@.subrange(start as int, start + len), k as int)
            + old(s)@.subrange(start + len, old(s)@.len() as int),
{
    let ghost before = s@;
    assert(s@.len() == s.len());
    let seg = vstd::slice::slice_to_vec(vstd::slice::slice_subrange(s, start, start + len));
    let mut j: usize = 0;
    while j < len
        invariant
            start + len <= before.len(),
            k <= len,
            j <= len,
            seg@ == before.subrange(start as int, start + len),
            s@.len() == before.len(),
            before.len() <= usize::MAX,
            forall|i: int|
                0 <= i < s@.len() ==> #[trigger] s@[i] == if start <= i < start + j {
                    seg@[if i - start + k < len { i - start + k } else { i - start + k - len }]
                } else {
                    before[i]
                },
        decreases len - j,
    {
        let from = if j < len - k { j + k } else { j - (len - k) };
        s[start + j] = seg[from];
        j = j + 1;
    }
    assert(s@ =~= before.subrange(0, start as int) + rotated_left(
        before.subrange(start as int, start + len),
        k as int,
    ) + before.subrange(start + len, before.len() as int));
}

} // verus!
