//! The fast transforms: the Walsh-Hadamard transform over the integers
//! modulo `onemask`, and the additive FFT / inverse FFT over the novel
//! polynomial basis.
//!
//! Every transform is modelled as a sequence of butterfly *stages*, one per
//! stride `d = 1, 2, 4, ...`; a stage is a pointwise map on the data
//! sequence. The executable loops are proved to implement the staged
//! model, and the inversion law `ifft(fft(x)) == x` is proved by showing
//! that each inverse stage undoes the corresponding forward stage.

use vstd::prelude::*;
use vstd::arithmetic::div_mod::{
    lemma_fundamental_div_mod, lemma_fundamental_div_mod_converse, lemma_mod_bound,
    lemma_mod_multiples_basic, lemma_mod_multiples_vanish, lemma_small_mod,
};
use vstd::arithmetic::power2::{
    is_pow2, is_pow2_equiv, is_pow2_exists, lemma2_to64, lemma_pow2, lemma_pow2_adds,
    lemma_pow2_pos, lemma_pow2_strictly_increases, lemma_pow2_unfold, pow2,
};
use vstd::arithmetic::power::pow;
use crate::field::{elems_le, mul_table, Elt, Field, Wide};

verus! {

/// Fold a value of `[0, 2m]` into `[0, m]`; the representative of the
/// residue modulo `m` used throughout, where a non-zero multiple of `m`
/// is written `m`.
pub open spec fn fold_mod(x: int, m: int) -> int {
    if x > m {
        x - m
    } else {
        x
    }
}

/// One Walsh-Hadamard butterfly stage at stride `d`: each pair
/// `(p, p + d)` inside a block of `2d` becomes (sum, difference), both
/// folded modulo `m`.
pub open spec fn walsh_stage(z: Seq<Elt>, size: int, d: int, m: int) -> Seq<Elt> {
    Seq::new(
        z.len(),
        |p: int|
            if 0 <= p < size && p % (2 * d) < d {
                fold_mod(z[p] + z[p + d], m) as Elt
            } else if 0 <= p < size && p % (2 * d) >= d {
                fold_mod(z[p - d] + m - z[p], m) as Elt
            } else {
                z[p]
            },
    )
}

/// The Walsh-Hadamard transform: all stages from stride `d` up, doubling
/// while the stride is below `size`.
pub open spec fn walsh_rec(z: Seq<Elt>, size: int, d: int, m: int) -> Seq<Elt>
    decreases (if size - d >= 0 { size - d } else { 0 }),
{
    if d < 1 || d >= size {
        z
    } else {
        walsh_rec(walsh_stage(z, size, d, m), size, 2 * d, m)
    }
}

/// The value xored into the low lane of an FFT butterfly: zero when the
/// skew is the sentinel (the multiplication is skipped), else the product.
pub open spec fn mulx(f: Field, a: Elt, s: Elt) -> Elt {
    if s == f.onemask {
        0
    } else {
        f.spec_mul(a, s)
    }
}

/// Skew factor of the butterfly block whose upper half starts at `j`,
/// inside the codeword window at `index`.
pub open spec fn skew_of(f: Field, index: int, j: int) -> Elt {
    f.skew@[j + index - 1]
}

/// Skew half-stage at stride `d`: each low lane `p` absorbs the skewed
/// upper lane `p + d`. Applying it twice is the identity.
pub open spec fn skew_step(f: Field, z: Seq<Elt>, size: int, index: int, d: int) -> Seq<Elt> {
    Seq::new(
        z.len(),
        |p: int|
            if 0 <= p < size && p % (2 * d) < d {
                z[p] ^ mulx(f, z[p + d], skew_of(f, index, p - p % (2 * d) + d))
            } else {
                z[p]
            },
    )
}

/// Merge half-stage at stride `d`: each upper lane `p` absorbs the low
/// lane `p - d`. Applying it twice is the identity.
pub open spec fn merge_step(z: Seq<Elt>, size: int, d: int) -> Seq<Elt> {
    Seq::new(
        z.len(),
        |p: int|
            if 0 <= p < size && p % (2 * d) >= d {
                z[p] ^ z[p - d]
            } else {
                z[p]
            },
    )
}

/// The forward FFT: stages at strides `d, d/2, ..., 1`, skew before merge.
pub open spec fn fft_rec(f: Field, z: Seq<Elt>, size: int, index: int, d: int) -> Seq<Elt>
    decreases (if d >= 0 { d } else { 0 }),
{
    if d < 1 {
        z
    } else {
        fft_rec(f, merge_step(skew_step(f, z, size, index, d), size, d), size, index, d / 2)
    }
}

/// The inverse FFT: stages at strides `d, 2d, ...` below `lim`, merge
/// before skew.
pub open spec fn ifft_rec(f: Field, z: Seq<Elt>, size: int, index: int, d: int, lim: int) -> Seq<
    Elt,
>
    decreases (if lim - d >= 0 { lim - d } else { 0 }),
{
    if d < 1 || d >= lim {
        z
    } else {
        ifft_rec(f, skew_step(f, merge_step(z, size, d), size, index, d), size, index, 2 * d, lim)
    }
}

/// Inside a block of width `2d` that starts at `j - d`, position `p` has
/// residue `p - (j - d)` modulo `2d`, and its block is the one at `j`.
proof fn lemma_block_mod(j: int, d: int, p: int)
    requires
        d >= 1,
        (j - d) % (2 * d) == 0,
        j - d <= p < j + d,
    ensures
        p % (2 * d) == p - (j - d),
        p - p % (2 * d) + d == j,
{
    let t = (j - d) / (2 * d);
    lemma_fundamental_div_mod(j - d, 2 * d);
    assert(j - d == 2 * d * t);
    assert(p == t * (2 * d) + (p - (j - d))) by (nonlinear_arith)
        requires
            j - d == 2 * d * t,
    ;
    lemma_fundamental_div_mod_converse(p, 2 * d, t, p - (j - d));
}

/// Xor of two values bounded by an all-ones mask stays bounded.
proof fn lemma_xor_le(a: Elt, b: Elt, m: Elt)
    requires
        m == 255 || m == 65535,
        a <= m,
        b <= m,
    ensures
        (a ^ b) <= m,
{
    assert((a ^ b) <= m) by (bit_vector)
        requires
            m == 255 || m == 65535,
            a <= m,
            b <= m,
    ;
}

/// Xoring the same value twice is the identity.
proof fn lemma_xor_cancel(a: Elt, b: Elt)
    ensures
        ((a ^ b) ^ b) == a,
        (a ^ 0) == a,
{
    assert(((a ^ b) ^ b) == a && (a ^ 0) == a) by (bit_vector);
}

/// One executable Walsh-Hadamard stage at stride `d`.
fn walsh_stage_exec(data: &mut Vec<Elt>, size: usize, d: usize, mask: Elt)
    requires
        mask >= 1,
        1 <= d,
        2 * d <= size,
        size <= old(data).len(),
        size as int % (2 * d as int) == 0,
        elems_le(old(data)@, mask as int),
    ensures
        final(data)@ == walsh_stage(old(data)@, size as int, d as int, mask as int),
        final(data).len() == old(data).len(),
        elems_le(final(data)@, mask as int),
{
    let ghost z = old(data)@;
    let ghost goal = walsh_stage(z, size as int, d as int, mask as int);
    let mut j: usize = 0;
    proof {
        lemma_small_mod(0, (2 * d) as nat);
    }
    while j < size
        invariant
            mask >= 1,
            1 <= d,
            2 * d <= size,
            size <= data.len(),
            data.len() == z.len(),
            size as int % (2 * d as int) == 0,
            j as int % (2 * d as int) == 0,
            j <= size,
            goal == walsh_stage(z, size as int, d as int, mask as int),
            elems_le(data@, mask as int),
            forall|p: int| 0 <= p < j ==> data@[p] == goal[p],
            forall|p: int| j <= p < data.len() ==> data@[p] == z[p],
        decreases size - j,
    {
        proof {
            // the block [j, j + 2d) lies inside [0, size)
            let t = j as int / (2 * d as int);
            let s = size as int / (2 * d as int);
            lemma_fundamental_div_mod(j as int, 2 * d as int);
            lemma_fundamental_div_mod(size as int, 2 * d as int);
            assert(j + 2 * d <= size) by (nonlinear_arith)
                requires
                    j as int == 2 * d as int * t,
                    size as int == 2 * d as int * s,
                    j < size,
                    d >= 1,
            ;
        }
        let mut i: usize = j;
        while i < j + d
            invariant
                mask >= 1,
                1 <= d,
                j + 2 * d <= size <= data.len(),
                data.len() == z.len(),
                j <= i <= j + d,
                j as int % (2 * d as int) == 0,
                goal == walsh_stage(z, size as int, d as int, mask as int),
                elems_le(data@, mask as int),
                forall|p: int| 0 <= p < j ==> data@[p] == goal[p],
                forall|p: int| j <= p < i ==> data@[p] == goal[p],
                forall|p: int| j + d <= p < i + d ==> data@[p] == goal[p],
                forall|p: int| i <= p < j + d ==> data@[p] == z[p],
                forall|p: int| i + d <= p < data.len() ==> data@[p] == z[p],
            decreases j + d - i,
        {
            let a: Wide = data[i] as Wide;
            let b: Wide = data[i + d] as Wide;
            let tmp1: Wide = a + b;
            let tmp2: Wide = a + mask as Wide - b;
            let lo: Wide = if tmp1 > mask as Wide {
                tmp1 - mask as Wide
            } else {
                tmp1
            };
            let hi: Wide = if tmp2 > mask as Wide {
                tmp2 - mask as Wide
            } else {
                tmp2
            };
            proof {
                lemma_block_mod(j as int + d as int, d as int, i as int);
                lemma_block_mod(j as int + d as int, d as int, i as int + d as int);
                assert(goal[i as int] == fold_mod(z[i as int] + z[i as int + d as int],
                    mask as int) as Elt);
                assert(goal[i as int + d as int] == fold_mod(
                    z[i as int] + mask - z[i as int + d as int],
                    mask as int,
                ) as Elt);
            }
            data[i] = lo as Elt;
            data[i + d] = hi as Elt;
            i += 1;
        }
        proof {
            lemma_mod_multiples_vanish(1, j as int, 2 * d as int);
        }
        j += 2 * d;
    }
    proof {
        assert(final(data)@ =~= goal);
    }
}

/// Fast Walsh-Hadamard transform, in place over `data[0..size]`, on
/// values in `[0, mask]` with arithmetic modulo `mask`.
pub fn walsh(data: &mut Vec<Elt>, size: usize, mask: Elt)
    requires
        mask == 255 || mask == 65535,
        size <= old(data).len(),
        size == 0 || is_pow2(size as int),
        elems_le(old(data)@, mask as int),
    ensures
        final(data)@ == walsh_rec(old(data)@, size as int, 1, mask as int),
        final(data).len() == old(data).len(),
        elems_le(final(data)@, mask as int),
{
    let ghost z = old(data)@;
    let ghost goal = walsh_rec(z, size as int, 1, mask as int);
    proof {
        if size > 0 {
            is_pow2_equiv(size as int);
            assert(is_pow2_exists(size as int));
        }
    }
    let ghost se: nat = if size > 0 {
        choose|e: nat| pow(2, e) == size as int
    } else {
        0
    };
    proof {
        if size > 0 {
            lemma_pow2(se);
        }
    }
    let ghost mut de: nat = 0;
    let mut depart_no: usize = 1;
    proof {
        lemma2_to64();
    }
    while depart_no < size
        invariant
            mask == 255 || mask == 65535,
            size <= data.len(),
            data.len() == z.len(),
            size == 0 || size as int == pow2(se),
            depart_no as int == pow2(de),
            depart_no >= 1,
            elems_le(data@, mask as int),
            walsh_rec(data@, size as int, depart_no as int, mask as int) == goal,
        decreases size - depart_no,
    {
        proof {
            // 2 * depart_no divides size
            if de + 1 > se {
                if de == se {
                    assert(depart_no == size);
                } else {
                    lemma_pow2_strictly_increases(se, de);
                }
                assert(false);
            }
            let rest = (se - (de + 1)) as nat;
            lemma_pow2_adds(de + 1, rest);
            lemma_pow2_pos(rest);
            lemma_pow2_unfold(de + 1);
            assert(size as int == pow2(de + 1) as int * pow2(rest) as int);
            assert(size as int == pow2(rest) as int * (2 * depart_no as int))
                by (nonlinear_arith)
                requires
                    size as int == pow2(de + 1) as int * pow2(rest) as int,
                    pow2(de + 1) as int == 2 * depart_no as int,
            ;
            lemma_mod_multiples_basic(pow2(rest) as int, 2 * depart_no as int);
            assert(size as int % (2 * depart_no as int) == 0);
            assert(2 * depart_no <= size) by (nonlinear_arith)
                requires
                    size as int == pow2(rest) as int * (2 * depart_no as int),
                    pow2(rest) >= 1,
                    depart_no >= 1,
            ;
        }
        walsh_stage_exec(data, size, depart_no, mask);
        proof {
            de = de + 1;
            lemma_pow2_unfold(de);
        }
        depart_no *= 2;
    }
    proof {
        assert(final(data)@ == goal);
    }
}

/// One executable forward-FFT stage at stride `d`: skew half, then merge
/// half, block by block.
fn fft_stage_exec(data: &mut Vec<Elt>, size: usize, index: usize, d: usize, f: &Field)
    requires
        f.wf(),
        1 <= d,
        2 * d <= size,
        size <= old(data).len(),
        size as int % (2 * d as int) == 0,
        index + size <= f.field_size(),
        elems_le(old(data)@, f.onemask as int),
    ensures
        final(data)@ == merge_step(
            skew_step(*f, old(data)@, size as int, index as int, d as int),
            size as int,
            d as int,
        ),
        final(data).len() == old(data).len(),
        elems_le(final(data)@, f.onemask as int),
{
    let ghost z = old(data)@;
    let ghost sk = skew_step(*f, z, size as int, index as int, d as int);
    let ghost goal = merge_step(sk, size as int, d as int);
    let mut j: usize = d;
    proof {
        lemma_small_mod(0, (2 * d) as nat);
    }
    while j < size
        invariant
            f.wf(),
            1 <= d,
            2 * d <= size,
            size <= data.len(),
            data.len() == z.len(),
            size as int % (2 * d as int) == 0,
            (j - d) as int % (2 * d as int) == 0,
            d <= j,
            index + size <= f.field_size(),
            sk == skew_step(*f, z, size as int, index as int, d as int),
            goal == merge_step(sk, size as int, d as int),
            elems_le(data@, f.onemask as int),
            forall|p: int| 0 <= p < j - d ==> data@[p] == goal[p],
            forall|p: int| j - d <= p < data.len() ==> data@[p] == z[p],
        decreases size + d - j,
    {
        proof {
            let t = (j - d) as int / (2 * d as int);
            let s = size as int / (2 * d as int);
            lemma_fundamental_div_mod((j - d) as int, 2 * d as int);
            lemma_fundamental_div_mod(size as int, 2 * d as int);
            assert(j + d <= size) by (nonlinear_arith)
                requires
                    (j - d) as int == 2 * d as int * t,
                    size as int == 2 * d as int * s,
                    j < size,
                    d >= 1,
                    d <= j,
            ;
            assert forall|p: int| j - d <= p < j implies sk[p] == (z[p] ^ mulx(
                *f,
                z[p + d],
                f.skew@[j + index - 1],
            )) by {
                lemma_block_mod(j as int, d as int, p);
            }
            assert forall|p: int| j <= p < j + d implies sk[p] == z[p] by {
                lemma_block_mod(j as int, d as int, p);
            }
        }
        let skew: Elt = f.skew[j + index - 1];
        if skew != f.onemask {
            let mut i: usize = j - d;
            while i < j
                invariant
                    f.wf(),
                    1 <= d <= j,
                    j + d <= size <= data.len(),
                    data.len() == z.len(),
                    j - d <= i <= j,
                    skew == f.skew@[j + index - 1],
                    skew != f.onemask,
                    skew <= f.onemask,
                    forall|p: int|
                        j - d <= p < j ==> #[trigger] sk[p] == (z[p] ^ mulx(
                            *f,
                            z[p + d],
                            skew,
                        )),
                    elems_le(data@, f.onemask as int),
                    forall|p: int| 0 <= p < j - d ==> data@[p] == goal[p],
                    forall|p: int| j - d <= p < i ==> data@[p] == sk[p],
                    forall|p: int| i <= p < data.len() ==> data@[p] == z[p],
                decreases j - i,
            {
                let m = mul_table(data[i + d], skew, f);
                let v = data[i] ^ m;
                proof {
                    lemma_xor_le(data@[i as int], m, f.onemask);
                }
                data[i] = v;
                i += 1;
            }
        } else {
            proof {
                assert forall|p: int| j - d <= p < j implies sk[p] == z[p] by {
                    lemma_block_mod(j as int, d as int, p);
                    lemma_xor_cancel(z[p], 0);
                }
            }
        }
        // merge half: the upper lane absorbs the finished low lane
        let mut i: usize = j - d;
        while i < j
            invariant
                f.wf(),
                1 <= d <= j,
                j + d <= size <= data.len(),
                data.len() == z.len(),
                j - d <= i <= j,
                (j - d) as int % (2 * d as int) == 0,
                sk == skew_step(*f, z, size as int, index as int, d as int),
                goal == merge_step(sk, size as int, d as int),
                forall|p: int| j <= p < j + d ==> #[trigger] sk[p] == z[p],
                elems_le(data@, f.onemask as int),
                forall|p: int| 0 <= p < j - d ==> #[trigger] data@[p] == goal[p],
                forall|p: int| j - d <= p < j ==> #[trigger] data@[p] == sk[p],
                forall|p: int| j <= p < i + d ==> #[trigger] data@[p] == goal[p],
                forall|p: int| i + d <= p < data.len() ==> #[trigger] data@[p] == z[p],
            decreases j - i,
        {
            let v = data[i + d] ^ data[i];
            proof {
                lemma_xor_le(data@[i as int + d as int], data@[i as int], f.onemask);
                lemma_block_mod(j as int, d as int, i as int + d as int);
                lemma_block_mod(j as int, d as int, i as int);
                assert(goal[i as int + d as int] == (sk[i as int + d as int] ^ sk[i as int]));
                assert(goal[i as int] == sk[i as int]);
            }
            data[i + d] = v;
            i += 1;
        }
        proof {
            assert forall|p: int| j - d <= p < j implies #[trigger] goal[p] == sk[p] by {
                lemma_block_mod(j as int, d as int, p);
            }
            lemma_mod_multiples_vanish(1, (j - d) as int, 2 * d as int);
            let t = (j - d) as int / (2 * d as int);
            let s = size as int / (2 * d as int);
            lemma_fundamental_div_mod((j - d) as int, 2 * d as int);
            lemma_fundamental_div_mod(size as int, 2 * d as int);
            assert(j + d <= size) by (nonlinear_arith)
                requires
                    (j - d) as int == 2 * d as int * t,
                    size as int == 2 * d as int * s,
                    j < size,
                    d >= 1,
                    d <= j,
            ;
        }
        j += 2 * d;
    }
    proof {
        // the last block ends exactly at size
        let t = (j - d) as int / (2 * d as int);
        let s = size as int / (2 * d as int);
        lemma_fundamental_div_mod((j - d) as int, 2 * d as int);
        lemma_fundamental_div_mod(size as int, 2 * d as int);
        assert(j - d >= size) by (nonlinear_arith)
            requires
                (j - d) as int == 2 * d as int * t,
                size as int == 2 * d as int * s,
                j >= size,
                d >= 1,
        ;
        assert forall|p: int| 0 <= p < data.len() implies final(data)@[p] == goal[p] by {
            if p >= size as int {
                assert(sk[p] == z[p]);
                assert(goal[p] == sk[p]);
            }
        }
        assert(final(data)@ =~= goal);
    }
}

/// One executable inverse-FFT stage at stride `d`: merge half, then skew
/// half, block by block.
fn ifft_stage_exec(data: &mut Vec<Elt>, size: usize, index: usize, d: usize, f: &Field)
    requires
        f.wf(),
        1 <= d,
        2 * d <= size,
        size <= old(data).len(),
        size as int % (2 * d as int) == 0,
        index + size <= f.field_size(),
        elems_le(old(data)@, f.onemask as int),
    ensures
        final(data)@ == skew_step(
            *f,
            merge_step(old(data)@, size as int, d as int),
            size as int,
            index as int,
            d as int,
        ),
        final(data).len() == old(data).len(),
        elems_le(final(data)@, f.onemask as int),
{
    let ghost z = old(data)@;
    let ghost mg = merge_step(z, size as int, d as int);
    let ghost goal = skew_step(*f, mg, size as int, index as int, d as int);
    let mut j: usize = d;
    proof {
        lemma_small_mod(0, (2 * d) as nat);
    }
    while j < size
        invariant
            f.wf(),
            1 <= d,
            2 * d <= size,
            size <= data.len(),
            data.len() == z.len(),
            size as int % (2 * d as int) == 0,
            (j - d) as int % (2 * d as int) == 0,
            d <= j <= size + d,
            index + size <= f.field_size(),
            mg == merge_step(z, size as int, d as int),
            goal == skew_step(*f, mg, size as int, index as int, d as int),
            elems_le(data@, f.onemask as int),
            forall|p: int| 0 <= p < j - d ==> data@[p] == goal[p],
            forall|p: int| j - d <= p < data.len() ==> data@[p] == z[p],
        decreases size + d - j,
    {
        proof {
            let t = (j - d) as int / (2 * d as int);
            let s = size as int / (2 * d as int);
            lemma_fundamental_div_mod((j - d) as int, 2 * d as int);
            lemma_fundamental_div_mod(size as int, 2 * d as int);
            assert(j + d <= size) by (nonlinear_arith)
                requires
                    (j - d) as int == 2 * d as int * t,
                    size as int == 2 * d as int * s,
                    j < size,
                    d >= 1,
                    d <= j,
            ;
            assert forall|p: int| j - d <= p < j implies mg[p] == z[p] && goal[p] == (mg[p]
                ^ mulx(*f, mg[p + d], f.skew@[j + index - 1])) by {
                lemma_block_mod(j as int, d as int, p);
            }
            assert forall|p: int| j <= p < j + d implies mg[p] == (z[p] ^ z[p - d]) && goal[p]
                == mg[p] by {
                lemma_block_mod(j as int, d as int, p);
            }
        }
        // merge half first
        let mut i: usize = j - d;
        while i < j
            invariant
                f.wf(),
                1 <= d <= j,
                j + d <= size <= data.len(),
                data.len() == z.len(),
                j - d <= i <= j,
                forall|p: int| j <= p < j + d ==> mg[p] == (z[p] ^ z[p - d]),
                elems_le(data@, f.onemask as int),
                forall|p: int| 0 <= p < j - d ==> data@[p] == goal[p],
                forall|p: int| j - d <= p < j ==> data@[p] == z[p],
                forall|p: int| j <= p < i + d ==> data@[p] == mg[p],
                forall|p: int| i + d <= p < data.len() ==> data@[p] == z[p],
            decreases j - i,
        {
            let v = data[i + d] ^ data[i];
            proof {
                lemma_xor_le(data@[i as int + d as int], data@[i as int], f.onemask);
            }
            data[i + d] = v;
            i += 1;
        }
        // then the skew half, reading the fresh upper lanes
        let skew: Elt = f.skew[j + index - 1];
        if skew != f.onemask {
            let mut i2: usize = j - d;
            while i2 < j
                invariant
                    f.wf(),
                    1 <= d <= j,
                    j + d <= size <= data.len(),
                    data.len() == z.len(),
                    j - d <= i2 <= j,
                    skew == f.skew@[j + index - 1],
                    skew != f.onemask,
                    skew <= f.onemask,
                    forall|p: int|
                        j - d <= p < j ==> mg[p] == z[p] && goal[p] == (mg[p] ^ mulx(
                            *f,
                            mg[p + d],
                            skew,
                        )),
                    forall|p: int| j <= p < j + d ==> goal[p] == mg[p],
                    elems_le(data@, f.onemask as int),
                    forall|p: int| 0 <= p < j - d ==> data@[p] == goal[p],
                    forall|p: int| j - d <= p < i2 ==> data@[p] == goal[p],
                    forall|p: int| i2 <= p < j ==> data@[p] == z[p],
                    forall|p: int| j <= p < j + d ==> data@[p] == mg[p],
                    forall|p: int| j + d <= p < data.len() ==> data@[p] == z[p],
                decreases j - i2,
            {
                let m = mul_table(data[i2 + d], skew, f);
                let v = data[i2] ^ m;
                proof {
                    lemma_xor_le(data@[i2 as int], m, f.onemask);
                }
                data[i2] = v;
                i2 += 1;
            }
        } else {
            proof {
                assert forall|p: int| j - d <= p < j implies goal[p] == z[p] by {
                    lemma_xor_cancel(mg[p], 0);
                }
            }
        }
        proof {
            lemma_mod_multiples_vanish(1, (j - d) as int, 2 * d as int);
            let t = (j - d) as int / (2 * d as int);
            let s = size as int / (2 * d as int);
            lemma_fundamental_div_mod((j - d) as int, 2 * d as int);
            lemma_fundamental_div_mod(size as int, 2 * d as int);
            assert(j + d <= size) by (nonlinear_arith)
                requires
                    (j - d) as int == 2 * d as int * t,
                    size as int == 2 * d as int * s,
                    j < size,
                    d >= 1,
                    d <= j,
            ;
        }
        j += 2 * d;
    }
    proof {
        let t = (j - d) as int / (2 * d as int);
        let s = size as int / (2 * d as int);
        lemma_fundamental_div_mod((j - d) as int, 2 * d as int);
        lemma_fundamental_div_mod(size as int, 2 * d as int);
        assert(j - d >= size) by (nonlinear_arith)
            requires
                (j - d) as int == 2 * d as int * t,
                size as int == 2 * d as int * s,
                j >= size,
                d >= 1,
        ;
        assert forall|p: int| 0 <= p < data.len() implies final(data)@[p] == goal[p] by {
            if p >= size as int {
                assert(mg[p] == z[p]);
                assert(goal[p] == mg[p]);
            }
        }
        assert(final(data)@ =~= goal);
    }
}

/// Forward FFT over the novel polynomial basis, in place on
/// `data[0..size]`, for the codeword window whose absolute offset is
/// `index`.
pub fn fft_in_novel_poly_basis(data: &mut Vec<Elt>, size: usize, index: usize, f: &Field)
    requires
        f.wf(),
        size <= old(data).len(),
        size == 0 || is_pow2(size as int),
        index + size <= f.field_size(),
        elems_le(old(data)@, f.onemask as int),
    ensures
        final(data)@ == fft_rec(*f, old(data)@, size as int, index as int, size as int / 2),
        final(data).len() == old(data).len(),
        elems_le(final(data)@, f.onemask as int),
{
    let ghost z = old(data)@;
    let ghost goal = fft_rec(*f, z, size as int, index as int, size as int / 2);
    proof {
        if size > 0 {
            is_pow2_equiv(size as int);
        }
    }
    let ghost se: nat = if size > 0 {
        choose|e: nat| pow(2, e) == size as int
    } else {
        0
    };
    proof {
        if size > 0 {
            lemma_pow2(se);
        }
        lemma2_to64();
    }
    let mut depart_no: usize = size / 2;
    let ghost mut de: nat = if se > 0 {
        (se - 1) as nat
    } else {
        0
    };
    proof {
        if size > 0 && se > 0 {
            lemma_pow2_unfold(se);
        }
        if size > 0 && se == 0 {
            assert(size == 1 && depart_no == 0);
        }
    }
    while depart_no > 0
        invariant
            f.wf(),
            size <= data.len(),
            data.len() == z.len(),
            index + size <= f.field_size(),
            depart_no == 0 || (depart_no as int == pow2(de) && de < se && 2 * depart_no
                <= size && size as int == pow2(se)),
            elems_le(data@, f.onemask as int),
            fft_rec(*f, data@, size as int, index as int, depart_no as int) == goal,
        decreases depart_no,
    {
        proof {
            let rest = (se - (de + 1)) as nat;
            lemma_pow2_adds(de + 1, rest);
            lemma_pow2_pos(rest);
            lemma_pow2_unfold(de + 1);
            assert(size as int == pow2(rest) as int * (2 * depart_no as int))
                by (nonlinear_arith)
                requires
                    size as int == pow2(de + 1) as int * pow2(rest) as int,
                    pow2(de + 1) as int == 2 * depart_no as int,
            ;
            lemma_mod_multiples_basic(pow2(rest) as int, 2 * depart_no as int);
            assert(2 * depart_no <= size) by (nonlinear_arith)
                requires
                    size as int == pow2(rest) as int * (2 * depart_no as int),
                    pow2(rest) >= 1,
                    depart_no >= 1,
            ;
        }
        fft_stage_exec(data, size, index, depart_no, f);
        proof {
            lemma2_to64();
            if de > 0 {
                lemma_pow2_unfold(de);
                de = (de - 1) as nat;
            }
        }
        depart_no = depart_no / 2;
    }
    proof {
        assert(final(data)@ == goal);
    }
}

/// Inverse FFT over the novel polynomial basis, in place on
/// `data[0..size]`, for the codeword window whose absolute offset is
/// `index`.
pub fn inverse_fft_in_novel_poly_basis(data: &mut Vec<Elt>, size: usize, index: usize, f: &Field)
    requires
        f.wf(),
        size <= old(data).len(),
        size == 0 || is_pow2(size as int),
        index + size <= f.field_size(),
        elems_le(old(data)@, f.onemask as int),
    ensures
        final(data)@ == ifft_rec(*f, old(data)@, size as int, index as int, 1, size as int),
        final(data).len() == old(data).len(),
        elems_le(final(data)@, f.onemask as int),
{
    let ghost z = old(data)@;
    let ghost goal = ifft_rec(*f, z, size as int, index as int, 1, size as int);
    proof {
        if size > 0 {
            is_pow2_equiv(size as int);
        }
    }
    let ghost se: nat = if size > 0 {
        choose|e: nat| pow(2, e) == size as int
    } else {
        0
    };
    proof {
        if size > 0 {
            lemma_pow2(se);
        }
        lemma2_to64();
    }
    let ghost mut de: nat = 0;
    let mut depart_no: usize = 1;
    while depart_no < size
        invariant
            f.wf(),
            size <= data.len(),
            data.len() == z.len(),
            index + size <= f.field_size(),
            size == 0 || size as int == pow2(se),
            depart_no as int == pow2(de),
            depart_no >= 1,
            elems_le(data@, f.onemask as int),
            ifft_rec(*f, data@, size as int, index as int, depart_no as int, size as int)
                == goal,
        decreases size - depart_no,
    {
        proof {
            if de + 1 > se {
                if de == se {
                    assert(depart_no == size);
                } else {
                    lemma_pow2_strictly_increases(se, de);
                }
                assert(false);
            }
            let rest = (se - (de + 1)) as nat;
            lemma_pow2_adds(de + 1, rest);
            lemma_pow2_pos(rest);
            lemma_pow2_unfold(de + 1);
            assert(size as int == pow2(rest) as int * (2 * depart_no as int))
                by (nonlinear_arith)
                requires
                    size as int == pow2(de + 1) as int * pow2(rest) as int,
                    pow2(de + 1) as int == 2 * depart_no as int,
            ;
            lemma_mod_multiples_basic(pow2(rest) as int, 2 * depart_no as int);
            assert(2 * depart_no <= size) by (nonlinear_arith)
                requires
                    size as int == pow2(rest) as int * (2 * depart_no as int),
                    pow2(rest) >= 1,
                    depart_no >= 1,
            ;
        }
        ifft_stage_exec(data, size, index, depart_no, f);
        proof {
            de = de + 1;
            lemma_pow2_unfold(de);
        }
        depart_no *= 2;
    }
    proof {
        assert(final(data)@ == goal);
    }
}

} // verus!

// The inversion law and its supporting lemmas.

verus! {

/// Moving from a low lane to its partner adds `d` to the residue and
/// keeps the block.
proof fn lemma_mod_shift_up(d: int, p: int)
    requires
        d >= 1,
        p >= 0,
        p % (2 * d) < d,
    ensures
        (p + d) % (2 * d) == p % (2 * d) + d,
{
    let t = p / (2 * d);
    lemma_fundamental_div_mod(p, 2 * d);
    lemma_mod_bound(p, 2 * d);
    assert(p + d == t * (2 * d) + (p % (2 * d) + d)) by (nonlinear_arith)
        requires
            p == 2 * d * t + p % (2 * d),
    ;
    lemma_fundamental_div_mod_converse(p + d, 2 * d, t, p % (2 * d) + d);
}

/// Moving from an upper lane to its partner subtracts `d` from the
/// residue and keeps the block.
proof fn lemma_mod_shift_down(d: int, p: int)
    requires
        d >= 1,
        p >= 0,
        p % (2 * d) >= d,
    ensures
        (p - d) % (2 * d) == p % (2 * d) - d,
{
    let t = p / (2 * d);
    lemma_fundamental_div_mod(p, 2 * d);
    lemma_mod_bound(p, 2 * d);
    assert(p - d == t * (2 * d) + (p % (2 * d) - d)) by (nonlinear_arith)
        requires
            p == 2 * d * t + p % (2 * d),
    ;
    lemma_fundamental_div_mod_converse(p - d, 2 * d, t, p % (2 * d) - d);
}

/// The skew half-stage is an involution: the upper lanes are untouched,
/// so the second pass xors the very same product back out.
proof fn lemma_skew_step_twice(f: Field, z: Seq<Elt>, size: int, index: int, d: int)
    requires
        d >= 1,
        size <= z.len(),
        size % (2 * d) == 0,
    ensures
        skew_step(f, skew_step(f, z, size, index, d), size, index, d) == z,
{
    let s1 = skew_step(f, z, size, index, d);
    let s2 = skew_step(f, s1, size, index, d);
    assert forall|p: int| 0 <= p < z.len() implies s2[p] == z[p] by {
        if 0 <= p < size && p % (2 * d) < d {
            lemma_mod_shift_up(d, p);
            let t = p / (2 * d);
            let q = size / (2 * d);
            lemma_fundamental_div_mod(p, 2 * d);
            lemma_fundamental_div_mod(size, 2 * d);
            lemma_mod_bound(p, 2 * d);
            assert(p + d < size) by (nonlinear_arith)
                requires
                    p == 2 * d * t + p % (2 * d),
                    size == 2 * d * q,
                    0 <= p % (2 * d) < d,
                    p < size,
                    d >= 1,
            ;
            assert(s1[p + d] == z[p + d]);
            let m = mulx(f, z[p + d], skew_of(f, index, p - p % (2 * d) + d));
            assert(s1[p] == (z[p] ^ m));
            assert(s2[p] == ((z[p] ^ m) ^ m));
            lemma_xor_cancel(z[p], m);
        }
    }
    assert(s2 =~= z);
}

/// The merge half-stage is an involution: the low lanes are untouched,
/// so the second pass xors the very same lane back out.
proof fn lemma_merge_step_twice(z: Seq<Elt>, size: int, d: int)
    requires
        d >= 1,
    ensures
        merge_step(merge_step(z, size, d), size, d) == z,
{
    let m1 = merge_step(z, size, d);
    let m2 = merge_step(m1, size, d);
    assert forall|p: int| 0 <= p < z.len() implies m2[p] == z[p] by {
        if 0 <= p < size && p % (2 * d) >= d {
            lemma_mod_shift_down(d, p);
            let t = p / (2 * d);
            lemma_fundamental_div_mod(p, 2 * d);
            lemma_mod_bound(p, 2 * d);
            assert(p - d >= 0) by (nonlinear_arith)
                requires
                    p == 2 * d * t + p % (2 * d),
                    p % (2 * d) >= d,
                    p >= 0,
                    d >= 1,
            ;
            assert(m1[p - d] == z[p - d]);
            assert(m1[p] == (z[p] ^ z[p - d]));
            assert(m2[p] == ((z[p] ^ z[p - d]) ^ z[p - d]));
            lemma_xor_cancel(z[p], z[p - d]);
        }
    }
    assert(m2 =~= z);
}

/// One inverse stage undoes one forward stage of the same stride.
proof fn lemma_stage_inverts(f: Field, z: Seq<Elt>, size: int, index: int, d: int)
    requires
        d >= 1,
        size <= z.len(),
        size % (2 * d) == 0,
    ensures
        skew_step(
            f,
            merge_step(merge_step(skew_step(f, z, size, index, d), size, d), size, d),
            size,
            index,
            d,
        ) == z,
{
    let sk = skew_step(f, z, size, index, d);
    lemma_merge_step_twice(sk, size, d);
    lemma_skew_step_twice(f, z, size, index, d);
}

/// Peeling the top stage off an inverse transform: running the inverse
/// stages up to `2^(eb+1)` equals running them up to `2^eb` and then
/// applying the stage at stride `2^eb`.
proof fn lemma_ifft_peel(f: Field, z: Seq<Elt>, size: int, index: int, ea: nat, eb: nat)
    requires
        ea <= eb,
    ensures
        ifft_rec(f, z, size, index, pow2(ea) as int, 2 * pow2(eb) as int) == skew_step(
            f,
            merge_step(
                ifft_rec(f, z, size, index, pow2(ea) as int, pow2(eb) as int),
                size,
                pow2(eb) as int,
            ),
            size,
            index,
            pow2(eb) as int,
        ),
    decreases eb - ea,
{
    let dd = pow2(ea) as int;
    let d = pow2(eb) as int;
    lemma_pow2_pos(ea);
    lemma_pow2_pos(eb);
    if ea == eb {
        assert(ifft_rec(f, z, size, index, d, 2 * d) == ifft_rec(
            f,
            skew_step(f, merge_step(z, size, d), size, index, d),
            size,
            index,
            2 * d,
            2 * d,
        ));
        assert(ifft_rec(f, z, size, index, d, d) == z);
    } else {
        lemma_pow2_strictly_increases(ea, eb);
        lemma_pow2_unfold(ea + 1);
        let z1 = skew_step(f, merge_step(z, size, dd), size, index, dd);
        assert(ifft_rec(f, z, size, index, dd, 2 * d) == ifft_rec(
            f,
            z1,
            size,
            index,
            2 * dd,
            2 * d,
        ));
        assert(ifft_rec(f, z, size, index, dd, d) == ifft_rec(f, z1, size, index, 2 * dd, d));
        assert(2 * dd == pow2(ea + 1) as int);
        lemma_ifft_peel(f, z1, size, index, ea + 1, eb);
    }
}

/// The inverse transform of `2^(e+1)` lanes undoes the forward transform
/// of the same window, stage by stage.
proof fn lemma_ifft_inverts_fft_rec(f: Field, z: Seq<Elt>, size: int, index: int, e: nat)
    requires
        size <= z.len(),
        size % (2 * pow2(e) as int) == 0,
    ensures
        ifft_rec(
            f,
            fft_rec(f, z, size, index, pow2(e) as int),
            size,
            index,
            1,
            2 * pow2(e) as int,
        ) == z,
    decreases e,
{
    let d = pow2(e) as int;
    lemma_pow2_pos(e);
    lemma2_to64();
    let sd = merge_step(skew_step(f, z, size, index, d), size, d);
    if e == 0 {
        assert(fft_rec(f, z, size, index, 1) == sd);
        assert(ifft_rec(f, sd, size, index, 1, 2) == ifft_rec(
            f,
            skew_step(f, merge_step(sd, size, 1), size, index, 1),
            size,
            index,
            2,
            2,
        ));
        lemma_stage_inverts(f, z, size, index, 1);
    } else {
        lemma_pow2_unfold(e);
        let d2 = pow2((e - 1) as nat) as int;
        assert(fft_rec(f, z, size, index, d) == fft_rec(f, sd, size, index, d / 2));
        assert(d / 2 == d2);
        assert(sd.len() == z.len());
        assert(size % (2 * d2) == 0) by {
            let q = size / (2 * d);
            lemma_fundamental_div_mod(size, 2 * d);
            assert(size == (2 * q) * (2 * d2)) by (nonlinear_arith)
                requires
                    size == 2 * d * q,
                    d == 2 * d2,
            ;
            lemma_mod_multiples_basic(2 * q, 2 * d2);
        }
        let w = fft_rec(f, sd, size, index, d2);
        lemma_ifft_peel(f, w, size, index, 0, e);
        assert(ifft_rec(f, w, size, index, 1, 2 * d2) == sd) by {
            lemma_ifft_inverts_fft_rec(f, sd, size, index, (e - 1) as nat);
        }
        assert(2 * d2 == d);
        assert(ifft_rec(f, w, size, index, 1, 2 * d) == skew_step(
            f,
            merge_step(ifft_rec(f, w, size, index, 1, d), size, d),
            size,
            index,
            d,
        ));
        lemma_stage_inverts(f, z, size, index, d);
    }
}

/// Law: the inverse FFT undoes the forward FFT. For any block `z`, any
/// power-of-two `size`, and any window offset `index`, running
/// `fft_in_novel_poly_basis` and then `inverse_fft_in_novel_poly_basis`
/// on the same `(size, index)` window returns the block unchanged, as
/// stated over the staged models that the two functions' contracts use.
pub proof fn lemma_ifft_inverts_fft(f: Field, z: Seq<Elt>, size: int, index: int)
    requires
        size >= 1,
        size <= z.len(),
        is_pow2(size),
    ensures
        ifft_rec(f, fft_rec(f, z, size, index, size / 2), size, index, 1, size) == z,
{
    is_pow2_equiv(size);
    let e = choose|e: nat| pow(2, e) == size;
    lemma_pow2(e);
    lemma2_to64();
    if size == 1 {
        assert(fft_rec(f, z, size, index, 0) == z);
        assert(ifft_rec(f, z, size, index, 1, 1) == z);
    } else {
        assert(e >= 1) by {
            if e == 0 {
                assert(pow2(0) == 1);
            }
        }
        lemma_pow2_unfold(e);
        assert(size / 2 == pow2((e - 1) as nat) as int);
        assert(size == 2 * pow2((e - 1) as nat) as int);
        lemma_mod_multiples_basic(1, size);
        assert(size % (2 * pow2((e - 1) as nat) as int) == 0);
        lemma_ifft_inverts_fft_rec(f, z, size, index, (e - 1) as nat);
    }
}


/// Law (one stage of the Walsh self-inversion): applying the same
/// Walsh-Hadamard butterfly stage twice scales every element of a
/// complete block by two, modulo `m`. The full transform repeats this
/// over every stride, which scales each element by `size` modulo `m`.
pub proof fn lemma_walsh_stage_twice_scales(z: Seq<Elt>, size: int, d: int, m: int, p: int)
    requires
        d >= 1,
        1 <= m <= 65535,
        size <= z.len(),
        size % (2 * d) == 0,
        0 <= p < size,
        elems_le(z, m),
    ensures
        walsh_stage(walsh_stage(z, size, d, m), size, d, m)[p] as int % m == (2 * z[p]) % m,
{
    let s1 = walsh_stage(z, size, d, m);
    let s2 = walsh_stage(s1, size, d, m);
    lemma_mod_bound(p, 2 * d);
    let t = p / (2 * d);
    let q = size / (2 * d);
    lemma_fundamental_div_mod(p, 2 * d);
    lemma_fundamental_div_mod(size, 2 * d);
    if p % (2 * d) < d {
        lemma_mod_shift_up(d, p);
        assert(p + d < size) by (nonlinear_arith)
            requires
                p == 2 * d * t + p % (2 * d),
                size == 2 * d * q,
                0 <= p % (2 * d) < d,
                p < size,
                d >= 1,
        ;
        let a = z[p] as int;
        let b = z[p + d] as int;
        assert(s1[p] as int == fold_mod(a + b, m));
        assert(s1[p + d] as int == fold_mod(a + m - b, m));
        assert(s2[p] as int == fold_mod(s1[p] as int + s1[p + d] as int, m));
        // the result differs from 2 z[p] by a known multiple of m
        let total = s2[p] as int;
        assert(total == 2 * a || total == 2 * a + m || total == 2 * a - m || total == 2 * a + 2
            * m);
        lemma_two_a_mod(a, total, m);
    } else {
        lemma_mod_shift_down(d, p);
        assert(p - d >= 0) by (nonlinear_arith)
            requires
                p == 2 * d * t + p % (2 * d),
                p % (2 * d) >= d,
                p >= 0,
                d >= 1,
        ;
        let a = z[p - d] as int;
        let b = z[p] as int;
        assert(s1[p - d] as int == fold_mod(a + b, m));
        assert(s1[p] as int == fold_mod(a + m - b, m));
        assert(s2[p] as int == fold_mod(s1[p - d] as int + m - s1[p] as int, m));
        let total = s2[p] as int;
        assert(total == 2 * b || total == 2 * b + m || total == 2 * b - m || total == 2 * b + 2
            * m || total == 2 * b - 2 * m);
        lemma_two_a_mod(b, total, m);
    }
}

/// A value that differs from `2a` by a multiple of `m` is congruent to
/// `2a`.
proof fn lemma_two_a_mod(a: int, total: int, m: int)
    requires
        m >= 1,
        total == 2 * a || total == 2 * a + m || total == 2 * a - m || total == 2 * a + 2 * m
            || total == 2 * a - 2 * m,
    ensures
        total % m == (2 * a) % m,
{
    if total == 2 * a + m {
        lemma_mod_multiples_vanish(1, 2 * a, m);
    } else if total == 2 * a - m {
        lemma_mod_multiples_vanish(-1, 2 * a, m);
    } else if total == 2 * a + 2 * m {
        lemma_mod_multiples_vanish(2, 2 * a, m);
    } else if total == 2 * a - 2 * m {
        lemma_mod_multiples_vanish(-2, 2 * a, m);
    }
}


/// The staged transforms preserve the length of the block.
proof fn lemma_ifft_rec_len(f: Field, z: Seq<Elt>, size: int, index: int, d: int, lim: int)
    ensures
        ifft_rec(f, z, size, index, d, lim).len() == z.len(),
    decreases (if lim - d >= 0 { lim - d } else { 0 }),
{
    if !(d < 1 || d >= lim) {
        lemma_ifft_rec_len(
            f,
            skew_step(f, merge_step(z, size, d), size, index, d),
            size,
            index,
            2 * d,
            lim,
        );
    }
}

/// One forward stage undoes one inverse stage of the same stride.
proof fn lemma_stage_inverts_rev(f: Field, z: Seq<Elt>, size: int, index: int, d: int)
    requires
        d >= 1,
        size <= z.len(),
        size % (2 * d) == 0,
    ensures
        merge_step(
            skew_step(
                f,
                skew_step(f, merge_step(z, size, d), size, index, d),
                size,
                index,
                d,
            ),
            size,
            d,
        ) == z,
{
    lemma_skew_step_twice(f, merge_step(z, size, d), size, index, d);
    lemma_merge_step_twice(z, size, d);
}

proof fn lemma_fft_inverts_ifft_rec(f: Field, z: Seq<Elt>, size: int, index: int, e: nat)
    requires
        size <= z.len(),
        size % (2 * pow2(e) as int) == 0,
    ensures
        fft_rec(
            f,
            ifft_rec(f, z, size, index, 1, 2 * pow2(e) as int),
            size,
            index,
            pow2(e) as int,
        ) == z,
    decreases e,
{
    let d = pow2(e) as int;
    lemma_pow2_pos(e);
    lemma2_to64();
    let w = ifft_rec(f, z, size, index, 1, d);
    lemma_ifft_rec_len(f, z, size, index, 1, d);
    lemma_ifft_peel(f, z, size, index, 0, e);
    let td = skew_step(f, merge_step(w, size, d), size, index, d);
    assert(ifft_rec(f, z, size, index, 1, 2 * d) == td);
    lemma_stage_inverts_rev(f, w, size, index, d);
    assert(merge_step(skew_step(f, td, size, index, d), size, d) == w);
    assert(fft_rec(f, td, size, index, d) == fft_rec(
        f,
        merge_step(skew_step(f, td, size, index, d), size, d),
        size,
        index,
        d / 2,
    ));
    assert(fft_rec(f, td, size, index, d) == fft_rec(f, w, size, index, d / 2));
    if e == 0 {
        assert(w == z);
        assert(fft_rec(f, w, size, index, 0) == w);
    } else {
        lemma_pow2_unfold(e);
        let d2 = pow2((e - 1) as nat) as int;
        assert(size % (2 * d2) == 0) by {
            let q = size / (2 * d);
            lemma_fundamental_div_mod(size, 2 * d);
            assert(size == (2 * q) * (2 * d2)) by (nonlinear_arith)
                requires
                    size == 2 * d * q,
                    d == 2 * d2,
            ;
            lemma_mod_multiples_basic(2 * q, 2 * d2);
        }
        lemma_fft_inverts_ifft_rec(f, z, size, index, (e - 1) as nat);
        assert(2 * d2 == d);
        assert(d / 2 == d2);
        assert(fft_rec(f, w, size, index, d2) == z);
    }
}

/// Law: the forward FFT undoes the inverse FFT. For any block `z`, any
/// power-of-two `size`, and any window offset `index`, running
/// `inverse_fft_in_novel_poly_basis` and then `fft_in_novel_poly_basis`
/// on the same `(size, index)` window returns the block unchanged, as
/// stated over the staged models that the two functions' contracts use.
pub proof fn lemma_fft_inverts_ifft(f: Field, z: Seq<Elt>, size: int, index: int)
    requires
        size >= 1,
        size <= z.len(),
        is_pow2(size),
    ensures
        fft_rec(f, ifft_rec(f, z, size, index, 1, size), size, index, size / 2) == z,
{
    is_pow2_equiv(size);
    let e = choose|e: nat| pow(2, e) == size;
    lemma_pow2(e);
    lemma2_to64();
    if size == 1 {
        assert(ifft_rec(f, z, size, index, 1, 1) == z);
        assert(fft_rec(f, z, size, index, 0) == z);
    } else {
        assert(e >= 1) by {
            if e == 0 {
                assert(pow2(0) == 1);
            }
        }
        lemma_pow2_unfold(e);
        assert(size / 2 == pow2((e - 1) as nat) as int);
        assert(size == 2 * pow2((e - 1) as nat) as int);
        lemma_mod_multiples_basic(1, size);
        assert(size % (2 * pow2((e - 1) as nat) as int) == 0);
        lemma_fft_inverts_ifft_rec(f, z, size, index, (e - 1) as nat);
    }
}

} // verus!
