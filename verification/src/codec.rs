//! The erasure codec: low-rate and high-rate encoders, the evaluation of
//! the error-locator polynomial, the formal derivative in the novel
//! basis, and the main erasure decoder.

use vstd::prelude::*;
use vstd::arithmetic::div_mod::{
    lemma_fundamental_div_mod, lemma_fundamental_div_mod_converse, lemma_mod_multiples_basic,
};
use vstd::arithmetic::power2::is_pow2;
use crate::field::{elems_le, mul_table, Elt, Field};
use crate::transform::{
    fft_in_novel_poly_basis, fft_rec, ifft_rec, inverse_fft_in_novel_poly_basis, walsh, walsh_rec,
};

verus! {

/// Floor of the base-two logarithm; zero for inputs below two.
pub open spec fn spec_log2(x: int) -> int
    decreases x,
{
    if x <= 1 {
        0
    } else {
        1 + spec_log2(x / 2)
    }
}

/// Floor of the base-two logarithm of `x`.
pub fn log2(x: usize) -> (r: usize)
    ensures
        r as int == spec_log2(x as int),
{
    if x <= 1 {
        return 0;
    }
    let mut y: usize = x;
    let mut o: usize = 0;
    while y > 1
        invariant
            o + spec_log2(y as int) == spec_log2(x as int),
            y >= 1,
            o + y <= x,
        decreases y,
    {
        y = y / 2;
        o += 1;
    }
    o
}

/// Whether `x` is a power of two.
pub fn is_power_of_2(x: usize) -> (r: bool)
    ensures
        r == is_pow2(x as int),
{
    if x == 0 {
        proof {
            reveal_with_fuel(is_pow2, 2);
            assert(!is_pow2(0));
        }
        return false;
    }
    let mut y: usize = x;
    while y > 1
        invariant
            y >= 1,
            is_pow2(x as int) == is_pow2(y as int),
        decreases y,
    {
        proof {
            reveal_with_fuel(is_pow2, 2);
            assert(is_pow2(y as int) == (y as int % 2 == 0 && is_pow2(y as int / 2)));
        }
        if y % 2 != 0 {
            return false;
        }
        y = y / 2;
    }
    proof {
        reveal_with_fuel(is_pow2, 2);
        assert(is_pow2(1));
    }
    true
}

/// Zero a whole symbol buffer.
pub fn mem_zero(zerome: &mut Vec<Elt>)
    ensures
        final(zerome).len() == old(zerome).len(),
        forall|i: int| 0 <= i < final(zerome).len() ==> final(zerome)@[i] == 0,
{
    let mut i: usize = 0;
    let n = zerome.len();
    while i < n
        invariant
            n == zerome.len(),
            i <= n,
            forall|p: int| 0 <= p < i ==> zerome@[p] == 0,
        decreases n - i,
    {
        zerome[i] = 0;
        i += 1;
    }
}

/// Copy a whole symbol buffer over another of the same length.
pub fn mem_cpy(dest: &mut Vec<Elt>, src: &Vec<Elt>)
    requires
        old(dest).len() == src.len(),
    ensures
        final(dest)@ == src@,
{
    let mut i: usize = 0;
    let n = src.len();
    while i < n
        invariant
            n == src.len(),
            dest.len() == src.len(),
            i <= n,
            forall|p: int| 0 <= p < i ==> dest@[p] == src@[p],
        decreases n - i,
    {
        dest[i] = src[i];
        i += 1;
    }
    proof {
        assert(final(dest)@ =~= src@);
    }
}

/// Copy `len` symbols from `src[from..]` into `dst[at..]`.
fn copy_window(dst: &mut Vec<Elt>, at: usize, src: &Vec<Elt>, from: usize, len: usize)
    requires
        at + len <= old(dst).len(),
        from + len <= src.len(),
    ensures
        final(dst).len() == old(dst).len(),
        forall|p: int|
            at <= p < at + len ==> final(dst)@[p] == src@[from + (p - at)],
        forall|p: int|
            0 <= p < final(dst).len() && !(at <= p < at + len) ==> final(dst)@[p] == old(
                dst,
            )@[p],
{
    let mut i: usize = 0;
    while i < len
        invariant
            at + len <= dst.len(),
            from + len <= src.len(),
            dst.len() == old(dst).len(),
            i <= len,
            forall|p: int| at <= p < at + i ==> dst@[p] == src@[from + (p - at)],
            forall|p: int|
                0 <= p < dst.len() && !(at <= p < at + i) ==> dst@[p] == old(dst)@[p],
        decreases len - i,
    {
        dst[at + i] = src[from + i];
        i += 1;
    }
}

/// Build a fresh copy of `src[from..from + len]`.
fn copy_of(src: &Vec<Elt>, from: usize, len: usize) -> (r: Vec<Elt>)
    requires
        from + len <= src.len(),
    ensures
        r@ == src@.subrange(from as int, from as int + len as int),
{
    let mut out: Vec<Elt> = Vec::new();
    let mut i: usize = 0;
    while i < len
        invariant
            from + len <= src.len(),
            i <= len,
            out.len() == i,
            forall|p: int| 0 <= p < i ==> out@[p] == src@[from + p],
        decreases len - i,
    {
        out.push(src[from + i]);
        i += 1;
    }
    proof {
        assert(out@ =~= src@.subrange(from as int, from as int + len as int));
    }
    out
}

/// Read `z[i]`, with positions past the end reading as zero.
pub open spec fn get0(z: Seq<Elt>, i: int) -> Elt {
    if 0 <= i < z.len() {
        z[i]
    } else {
        0
    }
}

/// Width of the derivative xor at position `i`: half of the power of two
/// that covers the bits where `i` and `i - 1` differ.
pub open spec fn fd_len(i: int) -> int {
    ((((i as u32) ^ ((i - 1) as u32)) + 1) / 2) as int
}

/// One step of the derivative: positions `[i - len, i)` absorb their
/// partner `len` further up, out-of-range partners reading as zero.
pub open spec fn fd_step(z: Seq<Elt>, i: int) -> Seq<Elt> {
    Seq::new(
        z.len(),
        |p: int|
            if i - fd_len(i) <= p < i {
                z[p] ^ get0(z, p + fd_len(i))
            } else {
                z[p]
            },
    )
}

/// First phase of the formal derivative: steps at `i = 1, ..., size - 1`.
pub open spec fn fd_phase1(z: Seq<Elt>, i: int, size: int) -> Seq<Elt>
    decreases (if size - i >= 0 { size - i } else { 0 }),
{
    if i < 1 || i >= size {
        z
    } else {
        fd_phase1(fd_step(z, i), i + 1, size)
    }
}

/// One tail fold: the first `size` positions absorb their partner `i`
/// further up, out-of-range partners reading as zero.
pub open spec fn fd_tail_step(z: Seq<Elt>, size: int, i: int) -> Seq<Elt> {
    Seq::new(
        z.len(),
        |p: int|
            if 0 <= p < size {
                z[p] ^ get0(z, p + i)
            } else {
                z[p]
            },
    )
}

/// Second phase: folds at `i = size, 2 size, ...` while inside both the
/// field and the buffer.
pub open spec fn fd_tail(z: Seq<Elt>, size: int, i: int, fs: int) -> Seq<Elt>
    decreases (if fs - i >= 0 { fs - i } else { 0 }),
{
    if i < 1 || i >= fs || i >= z.len() {
        z
    } else {
        fd_tail(fd_tail_step(z, size, i), size, 2 * i, fs)
    }
}

/// The formal derivative of a polynomial in the novel basis, as its
/// action on the coefficient vector.
pub open spec fn formal_derivative_spec(z: Seq<Elt>, size: int, fs: int) -> Seq<Elt> {
    fd_tail(fd_phase1(z, 1, size), size, size, fs)
}

/// The xor width at `i` is between 1 and `i`.
proof fn lemma_fd_len_bounds(i: usize)
    requires
        1 <= i < 65536,
    ensures
        1 <= fd_len(i as int) <= i,
        ((i as u32) ^ ((i - 1) as u32)) < 131072,
{
    let x: u32 = i as u32;
    assert((1 <= (((x ^ ((x - 1) as u32)) + 1) / 2) <= x) && ((x ^ ((x - 1) as u32))
        < 131072)) by (bit_vector)
        requires
            1 <= x < 65536,
    ;
    assert(fd_len(i as int) == (((x ^ ((x - 1) as u32)) + 1) / 2) as int);
}

/// Xoring zero changes nothing; bounded values stay bounded under xor.
proof fn lemma_xor_zero(a: Elt)
    ensures
        (a ^ 0) == a,
{
    assert((a ^ 0) == a) by (bit_vector);
}

proof fn lemma_xor_mask(a: Elt, b: Elt, m: Elt)
    requires
        m == 255 || m == 65535,
        a <= m,
        b <= m,
    ensures
        (a ^ b) <= m,
{
    assert((a ^ b) <= m) by (bit_vector)
        requires
            m == 255 || m == 65535,
            a <= m,
            b <= m,
    ;
}

/// Formal derivative of the polynomial held in `cos[0..size]`, in place.
/// Reads past the end of the buffer count as zero; that convention is
/// load-bearing at the tail of the block.
pub fn formal_derivative(cos: &mut Vec<Elt>, size: usize, f: &Field)
    requires
        f.wf(),
        1 <= size <= old(cos).len(),
        size <= f.field_size(),
        elems_le(old(cos)@, f.onemask as int),
    ensures
        final(cos)@ == formal_derivative_spec(
            old(cos)@,
            size as int,
            f.field_size(),
        ),
        final(cos).len() == old(cos).len(),
        elems_le(final(cos)@, f.onemask as int),
{
    let ghost z0 = old(cos)@;
    let ghost goal1 = fd_phase1(z0, 1, size as int);
    let mut i: usize = 1;
    while i < size
        invariant
            f.wf(),
            1 <= size <= cos.len(),
            size <= f.field_size(),
            size <= 65536,
            cos.len() == z0.len(),
            1 <= i <= size,
            elems_le(cos@, f.onemask as int),
            fd_phase1(cos@, i as int, size as int) == goal1,
        decreases size - i,
    {
        let ghost zi = cos@;
        proof {
            lemma_fd_len_bounds(i);
        }
        let length32: u32 = (((i as u32) ^ ((i as u32) - 1)) + 1) / 2;
        let length: usize = length32 as usize;
        proof {
            assert(length == fd_len(i as int));
        }
        let mut j: usize = i - length;
        while j < i
            invariant
                f.wf(),
                1 <= size <= cos.len(),
                size <= 65536,
                cos.len() == z0.len(),
                zi.len() == cos.len(),
                1 <= i < size,
                length == fd_len(i as int),
                1 <= length <= i,
                i - length <= j <= i,
                elems_le(cos@, f.onemask as int),
                forall|p: int| i - length <= p < j ==> cos@[p] == fd_step(zi, i as int)[p],
                forall|p: int|
                    0 <= p < cos.len() && !(i - length <= p < j) ==> cos@[p] == zi[p],
                fd_phase1(zi, i as int, size as int) == goal1,
            decreases i - j,
        {
            let v: Elt = if j + length < cos.len() {
                cos[j] ^ cos[j + length]
            } else {
                cos[j]
            };
            proof {
                if j + length < cos.len() {
                    lemma_xor_mask(cos@[j as int], cos@[j as int + length as int], f.onemask);
                } else {
                    lemma_xor_zero(cos@[j as int]);
                }
                assert(zi[j as int + length as int] == cos@[j as int + length as int] || j
                    + length >= cos.len());
                assert(v == (zi[j as int] ^ get0(zi, j as int + length as int)));
            }
            cos[j] = v;
            j += 1;
        }
        proof {
            assert(cos@ =~= fd_step(zi, i as int));
        }
        i += 1;
    }
    let ghost z1 = cos@;
    proof {
        assert(z1 == goal1);
    }
    // tail folds for buffers longer than the block
    let fs: usize = f.onemask as usize + 1;
    let mut ii: usize = size;
    while ii < fs && ii < cos.len()
        invariant
            f.wf(),
            fs == f.field_size(),
            fs <= 65536,
            1 <= size <= cos.len(),
            size <= ii,
            cos.len() == z0.len(),
            elems_le(cos@, f.onemask as int),
            fd_tail(cos@, size as int, ii as int, fs as int) == fd_tail(
                z1,
                size as int,
                size as int,
                fs as int,
            ),
        decreases 2 * fs - ii,
    {
        let ghost zi = cos@;
        let mut j: usize = 0;
        while j < size
            invariant
                f.wf(),
                1 <= size <= ii,
                ii < fs,
                fs <= 65536,
                ii <= cos.len(),
                cos.len() == z0.len(),
                zi.len() == cos.len(),
                j <= size,
                elems_le(cos@, f.onemask as int),
                forall|p: int| 0 <= p < j ==> cos@[p] == fd_tail_step(zi, size as int, ii as int)[p],
                forall|p: int| j <= p < cos.len() ==> cos@[p] == zi[p],
            decreases size - j,
        {
            let v: Elt = if j + ii < cos.len() {
                cos[j] ^ cos[j + ii]
            } else {
                cos[j]
            };
            proof {
                if j + ii < cos.len() {
                    lemma_xor_mask(cos@[j as int], cos@[j as int + ii as int], f.onemask);
                } else {
                    lemma_xor_zero(cos@[j as int]);
                }
            }
            cos[j] = v;
            j += 1;
        }
        proof {
            assert(cos@ =~= fd_tail_step(zi, size as int, ii as int));
        }
        ii = ii * 2;
    }
    proof {
        assert(fd_tail(final(cos)@, size as int, ii as int, fs as int) == final(cos)@);
    }
}


/// The evaluations of the error-locator polynomial, as the decoder
/// computes them: the erasure indicator, Walsh-transformed over the full
/// field, multiplied pointwise by the log-Walsh table modulo `onemask`,
/// Walsh-transformed again, and negated at the erased positions.
pub open spec fn decode_init_spec(f: Field, er: Seq<bool>, n: int) -> Seq<Elt> {
    let fs = f.field_size();
    let m = f.onemask as int;
    let w0 = Seq::new(
        fs as nat,
        |i: int|
            if 0 <= i < n && er[i] {
                1u16
            } else {
                0u16
            },
    );
    let w1 = walsh_rec(w0, fs, 1, m);
    let w2 = Seq::new(fs as nat, |i: int| ((w1[i] as int * f.log_walsh@[i] as int) % m) as Elt);
    let w3 = walsh_rec(w2, fs, 1, m);
    Seq::new(
        fs as nat,
        |i: int|
            if 0 <= i < n && er[i] {
                (m - w3[i]) as Elt
            } else {
                w3[i]
            },
    )
}

/// Evaluate the error-locator polynomial for the erasure pattern into
/// `log_walsh2`, which spans the whole field: the two Walsh transforms
/// must run at the field order for the convolution pairing with
/// `log_walsh` to hold, so this buffer is `2^field_bits` symbols even
/// when `n` is small.
pub fn decode_init(erasure: &Vec<bool>, log_walsh2: &mut Vec<Elt>, n: usize, f: &Field)
    requires
        f.wf(),
        old(log_walsh2).len() == f.field_size(),
        erasure.len() == n,
        n <= f.field_size(),
    ensures
        final(log_walsh2)@ == decode_init_spec(*f, erasure@, n as int),
        final(log_walsh2).len() == f.field_size(),
        elems_le(final(log_walsh2)@, f.onemask as int),
{
    let fs: usize = f.onemask as usize + 1;
    let ghost w0 = Seq::new(
        fs as nat,
        |i: int|
            if 0 <= i < n && erasure@[i] {
                1u16
            } else {
                0u16
            },
    );
    let mut i: usize = 0;
    while i < fs
        invariant
            f.wf(),
            fs == f.field_size(),
            log_walsh2.len() == fs,
            erasure.len() == n,
            n <= fs,
            i <= fs,
            w0 == Seq::new(
                fs as nat,
                |q: int|
                    if 0 <= q < n && erasure@[q] {
                        1u16
                    } else {
                        0u16
                    },
            ),
            forall|p: int| 0 <= p < i ==> log_walsh2@[p] == w0[p],
        decreases fs - i,
    {
        let v: Elt = if i < n {
            if erasure[i] {
                1
            } else {
                0
            }
        } else {
            0
        };
        log_walsh2[i] = v;
        i += 1;
    }
    proof {
        assert(log_walsh2@ =~= w0);
        assert(elems_le(log_walsh2@, f.onemask as int));
        crate::tables::lemma_sizes_pow2();
    }
    walsh(log_walsh2, fs, f.onemask);
    let ghost w1 = log_walsh2@;
    let ghost w2 = Seq::new(
        fs as nat,
        |q: int| ((w1[q] as int * f.log_walsh@[q] as int) % f.onemask as int) as Elt,
    );
    let mut i2: usize = 0;
    while i2 < fs
        invariant
            f.wf(),
            fs == f.field_size(),
            log_walsh2.len() == fs,
            i2 <= fs,
            elems_le(log_walsh2@, f.onemask as int),
            w2 == Seq::new(
                fs as nat,
                |q: int| ((w1[q] as int * f.log_walsh@[q] as int) % f.onemask as int) as Elt,
            ),
            forall|p: int| 0 <= p < i2 ==> log_walsh2@[p] == w2[p],
            forall|p: int| i2 <= p < fs ==> log_walsh2@[p] == w1[p],
        decreases fs - i2,
    {
        proof {
            assert(log_walsh2@[i2 as int] as int * f.log_walsh@[i2 as int] as int <= 65535
                * 65535) by (nonlinear_arith)
                requires
                    log_walsh2@[i2 as int] <= 65535,
                    f.log_walsh@[i2 as int] <= 65535,
            ;
        }
        let t: u64 = log_walsh2[i2] as u64 * f.log_walsh[i2] as u64;
        let t: u64 = t % f.onemask as u64;
        log_walsh2[i2] = t as Elt;
        i2 += 1;
    }
    proof {
        assert(log_walsh2@ =~= w2);
        crate::tables::lemma_sizes_pow2();
    }
    walsh(log_walsh2, fs, f.onemask);
    let ghost w3 = log_walsh2@;
    let ghost goal = decode_init_spec(*f, erasure@, n as int);
    let mut i3: usize = 0;
    while i3 < n
        invariant
            f.wf(),
            fs == f.field_size(),
            log_walsh2.len() == fs,
            erasure.len() == n,
            n <= fs,
            i3 <= n,
            elems_le(log_walsh2@, f.onemask as int),
            goal == decode_init_spec(*f, erasure@, n as int),
            forall|p: int| 0 <= p < i3 ==> log_walsh2@[p] == goal[p],
            forall|p: int| i3 <= p < fs ==> log_walsh2@[p] == w3[p],
            goal == Seq::new(
                fs as nat,
                |q: int|
                    if 0 <= q < n && erasure@[q] {
                        (f.onemask - w3[q]) as Elt
                    } else {
                        w3[q]
                    },
            ),
        decreases n - i3,
    {
        if erasure[i3] {
            let v: Elt = f.onemask - log_walsh2[i3];
            log_walsh2[i3] = v;
        }
        i3 += 1;
    }
    proof {
        assert forall|p: int| 0 <= p < fs implies final(log_walsh2)@[p] == goal[p] by {
            if p >= n {
                assert(goal[p] == w3[p]);
            }
        }
        assert(final(log_walsh2)@ =~= goal);
    }
}

/// One pointwise pass of the decoder: multiply position `i` by its
/// error-locator evaluation, zeroing the side selected by `erased`.
pub open spec fn locator_mask_spec(
    f: Field,
    cw: Seq<Elt>,
    er: Seq<bool>,
    lw2: Seq<Elt>,
    n: int,
    keep_erased: bool,
) -> Seq<Elt> {
    Seq::new(
        cw.len(),
        |i: int|
            if 0 <= i < n {
                if er[i] == keep_erased {
                    f.spec_mul(cw[i], lw2[i])
                } else {
                    0u16
                }
            } else {
                cw[i]
            },
    )
}

/// One pointwise pass of the derivative factors: multiply position `i`
/// by `B[i/2]`, or by its negation `onemask - B[i/2]`.
pub open spec fn deriv_factor_spec(f: Field, cw: Seq<Elt>, n: int, neg: bool) -> Seq<Elt> {
    Seq::new(
        cw.len(),
        |i: int|
            if 0 <= i < n {
                if neg {
                    f.spec_mul(cw[i], (f.onemask - f.b@[i / 2]) as Elt)
                } else {
                    f.spec_mul(cw[i], f.b@[i / 2])
                }
            } else {
                cw[i]
            },
    )
}

/// The whole main decode pass over a received codeword.
pub open spec fn decode_main_spec(
    f: Field,
    cw: Seq<Elt>,
    er: Seq<bool>,
    lw2: Seq<Elt>,
    n: int,
) -> Seq<Elt> {
    let s1 = locator_mask_spec(f, cw, er, lw2, n, false);
    let s2 = ifft_rec(f, s1, n, 0, 1, n);
    let s3 = deriv_factor_spec(f, s2, n, true);
    let s4 = formal_derivative_spec(s3, n, f.field_size());
    let s5 = deriv_factor_spec(f, s4, n, false);
    let s6 = fft_rec(f, s5, n, 0, n / 2);
    locator_mask_spec(f, s6, er, lw2, n, true)
}

/// Multiply each of the first `n` positions by its locator evaluation,
/// zeroing the positions whose erasure flag differs from `keep_erased`.
fn locator_mask(
    codeword: &mut Vec<Elt>,
    erasure: &Vec<bool>,
    log_walsh2: &Vec<Elt>,
    n: usize,
    keep_erased: bool,
    f: &Field,
)
    requires
        f.wf(),
        n <= old(codeword).len(),
        erasure.len() >= n,
        log_walsh2.len() >= n,
        elems_le(old(codeword)@, f.onemask as int),
        elems_le(log_walsh2@, f.onemask as int),
    ensures
        final(codeword)@ == locator_mask_spec(
            *f,
            old(codeword)@,
            erasure@,
            log_walsh2@,
            n as int,
            keep_erased,
        ),
        final(codeword).len() == old(codeword).len(),
        elems_le(final(codeword)@, f.onemask as int),
{
    let ghost z = old(codeword)@;
    let ghost goal = locator_mask_spec(*f, z, erasure@, log_walsh2@, n as int, keep_erased);
    let mut i: usize = 0;
    while i < n
        invariant
            f.wf(),
            n <= codeword.len(),
            codeword.len() == z.len(),
            erasure.len() >= n,
            log_walsh2.len() >= n,
            i <= n,
            elems_le(codeword@, f.onemask as int),
            elems_le(log_walsh2@, f.onemask as int),
            goal == locator_mask_spec(*f, z, erasure@, log_walsh2@, n as int, keep_erased),
            forall|p: int| 0 <= p < i ==> codeword@[p] == goal[p],
            forall|p: int| i <= p < codeword.len() ==> codeword@[p] == z[p],
        decreases n - i,
    {
        let v: Elt = if erasure[i] == keep_erased {
            mul_table(codeword[i], log_walsh2[i], f)
        } else {
            0
        };
        codeword[i] = v;
        i += 1;
    }
    proof {
        assert forall|p: int| 0 <= p < codeword.len() implies final(codeword)@[p] == goal[p] by {
            if p >= n {
                assert(goal[p] == z[p]);
            }
        }
        assert(final(codeword)@ =~= goal);
    }
}

/// Multiply each of the first `n` positions by its derivative factor
/// `B[i/2]`, negated when `neg` is set.
fn deriv_factor(codeword: &mut Vec<Elt>, n: usize, neg: bool, f: &Field)
    requires
        f.wf(),
        n <= old(codeword).len(),
        n <= f.field_size(),
        elems_le(old(codeword)@, f.onemask as int),
    ensures
        final(codeword)@ == deriv_factor_spec(*f, old(codeword)@, n as int, neg),
        final(codeword).len() == old(codeword).len(),
        elems_le(final(codeword)@, f.onemask as int),
{
    let ghost z = old(codeword)@;
    let ghost goal = deriv_factor_spec(*f, z, n as int, neg);
    let mut i: usize = 0;
    while i < n
        invariant
            f.wf(),
            n <= codeword.len(),
            n <= f.field_size(),
            codeword.len() == z.len(),
            i <= n,
            elems_le(codeword@, f.onemask as int),
            goal == deriv_factor_spec(*f, z, n as int, neg),
            forall|p: int| 0 <= p < i ==> codeword@[p] == goal[p],
            forall|p: int| i <= p < codeword.len() ==> codeword@[p] == z[p],
        decreases n - i,
    {
        let b: Elt = f.b[i / 2];
        let m: Elt = if neg {
            f.onemask - b
        } else {
            b
        };
        let v: Elt = mul_table(codeword[i], m, f);
        codeword[i] = v;
        i += 1;
    }
    proof {
        assert forall|p: int| 0 <= p < codeword.len() implies final(codeword)@[p] == goal[p] by {
            if p >= n {
                assert(goal[p] == z[p]);
            }
        }
        assert(final(codeword)@ =~= goal);
    }
}

/// Main erasure decode: recover the erased positions of a codeword whose
/// erased entries are zeroed, using the locator evaluations from
/// [`decode_init`]. On return, position `i` holds the recovered symbol
/// where `erasure[i]` is set and zero elsewhere; the caller overlays the
/// known symbols. `k` is the message length the caller will read back.
pub fn decode_main(
    codeword: &mut Vec<Elt>,
    k: usize,
    erasure: &Vec<bool>,
    log_walsh2: &Vec<Elt>,
    n: usize,
    f: &Field,
)
    requires
        f.wf(),
        old(codeword).len() == n,
        erasure.len() == n,
        log_walsh2.len() >= n,
        k <= n,
        1 <= n <= f.field_size(),
        is_pow2(n as int),
        elems_le(old(codeword)@, f.onemask as int),
        elems_le(log_walsh2@, f.onemask as int),
    ensures
        final(codeword)@ == decode_main_spec(
            *f,
            old(codeword)@,
            erasure@,
            log_walsh2@,
            n as int,
        ),
        final(codeword).len() == n,
        elems_le(final(codeword)@, f.onemask as int),
{
    locator_mask(codeword, erasure, log_walsh2, n, false, f);
    inverse_fft_in_novel_poly_basis(codeword, n, 0, f);
    deriv_factor(codeword, n, true, f);
    formal_derivative(codeword, n, f);
    deriv_factor(codeword, n, false, f);
    fft_in_novel_poly_basis(codeword, n, 0, f);
    locator_mask(codeword, erasure, log_walsh2, n, true, f);
}

/// The low-rate codeword: the message occupies the first `k` positions,
/// and each later window of `k` holds the forward transform of the
/// message's inverse transform at that window's offset.
pub open spec fn encode_low_spec(f: Field, data: Seq<Elt>, k: int, n: int) -> Seq<Elt> {
    let mhat = ifft_rec(f, data.take(k), k, 0, 1, k);
    Seq::new(
        n as nat,
        |p: int|
            if 0 <= p < k {
                data[p]
            } else {
                fft_rec(f, mhat, k, k * (p / k), k / 2)[p % k]
            },
    )
}

/// Low-rate encoder, for `2k <= n`: systematic over the first `k`
/// positions, parity in the remaining windows.
pub fn encode_low(data: &Vec<Elt>, k: usize, codeword: &mut Vec<Elt>, n: usize, f: &Field)
    requires
        f.wf(),
        data.len() == n,
        old(codeword).len() == n,
        1 <= k,
        k + k <= n,
        n <= f.field_size(),
        is_pow2(k as int),
        is_pow2(n as int),
        elems_le(data@, f.onemask as int),
    ensures
        final(codeword)@ == encode_low_spec(*f, data@, k as int, n as int),
        final(codeword).len() == n,
        elems_le(final(codeword)@, f.onemask as int),
{
    let ghost goal = encode_low_spec(*f, data@, k as int, n as int);
    let mut mhat: Vec<Elt> = copy_of(data, 0, k);
    proof {
        assert(mhat@ =~= data@.take(k as int));
    }
    inverse_fft_in_novel_poly_basis(&mut mhat, k, 0, f);
    let ghost mh = mhat@;
    proof {
        assert(mh == ifft_rec(*f, data@.take(k as int), k as int, 0, 1, k as int));
    }
    let mut i: usize = k;
    while i < n
        invariant
            f.wf(),
            1 <= k,
            k + k <= n,
            n <= f.field_size(),
            codeword.len() == n,
            data.len() == n,
            mhat.len() == k,
            mhat@ == mh,
            k <= i,
            i as int % k as int == 0,
            is_pow2(k as int),
            is_pow2(n as int),
            elems_le(data@, f.onemask as int),
            elems_le(mh, f.onemask as int),
            forall|p: int| k <= p < i ==> codeword@[p] <= f.onemask,
            goal == encode_low_spec(*f, data@, k as int, n as int),
            mh == ifft_rec(*f, data@.take(k as int), k as int, 0, 1, k as int),
            forall|p: int| k <= p < i ==> codeword@[p] == goal[p],
        decreases n - i,
    {
        proof {
            lemma_pow2_divides(k as int, n as int);
            let t = i as int / (k as int);
            let q = n as int / (k as int);
            lemma_fundamental_div_mod(i as int, k as int);
            lemma_fundamental_div_mod(n as int, k as int);
            assert(i + k <= n) by (nonlinear_arith)
                requires
                    i as int == k as int * t,
                    n as int == k as int * q,
                    i < n,
                    k >= 1,
            ;
        }
        let mut win: Vec<Elt> = copy_of(&mhat, 0, k);
        proof {
            assert(win@ =~= mh);
        }
        fft_in_novel_poly_basis(&mut win, k, i, f);
        copy_window(codeword, i, &win, 0, k);
        proof {
            let t = i as int / (k as int);
            lemma_fundamental_div_mod(i as int, k as int);
            assert forall|p: int| i <= p < i + k implies codeword@[p] == goal[p] by {
                assert(p == t * (k as int) + (p - i)) by (nonlinear_arith)
                    requires
                        i as int == k as int * t,
                ;
                lemma_fundamental_div_mod_converse(p, k as int, t, p - i);
                assert(k as int * (p / k as int) == i) by (nonlinear_arith)
                    requires
                        p / k as int == t,
                        i as int == k as int * t,
                ;
                assert(codeword@[p] == win@[p - i]);
            }
            lemma_mod_multiples_basic((i as int / k as int) + 1, k as int);
            assert((i + k) as int % k as int == 0) by {
                let t = i as int / (k as int);
                lemma_fundamental_div_mod(i as int, k as int);
                assert(i + k == (t + 1) * (k as int)) by (nonlinear_arith)
                    requires
                        i as int == k as int * t,
                ;
            }
        }
        i += k;
    }
    copy_window(codeword, 0, data, 0, k);
    proof {
        assert forall|p: int| 0 <= p < n implies final(codeword)@[p] == goal[p] by {
            if p < k as int {
                assert(goal[p] == data@[p]);
            }
        }
        assert(final(codeword)@ =~= goal);
    }
}

/// A power of two below another is at most its half.
proof fn lemma_pow2_le_half(a: int, b: int)
    requires
        is_pow2(a),
        is_pow2(b),
        a < b,
    ensures
        a <= b / 2,
    decreases b,
{
    reveal_with_fuel(is_pow2, 2);
    if a == 1 {
        assert(b >= 2);
    } else {
        lemma_pow2_le_half(a / 2, b / 2);
    }
}

/// A power of two of at least two is even, with a power of two half.
pub(crate) proof fn lemma_pow2_halves(b: int)
    requires
        is_pow2(b),
        b >= 2,
    ensures
        b % 2 == 0,
        is_pow2(b / 2),
{
    reveal_with_fuel(is_pow2, 2);
}

/// A power of two divides any larger power of two.
pub(crate) proof fn lemma_pow2_divides(a: int, b: int)
    requires
        is_pow2(a),
        is_pow2(b),
        a <= b,
    ensures
        b % a == 0,
    decreases b,
{
    reveal_with_fuel(is_pow2, 2);
    if a == b {
        lemma_mod_multiples_basic(1, a);
    } else {
        assert(b >= 2);
        lemma_pow2_le_half(a, b);
        lemma_pow2_divides(a, b / 2);
        let t = (b / 2) / a;
        lemma_fundamental_div_mod(b / 2, a);
        assert(b == (2 * t) * a) by (nonlinear_arith)
            requires
                b / 2 == a * t + 0,
                b % 2 == 0,
                b >= 2,
        ;
        lemma_mod_multiples_basic(2 * t, a);
    }
}

/// Xor of two symbol buffers, pointwise.
pub open spec fn xor_seqs(a: Seq<Elt>, b: Seq<Elt>) -> Seq<Elt> {
    Seq::new(a.len(), |i: int| a[i] ^ b[i])
}

/// The running parity of the high-rate encoder: the xor of the inverse
/// transforms of the first `w` message windows of width `t`.
pub open spec fn high_acc(f: Field, data: Seq<Elt>, t: int, w: int) -> Seq<Elt>
    decreases w,
{
    if w <= 0 {
        Seq::new(t as nat, |i: int| 0u16)
    } else {
        xor_seqs(
            high_acc(f, data, t, w - 1),
            ifft_rec(f, data.subrange(t * (w - 1), t * w), t, t * w, 1, t),
        )
    }
}

/// The high-rate parity block: the forward transform of the xor of all
/// message windows' inverse transforms.
pub open spec fn encode_high_spec(f: Field, data: Seq<Elt>, k: int, t: int) -> Seq<Elt> {
    fft_rec(f, high_acc(f, data, t, k / t), t, 0, t / 2)
}

/// High-rate encoder, for `n - k` small: computes the parity block of
/// width `t = n - k`; the codeword is the parity followed by the data.
pub fn encode_high(data: &Vec<Elt>, k: usize, parity: &mut Vec<Elt>, n: usize, f: &Field)
    requires
        f.wf(),
        data.len() == k,
        1 <= k,
        k < n,
        n <= f.field_size(),
        old(parity).len() == n - k,
        is_pow2((n - k) as int),
        k as int % (n - k) as int == 0,
        elems_le(data@, f.onemask as int),
    ensures
        final(parity)@ == encode_high_spec(*f, data@, k as int, (n - k) as int),
        final(parity).len() == n - k,
        elems_le(final(parity)@, f.onemask as int),
{
    let t: usize = n - k;
    mem_zero(parity);
    proof {
        assert(parity@ =~= high_acc(*f, data@, t as int, 0));
    }
    let ghost goal = encode_high_spec(*f, data@, k as int, t as int);
    let mut i: usize = t;
    let ghost mut w: int = 0;
    while i < n
        invariant
            f.wf(),
            t == n - k,
            1 <= t,
            1 <= k,
            k < n <= f.field_size(),
            data.len() == k,
            parity.len() == t,
            is_pow2(t as int),
            k as int % t as int == 0,
            i as int == t as int * (w + 1),
            0 <= w,
            t <= i <= n,
            elems_le(data@, f.onemask as int),
            elems_le(parity@, f.onemask as int),
            parity@ == high_acc(*f, data@, t as int, w),
        decreases n - i,
    {
        proof {
            let q = k as int / (t as int);
            lemma_fundamental_div_mod(k as int, t as int);
            assert(i <= k) by (nonlinear_arith)
                requires
                    i as int == t as int * (w + 1),
                    k as int == t as int * q,
                    i < n,
                    n == k + t,
                    t >= 1,
                    w >= 0,
            ;
            assert(i - t == t as int * w) by (nonlinear_arith)
                requires
                    i as int == t as int * (w + 1),
            ;
        }
        let mut mem: Vec<Elt> = copy_of(data, i - t, t);
        inverse_fft_in_novel_poly_basis(&mut mem, t, i, f);
        proof {
            assert(mem@ == ifft_rec(
                *f,
                data@.subrange(t as int * w, t as int * (w + 1)),
                t as int,
                i as int,
                1,
                t as int,
            ));
        }
        let ghost before = parity@;
        let mut j: usize = 0;
        while j < t
            invariant
                t >= 1,
                parity.len() == t,
                mem.len() == t,
                j <= t,
                f.wf(),
                elems_le(parity@, f.onemask as int),
                elems_le(mem@, f.onemask as int),
                forall|p: int| 0 <= p < j ==> parity@[p] == (before[p] ^ mem@[p]),
                forall|p: int| j <= p < t ==> parity@[p] == before[p],
            decreases t - j,
        {
            let v: Elt = parity[j] ^ mem[j];
            proof {
                lemma_xor_mask(parity@[j as int], mem@[j as int], f.onemask);
            }
            parity[j] = v;
            j += 1;
        }
        proof {
            assert(parity@ =~= xor_seqs(before, mem@));
            w = w + 1;
            assert(parity@ == high_acc(*f, data@, t as int, w));
            let q = k as int / (t as int);
            lemma_fundamental_div_mod(k as int, t as int);
            assert(i + t == t as int * (w + 1) && i + t <= n) by (nonlinear_arith)
                requires
                    i as int == t as int * w,
                    k as int == t as int * q,
                    i < n,
                    n == k + t,
                    t >= 1,
                    w >= 1,
            ;
        }
        i += t;
    }
    proof {
        let q = k as int / (t as int);
        lemma_fundamental_div_mod(k as int, t as int);
        assert(w == q) by (nonlinear_arith)
            requires
                i as int == t as int * (w + 1),
                k as int == t as int * q,
                i >= n,
                i <= n,
                n == k + t,
                t >= 1,
        ;
    }
    fft_in_novel_poly_basis(parity, t, 0, f);
}

} // verus!
