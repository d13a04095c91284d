//! Construction of the field tables: the raw log/exp pair from the LFSR
//! over the generator polynomial, the Cantor-basis rewrite, the skew and
//! formal-derivative factors, and the Walsh transform of the logarithms.
//!
//! The deep inverse properties of the finished tables are checked at
//! run time by a validation pass; construction returns `None` if any
//! check fails, so a returned field is well-formed by construction.

use vstd::prelude::*;
use vstd::arithmetic::div_mod::{lemma_add_mod_noop, lemma_mod_twice};
use vstd::arithmetic::power2::{
    is_pow2, is_pow2_equiv, is_pow2_exists, lemma2_to64, lemma_pow2,
    lemma_pow2_strictly_increases, lemma_pow2_unfold, pow2,
};
use vstd::arithmetic::power::pow;
use crate::field::{elems_le, Elt, Field, Wide};
use crate::transform::{walsh, walsh_rec};

verus! {

/// The formal-derivative factors follow their defining recurrence: the
/// table starts at zero, and within each block of width `2^e` every
/// entry is the entry one block lower plus the block's first entry,
/// modulo `m`.
pub open spec fn derivative_recurrence(b: Seq<Elt>, levels: int, m: int) -> bool {
    &&& b[0] == 0
    &&& forall|e: nat, idx: int|
        #![trigger b[idx], pow2(e)]
        e < levels && pow2(e) <= idx < 2 * pow2(e) ==> b[idx] == ((b[idx - pow2(e)]
            + b[pow2(e) as int]) % m) as Elt
}

/// One step of the LFSR over the generator polynomial: shift left, and
/// fold the generator back in when the top bit was set.
pub open spec fn lfsr_next(state: Elt, half: Elt, generator: Elt) -> Elt {
    if state >= half {
        (((state - half) * 2) as Elt) ^ generator
    } else {
        ((state * 2) as Elt)
    }
}

/// The LFSR state after `i` steps from one.
pub open spec fn lfsr_state(half: Elt, generator: Elt, i: nat) -> Elt
    decreases i,
{
    if i == 0 {
        1u16
    } else {
        lfsr_next(lfsr_state(half, generator, (i - 1) as nat), half, generator)
    }
}

/// The raw exponent table after `i` LFSR steps: step `q` records `q` at
/// the state the register held then.
pub open spec fn exp_phase_a(fs: int, half: Elt, generator: Elt, i: nat) -> Seq<Elt>
    decreases i,
{
    if i == 0 {
        Seq::new(fs as nat, |q: int| 0u16)
    } else {
        exp_phase_a(fs, half, generator, (i - 1) as nat).update(
            lfsr_state(half, generator, (i - 1) as nat) as int,
            (i - 1) as Elt,
        )
    }
}

/// One doubling block of the Cantor-basis logs: entries `[w, 2w)` are
/// the entries `[0, w)` xored with one basis element.
pub open spec fn log_block(logt: Seq<Elt>, basis: Elt, j: int, w: int) -> Seq<Elt>
    decreases (if w - j >= 0 { w - j } else { 0 }),
{
    if j >= w {
        logt
    } else {
        log_block(logt.update(j + w, logt[j] ^ basis), basis, j + 1, w)
    }
}

/// All doubling blocks, one per basis element.
pub open spec fn log_phase_b(logt: Seq<Elt>, base: Seq<Elt>, bi: int, w: int) -> Seq<Elt>
    decreases (if base.len() - bi >= 0 { base.len() - bi } else { 0 }),
{
    if bi >= base.len() {
        logt
    } else {
        log_phase_b(log_block(logt, base[bi], 0, w), base, bi + 1, 2 * w)
    }
}

/// The rewrite of the Cantor logs through the raw exponents.
pub open spec fn log_rewrite(logt: Seq<Elt>, expt: Seq<Elt>, a: int, fs: int) -> Seq<Elt>
    decreases (if fs - a >= 0 { fs - a } else { 0 }),
{
    if a >= fs {
        logt
    } else {
        log_rewrite(logt.update(a, expt[logt[a] as int]), expt, a + 1, fs)
    }
}

/// The rebuild of the exponent table as the inverse of the final logs.
pub open spec fn exp_rewrite(expt: Seq<Elt>, logt: Seq<Elt>, a: int, fs: int) -> Seq<Elt>
    decreases (if fs - a >= 0 { fs - a } else { 0 }),
{
    if a >= fs {
        expt
    } else {
        exp_rewrite(expt.update(logt[a] as int, a as Elt), logt, a + 1, fs)
    }
}

/// The spec 4.1 logarithm table: raw LFSR exponents, Cantor-basis logs,
/// and the log rewrite.
pub open spec fn log_table_spec(fs: int, generator: Elt, base: Seq<Elt>) -> Seq<Elt> {
    let half = (fs / 2) as Elt;
    let expa = exp_phase_a(fs, half, generator, (fs - 1) as nat).update(0, (fs - 1) as Elt);
    let logb = log_phase_b(Seq::new(fs as nat, |q: int| 0u16), base, 0, 1);
    log_rewrite(logb, expa, 0, fs)
}

/// The spec 4.1 exponent table: the inverse rewrite over the final logs,
/// with the sentinel entry wrapped onto the unit.
pub open spec fn exp_table_spec(fs: int, generator: Elt, base: Seq<Elt>) -> Seq<Elt> {
    let half = (fs / 2) as Elt;
    let expa = exp_phase_a(fs, half, generator, (fs - 1) as nat).update(0, (fs - 1) as Elt);
    let expr = exp_rewrite(expa, log_table_spec(fs, generator, base), 0, fs);
    expr.update(fs - 1, expr[0])
}

/// Product through loose log/exp tables, exactly as the builder
/// computes it: zero stays zero, otherwise the exponential of the folded
/// sum of logarithms.
pub open spec fn spec_raw_mul(log: Seq<Elt>, exp: Seq<Elt>, mask: int, a: Elt, b: Elt) -> Elt {
    if a == 0 {
        0
    } else if log[a as int] + b > mask {
        exp[log[a as int] + b - mask]
    } else {
        exp[log[a as int] + b]
    }
}

/// One sweep of skew writes: positions `j, j + step, ...` below `ss`
/// each place their entry xored with the level's basis element one block
/// of `ss` higher.
pub open spec fn skew_sweep(skew: Seq<Elt>, basis: Elt, j: int, ss: int, step: int) -> Seq<Elt>
    decreases (if ss + step - j >= 0 { ss + step - j } else { 0 }),
{
    if step < 1 || j >= ss {
        skew
    } else {
        skew_sweep(skew.update(j + ss, skew[j] ^ basis), basis, j + step, ss, step)
    }
}

/// One level of the skew construction: a sweep for every remaining
/// basis element, the block width doubling each time.
pub open spec fn skew_level(
    skew: Seq<Elt>,
    fbv: Seq<Elt>,
    i2: int,
    fbits: int,
    ss: int,
    step: int,
    pm: int,
) -> Seq<Elt>
    decreases (if fbits - i2 >= 0 { fbits - i2 } else { 0 }),
{
    if i2 + 1 >= fbits {
        skew
    } else {
        skew_level(
            skew_sweep(skew, fbv[i2], pm - 1, ss, step),
            fbv,
            i2 + 1,
            fbits,
            2 * ss,
            step,
            pm,
        )
    }
}

/// Reshape of the working basis entries above the consumed level.
pub open spec fn fb_reshape_tail(
    log: Seq<Elt>,
    exp: Seq<Elt>,
    mask: int,
    fbv: Seq<Elt>,
    lvl: int,
    i3: int,
    fbits: int,
) -> Seq<Elt>
    decreases (if fbits - i3 >= 0 { fbits - i3 } else { 0 }),
{
    if i3 + 1 >= fbits {
        fbv
    } else {
        let y = fbv[i3] ^ 1u16;
        let t = ((log[y as int] + fbv[lvl]) % mask) as Elt;
        fb_reshape_tail(
            log,
            exp,
            mask,
            fbv.update(i3, spec_raw_mul(log, exp, mask, fbv[i3], t)),
            lvl,
            i3 + 1,
            fbits,
        )
    }
}

/// Reshape of the whole working basis after a consumed level: the
/// level's entry becomes the negated logarithm of its self-product, and
/// every later entry is multiplied through it.
pub open spec fn fb_reshape(
    log: Seq<Elt>,
    exp: Seq<Elt>,
    mask: int,
    fbv: Seq<Elt>,
    lvl: int,
    fbits: int,
) -> Seq<Elt> {
    let x = fbv[lvl] ^ 1u16;
    let idx = spec_raw_mul(log, exp, mask, fbv[lvl], log[x as int]);
    let fbv1 = fbv.update(lvl, (mask - log[idx as int]) as Elt);
    fb_reshape_tail(log, exp, mask, fbv1, lvl, lvl + 1, fbits)
}

/// All levels of the skew construction: each level zeroes its anchor,
/// runs its sweeps, and reshapes the basis for the next one.
pub open spec fn skew_levels(
    log: Seq<Elt>,
    exp: Seq<Elt>,
    mask: int,
    skew: Seq<Elt>,
    fbv: Seq<Elt>,
    lvl: int,
    fbits: int,
    pm: int,
    step: int,
) -> (Seq<Elt>, Seq<Elt>)
    decreases (if fbits - lvl >= 0 { fbits - lvl } else { 0 }),
{
    if lvl + 1 >= fbits {
        (skew, fbv)
    } else {
        let sk1 = skew.update(pm - 1, 0u16);
        let sk2 = skew_level(sk1, fbv, lvl, fbits, step, step, pm);
        let fbv2 = fb_reshape(log, exp, mask, fbv, lvl, fbits);
        skew_levels(log, exp, mask, sk2, fbv2, lvl + 1, fbits, 2 * pm, 2 * step)
    }
}

/// Cumulative log form of the reshaped basis: each entry becomes its
/// own negation plus the previous entry, modulo `mask`.
pub open spec fn fb_cumulative(mask: int, fbv: Seq<Elt>, i4: int) -> Seq<Elt>
    decreases (if fbv.len() - i4 >= 0 { fbv.len() - i4 } else { 0 }),
{
    if i4 < 1 || i4 >= fbv.len() {
        fbv
    } else {
        fb_cumulative(
            mask,
            fbv.update(i4, ((mask - fbv[i4] + fbv[i4 - 1]) % mask) as Elt),
            i4 + 1,
        )
    }
}

/// The whole cumulative rewrite: the first entry negated, the rest
/// folded over their predecessors.
pub open spec fn fb_final(mask: int, fbv: Seq<Elt>) -> Seq<Elt> {
    fb_cumulative(mask, fbv.update(0, (mask - fbv[0]) as Elt), 1)
}

/// One block of the derivative factors: entries `[depart, 2 depart)`
/// are the entries `[0, depart)` plus one cumulative basis entry.
pub open spec fn b_fill_level(b: Seq<Elt>, fbe: Elt, j: int, depart: int, mask: int) -> Seq<
    Elt,
>
    decreases (if depart - j >= 0 { depart - j } else { 0 }),
{
    if j >= depart {
        b
    } else {
        b_fill_level(b.update(j + depart, ((b[j] + fbe) % mask) as Elt), fbe, j + 1, depart, mask)
    }
}

/// All blocks of the derivative factors, doubling widths.
pub open spec fn b_fill(
    b: Seq<Elt>,
    fbv: Seq<Elt>,
    i5: int,
    depart: int,
    fbits: int,
    mask: int,
) -> Seq<Elt>
    decreases (if fbits - i5 >= 0 { fbits - i5 } else { 0 }),
{
    if i5 + 1 >= fbits {
        b
    } else {
        b_fill(b_fill_level(b, fbv[i5], 0, depart, mask), fbv, i5 + 1, 2 * depart, fbits, mask)
    }
}

/// The spec 4.3 derivative table: the fill over the cumulative form of
/// the basis that the skew levels leave behind.
pub open spec fn derivative_table_spec(log: Seq<Elt>, exp: Seq<Elt>, mask: int, fbits: int) -> Seq<
    Elt,
> {
    let fbv = fb_final(
        mask,
        skew_levels(
            log,
            exp,
            mask,
            Seq::new(mask as nat, |i: int| 0u16),
            fb_init(fbits),
            0,
            fbits,
            1,
            2,
        ).1,
    );
    b_fill(Seq::new(((mask + 1) / 2) as nat, |q: int| 0u16), fbv, 0, 1, fbits, mask)
}

/// The initial working basis: `2, 4, 8, ...` in additive form.
pub open spec fn fb_init(fbits: int) -> Seq<Elt> {
    Seq::new((fbits - 1) as nat, |q: int| pow2((q + 1) as nat) as Elt)
}

/// The finished skew table of spec 4.3: every level applied to a zeroed
/// table over the initial basis, then each entry rewritten to log form.
pub open spec fn skew_table_spec(log: Seq<Elt>, exp: Seq<Elt>, mask: int, fbits: int) -> Seq<
    Elt,
> {
    let pre = skew_levels(
        log,
        exp,
        mask,
        Seq::new(mask as nat, |i: int| 0u16),
        fb_init(fbits),
        0,
        fbits,
        1,
        2,
    ).0;
    Seq::new(mask as nat, |i: int| log[pre[i] as int])
}

/// Both table sizes in use are powers of two.
pub(crate) proof fn lemma_sizes_pow2()
    ensures
        is_pow2(256),
        is_pow2(65536),
{
    lemma2_to64();
    lemma_pow2(8);
    lemma_pow2(16);
    assert(pow(2, 8nat) == 256);
    assert(pow(2, 16nat) == 65536);
    assert(is_pow2_exists(256));
    assert(is_pow2_exists(65536));
    is_pow2_equiv(256);
    is_pow2_equiv(65536);
}

/// Table-driven product of two raw symbols during construction, before a
/// `Field` value exists.
fn raw_mul(log: &Vec<Elt>, exp: &Vec<Elt>, onemask: Elt, a: Elt, b: Elt) -> (r: Elt)
    requires
        log.len() == onemask as int + 1,
        exp.len() == onemask as int + 1,
        elems_le(log@, onemask as int),
        elems_le(exp@, onemask as int),
        a <= onemask,
        b <= onemask,
    ensures
        r <= onemask,
        r == spec_raw_mul(log@, exp@, onemask as int, a, b),
{
    if a == 0 {
        return 0;
    }
    let s: Wide = log[a as usize] as Wide + b as Wide;
    let offset: Wide = if s > onemask as Wide {
        s - onemask as Wide
    } else {
        s
    };
    exp[offset as usize]
}

/// Phase A and B of table construction: raw log/exp tables from the LFSR,
/// then the Cantor-basis rewrite. Returns `None` if a value escapes the
/// field's range (which a correct generator and basis never produce).
fn build_log_exp(field_size: usize, onemask: Elt, generator: Elt, base: &Vec<Elt>) -> (r: Option<
    (Vec<Elt>, Vec<Elt>),
>)
    requires
        field_size == onemask as int + 1,
        field_size == 256 || field_size == 65536,
        generator <= onemask,
    ensures
        match r {
            Some((log, exp)) => {
                &&& log.len() == field_size
                &&& exp.len() == field_size
                &&& elems_le(log@, onemask as int)
                &&& elems_le(exp@, onemask as int)
                &&& log@ == log_table_spec(field_size as int, generator, base@)
                &&& exp@ == exp_table_spec(field_size as int, generator, base@)
            },
            None => true,
        },
{
    let half: Elt = (field_size / 2) as Elt;
    let mut exp: Vec<Elt> = vec![0; field_size];
    let mut log: Vec<Elt> = vec![0; field_size];
    let ghost fsi = field_size as int;
    proof {
        assert(exp@ =~= Seq::new(field_size as nat, |q: int| 0u16));
        assert(log@ =~= Seq::new(field_size as nat, |q: int| 0u16));
    }

    // phase A: raw exponent table from the LFSR over the generator
    let mut state: Elt = 1;
    let mut i: usize = 0;
    while i < onemask as usize
        invariant
            field_size == onemask as int + 1,
            field_size == 256 || field_size == 65536,
            generator <= onemask,
            half == field_size as int / 2,
            fsi == field_size as int,
            exp.len() == field_size,
            log.len() == field_size,
            log@ == Seq::new(field_size as nat, |q: int| 0u16),
            state <= onemask,
            state == lfsr_state(half, generator, i as nat),
            exp@ == exp_phase_a(fsi, half, generator, i as nat),
            i <= onemask as usize,
            elems_le(exp@, onemask as int),
        decreases onemask as usize - i,
    {
        exp[state as usize] = i as Elt;
        if state >= half {
            let shifted: Elt = (state - half) * 2;
            proof {
                crate::tables::lemma_mask_xor(shifted, generator, onemask);
            }
            state = shifted ^ generator;
        } else {
            state = state * 2;
        }
        i += 1;
    }
    exp[0] = onemask;
    let ghost expa = exp@;
    proof {
        assert(expa == exp_phase_a(fsi, half, generator, (fsi - 1) as nat).update(
            0,
            (fsi - 1) as Elt,
        ));
    }

    // phase B: logs in the Cantor basis
    let ghost logz = log@;
    let mut w: usize = 1;
    let mut bi: usize = 0;
    while bi < base.len()
        invariant
            field_size == onemask as int + 1,
            field_size == 256 || field_size == 65536,
            fsi == field_size as int,
            exp.len() == field_size,
            exp@ == expa,
            log.len() == field_size,
            1 <= w <= field_size,
            log_phase_b(log@, base@, bi as int, w as int) == log_phase_b(logz, base@, 0, 1),
            elems_le(exp@, onemask as int),
        decreases base.len() - bi,
    {
        let basis: Elt = base[bi];
        let ghost blockstart = log@;
        let mut j: usize = 0;
        while j < w
            invariant
                field_size == onemask as int + 1,
                exp.len() == field_size,
                log.len() == field_size,
                1 <= w <= field_size,
                j <= w,
                log_block(log@, basis, j as int, w as int) == log_block(
                    blockstart,
                    basis,
                    0,
                    w as int,
                ),
                elems_le(exp@, onemask as int),
            decreases w - j,
        {
            if j + w < field_size {
                let v: Elt = log[j] ^ basis;
                log[j + w] = v;
            } else {
                return None;
            }
            j += 1;
        }
        proof {
            assert(log@ == log_block(blockstart, basis, 0, w as int));
            assert(basis == base@[bi as int]);
        }
        if w > field_size / 2 {
            return None;
        }
        w = w * 2;
        bi += 1;
    }
    let ghost logb = log@;
    proof {
        assert(logb == log_phase_b(logz, base@, 0, 1));
    }

    // rewrite: log through the raw exponents, then exp as its inverse
    let mut a: usize = 0;
    while a < field_size
        invariant
            field_size == onemask as int + 1,
            fsi == field_size as int,
            exp.len() == field_size,
            exp@ == expa,
            log.len() == field_size,
            a <= field_size,
            log_rewrite(log@, expa, a as int, fsi) == log_rewrite(logb, expa, 0, fsi),
            elems_le(exp@, onemask as int),
            forall|q: int| 0 <= q < a ==> #[trigger] log@[q] <= onemask,
        decreases field_size - a,
    {
        let idx = log[a] as usize;
        if idx < field_size {
            log[a] = exp[idx];
        } else {
            return None;
        }
        a += 1;
    }
    let ghost logf = log@;
    proof {
        assert(logf == log_rewrite(logb, expa, 0, fsi));
        assert(logf == log_table_spec(fsi, generator, base@));
    }
    let mut a2: usize = 0;
    while a2 < field_size
        invariant
            field_size == onemask as int + 1,
            fsi == field_size as int,
            exp.len() == field_size,
            log.len() == field_size,
            log@ == logf,
            a2 <= field_size,
            exp_rewrite(exp@, logf, a2 as int, fsi) == exp_rewrite(expa, logf, 0, fsi),
            elems_le(log@, onemask as int),
            elems_le(exp@, onemask as int),
        decreases field_size - a2,
    {
        let idx = log[a2] as usize;
        exp[idx] = a2 as Elt;
        a2 += 1;
    }
    proof {
        assert(exp@ == exp_rewrite(expa, logf, 0, fsi));
    }
    exp[onemask as usize] = exp[0];
    proof {
        assert(exp@ == exp_table_spec(fsi, generator, base@));
    }
    Some((log, exp))
}

/// Xor of two values bounded by the all-ones mask stays bounded.
pub(crate) proof fn lemma_mask_xor(a: Elt, b: Elt, m: Elt)
    requires
        m == 255 || m == 65535,
        a <= m,
        b <= m,
    ensures
        (a ^ b) <= m,
{
    assert((a ^ b) <= m) by (bit_vector)
        requires
            m == 255 || m == 65535,
            a <= m,
            b <= m,
    ;
}

/// Validation pass: the inverse pairing of `log` and `exp` that `wf`
/// demands, checked element by element.
fn validate_log_exp(log: &Vec<Elt>, exp: &Vec<Elt>, onemask: Elt) -> (r: bool)
    requires
        log.len() == onemask as int + 1,
        exp.len() == onemask as int + 1,
        elems_le(log@, onemask as int),
        elems_le(exp@, onemask as int),
    ensures
        r ==> {
            &&& log@[0] == onemask
            &&& forall|a: int| 1 <= a <= onemask ==> exp@[#[trigger] log@[a] as int] == a
            &&& forall|m: int| 0 <= m < onemask ==> log@[#[trigger] exp@[m] as int] == m
            &&& exp@[onemask as int] == exp@[0]
        },
{
    let field_size: usize = onemask as usize + 1;
    if log[0] != onemask {
        return false;
    }
    if exp[onemask as usize] != exp[0] {
        return false;
    }
    let mut a: usize = 1;
    while a < field_size
        invariant
            log.len() == onemask as int + 1,
            exp.len() == onemask as int + 1,
            field_size == onemask as int + 1,
            elems_le(log@, onemask as int),
            1 <= a <= field_size,
            forall|q: int| 1 <= q < a ==> exp@[#[trigger] log@[q] as int] == q,
        decreases field_size - a,
    {
        if exp[log[a] as usize] as usize != a {
            return false;
        }
        a += 1;
    }
    let mut m: usize = 0;
    while m < onemask as usize
        invariant
            log.len() == onemask as int + 1,
            exp.len() == onemask as int + 1,
            elems_le(exp@, onemask as int),
            m <= onemask as usize,
            forall|q: int| 0 <= q < m ==> log@[#[trigger] exp@[q] as int] == q,
        decreases onemask as usize - m,
    {
        if log[exp[m] as usize] as usize != m {
            return false;
        }
        m += 1;
    }
    true
}

/// Skew factors, formal-derivative factors and the log-Walsh table.
fn build_decoder_tables(
    log: &Vec<Elt>,
    exp: &Vec<Elt>,
    field_bits: usize,
    onemask: Elt,
) -> (r: Option<(Vec<Elt>, Vec<Elt>, Vec<Elt>)>)
    requires
        field_bits == 8 || field_bits == 16,
        log.len() == onemask as int + 1,
        exp.len() == onemask as int + 1,
        (field_bits == 8 && onemask == 255) || (field_bits == 16 && onemask == 65535),
        elems_le(log@, onemask as int),
        elems_le(exp@, onemask as int),
    ensures
        match r {
            Some((skew, b, log_walsh)) => {
                &&& skew.len() == onemask
                &&& b.len() == (onemask as int + 1) / 2
                &&& log_walsh.len() == onemask as int + 1
                &&& elems_le(skew@, onemask as int)
                &&& elems_le(b@, onemask as int)
                &&& elems_le(log_walsh@, onemask as int)
                &&& log_walsh@ == walsh_rec(
                    log@.update(0, 0u16),
                    onemask as int + 1,
                    1,
                    onemask as int,
                )
                &&& derivative_recurrence(b@, field_bits - 1, onemask as int)
                &&& skew@ == skew_table_spec(log@, exp@, onemask as int, field_bits as int)
                &&& b@ == derivative_table_spec(log@, exp@, onemask as int, field_bits as int)
            },
            None => true,
        },
{
    let field_size: usize = onemask as usize + 1;
    let mut skew: Vec<Elt> = vec![0; onemask as usize];
    let mut b: Vec<Elt> = vec![0; field_size / 2];

    // working basis, fb[i - 1] = 2^i in additive form
    let mut fb: Vec<Elt> = Vec::new();
    let mut w: Wide = 2;
    let mut i: usize = 1;
    proof {
        lemma2_to64();
    }
    while i < field_bits
        invariant
            field_bits <= 16,
            onemask == 255 || onemask == 65535,
            (field_bits == 8 && onemask == 255) || (field_bits == 16 && onemask == 65535),
            1 <= i <= field_bits,
            w as int == pow2(i as nat),
            w <= 2 * onemask as Wide,
            fb.len() == i - 1,
            forall|q: int| 0 <= q < fb.len() ==> fb@[q] as int == pow2((q + 1) as nat),
            elems_le(fb@, onemask as int),
        decreases field_bits - i,
    {
        if w > onemask as Wide {
            return None;
        }
        fb.push(w as Elt);
        proof {
            lemma_pow2_unfold(i as nat + 1);
        }
        w = w * 2;
        i += 1;
    }
    proof {
        assert(fb@ =~= fb_init(field_bits as int));
    }

    // skew factors, reshaping the basis as each level is consumed
    let ghost zeros = Seq::new(onemask as nat, |q: int| 0u16);
    let ghost fb0 = fb_init(field_bits as int);
    let ghost mask = onemask as int;
    proof {
        assert(skew@ =~= zeros);
    }
    let mut m: usize = 0;
    let mut step: usize = 2;
    let mut pm: usize = 1;
    while m + 1 < field_bits
        invariant
            field_bits == 8 || field_bits == 16,
            (field_bits == 8 && onemask == 255) || (field_bits == 16 && onemask == 65535),
            field_size == onemask as int + 1,
            mask == onemask as int,
            log.len() == field_size,
            exp.len() == field_size,
            skew.len() == onemask,
            fb.len() == field_bits - 1,
            m <= field_bits,
            1 <= step <= 2 * field_size,
            1 <= pm <= 2 * field_size,
            elems_le(skew@, onemask as int),
            elems_le(fb@, onemask as int),
            elems_le(log@, onemask as int),
            elems_le(exp@, onemask as int),
            skew_levels(
                log@,
                exp@,
                mask,
                skew@,
                fb@,
                m as int,
                field_bits as int,
                pm as int,
                step as int,
            ) == skew_levels(log@, exp@, mask, zeros, fb0, 0, field_bits as int, 1, 2),
        decreases field_bits - m,
    {
        let ghost sk0 = skew@;
        let ghost fbv0 = fb@;
        if pm - 1 < onemask as usize {
            skew[pm - 1] = 0;
        } else {
            return None;
        }
        let ghost sk1 = skew@;
        proof {
            assert(sk1 == sk0.update(pm - 1, 0u16));
        }
        let mut i2: usize = m;
        let mut ss: usize = if step > 0 {
            step
        } else {
            return None;
        };
        while i2 + 1 < field_bits
            invariant
                field_bits == 8 || field_bits == 16,
                (field_bits == 8 && onemask == 255) || (field_bits == 16 && onemask
                    == 65535),
                log.len() == field_size,
                skew.len() == onemask,
                fb.len() == field_bits - 1,
                m <= i2 <= field_bits,
                1 <= step <= 2 * field_size,
                pm >= 1,
                ss >= 1,
                ss <= 2 * field_size,
                field_size == onemask as int + 1,
                elems_le(skew@, onemask as int),
                elems_le(fb@, onemask as int),
                fb@ == fbv0,
                skew_level(
                    skew@,
                    fbv0,
                    i2 as int,
                    field_bits as int,
                    ss as int,
                    step as int,
                    pm as int,
                ) == skew_level(
                    sk1,
                    fbv0,
                    m as int,
                    field_bits as int,
                    step as int,
                    step as int,
                    pm as int,
                ),
            decreases field_bits - i2,
        {
            let basis: Elt = fb[i2];
            let ghost swstart = skew@;
            let mut j: usize = pm - 1;
            while j < ss
                invariant
                    skew.len() == onemask,
                    1 <= step <= 2 * field_size,
                    ss <= 2 * field_size,
                    field_size == onemask as int + 1,
                    onemask == 255 || onemask == 65535,
                    basis <= onemask,
                    pm >= 1,
                    elems_le(skew@, onemask as int),
                    skew_sweep(skew@, basis, j as int, ss as int, step as int) == skew_sweep(
                        swstart,
                        basis,
                        pm as int - 1,
                        ss as int,
                        step as int,
                    ),
                decreases ss + step - j,
            {
                if j + ss < onemask as usize {
                    let v: Elt = skew[j] ^ basis;
                    proof {
                        lemma_mask_xor(skew@[j as int], basis, onemask);
                    }
                    skew[j + ss] = v;
                } else {
                    return None;
                }
                j += step;
            }
            proof {
                assert(skew@ == skew_sweep(
                    swstart,
                    basis,
                    pm as int - 1,
                    ss as int,
                    step as int,
                ));
                assert(basis == fbv0[i2 as int]);
            }
            if ss > field_size {
                return None;
            }
            ss = ss * 2;
            i2 += 1;
        }
        proof {
            assert(skew@ == skew_level(
                sk1,
                fbv0,
                m as int,
                field_bits as int,
                step as int,
                step as int,
                pm as int,
            ));
        }
        let ghost sk2 = skew@;
        // reshape the remaining basis through the consumed level
        let fbm: Elt = fb[m];
        let x: Elt = fbm ^ 1;
        proof {
            lemma_mask_xor(fbm, 1, onemask);
        }
        let lx: Elt = log[x as usize];
        let idx: Elt = raw_mul(log, exp, onemask, fbm, lx);
        let lidx: Elt = log[idx as usize];
        fb[m] = onemask - lidx;
        let ghost fbv1 = fb@;
        proof {
            assert(fbv1 == fbv0.update(m as int, (mask - log@[idx as int]) as Elt));
        }
        let mut i3: usize = m + 1;
        while i3 + 1 < field_bits
            invariant
                field_bits == 8 || field_bits == 16,
                (field_bits == 8 && onemask == 255) || (field_bits == 16 && onemask
                    == 65535),
                mask == onemask as int,
                log.len() == field_size,
                exp.len() == field_size,
                fb.len() == field_bits - 1,
                m < i3 <= field_bits,
                field_size == onemask as int + 1,
                elems_le(fb@, onemask as int),
                elems_le(log@, onemask as int),
                elems_le(exp@, onemask as int),
                fb_reshape_tail(
                    log@,
                    exp@,
                    mask,
                    fb@,
                    m as int,
                    i3 as int,
                    field_bits as int,
                ) == fb_reshape_tail(
                    log@,
                    exp@,
                    mask,
                    fbv1,
                    m as int,
                    m as int + 1,
                    field_bits as int,
                ),
            decreases field_bits - i3,
        {
            let y: Elt = fb[i3] ^ 1;
            proof {
                lemma_mask_xor(fb@[i3 as int], 1, onemask);
            }
            let t: Wide = log[y as usize] as Wide + fb[m] as Wide;
            let t: Wide = t % onemask as Wide;
            fb[i3] = raw_mul(log, exp, onemask, fb[i3], t as Elt);
            i3 += 1;
        }
        proof {
            assert(fb@ == fb_reshape_tail(
                log@,
                exp@,
                mask,
                fbv1,
                m as int,
                m as int + 1,
                field_bits as int,
            ));
            assert(fb@ == fb_reshape(log@, exp@, mask, fbv0, m as int, field_bits as int));
            assert(skew_levels(
                log@,
                exp@,
                mask,
                sk0,
                fbv0,
                m as int,
                field_bits as int,
                pm as int,
                step as int,
            ) == skew_levels(
                log@,
                exp@,
                mask,
                sk2,
                fb@,
                m as int + 1,
                field_bits as int,
                2 * pm as int,
                2 * step as int,
            ));
        }
        if pm > field_size || step > field_size {
            return None;
        }
        pm = pm * 2;
        step = step * 2;
        m += 1;
    }
    proof {
        assert(skew@ == skew_levels(
            log@,
            exp@,
            mask,
            zeros,
            fb0,
            0,
            field_bits as int,
            1,
            2,
        ).0);
        assert(fb@ == skew_levels(
            log@,
            exp@,
            mask,
            zeros,
            fb0,
            0,
            field_bits as int,
            1,
            2,
        ).1);
    }
    let ghost pre = skew@;
    let ghost fb_levels_out = fb@;

    // store the skew factors in log form
    let mut si: usize = 0;
    while si < onemask as usize
        invariant
            log.len() == field_size,
            skew.len() == onemask,
            field_size == onemask as int + 1,
            si <= onemask as usize,
            elems_le(skew@, onemask as int),
            elems_le(log@, onemask as int),
            forall|p: int| 0 <= p < si ==> skew@[p] == log@[pre[p] as int],
            forall|p: int| si <= p < onemask ==> skew@[p] == pre[p],
        decreases onemask as usize - si,
    {
        let idx = skew[si] as usize;
        skew[si] = log[idx];
        si += 1;
    }
    proof {
        assert(skew@ =~= skew_table_spec(log@, exp@, mask, field_bits as int));
    }

    // cumulative log form of the reshaped basis
    if fb.len() == 0 {
        return None;
    }
    if fb[0] > onemask {
        return None;
    }
    fb[0] = onemask - fb[0];
    let ghost fbc0 = fb@;
    proof {
        assert(fbc0 == fb_levels_out.update(0, (mask - fb_levels_out[0]) as Elt));
    }
    let mut i4: usize = 1;
    while i4 < fb.len()
        invariant
            onemask >= 1,
            mask == onemask as int,
            i4 >= 1,
            field_bits == 8 || field_bits == 16,
            fb.len() == field_bits - 1,
            fb_cumulative(mask, fb@, i4 as int) == fb_cumulative(mask, fbc0, 1),
            elems_le(fb@, onemask as int),
        decreases fb.len() - i4,
    {
        let t: Wide = onemask as Wide - fb[i4] as Wide + fb[i4 - 1] as Wide;
        let t: Wide = t % onemask as Wide;
        fb[i4] = t as Elt;
        i4 += 1;
    }
    let ghost fbf = fb@;
    proof {
        assert(fbf == fb_final(mask, fb_levels_out));
    }

    // formal-derivative factors
    b[0] = 0;
    let ghost zb = b@;
    proof {
        assert(zb =~= Seq::new(((mask + 1) / 2) as nat, |q: int| 0u16));
    }
    let mut depart: usize = 1;
    let mut i5: usize = 0;
    proof {
        lemma2_to64();
    }
    while i5 + 1 < field_bits
        invariant
            field_bits == 8 || field_bits == 16,
            b.len() == field_size / 2,
            fb.len() == field_bits - 1,
            field_size == onemask as int + 1,
            onemask >= 1,
            mask == onemask as int,
            i5 <= field_bits - 1,
            depart as int == pow2(i5 as nat),
            1 <= depart <= 2 * field_size,
            b@[0] == 0,
            fb@ == fbf,
            elems_le(b@, onemask as int),
            elems_le(fb@, onemask as int),
            b_fill(b@, fbf, i5 as int, depart as int, field_bits as int, mask) == b_fill(
                zb,
                fbf,
                0,
                1,
                field_bits as int,
                mask,
            ),
            forall|e: nat, idx: int|
                #![trigger b@[idx], pow2(e)]
                e < i5 && pow2(e) <= idx < 2 * pow2(e) ==> b@[idx] == ((b@[idx - pow2(e)]
                    + b@[pow2(e) as int]) % onemask as int) as Elt,
        decreases field_bits - i5,
    {
        let fbi: Elt = fb[i5];
        let ghost b0 = b@;
        let mut j: usize = 0;
        while j < depart
            invariant
                b.len() == field_size / 2,
                field_size == onemask as int + 1,
                onemask >= 1,
                mask == onemask as int,
                j <= depart,
                depart <= 2 * field_size,
                fbi <= onemask,
                b.len() == b0.len(),
                j == 0 || depart + j <= b.len(),
                elems_le(b@, onemask as int),
                b_fill_level(b@, fbi, j as int, depart as int, mask) == b_fill_level(
                    b0,
                    fbi,
                    0,
                    depart as int,
                    mask,
                ),
                forall|p: int|
                    0 <= p < b.len() && !(depart <= p < depart + j) ==> b@[p] == b0[p],
                forall|p: int|
                    depart <= p < depart + j ==> b@[p] == ((b0[p - depart] + fbi)
                        % onemask as int) as Elt,
            decreases depart - j,
        {
            if j + depart < b.len() {
                let t: Wide = (b[j] as Wide + fbi as Wide) % onemask as Wide;
                b[j + depart] = t as Elt;
            } else {
                return None;
            }
            j += 1;
        }
        proof {
            assert(b@ == b_fill_level(b0, fbi, 0, depart as int, mask));
            assert(fbi == fbf[i5 as int]);
            let m = onemask as int;
            let dd = depart as int;
            assert(2 * dd <= b.len());
            // the block's first entry is the level factor reduced mod m,
            // so the recurrence can be stated over the table alone
            assert(b@[dd] == ((b0[0] + fbi) % m) as Elt);
            assert(b@[dd] == (fbi as int % m) as Elt);
            assert forall|idx: int| dd <= idx < 2 * dd implies #[trigger] b@[idx] == ((b@[idx
                - dd] + b@[dd]) % m) as Elt by {
                assert(b@[idx] == ((b0[idx - dd] + fbi) % m) as Elt);
                assert(b@[idx - dd] == b0[idx - dd]);
                lemma_add_mod_noop(b0[idx - dd] as int, fbi as int, m);
                lemma_add_mod_noop(b0[idx - dd] as int, b@[dd] as int, m);
                lemma_mod_twice(fbi as int, m);
                assert(b@[dd] as int % m == fbi as int % m);
                assert((b0[idx - dd] + fbi) % m == (b0[idx - dd] + b@[dd] as int) % m);
            }
            assert forall|e: nat, idx: int|
                #![trigger b@[idx], pow2(e)]
                e < i5 + 1 && pow2(e) <= idx < 2 * pow2(e) implies b@[idx] == ((b@[idx
                - pow2(e)] + b@[pow2(e) as int]) % onemask as int) as Elt by {
                if e < i5 as nat {
                    lemma_pow2_unfold(e + 1);
                    if e + 1 < i5 as nat {
                        lemma_pow2_strictly_increases(e + 1, i5 as nat);
                    }
                    assert(2 * pow2(e) <= dd);
                    assert(b@[idx] == b0[idx]);
                    assert(b@[idx - pow2(e)] == b0[idx - pow2(e)]);
                    assert(b@[pow2(e) as int] == b0[pow2(e) as int]);
                } else {
                    assert(pow2(e) == dd);
                }
            }
        }
        if depart > field_size {
            return None;
        }
        proof {
            lemma_pow2_unfold(i5 as nat + 1);
        }
        depart = depart * 2;
        i5 += 1;
    }
    proof {
        assert(i5 == field_bits - 1);
        assert(b@ == b_fill(zb, fbf, 0, 1, field_bits as int, mask));
        assert(zeros =~= Seq::new(mask as nat, |i: int| 0u16));
        assert(b@ == derivative_table_spec(log@, exp@, mask, field_bits as int));
    }

    // Walsh transform of the logarithms
    let mut log_walsh: Vec<Elt> = Vec::new();
    let mut ci: usize = 0;
    while ci < field_size
        invariant
            log.len() == field_size,
            ci <= field_size,
            log_walsh.len() == ci,
            elems_le(log@, onemask as int),
            elems_le(log_walsh@, onemask as int),
            forall|p: int| 0 <= p < ci ==> log_walsh@[p] == log@[p],
        decreases field_size - ci,
    {
        log_walsh.push(log[ci]);
        ci += 1;
    }
    log_walsh[0] = 0;
    proof {
        assert(log_walsh@ =~= log@.update(0, 0u16));
        lemma_sizes_pow2();
    }
    walsh(&mut log_walsh, field_size, onemask);
    Some((skew, b, log_walsh))
}

/// The Cantor basis of the 16-bit field.
pub open spec fn cantor_basis_16() -> Seq<Elt> {
    seq![
        1u16,
        44234u16,
        15374u16,
        5694u16,
        50562u16,
        60718u16,
        37196u16,
        16402u16,
        27800u16,
        4312u16,
        27250u16,
        47360u16,
        64952u16,
        64308u16,
        65336u16,
        39198u16,
    ]
}

/// The Cantor basis of the 8-bit field: the one that embeds GF(2^8) as
/// the subfield spanned by the first eight basis vectors of the 16-bit
/// field.
pub open spec fn cantor_basis_8() -> Seq<Elt> {
    seq![1u16, 214u16, 153u16, 69u16, 24u16, 195u16, 74u16, 224u16]
}

/// Build the full table set of one field. Returns `None` if any of the
/// run-time validation checks fails; a returned field satisfies `wf`.
fn build_field(field_bits: usize, generator: Elt, base: &Vec<Elt>) -> (r: Option<Field>)
    requires
        field_bits == 8 || field_bits == 16,
        generator <= 255 || field_bits == 16,
    ensures
        match r {
            Some(f) => {
                &&& f.wf()
                &&& f.field_bits == field_bits
                &&& f.log@ == log_table_spec(f.field_size(), generator, base@)
                &&& f.exp@ == exp_table_spec(f.field_size(), generator, base@)
                &&& f.log_walsh@ == walsh_rec(f.log@.update(0, 0u16), f.field_size(), 1, f.onemask as int)
                &&& derivative_recurrence(f.b@, f.field_bits - 1, f.onemask as int)
                &&& f.b@ == derivative_table_spec(f.log@, f.exp@, f.onemask as int, f.field_bits as int)
                &&& f.skew@ == skew_table_spec(f.log@, f.exp@, f.onemask as int, f.field_bits as int)
            },
            None => true,
        },
{
    let field_size: usize = if field_bits == 8 {
        256
    } else {
        65536
    };
    let onemask: Elt = (field_size - 1) as Elt;
    let tables = build_log_exp(field_size, onemask, generator, base);
    let (log, exp) = match tables {
        Some(t) => t,
        None => {
            return None;
        },
    };
    if !validate_log_exp(&log, &exp, onemask) {
        return None;
    }
    let dec = build_decoder_tables(&log, &exp, field_bits, onemask);
    let (skew, b, log_walsh) = match dec {
        Some(t) => t,
        None => {
            return None;
        },
    };
    Some(
        Field {
            field_bits,
            onemask,
            log,
            exp,
            skew,
            b,
            log_walsh,
        },
    )
}

/// The 16-bit field GF(2^16) with generator polynomial
/// `x^16 + x^5 + x^3 + x^2 + 1` and its Cantor basis.
pub fn f2e16() -> (r: Option<Field>)
    ensures
        match r {
            Some(f) => {
                &&& f.wf()
                &&& f.field_bits == 16
                &&& f.onemask == 65535
                &&& f.log@ == log_table_spec(65536, 0x2D, cantor_basis_16())
                &&& f.exp@ == exp_table_spec(65536, 0x2D, cantor_basis_16())
                &&& f.log_walsh@ == walsh_rec(f.log@.update(0, 0u16), f.field_size(), 1, f.onemask as int)
                &&& derivative_recurrence(f.b@, f.field_bits - 1, f.onemask as int)
                &&& f.b@ == derivative_table_spec(f.log@, f.exp@, f.onemask as int, f.field_bits as int)
                &&& f.skew@ == skew_table_spec(f.log@, f.exp@, f.onemask as int, f.field_bits as int)
            },
            None => true,
        },
{
    let base: Vec<Elt> = vec![
        1, 44234, 15374, 5694, 50562, 60718, 37196, 16402, 27800, 4312, 27250, 47360, 64952,
        64308, 65336, 39198,
    ];
    proof {
        assert(base@ =~= cantor_basis_16());
    }
    build_field(16, 0x2D, &base)
}

/// The 8-bit field GF(2^8) with generator polynomial
/// `x^8 + x^4 + x^3 + x^2 + 1` and the Cantor basis that embeds it as
/// the subfield spanned by the first eight basis vectors of the 16-bit
/// field, so that multiplication agrees across the two fields.
pub fn f256() -> (r: Option<Field>)
    ensures
        match r {
            Some(f) => {
                &&& f.wf()
                &&& f.field_bits == 8
                &&& f.onemask == 255
                &&& f.log@ == log_table_spec(256, 0x1D, cantor_basis_8())
                &&& f.exp@ == exp_table_spec(256, 0x1D, cantor_basis_8())
                &&& f.log_walsh@ == walsh_rec(f.log@.update(0, 0u16), f.field_size(), 1, f.onemask as int)
                &&& derivative_recurrence(f.b@, f.field_bits - 1, f.onemask as int)
                &&& f.b@ == derivative_table_spec(f.log@, f.exp@, f.onemask as int, f.field_bits as int)
                &&& f.skew@ == skew_table_spec(f.log@, f.exp@, f.onemask as int, f.field_bits as int)
            },
            None => true,
        },
{
    let base: Vec<Elt> = vec![1, 214, 153, 69, 24, 195, 74, 224];
    proof {
        assert(base@ =~= cantor_basis_8());
    }
    build_field(8, 0x1D, &base)
}

} // verus!
