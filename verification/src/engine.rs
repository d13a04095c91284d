//! The engine facade: payload bytes in, shards out, and back. Pads the
//! payload to a power-of-two length, packs bytes into field symbols,
//! encodes each symbol lane with the low-rate encoder, and reconstructs
//! erased shards with the erasure decoder.

use vstd::prelude::*;
use vstd::arithmetic::div_mod::{lemma_fundamental_div_mod, lemma_fundamental_div_mod_converse};
use vstd::arithmetic::power2::is_pow2;
use crate::codec::{
    decode_init, decode_init_spec, decode_main, decode_main_spec, encode_low, encode_low_spec,
    is_power_of_2,
};
use crate::field::{elems_le, Elt, Field};

verus! {

/// What went wrong with an encode or reconstruct call.
#[derive(Clone, Copy, PartialEq, Eq, Structural, Debug)]
pub enum CodecError {
    /// The shard count is not a power of two.
    NotPowerOfTwo,
    /// The shard count exceeds the field order.
    TooManyShards,
    /// The shard count is too small to carry any payload.
    TooFewShards,
    /// The payload is empty.
    PayloadEmpty,
    /// Fewer present shards than the message length.
    NotEnoughShards,
    /// The shard vector or the shards themselves have the wrong length.
    LengthMismatch,
}

/// The largest power of two that is at most `x`, for `x >= 1`.
pub open spec fn spec_floor_pow2(x: int) -> int
    decreases x,
{
    if x <= 1 {
        1
    } else {
        2 * spec_floor_pow2(x / 2)
    }
}

/// The smallest power of two that is at least `x`: the result of
/// doubling from one until `x` is reached.
pub open spec fn spec_next_pow2_from(p: int, x: int) -> int
    decreases (if x - p >= 0 { x - p } else { 0 }),
{
    if p >= x {
        p
    } else if p < 1 {
        1
    } else {
        spec_next_pow2_from(2 * p, x)
    }
}

pub open spec fn spec_next_pow2(x: int) -> int {
    spec_next_pow2_from(1, x)
}

/// The message length used for `n` shards: the largest power of two at
/// most a third of `n`.
pub open spec fn spec_default_k(n: int) -> int {
    spec_floor_pow2(n / 3)
}

/// Bytes per symbol of the field: two for the 16-bit field, one for the
/// 8-bit field.
pub open spec fn sym_bytes(f: Field) -> int {
    if f.field_bits == 16 {
        2
    } else {
        1
    }
}

/// The largest power of two at most `x`.
fn floor_pow2(x: usize) -> (r: usize)
    requires
        1 <= x,
    ensures
        r as int == spec_floor_pow2(x as int),
        1 <= r <= x,
{
    let mut y: usize = x;
    let mut r: usize = 1;
    while y > 1
        invariant
            y >= 1,
            r >= 1,
            r as int * y as int <= x as int,
            r as int * spec_floor_pow2(y as int) == spec_floor_pow2(x as int),
        decreases y,
    {
        proof {
            assert(2 * r as int * (y as int / 2) <= r as int * y as int) by (nonlinear_arith)
                requires
                    y >= 2,
                    r >= 1,
            ;
            assert(2 * r as int <= x as int) by (nonlinear_arith)
                requires
                    r as int * y as int <= x as int,
                    y >= 2,
                    r >= 1,
            ;
            assert(r as int * (2 * spec_floor_pow2(y as int / 2)) == (2 * r as int)
                * spec_floor_pow2(y as int / 2)) by (nonlinear_arith);
        }
        r = r * 2;
        y = y / 2;
        proof {
            assert(y as int * 1 <= r as int * y as int) by (nonlinear_arith)
                requires
                    r >= 1,
                    y >= 0,
            ;
        }
    }
    proof {
        assert(r as int * 1 <= x as int) by (nonlinear_arith)
            requires
                r as int * y as int <= x as int,
                y == 1,
        ;
    }
    r
}

/// The smallest power of two that is at least `x`.
fn next_pow2(x: usize) -> (r: usize)
    requires
        x <= 0x1000_0000,
    ensures
        r as int == spec_next_pow2(x as int),
        x <= r,
        r <= 0x2000_0000,
{
    let mut p: usize = 1;
    while p < x
        invariant
            1 <= p,
            p == 1 || p <= 2 * x,
            x <= 0x1000_0000,
            spec_next_pow2_from(p as int, x as int) == spec_next_pow2(x as int),
        decreases 2 * x - p,
    {
        p = p * 2;
    }
    p
}


/// The result of a power-of-two floor is a power of two, at most `x`.
proof fn lemma_floor_pow2_is(x: int)
    requires
        x >= 1,
    ensures
        is_pow2(spec_floor_pow2(x)),
        1 <= spec_floor_pow2(x) <= x,
    decreases x,
{
    reveal_with_fuel(is_pow2, 2);
    if x > 1 {
        lemma_floor_pow2_is(x / 2);
        assert(spec_floor_pow2(x) == 2 * spec_floor_pow2(x / 2));
    }
}

/// Doubling from a power of two yields a power of two at least `x`.
proof fn lemma_next_pow2_from_is(p: int, x: int)
    requires
        is_pow2(p),
    ensures
        is_pow2(spec_next_pow2_from(p, x)),
        spec_next_pow2_from(p, x) >= x || spec_next_pow2_from(p, x) >= p,
        spec_next_pow2_from(p, x) >= x,
    decreases (if x - p >= 0 { x - p } else { 0 }),
{
    reveal_with_fuel(is_pow2, 2);
    if p < x {
        if p < 1 {
        } else {
            lemma_next_pow2_from_is(2 * p, x);
        }
    }
}

/// A byte of the payload, zero past its end.
pub open spec fn byte_at(payload: Seq<u8>, i: int) -> u8 {
    if 0 <= i < payload.len() {
        payload[i]
    } else {
        0
    }
}

/// Symbol `s` of the padded payload: one byte, or two bytes little-endian.
pub open spec fn sym_at(f: Field, payload: Seq<u8>, s: int) -> Elt {
    if f.field_bits == 16 {
        (byte_at(payload, 2 * s) + 256 * byte_at(payload, 2 * s + 1)) as Elt
    } else {
        byte_at(payload, s) as Elt
    }
}

/// Number of padded payload bytes for a payload of `l` bytes and message
/// length `k`: the smallest power of two at least `l` and at least one
/// message block.
pub open spec fn spec_padded_len(f: Field, l: int, k: int) -> int {
    spec_next_pow2(
        if l >= sym_bytes(f) * k {
            l
        } else {
            sym_bytes(f) * k
        },
    )
}

/// Number of symbol lanes: padded payload symbols per message block.
pub open spec fn spec_lanes(f: Field, l: int, k: int) -> int {
    spec_padded_len(f, l, k) / sym_bytes(f) / k
}

/// The message block of lane `l`, zero-extended to the codeword length.
pub open spec fn lane_data(f: Field, payload: Seq<u8>, k: int, n: int, l: int) -> Seq<Elt> {
    Seq::new(
        n as nat,
        |p: int|
            if 0 <= p < k {
                sym_at(f, payload, l * k + p)
            } else {
                0u16
            },
    )
}

/// The codeword of lane `l`.
pub open spec fn lane_codeword(f: Field, payload: Seq<u8>, k: int, n: int, l: int) -> Seq<Elt> {
    encode_low_spec(f, lane_data(f, payload, k, n, l), k, n)
}

/// When `encode` rejects its inputs, and with which error.
pub open spec fn encode_err(f: Field, l: int, n: int) -> Option<CodecError> {
    if !is_pow2(n) {
        Some(CodecError::NotPowerOfTwo)
    } else if n > f.field_size() {
        Some(CodecError::TooManyShards)
    } else if n < 4 {
        Some(CodecError::TooFewShards)
    } else if l == 0 {
        Some(CodecError::PayloadEmpty)
    } else {
        None
    }
}

/// The bytes of shard `i`: for each lane, the lane codeword's symbol at
/// `i`, little-endian.
pub open spec fn shard_spec(f: Field, payload: Seq<u8>, n: int, i: int) -> Seq<u8> {
    let k = spec_default_k(n);
    let sb = sym_bytes(f);
    let lanes = spec_lanes(f, payload.len() as int, k);
    Seq::new(
        (sb * lanes) as nat,
        |b: int|
            {
                let cw = lane_codeword(f, payload, k, n, b / sb);
                if sb == 2 {
                    if b % 2 == 0 {
                        (cw[i] as int % 256) as u8
                    } else {
                        (cw[i] as int / 256) as u8
                    }
                } else {
                    cw[i] as u8
                }
            },
    )
}

/// Encode a payload into `n` shards, any `k` of which recover it, where
/// `k` is the largest power of two at most `n / 3`. The payload is
/// zero-padded to a power-of-two byte length of at least one message
/// block, packed little-endian into field symbols, and each block of `k`
/// symbols becomes one lane of a low-rate codeword; shard `i` carries
/// symbol `i` of every lane. Payloads up to 256 MiB are accepted, the
/// bound under which the padding and lane arithmetic is proved free of
/// overflow on 32-bit targets.
pub fn encode(payload: &Vec<u8>, n: usize, f: &Field) -> (r: Result<Vec<Vec<u8>>, CodecError>)
    requires
        f.wf(),
        payload.len() <= 0x1000_0000,
    ensures
        match r {
            Ok(shards) => {
                &&& encode_err(*f, payload@.len() as int, n as int) is None
                &&& shards@.len() == n
                &&& forall|i: int|
                    0 <= i < n ==> (#[trigger] shards@[i])@ == shard_spec(
                        *f,
                        payload@,
                        n as int,
                        i,
                    )
            },
            Err(e) => encode_err(*f, payload@.len() as int, n as int) == Some(e),
        },
{
    if !is_power_of_2(n) {
        return Err(CodecError::NotPowerOfTwo);
    }
    if n > f.onemask as usize + 1 {
        return Err(CodecError::TooManyShards);
    }
    if n < 4 {
        return Err(CodecError::TooFewShards);
    }
    if payload.len() == 0 {
        return Err(CodecError::PayloadEmpty);
    }
    let k: usize = floor_pow2(n / 3);
    proof {
        lemma_floor_pow2_is(n as int / 3);
    }
    let sb: usize = if f.field_bits == 16 {
        2
    } else {
        1
    };
    let target: usize = if payload.len() >= sb * k {
        payload.len()
    } else {
        sb * k
    };
    let plen: usize = next_pow2(target);
    proof {
        reveal_with_fuel(is_pow2, 2);
        assert(is_pow2(1));
        lemma_next_pow2_from_is(1, target as int);
        crate::tables::lemma_sizes_pow2();
        if sb == 2 {
            assert(plen as int % 2 == 0) by {
                reveal_with_fuel(is_pow2, 2);
                assert(plen >= 2);
            }
        }
    }
    let nsyms: usize = plen / sb;
    proof {
        if sb == 2 {
            crate::codec::lemma_pow2_halves(plen as int);
        }
        assert(is_pow2(nsyms as int));
        assert(nsyms >= k) by (nonlinear_arith)
            requires
                plen >= sb * k,
                nsyms as int == plen as int / sb as int,
                sb == 1 || sb == 2,
                plen as int % sb as int == 0 || sb == 1,
        ;
        crate::codec::lemma_pow2_divides(k as int, nsyms as int);
    }
    let mut syms: Vec<Elt> = Vec::new();
    let mut si: usize = 0;
    while si < nsyms
        invariant
            f.wf(),
            sb == sym_bytes(*f),
            si <= nsyms,
            syms.len() == si,
            payload.len() <= 0x1000_0000,
            nsyms <= 0x2000_0000,
            forall|p: int| 0 <= p < si ==> syms@[p] == sym_at(*f, payload@, p),
            elems_le(syms@, f.onemask as int),
        decreases nsyms - si,
    {
        let v: Elt = if sb == 2 {
            let lo: u8 = if 2 * si < payload.len() {
                payload[2 * si]
            } else {
                0
            };
            let hi: u8 = if 2 * si + 1 < payload.len() {
                payload[2 * si + 1]
            } else {
                0
            };
            lo as Elt + 256 * (hi as Elt)
        } else {
            let b: u8 = if si < payload.len() {
                payload[si]
            } else {
                0
            };
            b as Elt
        };
        syms.push(v);
        si += 1;
    }
    let lanes: usize = nsyms / k;
    proof {
        let q = nsyms as int / k as int;
        lemma_fundamental_div_mod(nsyms as int, k as int);
        assert(lanes as int * k as int == nsyms as int) by (nonlinear_arith)
            requires
                nsyms as int == k as int * q + 0,
                lanes as int == q,
        ;
    }
    // one codeword per lane
    let mut cws: Vec<Vec<Elt>> = Vec::new();
    let mut l: usize = 0;
    while l < lanes
        invariant
            f.wf(),
            sb == sym_bytes(*f),
            1 <= k,
            k + k <= n,
            n <= f.field_size(),
            is_pow2(k as int),
            is_pow2(n as int),
            l <= lanes,
            lanes as int * k as int == nsyms as int,
            syms.len() == nsyms,
            elems_le(syms@, f.onemask as int),
            forall|p: int| 0 <= p < nsyms ==> syms@[p] == sym_at(*f, payload@, p),
            cws.len() == l,
            k as int == spec_default_k(n as int),
            forall|ll: int|
                0 <= ll < l ==> (#[trigger] cws@[ll])@ == lane_codeword(
                    *f,
                    payload@,
                    k as int,
                    n as int,
                    ll,
                ) && cws@[ll].len() == n && elems_le(cws@[ll]@, f.onemask as int),
        decreases lanes - l,
    {
        proof {
            assert((l + 1) as int * k as int <= nsyms as int && l as int * k as int + k as int
                == (l + 1) as int * k as int) by (nonlinear_arith)
                requires
                    l < lanes,
                    k >= 1,
                    lanes as int * k as int == nsyms as int,
            ;
        }
        let mut data: Vec<Elt> = Vec::new();
        let mut p: usize = 0;
        while p < n
            invariant
                f.wf(),
                1 <= k,
                k + k <= n,
                p <= n,
                data.len() == p,
                syms.len() == nsyms,
                l as int * k as int + k as int <= nsyms as int,
                elems_le(syms@, f.onemask as int),
                forall|q: int| 0 <= q < nsyms ==> syms@[q] == sym_at(*f, payload@, q),
                forall|q: int|
                    0 <= q < p ==> data@[q] == lane_data(
                        *f,
                        payload@,
                        k as int,
                        n as int,
                        l as int,
                    )[q],
                elems_le(data@, f.onemask as int),
            decreases n - p,
        {
            let v: Elt = if p < k {
                syms[l * k + p]
            } else {
                0
            };
            data.push(v);
            p += 1;
        }
        let mut cw: Vec<Elt> = vec![0; n];
        proof {
            assert(data@ =~= lane_data(*f, payload@, k as int, n as int, l as int));
        }
        encode_low(&data, k, &mut cw, n, f);
        cws.push(cw);
        l += 1;
    }
    // gather the shards, shard-major
    let ghost goal_lanes = spec_lanes(*f, payload@.len() as int, k as int);
    proof {
        assert(lanes as int == goal_lanes);
    }
    let mut shards: Vec<Vec<u8>> = Vec::new();
    let mut i: usize = 0;
    while i < n
        invariant
            f.wf(),
            sb == sym_bytes(*f),
            i <= n,
            shards.len() == i,
            cws.len() == lanes,
            k as int == spec_default_k(n as int),
            lanes as int == spec_lanes(*f, payload@.len() as int, k as int),
            forall|ll: int|
                0 <= ll < lanes ==> (#[trigger] cws@[ll])@ == lane_codeword(
                    *f,
                    payload@,
                    k as int,
                    n as int,
                    ll,
                ) && cws@[ll].len() == n,
            forall|q: int|
                0 <= q < i ==> (#[trigger] shards@[q])@ == shard_spec(
                    *f,
                    payload@,
                    n as int,
                    q,
                ),
        decreases n - i,
    {
        let ghost sgoal = shard_spec(*f, payload@, n as int, i as int);
        let mut sh: Vec<u8> = Vec::new();
        let mut l2: usize = 0;
        while l2 < lanes
            invariant
                f.wf(),
                sb == sym_bytes(*f),
                i < n,
                l2 <= lanes,
                cws.len() == lanes,
                sh.len() == sb * l2,
                k as int == spec_default_k(n as int),
                lanes as int == spec_lanes(*f, payload@.len() as int, k as int),
                sgoal == shard_spec(*f, payload@, n as int, i as int),
                forall|ll: int|
                    0 <= ll < lanes ==> (#[trigger] cws@[ll])@ == lane_codeword(
                        *f,
                        payload@,
                        k as int,
                        n as int,
                        ll,
                    ) && cws@[ll].len() == n,
                forall|b: int| 0 <= b < sb * l2 ==> sh@[b] == sgoal[b],
            decreases lanes - l2,
        {
            let cwl: &Vec<Elt> = &cws[l2];
            let symv: Elt = cwl[i];
            if sb == 2 {
                sh.push((symv % 256) as u8);
                sh.push((symv / 256) as u8);
                proof {
                    lemma_fundamental_div_mod_converse(
                        2 * l2 as int,
                        2,
                        l2 as int,
                        0,
                    );
                    lemma_fundamental_div_mod_converse(
                        2 * l2 as int + 1,
                        2,
                        l2 as int,
                        1,
                    );
                }
            } else {
                sh.push(symv as u8);
                proof {
                    lemma_fundamental_div_mod_converse(l2 as int, 1, l2 as int, 0);
                }
            }
            l2 += 1;
        }
        proof {
            assert(sh@ =~= sgoal);
        }
        shards.push(sh);
        i += 1;
    }
    Ok(shards)
}


/// Number of shards present among the first `i`.
pub open spec fn count_present(shards: Seq<Option<Vec<u8>>>, i: int) -> int
    decreases i,
{
    if i <= 0 {
        0
    } else {
        count_present(shards, i - 1) + if shards[i - 1] is Some {
            1int
        } else {
            0int
        }
    }
}

/// Index of the first present shard at or after `i`, or `n` if none.
pub open spec fn first_present(shards: Seq<Option<Vec<u8>>>, i: int, n: int) -> int
    decreases (if n - i >= 0 { n - i } else { 0 }),
{
    if i < 0 || i >= n {
        n
    } else if shards[i] is Some {
        i
    } else {
        first_present(shards, i + 1, n)
    }
}

/// Byte length shared by the present shards (of the first one, if their
/// lengths are consistent).
pub open spec fn present_len(shards: Seq<Option<Vec<u8>>>, n: int) -> int {
    let fp = first_present(shards, 0, n);
    if fp < n {
        shards[fp].unwrap()@.len() as int
    } else {
        0
    }
}

/// All present shards share one positive length, a whole number of
/// symbols wide.
pub open spec fn shape_ok(f: Field, shards: Seq<Option<Vec<u8>>>, n: int) -> bool {
    let sl = present_len(shards, n);
    &&& sl >= sym_bytes(f)
    &&& sl % sym_bytes(f) == 0
    &&& forall|i: int|
        0 <= i < n && (#[trigger] shards[i]) is Some ==> shards[i].unwrap()@.len() == sl
}

/// When `reconstruct` rejects its inputs, and with which error.
pub open spec fn recon_err(f: Field, shards: Seq<Option<Vec<u8>>>, n: int) -> Option<
    CodecError,
> {
    if !is_pow2(n) {
        Some(CodecError::NotPowerOfTwo)
    } else if n > f.field_size() {
        Some(CodecError::TooManyShards)
    } else if n < 4 {
        Some(CodecError::TooFewShards)
    } else if shards.len() != n {
        Some(CodecError::LengthMismatch)
    } else if count_present(shards, n) < spec_default_k(n) {
        Some(CodecError::NotEnoughShards)
    } else if !shape_ok(f, shards, n) {
        Some(CodecError::LengthMismatch)
    } else {
        None
    }
}

/// The symbol that shard `i` carries in lane `l`, zero for a missing
/// shard.
pub open spec fn received_sym(f: Field, shards: Seq<Option<Vec<u8>>>, i: int, l: int) -> Elt {
    match shards[i] {
        Some(v) => {
            if f.field_bits == 16 {
                (v@[2 * l] + 256 * v@[2 * l + 1]) as Elt
            } else {
                v@[l] as Elt
            }
        },
        None => 0,
    }
}

/// Which positions are erased.
pub open spec fn erasure_flags(shards: Seq<Option<Vec<u8>>>, n: int) -> Seq<bool> {
    Seq::new(n as nat, |i: int| shards[i] is None)
}

/// The decoder's output for lane `l`: the received lane with erased
/// positions zeroed, run through the main decode pass.
pub open spec fn lane_decoded(f: Field, shards: Seq<Option<Vec<u8>>>, n: int, l: int) -> Seq<
    Elt,
> {
    let er = erasure_flags(shards, n);
    let cw = Seq::new(n as nat, |i: int| received_sym(f, shards, i, l));
    decode_main_spec(f, cw, er, decode_init_spec(f, er, n), n)
}

/// The reconstructed payload: for each lane the first `k` symbols, the
/// received symbol where the shard is present and the decoded one where
/// it is erased, written back little-endian.
pub open spec fn recon_spec(f: Field, shards: Seq<Option<Vec<u8>>>, n: int) -> Seq<u8> {
    let k = spec_default_k(n);
    let sb = sym_bytes(f);
    let lanes = present_len(shards, n) / sb;
    Seq::new(
        (sb * k * lanes) as nat,
        |b: int|
            {
                let l = b / (sb * k);
                let rem = b % (sb * k);
                let i = rem / sb;
                let sym = if shards[i] is Some {
                    received_sym(f, shards, i, l)
                } else {
                    lane_decoded(f, shards, n, l)[i]
                };
                if sb == 2 {
                    if rem % 2 == 0 {
                        (sym as int % 256) as u8
                    } else {
                        (sym as int / 256) as u8
                    }
                } else {
                    sym as u8
                }
            },
    )
}

/// Reconstruct the padded payload from the shards that are still present;
/// at least `k` of the `n` must be. Erased positions are recovered by the
/// erasure decoder; present positions are taken as received. The error
/// locator is evaluated over the whole field, so each call uses a
/// field-order working buffer (128 KiB for the 16-bit field) besides the
/// per-lane codeword.
pub fn reconstruct(shards: &Vec<Option<Vec<u8>>>, n: usize, f: &Field) -> (r: Result<
    Vec<u8>,
    CodecError,
>)
    requires
        f.wf(),
    ensures
        match r {
            Ok(payload) => {
                &&& recon_err(*f, shards@, n as int) is None
                &&& payload@ == recon_spec(*f, shards@, n as int)
            },
            Err(e) => recon_err(*f, shards@, n as int) == Some(e),
        },
{
    if !is_power_of_2(n) {
        return Err(CodecError::NotPowerOfTwo);
    }
    if n > f.onemask as usize + 1 {
        return Err(CodecError::TooManyShards);
    }
    if n < 4 {
        return Err(CodecError::TooFewShards);
    }
    if shards.len() != n {
        return Err(CodecError::LengthMismatch);
    }
    let k: usize = floor_pow2(n / 3);
    proof {
        lemma_floor_pow2_is(n as int / 3);
    }
    // count the present shards
    let mut present: usize = 0;
    let mut ci: usize = 0;
    while ci < n
        invariant
            shards.len() == n,
            ci <= n,
            present <= ci,
            present as int == count_present(shards@, ci as int),
        decreases n - ci,
    {
        if shards[ci].is_some() {
            present += 1;
        }
        ci += 1;
    }
    if present < k {
        return Err(CodecError::NotEnoughShards);
    }
    // find the first present shard and its length
    let mut fp: usize = 0;
    while fp < n && shards[fp].is_none()
        invariant
            shards.len() == n,
            fp <= n,
            first_present(shards@, 0, n as int) == first_present(shards@, fp as int, n as int),
        decreases n - fp,
    {
        fp += 1;
    }
    if fp >= n {
        // unreachable: k or more shards were counted present
        proof {
            assert(first_present(shards@, fp as int, n as int) == n);
            lemma_count_present_first(shards@, n as int, n as int);
            assert(false);
        }
        return Err(CodecError::LengthMismatch);
    }
    let sl: usize = match &shards[fp] {
        Some(v) => v.len(),
        None => {
            return Err(CodecError::LengthMismatch);
        },
    };
    proof {
        assert(present_len(shards@, n as int) == sl);
    }
    let sb: usize = if f.field_bits == 16 {
        2
    } else {
        1
    };
    if sl < sb || sl % sb != 0 {
        return Err(CodecError::LengthMismatch);
    }
    let mut li: usize = 0;
    while li < n
        invariant
            f.wf(),
            shards.len() == n,
            li <= n,
            is_pow2(n as int),
            4 <= n <= f.field_size(),
            k as int == spec_default_k(n as int),
            present as int == count_present(shards@, n as int),
            present >= k,
            sb == sym_bytes(*f),
            sl == present_len(shards@, n as int),
            sl >= sb,
            sl as int % sb as int == 0,
            forall|i: int|
                0 <= i < li && (#[trigger] shards@[i]) is Some ==> shards@[i].unwrap()@.len()
                    == sl,
        decreases n - li,
    {
        let ok: bool = match &shards[li] {
            Some(v) => v.len() == sl,
            None => true,
        };
        if !ok {
            proof {
                assert(shards@[li as int] is Some && shards@[li as int].unwrap()@.len() != sl);
                assert(!shape_ok(*f, shards@, n as int));
                assert(count_present(shards@, n as int) >= spec_default_k(n as int));
                assert(recon_err(*f, shards@, n as int) == Some(CodecError::LengthMismatch));
            }
            return Err(CodecError::LengthMismatch);
        }
        li += 1;
    }
    let lanes: usize = sl / sb;
    // erasure flags and the error locator, shared by all lanes
    let mut erasure: Vec<bool> = Vec::new();
    let mut ei: usize = 0;
    while ei < n
        invariant
            shards.len() == n,
            ei <= n,
            erasure.len() == ei,
            forall|i: int| 0 <= i < ei ==> erasure@[i] == (shards@[i] is None),
        decreases n - ei,
    {
        erasure.push(shards[ei].is_none());
        ei += 1;
    }
    proof {
        assert(erasure@ =~= erasure_flags(shards@, n as int));
    }
    let fs: usize = f.onemask as usize + 1;
    let mut log_walsh2: Vec<Elt> = vec![0; fs];
    decode_init(&erasure, &mut log_walsh2, n, f);
    // decode each lane and emit the first k symbols
    let ghost goal = recon_spec(*f, shards@, n as int);
    let mut out: Vec<u8> = Vec::new();
    let mut l: usize = 0;
    while l < lanes
        invariant
            f.wf(),
            sb == sym_bytes(*f),
            shards.len() == n,
            4 <= n <= f.field_size(),
            is_pow2(n as int),
            1 <= k,
            k + k <= n,
            k as int == spec_default_k(n as int),
            erasure@ == erasure_flags(shards@, n as int),
            erasure.len() == n,
            log_walsh2.len() == fs,
            fs == f.field_size(),
            log_walsh2@ == decode_init_spec(*f, erasure@, n as int),
            elems_le(log_walsh2@, f.onemask as int),
            lanes as int == present_len(shards@, n as int) / sb as int,
            sl == present_len(shards@, n as int),
            sl as int == sb as int * lanes as int,
            forall|i: int|
                0 <= i < n && (#[trigger] shards@[i]) is Some ==> shards@[i].unwrap()@.len()
                    == sl,
            l <= lanes,
            out.len() == sb * k * l,
            goal == recon_spec(*f, shards@, n as int),
            forall|b: int| 0 <= b < sb * k * l ==> out@[b] == goal[b],
        decreases lanes - l,
    {
        // the received lane, erased positions zeroed
        let ghost rsyms = Seq::new(n as nat, |i: int| received_sym(*f, shards@, i, l as int));
        let mut cw: Vec<Elt> = Vec::new();
        let mut i: usize = 0;
        while i < n
            invariant
                f.wf(),
                sb == sym_bytes(*f),
                shards.len() == n,
                l < lanes,
                sl as int == sb as int * lanes as int,
                forall|q: int|
                    0 <= q < n && (#[trigger] shards@[q]) is Some ==> shards@[q].unwrap()@.len()
                        == sl,
                i <= n,
                cw.len() == i,
                rsyms == Seq::new(n as nat, |q: int| received_sym(*f, shards@, q, l as int)),
                forall|q: int| 0 <= q < i ==> cw@[q] == rsyms[q],
                elems_le(cw@, f.onemask as int),
            decreases n - i,
        {
            proof {
                assert(sb as int * l as int + sb as int <= sl as int) by (nonlinear_arith)
                    requires
                        l < lanes,
                        sl as int == sb as int * lanes as int,
                        sb as int == 1 || sb as int == 2,
                ;
            }
            let v: Elt = match &shards[i] {
                Some(sv) => {
                    if sb == 2 {
                        sv[2 * l] as Elt + 256 * (sv[2 * l + 1] as Elt)
                    } else {
                        sv[l] as Elt
                    }
                },
                None => 0,
            };
            cw.push(v);
            i += 1;
        }
        proof {
            assert(cw@ =~= rsyms);
        }
        let ghost cw0 = cw@;
        decode_main(&mut cw, k, &erasure, &log_walsh2, n, f);
        // overlay: keep received symbols, take decoded ones at erasures
        let ghost base = sb * k * l;
        let mut oi: usize = 0;
        while oi < k
            invariant
                f.wf(),
                sb == sym_bytes(*f),
                shards.len() == n,
                l < lanes,
                1 <= k,
                k + k <= n,
                sl as int == sb as int * lanes as int,
                forall|q: int|
                    0 <= q < n && (#[trigger] shards@[q]) is Some ==> shards@[q].unwrap()@.len()
                        == sl,
                oi <= k,
                k as int == spec_default_k(n as int),
                lanes as int == present_len(shards@, n as int) / sb as int,
                sl == present_len(shards@, n as int),
                f.wf(),
                out.len() == sb * k * l + sb * oi,
                base == sb * k * l,
                cw.len() == n,
                cw@ == lane_decoded(*f, shards@, n as int, l as int),
                rsyms == Seq::new(n as nat, |q: int| received_sym(*f, shards@, q, l as int)),
                goal == recon_spec(*f, shards@, n as int),
                forall|b: int| 0 <= b < sb * k * l + sb * oi ==> out@[b] == goal[b],
            decreases k - oi,
        {
            let sym: Elt = if shards[oi].is_some() {
                proof {
                    assert(sb as int * l as int + sb as int <= sl as int) by (nonlinear_arith)
                        requires
                            l < lanes,
                            sl as int == sb as int * lanes as int,
                            sb as int == 1 || sb as int == 2,
                    ;
                }
                match &shards[oi] {
                    Some(sv) => {
                        if sb == 2 {
                            sv[2 * l] as Elt + 256 * (sv[2 * l + 1] as Elt)
                        } else {
                            sv[l] as Elt
                        }
                    },
                    None => 0,
                }
            } else {
                cw[oi]
            };
            proof {
                lemma_recon_byte(*f, shards@, n as int, k as int, l as int, oi as int, sym);
                assert(sb * k * l + sb * oi + sb <= sb * k * lanes) by (nonlinear_arith)
                    requires
                        l as int + 1 <= lanes as int,
                        oi as int + 1 <= k as int,
                        sb >= 1,
                        k >= 1,
                ;
                let b0 = sb as int * k as int * l as int + sb as int * oi as int;
                assert(sb as int * k as int * l as int == (sb as int * k as int) * l as int)
                    by (nonlinear_arith);
                if sb == 2 {
                    assert(goal[b0] == (sym as int % 256) as u8);
                    assert(goal[b0 + 1] == (sym as int / 256) as u8);
                } else {
                    assert(goal[b0] == sym as u8);
                }
            }
            if sb == 2 {
                out.push((sym % 256) as u8);
                out.push((sym / 256) as u8);
            } else {
                out.push(sym as u8);
            }
            proof {
                assert(out.len() == sb * k * l + sb * (oi + 1));
            }
            oi += 1;
        }
        proof {
            assert(out.len() == sb * k * (l + 1)) by (nonlinear_arith)
                requires
                    out.len() == sb * k * l + sb * k,
            ;
        }
        l += 1;
    }
    proof {
        assert(out@ =~= goal);
    }
    Ok(out)
}

/// Emitting symbol `oi` of lane `l` writes exactly the specified bytes.
proof fn lemma_recon_byte(
    f: Field,
    shards: Seq<Option<Vec<u8>>>,
    n: int,
    k: int,
    l: int,
    oi: int,
    sym: Elt,
)
    requires
        k >= 1,
        0 <= oi < k,
        l >= 0,
        sym == (if shards[oi] is Some {
            received_sym(f, shards, oi, l)
        } else {
            lane_decoded(f, shards, n, l)[oi]
        }),
    ensures
        sym_bytes(f) == 2 ==> {
            let b0 = (sym_bytes(f) * k) * l + 2 * oi;
            &&& b0 / (sym_bytes(f) * k) == l && (b0 % (sym_bytes(f) * k)) / 2 == oi && (b0 % (
                sym_bytes(f) * k)) % 2 == 0
            &&& (b0 + 1) / (sym_bytes(f) * k) == l && ((b0 + 1) % (sym_bytes(f) * k)) / 2 == oi
                && ((b0 + 1) % (sym_bytes(f) * k)) % 2 == 1
        },
        sym_bytes(f) == 1 ==> {
            let b0 = k * l + oi;
            b0 / k == l && (b0 % k) / 1 == oi && (b0 % k) % 1 == 0
        },
{
    let sb = sym_bytes(f);
    if sb == 2 {
        let w = 2 * k;
        lemma_fundamental_div_mod_converse(w * l + 2 * oi, w, l, 2 * oi);
        lemma_fundamental_div_mod_converse(w * l + 2 * oi + 1, w, l, 2 * oi + 1);
        lemma_fundamental_div_mod_converse(2 * oi, 2, oi, 0);
        lemma_fundamental_div_mod_converse(2 * oi + 1, 2, oi, 1);
    } else {
        lemma_fundamental_div_mod_converse(k * l + oi, k, l, oi);
        lemma_fundamental_div_mod_converse(oi, 1, oi, 0);
    }
}

/// If every shard among the first `i` is missing, none is counted.
proof fn lemma_count_present_first(shards: Seq<Option<Vec<u8>>>, i: int, n: int)
    requires
        first_present(shards, 0, n) >= n,
        0 <= i <= n,
    ensures
        count_present(shards, i) == 0,
    decreases i,
{
    if i > 0 {
        lemma_count_present_first(shards, i - 1, n);
        lemma_first_present_skips(shards, 0, i - 1, n);
    }
}

/// Positions before the first present shard are all missing.
proof fn lemma_first_present_skips(shards: Seq<Option<Vec<u8>>>, i: int, p: int, n: int)
    requires
        0 <= i <= p < n,
        first_present(shards, i, n) >= n,
    ensures
        shards[p] is None,
    decreases p - i,
{
    if i < p {
        lemma_first_present_skips(shards, i + 1, p, n);
    }
}

} // verus!
