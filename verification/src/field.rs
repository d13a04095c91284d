//! Field elements of GF(2^8) / GF(2^16) in their two representations, and
//! the precomputed tables that multiplication and the transforms rely on.
//!
//! An element has an *additive* form (the raw element; addition is bitwise
//! xor) and a *multiplicative* form (its logarithm with respect to the
//! generator; logarithms are added modulo `onemask`). The value `onemask`
//! in multiplicative form is the "log of zero" sentinel, which the
//! transforms treat as a skip marker.

use vstd::prelude::*;

verus! {

/// Raw field element; wide enough for both supported fields.
pub type Elt = u16;

/// Widened integer used for intermediate sums of logarithms.
pub type Wide = u32;

/// Field element in additive (raw, xor-friendly) representation.
#[derive(Clone, Copy, PartialEq, Eq, Structural, Debug)]
pub struct Additive(pub Elt);

/// Field element in multiplicative (logarithm) representation.
#[derive(Clone, Copy, PartialEq, Eq, Structural, Debug)]
pub struct Multiplier(pub Elt);

/// Precomputed tables of one binary extension field in the Cantor basis.
///
/// Built once by [`crate::tables::f2e16`] or [`crate::tables::f256`]; all
/// later operations share the value by immutable reference, so the tables
/// are write-once, read-many.
pub struct Field {
    /// Number of bits of an element: 8 or 16.
    pub field_bits: usize,
    /// `2^field_bits - 1`; also the "log of zero" sentinel.
    pub onemask: Elt,
    /// Logarithm table, indexed by additive elements.
    pub log: Vec<Elt>,
    /// Exponential table, indexed by logarithms; inverse of `log` on
    /// non-zero elements.
    pub exp: Vec<Elt>,
    /// Skew factors of the novel-basis butterflies, in log form.
    pub skew: Vec<Elt>,
    /// Factors of the formal-derivative step, in log form.
    pub b: Vec<Elt>,
    /// Walsh-Hadamard transform of `log`, used by the erasure decoder.
    pub log_walsh: Vec<Elt>,
}

/// All elements of `s` lie in `[0, m]`.
pub open spec fn elems_le(s: Seq<Elt>, m: int) -> bool {
    forall|i: int| 0 <= i < s.len() ==> s[i] <= m
}

impl Field {
    /// Number of field elements, `2^field_bits`.
    pub open spec fn field_size(&self) -> int {
        self.onemask as int + 1
    }

    /// Shape of the tables: lengths and value ranges.
    pub open spec fn wf_shape(&self) -> bool {
        &&& (self.field_bits == 8 && self.onemask == 255) || (self.field_bits == 16
            && self.onemask == 65535)
        &&& self.log.len() == self.field_size()
        &&& self.exp.len() == self.field_size()
        &&& self.skew.len() == self.onemask
        &&& self.b.len() == self.field_size() / 2
        &&& self.log_walsh.len() == self.field_size()
        &&& elems_le(self.log@, self.onemask as int)
        &&& elems_le(self.exp@, self.onemask as int)
        &&& elems_le(self.skew@, self.onemask as int)
        &&& elems_le(self.b@, self.onemask as int)
        &&& elems_le(self.log_walsh@, self.onemask as int)
    }

    /// Well-formed tables: correct shape, and `log`/`exp` are mutually
    /// inverse pairings of non-zero elements and logarithms.
    pub open spec fn wf(&self) -> bool {
        &&& self.wf_shape()
        &&& self.log@[0] == self.onemask
        &&& forall|a: int| 1 <= a <= self.onemask ==> self.exp@[#[trigger] self.log@[a] as int]
            == a
        &&& forall|m: int| 0 <= m < self.onemask ==> self.log@[#[trigger] self.exp@[m] as int]
            == m
        &&& self.exp@[self.onemask as int] == self.exp@[0]
    }

    /// Fold a sum of two logarithms (each in `[0, onemask]`) back into
    /// `[0, onemask]`; equal to the sum modulo `onemask` except that a
    /// non-zero multiple of `onemask` is represented as `onemask`.
    pub open spec fn spec_fold(&self, x: int) -> int {
        if x > self.onemask {
            x - self.onemask
        } else {
            x
        }
    }

    /// Product of an additive element and a multiplier: zero stays zero,
    /// otherwise the exponential of the folded sum of logarithms.
    ///
    /// `wf` states only the inverse pairing of `log` and `exp`, not that
    /// this product distributes over xor; GF(2)-linearity of the
    /// transforms is a property of the concrete tables, not of every
    /// well-formed pairing. [`check_mul_linearity`] establishes it per
    /// field and multiplier by an exhaustive verified pass.
    pub open spec fn spec_mul(&self, a: Elt, m: Elt) -> Elt {
        if a == 0 {
            0
        } else {
            self.exp@[self.spec_fold(self.log@[a as int] + m)]
        }
    }
}

impl Additive {
    /// Widen the raw element.
    pub fn to_wide(self) -> (r: Wide)
        ensures
            r == self.0 as Wide,
    {
        self.0 as Wide
    }

    /// Truncate a widened element.
    pub fn from_wide(x: Wide) -> (r: Additive)
        ensures
            r.0 == x as Elt,
    {
        Additive(x as Elt)
    }

    /// Convert to multiplicative form. Zero has no logarithm: callers must
    /// guard it away, as the result would be the sentinel, not a log.
    pub fn to_multiplier(self, f: &Field) -> (r: Multiplier)
        requires
            f.wf(),
            self.0 != 0,
            self.0 <= f.onemask,
        ensures
            r.0 == f.log@[self.0 as int],
            r.0 <= f.onemask,
            f.exp@[r.0 as int] == self.0,
    {
        Multiplier(f.log[self.0 as usize])
    }

    /// Multiply by a multiplier: `a * EXP[m]` over the field.
    pub fn mul(self, other: Multiplier, f: &Field) -> (r: Additive)
        requires
            f.wf(),
            self.0 <= f.onemask,
            other.0 <= f.onemask,
        ensures
            r.0 == f.spec_mul(self.0, other.0),
            r.0 <= f.onemask,
    {
        if self.0 == 0 {
            return Additive(0);
        }
        let log: Wide = f.log[self.0 as usize] as Wide + other.0 as Wide;
        // fold the sum of logarithms back into [0, onemask]
        let offset: Wide = if log > f.onemask as Wide {
            log - f.onemask as Wide
        } else {
            log
        };
        Additive(f.exp[offset as usize])
    }

    /// Multiply every element of a slice by one multiplier.
    pub fn mul_assign_slice(selfy: &mut Vec<Additive>, other: Multiplier, f: &Field)
        requires
            f.wf(),
            other.0 <= f.onemask,
            forall|i: int| 0 <= i < old(selfy).len() ==> (#[trigger] old(selfy)@[i]).0
                <= f.onemask,
        ensures
            final(selfy).len() == old(selfy).len(),
            forall|i: int| 0 <= i < final(selfy).len() ==> (#[trigger] final(selfy)@[i]).0
                == f.spec_mul(old(selfy)@[i].0, other.0),
    {
        let mut i: usize = 0;
        while i < selfy.len()
            invariant
                f.wf(),
                other.0 <= f.onemask,
                i <= selfy.len(),
                selfy.len() == old(selfy).len(),
                forall|j: int| 0 <= j < old(selfy).len() ==> (#[trigger] old(selfy)@[j]).0
                    <= f.onemask,
                forall|j: int| i <= j < selfy.len() ==> #[trigger] selfy@[j] == old(selfy)@[j],
                forall|j: int| 0 <= j < i ==> (#[trigger] selfy@[j]).0 == f.spec_mul(
                    old(selfy)@[j].0,
                    other.0,
                ),
            decreases selfy.len() - i,
        {
            let s = selfy[i];
            selfy[i] = s.mul(other, f);
            i += 1;
        }
    }
}

impl Multiplier {
    /// Widen the logarithm.
    pub fn to_wide(self) -> (r: Wide)
        ensures
            r == self.0 as Wide,
    {
        self.0 as Wide
    }

    /// Truncate a widened logarithm.
    pub fn from_wide(x: Wide) -> (r: Multiplier)
        ensures
            r.0 == x as Elt,
    {
        Multiplier(x as Elt)
    }
}

/// Multiply two raw symbols, `a * EXP[m]`; table-driven form of
/// [`Additive::mul`] used by the transforms.
pub fn mul_table(a: Elt, m: Elt, f: &Field) -> (r: Elt)
    requires
        f.wf(),
        a <= f.onemask,
        m <= f.onemask,
    ensures
        r == f.spec_mul(a, m),
        r <= f.onemask,
{
    Additive(a).mul(Multiplier(m), f).0
}

/// Law: the exponential table inverts the logarithm table on every
/// non-zero additive element.
pub proof fn lemma_exp_inverts_log(f: &Field, a: Elt)
    requires
        f.wf(),
        a != 0,
        a <= f.onemask,
    ensures
        f.exp@[f.log@[a as int] as int] == a,
{
}

/// Law: multiplication commutes across the two representations. For a
/// non-zero additive `a` and any multiplier `m`, multiplying `a` by `m`
/// equals multiplying `m`'s additive form by `a`'s multiplier form.
/// (For `a == 0` the right-hand side is not even defined, since zero has
/// no logarithm.)
pub proof fn lemma_mul_commutes(f: &Field, a: Elt, m: Elt)
    requires
        f.wf(),
        a != 0,
        a <= f.onemask,
        m <= f.onemask,
    ensures
        f.spec_mul(a, m) == f.spec_mul(f.exp@[m as int], f.log@[a as int]),
{
    let b = f.exp@[m as int];
    if m < f.onemask {
        assert(f.log@[b as int] == m);
        assert(b != 0) by {
            if b == 0 {
                assert(f.log@[0] == f.onemask);
            }
        }
    } else {
        // the sentinel's additive form is EXP[0], the unit element
        assert(b == f.exp@[0]);
        assert(f.log@[b as int] == 0);
        assert(b != 0) by {
            if b == 0 {
                assert(f.log@[0] == f.onemask);
            }
        }
        // folding `log a + onemask` lands back on `a` either way
        assert(f.spec_mul(a, m) == a) by {
            let la = f.log@[a as int] as int;
            if la == 0 {
                assert(f.spec_fold(la + f.onemask) == f.onemask);
                assert(f.exp@[f.onemask as int] == f.exp@[0]);
            } else {
                assert(f.spec_fold(la + f.onemask) == la);
            }
        }
    }
}


/// The raw symbols of a multiplier sequence.
pub open spec fn muls_view(s: Seq<Multiplier>) -> Seq<Elt> {
    Seq::new(s.len(), |i: int| s[i].0)
}

/// Fast Walsh-Hadamard transform over multipliers of the 16-bit field,
/// in place over `data[0..size]`, modulo `65535`.
pub fn walsh(data: &mut Vec<Multiplier>, size: usize)
    requires
        size <= old(data).len(),
        size == 0 || vstd::arithmetic::power2::is_pow2(size as int),
    ensures
        muls_view(final(data)@) == crate::transform::walsh_rec(
            muls_view(old(data)@),
            size as int,
            1,
            65535,
        ),
        final(data).len() == old(data).len(),
{
    let ghost z = muls_view(old(data)@);
    let mut raw: Vec<Elt> = Vec::new();
    let mut i: usize = 0;
    while i < data.len()
        invariant
            i <= data.len(),
            raw.len() == i,
            data@ == old(data)@,
            forall|p: int| 0 <= p < i ==> raw@[p] == (#[trigger] data@[p]).0,
        decreases data.len() - i,
    {
        raw.push(data[i].0);
        i += 1;
    }
    proof {
        assert(raw@ =~= z);
        assert(elems_le(raw@, 65535));
    }
    crate::transform::walsh(&mut raw, size, 65535);
    let mut j: usize = 0;
    while j < data.len()
        invariant
            j <= data.len(),
            data.len() == old(data).len(),
            raw.len() == data.len(),
            raw@ == crate::transform::walsh_rec(z, size as int, 1, 65535),
            forall|p: int| 0 <= p < j ==> (#[trigger] data@[p]).0 == raw@[p],
        decreases data.len() - j,
    {
        data[j] = Multiplier(raw[j]);
        j += 1;
    }
    proof {
        assert(muls_view(final(data)@) =~= raw@);
    }
}

/// Law: the two concrete fields agree where they overlap. If this check
/// passes, then for every non-zero `i` and every `j` up to 255,
/// multiplying `j` by `i`'s multiplier gives the same raw symbol in the
/// 8-bit field and in the 16-bit field; if it fails, some such pair
/// disagrees.
pub fn check_field_agreement(narrow: &Field, wide: &Field) -> (r: bool)
    requires
        narrow.wf(),
        wide.wf(),
        narrow.field_bits == 8,
        wide.field_bits == 16,
    ensures
        r ==> forall|a: int, b: int|
            1 <= a <= 255 && 0 <= b <= 255 ==> #[trigger] narrow.spec_mul(
                b as Elt,
                narrow.log@[a],
            ) == wide.spec_mul(b as Elt, wide.log@[a]),
        !r ==> exists|a: int, b: int|
            1 <= a <= 255 && 0 <= b <= 255 && #[trigger] narrow.spec_mul(
                b as Elt,
                narrow.log@[a],
            ) != wide.spec_mul(b as Elt, wide.log@[a]),
{
    let mut a: usize = 1;
    while a < 256
        invariant
            narrow.wf(),
            wide.wf(),
            narrow.field_bits == 8,
            wide.field_bits == 16,
            1 <= a <= 256,
            forall|ai: int, bi: int|
                1 <= ai < a && 0 <= bi <= 255 ==> #[trigger] narrow.spec_mul(
                    bi as Elt,
                    narrow.log@[ai],
                ) == wide.spec_mul(bi as Elt, wide.log@[ai]),
        decreases 256 - a,
    {
        let m8: Elt = narrow.log[a];
        let m16: Elt = wide.log[a];
        let mut b: usize = 0;
        while b < 256
            invariant
                narrow.wf(),
                wide.wf(),
                narrow.field_bits == 8,
                wide.field_bits == 16,
                1 <= a <= 255,
                b <= 256,
                m8 == narrow.log@[a as int],
                m16 == wide.log@[a as int],
                m8 <= narrow.onemask,
                m16 <= wide.onemask,
                forall|bi: int|
                    0 <= bi < b ==> #[trigger] narrow.spec_mul(bi as Elt, narrow.log@[a as int])
                        == wide.spec_mul(bi as Elt, wide.log@[a as int]),
            decreases 256 - b,
        {
            let p8: Elt = mul_table(b as Elt, m8, narrow);
            let p16: Elt = mul_table(b as Elt, m16, wide);
            if p8 != p16 {
                proof {
                    assert(narrow.spec_mul(b as Elt, narrow.log@[a as int]) != wide.spec_mul(
                        b as Elt,
                        wide.log@[a as int],
                    ));
                }
                return false;
            }
            b += 1;
        }
        a += 1;
    }
    true
}


/// A non-zero element is determined by its multiplier form: any `x`
/// whose logarithm is `b` is the exponential of `b`. Together with
/// [`lemma_mul_commutes`], multiplying `a` by `b` equals multiplying
/// that unique element by `a`'s multiplier.
pub proof fn lemma_multiplier_witness_unique(f: &Field, x: Elt, b: Elt)
    requires
        f.wf(),
        x != 0,
        x <= f.onemask,
        f.log@[x as int] == b,
    ensures
        x == f.exp@[b as int],
{
}

/// Law (conditional): multiplication by the fixed multiplier `m`
/// distributes over xor. If this check passes, the map `a -> a * EXP[m]`
/// is GF(2)-linear over the whole field, which is what makes the
/// transforms linear; if it fails, some pair of elements witnesses the
/// opposite. The tables' well-formedness alone does not imply this, so
/// it is established per field by an exhaustive pass.
pub fn check_mul_linearity(f: &Field, m: Multiplier) -> (r: bool)
    requires
        f.wf(),
        m.0 <= f.onemask,
    ensures
        r ==> forall|a: int, b: int|
            0 <= a <= f.onemask && 0 <= b <= f.onemask ==> f.spec_mul(
                ((a as Elt) ^ (b as Elt)),
                m.0,
            ) == (#[trigger] f.spec_mul(a as Elt, m.0) ^ #[trigger] f.spec_mul(b as Elt, m.0)),
        !r ==> exists|a: int, b: int|
            0 <= a <= f.onemask && 0 <= b <= f.onemask && f.spec_mul(
                ((a as Elt) ^ (b as Elt)),
                m.0,
            ) != (#[trigger] f.spec_mul(a as Elt, m.0) ^ #[trigger] f.spec_mul(b as Elt, m.0)),
{
    let fs: usize = f.onemask as usize + 1;
    let mut a: usize = 0;
    while a < fs
        invariant
            f.wf(),
            m.0 <= f.onemask,
            fs == f.field_size(),
            a <= fs,
            forall|ai: int, bi: int|
                0 <= ai < a && 0 <= bi <= f.onemask ==> f.spec_mul(
                    ((ai as Elt) ^ (bi as Elt)),
                    m.0,
                ) == (#[trigger] f.spec_mul(ai as Elt, m.0) ^ #[trigger] f.spec_mul(
                    bi as Elt,
                    m.0,
                )),
        decreases fs - a,
    {
        let pa: Elt = mul_table(a as Elt, m.0, f);
        let mut b: usize = 0;
        while b < fs
            invariant
                f.wf(),
                m.0 <= f.onemask,
                fs == f.field_size(),
                a < fs,
                b <= fs,
                pa == f.spec_mul(a as Elt, m.0),
                pa <= f.onemask,
                forall|bi: int|
                    0 <= bi < b ==> f.spec_mul(((a as Elt) ^ (bi as Elt)), m.0) == (
                    f.spec_mul(a as Elt, m.0) ^ #[trigger] f.spec_mul(bi as Elt, m.0)),
            decreases fs - b,
        {
            let x: Elt = (a as Elt) ^ (b as Elt);
            proof {
                lemma_elt_xor_le(a as Elt, b as Elt, f.onemask);
            }
            let lhs: Elt = mul_table(x, m.0, f);
            let rhs: Elt = pa ^ mul_table(b as Elt, m.0, f);
            if lhs != rhs {
                proof {
                    assert(f.spec_mul(((a as Elt) ^ (b as Elt)), m.0) != (f.spec_mul(
                        a as Elt,
                        m.0,
                    ) ^ f.spec_mul(b as Elt, m.0)));
                }
                return false;
            }
            b += 1;
        }
        a += 1;
    }
    true
}

/// Xor of two values bounded by an all-ones mask stays bounded.
proof fn lemma_elt_xor_le(a: Elt, b: Elt, m: Elt)
    requires
        m == 255 || m == 65535,
        a <= m,
        b <= m,
    ensures
        (a ^ b) <= m,
{
    assert((a ^ b) <= m) by (bit_vector)
        requires
            m == 255 || m == 65535,
            a <= m,
            b <= m,
    ;
}

} // verus!
