//! Fixed-width bit fields packed into bytes.
//!
//! A `Bits<N>` is an `N`-bit slice of an integer, `N` at most 32. Bit
//! sequences are ordered least-significant first, matching the order in
//! which `decompose_bits` splits a byte; the header codec writes fields
//! most-significant first and states that packing arithmetically.

use vstd::arithmetic::power2::{
    lemma2_to64, lemma_pow2_pos, lemma_pow2_strictly_increases, lemma_pow2_unfold, pow2,
};
use vstd::prelude::*;

verus! {

/// The low `n` bits of `v`, least-significant first.
pub open spec fn bits_of(v: nat, n: nat) -> Seq<bool>
    decreases n,
{
    if n == 0 {
        Seq::empty()
    } else {
        seq![v % 2 == 1] + bits_of(v / 2, (n - 1) as nat)
    }
}

/// The value carried by a least-significant-first bit sequence.
pub open spec fn bits_value(s: Seq<bool>) -> nat
    decreases s.len(),
{
    if s.len() == 0 {
        0
    } else {
        (if s[0] {
            1nat
        } else {
            0nat
        }) + 2 * bits_value(s.drop_first())
    }
}

/// Raises two to the `n`th power, `n` at most 31.
fn pow2_u32(n: usize) -> (r: u32)
    requires
        n <= 31,
    ensures
        r == pow2(n as nat),
        r >= 1,
{
    proof {
        lemma2_to64();
    }
    let mut r: u32 = 1;
    let mut i: usize = 0;
    while i < n
        invariant
            i <= n <= 31,
            r == pow2(i as nat),
        decreases n - i,
    {
        proof {
            lemma_pow2_strictly_increases(i as nat, 31);
            lemma2_to64();
            lemma_pow2_unfold((i + 1) as nat);
        }
        r = r * 2;
        i = i + 1;
    }
    r
}

/// An `N`-bit field, stored as its numeric value.
#[derive(Debug, PartialEq, Eq, Clone, Copy)]
pub struct Bits<const N: usize> {
    pub v: u32,
}

impl<const N: usize> Bits<N> {
    /// The value fits the declared width.
    pub open spec fn wf(self) -> bool {
        N <= 32 && (self.v as nat) < pow2(N as nat)
    }

    /// Builds the field from the low `N` bits of `value`.
    pub fn from(value: u32) -> (r: Self)
        requires
            N <= 32,
        ensures
            r.wf(),
            r.v == (value as nat) % pow2(N as nat),
    {
        proof {
            lemma2_to64();
        }
        let v = if N >= 32 {
            value
        } else {
            let m = pow2_u32(N);
            value % m
        };
        Bits { v }
    }

    /// Builds the field from exactly `N` bits, least-significant first.
    pub fn from_bits(bits: Vec<bool>) -> (r: Self)
        requires
            N <= 32,
            bits@.len() == N,
        ensures
            r.wf(),
            r.v == bits_value(bits@),
    {
        proof {
            lemma2_to64();
            assert(bits@.skip(bits@.len() as int) =~= Seq::<bool>::empty());
        }
        let mut acc: u32 = 0;
        let mut i: usize = bits.len();
        while i > 0
            invariant
                i <= bits@.len() == N <= 32,
                acc == bits_value(bits@.skip(i as int)),
                acc < pow2((N - i) as nat),
            decreases i,
        {
            proof {
                lemma2_to64();
                if N - i < 31 {
                    lemma_pow2_strictly_increases((N - i) as nat, 31);
                }
                lemma_pow2_unfold((N - i + 1) as nat);
                assert(bits@.skip(i - 1).drop_first() =~= bits@.skip(i as int));
            }
            i = i - 1;
            acc = acc * 2 + if bits[i] {
                1
            } else {
                0
            };
        }
        assert(bits@.skip(0) =~= bits@);
        Bits { v: acc }
    }

    /// The field's numeric value.
    pub fn to_inner(&self) -> (r: u32)
        ensures
            r == self.v,
    {
        self.v
    }

    /// The field's bits, least-significant first.
    pub fn bits(&self) -> (r: Vec<bool>)
        requires
            N <= 32,
        ensures
            r@ == bits_of(self.v as nat, N as nat),
    {
        let mut out: Vec<bool> = Vec::new();
        let mut cur: u32 = self.v;
        let mut i: usize = 0;
        while i < N
            invariant
                i <= N,
                bits_of(self.v as nat, N as nat) == out@ + bits_of(
                    cur as nat,
                    (N - i) as nat,
                ),
                out@.len() == i,
            decreases N - i,
        {
            let ghost pre = out@;
            let ghost c = cur as nat;
            out.push(cur % 2 == 1);
            cur = cur / 2;
            proof {
                assert((pre + seq![c % 2 == 1]) + bits_of(c / 2, (N - i - 1) as nat) =~= pre
                    + bits_of(c, (N - i) as nat));
            }
            i = i + 1;
        }
        assert(out@ + bits_of(cur as nat, 0) =~= out@);
        out
    }

    /// Flips every bit of the field.
    pub fn invert(&self) -> (r: Self)
        requires
            self.wf(),
        ensures
            r.wf(),
            r.v + self.v + 1 == pow2(N as nat),
    {
        proof {
            lemma2_to64();
        }
        let v = if N >= 32 {
            u32::MAX - self.v
        } else {
            let m = pow2_u32(N);
            m - 1 - self.v
        };
        Bits { v }
    }

    pub fn zero() -> (r: Self)
        requires
            N <= 32,
        ensures
            r.wf(),
            r.v == 0,
    {
        proof {
            lemma_pow2_pos(N as nat);
        }
        Bits { v: 0 }
    }

    pub fn one() -> (r: Self)
        requires
            1 <= N <= 32,
        ensures
            r.wf(),
            r.v == 1,
    {
        proof {
            lemma_pow2_strictly_increases(0, N as nat);
            lemma2_to64();
        }
        Bits { v: 1 }
    }
}

/// Splits a byte into consecutive fields of the given widths, taken from
/// the least-significant end first.
pub open spec fn decompose_spec(source: nat, lens: Seq<u8>) -> Seq<Seq<bool>>
    decreases lens.len(),
{
    if lens.len() == 0 {
        Seq::empty()
    } else {
        seq![bits_of(source, lens[0] as nat)] + decompose_spec(
            source / pow2(lens[0] as nat),
            lens.drop_first(),
        )
    }
}

/// Splits a byte into bit fields of the given widths, least-significant
/// field first, each field's bits least-significant first.
pub fn decompose_bits(source: u8, lenvec: &[u8]) -> (r: Vec<Vec<bool>>)
    ensures
        r.deep_view() == decompose_spec(source as nat, lenvec@),
{
    proof {
        lemma2_to64();
    }
    let mut out: Vec<Vec<bool>> = Vec::new();
    let mut cur: u32 = source as u32;
    let mut k: usize = 0;
    proof {
        assert(lenvec@.skip(0) =~= lenvec@);
        assert(out@ =~= Seq::<Vec<bool>>::empty());
        assert(out.deep_view() =~= Seq::<Seq<bool>>::empty());
        assert(out.deep_view() + decompose_spec(cur as nat, lenvec@.skip(0)) =~~= decompose_spec(
            source as nat,
            lenvec@,
        ));
    }
    while k < lenvec.len()
        invariant
            k <= lenvec@.len(),
            out@.len() == k,
            decompose_spec(source as nat, lenvec@) == out.deep_view() + decompose_spec(
                cur as nat,
                lenvec@.skip(k as int),
            ),
        decreases lenvec@.len() - k,
    {
        let ghost pre = out.deep_view();
        let ghost c0 = cur as nat;
        let len = lenvec[k];
        proof {
            lemma2_to64();
        }
        let mut field: Vec<bool> = Vec::new();
        let mut j: u8 = 0;
        while j < len
            invariant
                j <= len,
                field@ + bits_of(cur as nat, (len - j) as nat) == bits_of(c0, len as nat),
                cur as nat == c0 / pow2(j as nat),
                field@.len() == j,
                cur <= c0,
            decreases len - j,
        {
            let ghost fpre = field@;
            let ghost c = cur as nat;
            field.push(cur % 2 == 1);
            cur = cur / 2;
            proof {
                assert((fpre + seq![c % 2 == 1]) + bits_of(c / 2, (len - j - 1) as nat) =~= fpre
                    + bits_of(c, (len - j) as nat));
                lemma_pow2_pos(j as nat);
                lemma_pow2_unfold((j + 1) as nat);
                vstd::arithmetic::div_mod::lemma_div_denominator(
                    c0 as int,
                    pow2(j as nat) as int,
                    2,
                );
            }
            j = j + 1;
        }
        out.push(field);
        proof {
            assert(field@ + bits_of(cur as nat, 0) =~= field@);
            assert(lenvec@.skip(k as int).drop_first() =~= lenvec@.skip(k + 1));
            assert(out.deep_view() =~~= pre + seq![field@]);
            assert((pre + seq![field@]) + decompose_spec(cur as nat, lenvec@.skip(k + 1)) =~~= pre
                + decompose_spec(c0, lenvec@.skip(k as int)));
        }
        k = k + 1;
    }
    assert(decompose_spec(cur as nat, lenvec@.skip(k as int)) =~~= Seq::<Seq<bool>>::empty());
    assert(out.deep_view() + decompose_spec(cur as nat, lenvec@.skip(k as int)) =~~= out.deep_view());
    out
}

/// Packs up to eight bits, least-significant first, back into a byte.
pub fn compose_bits(bitvec: &[bool]) -> (r: u8)
    requires
        bitvec@.len() <= 8,
    ensures
        r == bits_value(bitvec@),
{
    proof {
        lemma2_to64();
        assert(bitvec@.skip(bitvec@.len() as int) =~= Seq::<bool>::empty());
    }
    let mut acc: u8 = 0;
    let mut i: usize = bitvec.len();
    while i > 0
        invariant
            i <= bitvec@.len() <= 8,
            acc == bits_value(bitvec@.skip(i as int)),
            acc < pow2((bitvec@.len() - i) as nat),
        decreases i,
    {
        proof {
            lemma2_to64();
            if bitvec@.len() - i < 8 {
                lemma_pow2_strictly_increases((bitvec@.len() - i) as nat, 8);
            }
            lemma_pow2_unfold((bitvec@.len() - i + 1) as nat);
            assert(bitvec@.skip(i - 1).drop_first() =~= bitvec@.skip(i as int));
        }
        i = i - 1;
        acc = acc * 2 + if bitvec[i] {
            1
        } else {
            0
        };
    }
    assert(bitvec@.skip(0) =~= bitvec@);
    acc
}

/// The interface shared by the named bit-field types of the header codec.
///
/// Each implementing type is a field of a fixed width; `bound()` is two to
/// that width, so a field's value is always below its bound.
pub trait BitsExt: Sized {
    /// Exclusive upper bound on the field's value: two to the field's width.
    spec fn bound() -> nat;

    /// The field's numeric value.
    spec fn value(self) -> u8;

    /// The value fits the field's width.
    spec fn wf(self) -> bool;

    /// Builds the field from the low bits of `n`.
    fn from_num(n: u8) -> (r: Self)
        ensures
            r.wf(),
            r.value() == n as nat % Self::bound(),
    ;

    /// The all-zero field.
    fn zero() -> (r: Self)
        ensures
            r.wf(),
            r.value() == 0,
    ;

    /// The field holding one.
    fn one() -> (r: Self)
        ensures
            r.wf(),
            r.value() == 1,
    ;

    /// The field's numeric value.
    fn to_inner(&self) -> (r: u8)
        ensures
            r == self.value(),
    ;

    /// The field with every bit flipped.
    fn invert(&self) -> (r: Self)
        requires
            self.wf(),
        ensures
            r.wf(),
            r.value() + self.value() + 1 == Self::bound(),
    ;
}

} // verus!
