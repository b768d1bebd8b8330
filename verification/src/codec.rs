//! Byte encodings of integers, expressions and commitments.
//!
//! Integers are written little-endian in a fixed number of bytes; an
//! expression is written as a tag byte followed by its parts.

use crate::curve::{g1_decodes, g1_views, lemma_g1_view_injective, lemma_g1_view_len, G1};
use crate::error::Error;
use crate::expression::{CommonPolynomial, Expression, Query, Rotation};
use crate::field::{le_value, lemma_fr_view_injective, lemma_le_value_bound, lemma_le_value_split, p, pow256, Fr};
use crate::transcript::{canonical_bytes, g1_bytes, lemma_canonical_bytes};
use vstd::arithmetic::div_mod::{lemma_mod_breakdown, lemma_small_mod};
use vstd::prelude::*;
use vstd::string::StringSliceAdditionalSpecFns;
use vstd::utf8::{encode_utf8, encode_utf8_decode_utf8, valid_utf8};

verus! {

/// The `w` low bytes of `n`, least significant first.
pub open spec fn le_bytes(n: nat, w: nat) -> Seq<u8>
    decreases w,
{
    if w == 0 {
        Seq::empty()
    } else {
        le_bytes(n, (w - 1) as nat).push(((n / pow256((w - 1) as nat)) % 256) as u8)
    }
}

/// `256^w` is positive.
pub proof fn lemma_pow256_pos(w: nat)
    ensures
        pow256(w) > 0,
    decreases w,
{
    if w > 0 {
        lemma_pow256_pos((w - 1) as nat);
    }
}

/// The `w` low bytes of `n` read back as `n` modulo `256^w`.
pub proof fn lemma_le_bytes(n: nat, w: nat)
    ensures
        le_bytes(n, w).len() == w,
        le_value(le_bytes(n, w)) == n % pow256(w),
    decreases w,
{
    if w == 0 {
        assert(n % 1 == 0);
    } else {
        let w1 = (w - 1) as nat;
        lemma_le_bytes(n, w1);
        lemma_pow256_pos(w1);
        let b = le_bytes(n, w);
        lemma_le_value_split(b, w1);
        assert(b.take(w1 as int) =~= le_bytes(n, w1));
        let last = ((n / pow256(w1)) % 256) as u8;
        assert(b.skip(w1 as int) =~= seq![last]);
        assert(le_value(seq![last]) == last as nat) by {
            assert(seq![last].drop_first() =~= Seq::<u8>::empty());
            reveal_with_fuel(le_value, 2);
        }
        lemma_mod_breakdown(n as int, pow256(w1) as int, 256);
        assert(pow256(w) == 256 * pow256(w1));
        assert(pow256(w1) * 256 == pow256(w)) by (nonlinear_arith)
            requires
                pow256(w) == 256 * pow256(w1),
        ;
    }
}

/// A value below `256^w` reads back from its `w` bytes.
pub proof fn lemma_le_bytes_small(n: nat, w: nat)
    requires
        n < pow256(w),
    ensures
        le_bytes(n, w).len() == w,
        le_value(le_bytes(n, w)) == n,
{
    lemma_le_bytes(n, w);
    lemma_small_mod(n, pow256(w));
}

/// `w` bytes are the `w` low bytes of what they read as.
pub proof fn lemma_le_bytes_of_value(b: Seq<u8>)
    ensures
        le_bytes(le_value(b), b.len()) == b,
{
    lemma_le_value_bound(b);
    lemma_le_bytes_small(le_value(b), b.len());
    crate::transcript::lemma_le_value_injective(le_bytes(le_value(b), b.len()), b);
}

/// Appends the `w` low bytes of `n`.
pub fn write_le(out: &mut Vec<u8>, n: u64, w: usize)
    requires
        w <= 8,
    ensures
        final(out)@ == old(out)@ + le_bytes(n as nat, w as nat),
{
    let mut v: u64 = n;
    let mut i: usize = 0;
    assert(pow256(0) == 1);
    while i < w
        invariant
            i <= w,
            v == n as nat / pow256(i as nat),
            out@ == old(out)@ + le_bytes(n as nat, i as nat),
        decreases w - i,
    {
        proof {
            lemma_pow256_pos(i as nat);
            vstd::arithmetic::div_mod::lemma_div_denominator(n as int, pow256(i as nat) as int, 256);
            assert(pow256((i + 1) as nat) == 256 * pow256(i as nat));
            assert(pow256(i as nat) * 256 == pow256((i + 1) as nat)) by (nonlinear_arith)
                requires
                    pow256((i + 1) as nat) == 256 * pow256(i as nat),
            ;
        }
        out.push((v % 256) as u8);
        v = v / 256;
        i += 1;
        proof {
            assert(out@ =~= old(out)@ + le_bytes(n as nat, i as nat));
        }
    }
}

/// Reads `w` bytes at `pos` as a little-endian value.
pub fn read_le(bytes: &[u8], pos: usize, w: usize) -> (r: u64)
    requires
        w <= 8,
        pos + w <= bytes@.len(),
    ensures
        r == le_value(bytes@.subrange(pos as int, pos + w)),
{
    let len = bytes.len();
    let mut v: u64 = 0;
    let mut i: usize = w;
    proof {
        assert(bytes@.subrange(pos + w, pos + w) =~= Seq::<u8>::empty());
    }
    while i > 0
        invariant
            i <= w,
            w <= 8,
            pos + w <= bytes@.len(),
            len == bytes@.len(),
            v == le_value(bytes@.subrange(pos + i, pos + w)),
        decreases i,
    {
        let ghost tail = bytes@.subrange(pos + i, pos + w);
        let ghost next = bytes@.subrange(pos + i - 1, pos + w);
        proof {
            lemma_le_value_bound(tail);
            assert(next.drop_first() =~= tail);
            assert(pow256(tail.len()) <= pow256(7)) by {
                lemma_pow256_mono(tail.len(), 7);
            }
            assert(pow256(7) == 0x100000000000000) by {
                reveal_with_fuel(pow256, 8);
            }
        }
        v = v * 256 + bytes[pos + (i - 1)] as u64;
        i -= 1;
    }
    v
}

/// `256^w` grows with `w`.
pub proof fn lemma_pow256_mono(a: nat, b: nat)
    requires
        a <= b,
    ensures
        pow256(a) <= pow256(b),
    decreases b,
{
    if a < b {
        lemma_pow256_mono(a, (b - 1) as nat);
        lemma_pow256_pos((b - 1) as nat);
    }
}

/// The four bytes of a signed 32-bit integer, two's complement.
pub open spec fn i32_bytes(i: i32) -> Seq<u8> {
    le_bytes((i as u32) as nat, 4)
}

/// The eight bytes of an index.
pub open spec fn usize_bytes(n: usize) -> Seq<u8> {
    le_bytes(n as nat, 8)
}

/// The encoding of an expression: a tag byte, then its parts.
pub open spec fn expr_bytes(e: Expression) -> Seq<u8>
    decreases e,
{
    match e {
        Expression::Constant(c) => seq![0u8] + canonical_bytes(c@),
        Expression::CommonPolynomial(cp) => match cp {
            CommonPolynomial::Identity => seq![1u8, 0u8],
            CommonPolynomial::Lagrange(i) => seq![1u8, 1u8] + i32_bytes(i),
            CommonPolynomial::EqXY(n) => seq![1u8, 2u8] + usize_bytes(n),
        },
        Expression::Polynomial(q) => seq![2u8] + usize_bytes(q.poly) + i32_bytes(q.rotation.0),
        Expression::Challenge(n) => seq![3u8] + usize_bytes(n),
        Expression::Negated(a) => seq![4u8] + expr_bytes(*a),
        Expression::Sum(a, b) => seq![5u8] + expr_bytes(*a) + expr_bytes(*b),
        Expression::Product(a, b) => seq![6u8] + expr_bytes(*a) + expr_bytes(*b),
        Expression::Scaled(a, c) => seq![7u8] + expr_bytes(*a) + canonical_bytes(c@),
    }
}

/// Every constant of an expression is a canonical field value (as every
/// element built by this library is).
pub open spec fn expr_valid(e: Expression) -> bool
    decreases e,
{
    match e {
        Expression::Constant(c) => c@ < p(),
        Expression::Negated(a) => expr_valid(*a),
        Expression::Sum(a, b) => expr_valid(*a) && expr_valid(*b),
        Expression::Product(a, b) => expr_valid(*a) && expr_valid(*b),
        Expression::Scaled(a, c) => expr_valid(*a) && c@ < p(),
        _ => true,
    }
}

/// Appends the encoding of a signed 32-bit integer.
fn write_i32(out: &mut Vec<u8>, i: i32)
    ensures
        final(out)@ == old(out)@ + i32_bytes(i),
{
    write_le(out, (i as u32) as u64, 4);
}

/// Appends the encoding of an index.
fn write_usize(out: &mut Vec<u8>, n: usize)
    ensures
        final(out)@ == old(out)@ + usize_bytes(n),
{
    write_le(out, n as u64, 8);
}

/// Appends the canonical encoding of a field element.
fn write_fr(out: &mut Vec<u8>, c: &Fr)
    ensures
        final(out)@ == old(out)@ + canonical_bytes(c@),
{
    let b = c.to_bytes();
    proof {
        lemma_canonical_bytes(b@);
    }
    crate::transcript::extend(out, &b);
}

/// Appends the encoding of an expression.
pub fn write_expression(out: &mut Vec<u8>, e: &Expression)
    ensures
        final(out)@ == old(out)@ + expr_bytes(*e),
    decreases e,
{
    match e {
        Expression::Constant(c) => {
            out.push(0u8);
            write_fr(out, c);
        },
        Expression::CommonPolynomial(cp) => {
            out.push(1u8);
            match cp {
                CommonPolynomial::Identity => {
                    out.push(0u8);
                },
                CommonPolynomial::Lagrange(i) => {
                    out.push(1u8);
                    write_i32(out, *i);
                },
                CommonPolynomial::EqXY(n) => {
                    out.push(2u8);
                    write_usize(out, *n);
                },
            }
        },
        Expression::Polynomial(q) => {
            out.push(2u8);
            write_usize(out, q.poly);
            write_i32(out, q.rotation.0);
        },
        Expression::Challenge(n) => {
            out.push(3u8);
            write_usize(out, *n);
        },
        Expression::Negated(a) => {
            out.push(4u8);
            write_expression(out, a);
        },
        Expression::Sum(a, b) => {
            out.push(5u8);
            write_expression(out, a);
            write_expression(out, b);
        },
        Expression::Product(a, b) => {
            out.push(6u8);
            write_expression(out, a);
            write_expression(out, b);
        },
        Expression::Scaled(a, c) => {
            out.push(7u8);
            write_expression(out, a);
            write_fr(out, c);
        },
    }
    proof {
        assert(out@ =~= old(out)@ + expr_bytes(*e));
    }
}

/// A canonical value has a 32-byte canonical encoding that reads back.
pub proof fn lemma_canonical_bytes_of(v: int)
    requires
        0 <= v < p(),
    ensures
        canonical_bytes(v).len() == 32,
        le_value(canonical_bytes(v)) == v,
{
    crate::field::lemma_p_below_pow256();
    lemma_le_bytes_small(v as nat, 32);
    let w = le_bytes(v as nat, 32);
    assert(w.len() == 32 && le_value(w) == v);
}

/// Two canonical elements with the same encoding are equal.
pub proof fn lemma_canonical_bytes_injective(a: Fr, b: Fr)
    requires
        a@ < p(),
        b@ < p(),
        canonical_bytes(a@) == canonical_bytes(b@),
    ensures
        a == b,
{
    crate::field::lemma_fr_view_nonneg(a);
    crate::field::lemma_fr_view_nonneg(b);
    lemma_canonical_bytes_of(a@);
    lemma_canonical_bytes_of(b@);
    lemma_fr_view_injective(a, b);
}

/// Two signed integers with the same encoding are equal.
pub proof fn lemma_i32_bytes_injective(a: i32, b: i32)
    requires
        i32_bytes(a) == i32_bytes(b),
    ensures
        a == b,
{
    assert(pow256(4) == 0x100000000) by {
        reveal_with_fuel(pow256, 5);
    }
    lemma_le_bytes_small((a as u32) as nat, 4);
    lemma_le_bytes_small((b as u32) as nat, 4);
    let ua = a as u32;
    let ub = b as u32;
    assert(ua == ub);
    assert((ua as i32) == a && (ub as i32) == b) by (bit_vector)
        requires
            ua == a as u32,
            ub == b as u32,
    ;
}

/// Two indices with the same encoding are equal.
pub proof fn lemma_usize_bytes_injective(a: usize, b: usize)
    requires
        usize_bytes(a) == usize_bytes(b),
    ensures
        a == b,
{
    assert(pow256(8) == 0x10000000000000000) by {
        reveal_with_fuel(pow256, 9);
    }
    lemma_le_bytes_small(a as nat, 8);
    lemma_le_bytes_small(b as nat, 8);
}

/// Reads a signed 32-bit integer at `pos`.
fn read_i32(bytes: &[u8], pos: usize) -> (r: i32)
    requires
        pos + 4 <= bytes@.len(),
    ensures
        i32_bytes(r) == bytes@.subrange(pos as int, pos + 4),
{
    let v = read_le(bytes, pos, 4);
    let ghost sub = bytes@.subrange(pos as int, pos + 4);
    proof {
        lemma_le_value_bound(sub);
        assert(pow256(4) == 0x100000000) by {
            reveal_with_fuel(pow256, 5);
        }
    }
    let u = v as u32;
    let r = u as i32;
    proof {
        assert((r as u32) == u) by (bit_vector)
            requires
                r == u as i32,
        ;
        lemma_le_bytes_of_value(sub);
    }
    r
}

/// Reads an index at `pos`: `None` when the value does not fit a `usize`.
fn read_usize(bytes: &[u8], pos: usize) -> (r: Option<usize>)
    requires
        pos + 8 <= bytes@.len(),
    ensures
        r matches Some(n) ==> usize_bytes(n) == bytes@.subrange(pos as int, pos + 8),
        r is None ==> forall|n: usize| usize_bytes(n) != bytes@.subrange(pos as int, pos + 8),
{
    let v = read_le(bytes, pos, 8);
    let ghost sub = bytes@.subrange(pos as int, pos + 8);
    proof {
        lemma_le_bytes_of_value(sub);
    }
    if v <= usize::MAX as u64 {
        Some(v as usize)
    } else {
        proof {
            assert forall|n: usize| usize_bytes(n) != sub by {
                if usize_bytes(n) == sub {
                    assert(pow256(8) == 0x10000000000000000) by {
                        reveal_with_fuel(pow256, 9);
                    }
                    lemma_le_bytes_small(n as nat, 8);
                }
            }
        }
        None
    }
}

/// Reads a canonical field element at `pos`: `None` when the 32 bytes are
/// not the canonical encoding of an element.
fn read_fr(bytes: &[u8], pos: usize) -> (r: Option<Fr>)
    requires
        pos + 32 <= bytes@.len(),
    ensures
        r matches Some(c) ==> c@ < p() && canonical_bytes(c@) == bytes@.subrange(pos as int, pos + 32),
        r is None ==> forall|c: Fr| c@ < p() ==> canonical_bytes(c@) != bytes@.subrange(pos as int, pos + 32),
{
    let len = bytes.len();
    let mut b = [0u8; 32];
    let mut i: usize = 0;
    while i < 32
        invariant
            i <= 32,
            len == bytes@.len(),
            pos + 32 <= bytes@.len(),
            forall|j: int| 0 <= j < i ==> #[trigger] b@[j] == bytes@[pos + j],
        decreases 32 - i,
    {
        b[i] = bytes[pos + i];
        i += 1;
    }
    let ghost sub = bytes@.subrange(pos as int, pos + 32);
    proof {
        assert(b@ =~= sub);
        lemma_canonical_bytes(sub);
    }
    let r = Fr::from_bytes(&b);
    proof {
        if r is None {
            assert forall|c: Fr| c@ < p() implies canonical_bytes(c@) != sub by {
                if canonical_bytes(c@) == sub {
                    crate::field::lemma_fr_view_nonneg(c);
                    lemma_canonical_bytes_of(c@);
                }
            }
        }
    }
    r
}

/// The tag byte of an expression's encoding.
pub open spec fn tag_of(e: Expression) -> u8 {
    match e {
        Expression::Constant(_) => 0,
        Expression::CommonPolynomial(_) => 1,
        Expression::Polynomial(_) => 2,
        Expression::Challenge(_) => 3,
        Expression::Negated(_) => 4,
        Expression::Sum(_, _) => 5,
        Expression::Product(_, _) => 6,
        Expression::Scaled(_, _) => 7,
    }
}

/// The encoding of the valid expression `e` stands at `pos` of `b`.
pub open spec fn expr_at(b: Seq<u8>, pos: int, e: Expression) -> bool {
    &&& expr_valid(e)
    &&& 0 <= pos
    &&& pos + expr_bytes(e).len() <= b.len()
    &&& b.subrange(pos, pos + expr_bytes(e).len()) == expr_bytes(e)
}

/// The message of an encoding that is no expression.
pub open spec fn expr_msg() -> Seq<char> {
    "Invalid expression encoding"@
}

/// What an encoding at `pos` tells of its expression: the tag, and where
/// each part stands.
pub proof fn lemma_expr_at_parts(b: Seq<u8>, pos: int, e: Expression)
    requires
        expr_at(b, pos, e),
    ensures
        pos < b.len(),
        b[pos] == tag_of(e),
        match e {
            Expression::Constant(c) => c@ < p() && pos + 33 <= b.len()
                && b.subrange(pos + 1, pos + 33) == canonical_bytes(c@) && expr_bytes(e).len() == 33,
            Expression::CommonPolynomial(cp) => pos + 2 <= b.len() && match cp {
                CommonPolynomial::Identity => b[pos + 1] == 0 && expr_bytes(e).len() == 2,
                CommonPolynomial::Lagrange(i) => b[pos + 1] == 1 && pos + 6 <= b.len()
                    && b.subrange(pos + 2, pos + 6) == i32_bytes(i) && expr_bytes(e).len() == 6,
                CommonPolynomial::EqXY(n) => b[pos + 1] == 2 && pos + 10 <= b.len()
                    && b.subrange(pos + 2, pos + 10) == usize_bytes(n) && expr_bytes(e).len() == 10,
            },
            Expression::Polynomial(q) => pos + 13 <= b.len() && b.subrange(pos + 1, pos + 9) == usize_bytes(q.poly)
                && b.subrange(pos + 9, pos + 13) == i32_bytes(q.rotation.0) && expr_bytes(e).len() == 13,
            Expression::Challenge(n) => pos + 9 <= b.len() && b.subrange(pos + 1, pos + 9) == usize_bytes(n)
                && expr_bytes(e).len() == 9,
            Expression::Negated(x) => expr_at(b, pos + 1, *x) && expr_bytes(e).len() == 1 + expr_bytes(*x).len(),
            Expression::Sum(x, y) => expr_at(b, pos + 1, *x) && expr_at(b, pos + 1 + expr_bytes(*x).len(), *y)
                && expr_bytes(e).len() == 1 + expr_bytes(*x).len() + expr_bytes(*y).len(),
            Expression::Product(x, y) => expr_at(b, pos + 1, *x) && expr_at(b, pos + 1 + expr_bytes(*x).len(), *y)
                && expr_bytes(e).len() == 1 + expr_bytes(*x).len() + expr_bytes(*y).len(),
            Expression::Scaled(x, c) => c@ < p() && expr_at(b, pos + 1, *x)
                && pos + 1 + expr_bytes(*x).len() + 32 <= b.len()
                && b.subrange(pos + 1 + expr_bytes(*x).len(), pos + 1 + expr_bytes(*x).len() + 32) == canonical_bytes(c@)
                && expr_bytes(e).len() == 1 + expr_bytes(*x).len() + 32,
        },
{
    let eb = expr_bytes(e);
    let s = b.subrange(pos, pos + eb.len());
    lemma_le_bytes(0, 0);
    match e {
        Expression::Constant(c) => {
            crate::field::lemma_fr_view_nonneg(c);
            lemma_canonical_bytes_of(c@);
            assert(b[pos] == s[0]);
            assert(b.subrange(pos + 1, pos + 33) =~= s.subrange(1, 33));
            assert(eb.subrange(1, 33) =~= canonical_bytes(c@));
        },
        Expression::CommonPolynomial(cp) => {
            assert(b[pos] == s[0]);
            assert(b[pos + 1] == s[1]);
            match cp {
                CommonPolynomial::Identity => {},
                CommonPolynomial::Lagrange(i) => {
                    lemma_le_bytes((i as u32) as nat, 4);
                    assert(b.subrange(pos + 2, pos + 6) =~= s.subrange(2, 6));
                    assert(eb.subrange(2, 6) =~= i32_bytes(i));
                },
                CommonPolynomial::EqXY(n) => {
                    lemma_le_bytes(n as nat, 8);
                    assert(b.subrange(pos + 2, pos + 10) =~= s.subrange(2, 10));
                    assert(eb.subrange(2, 10) =~= usize_bytes(n));
                },
            }
        },
        Expression::Polynomial(q) => {
            lemma_le_bytes(q.poly as nat, 8);
            lemma_le_bytes((q.rotation.0 as u32) as nat, 4);
            assert(b[pos] == s[0]);
            assert(b.subrange(pos + 1, pos + 9) =~= s.subrange(1, 9));
            assert(eb.subrange(1, 9) =~= usize_bytes(q.poly));
            assert(b.subrange(pos + 9, pos + 13) =~= s.subrange(9, 13));
            assert(eb.subrange(9, 13) =~= i32_bytes(q.rotation.0));
        },
        Expression::Challenge(n) => {
            lemma_le_bytes(n as nat, 8);
            assert(b[pos] == s[0]);
            assert(b.subrange(pos + 1, pos + 9) =~= s.subrange(1, 9));
            assert(eb.subrange(1, 9) =~= usize_bytes(n));
        },
        Expression::Negated(x) => {
            let xb = expr_bytes(*x);
            let xl: int = xb.len() as int;
            assert(b[pos] == s[0]);
            assert(b.subrange(pos + 1, pos + 1 + xl) =~= s.subrange(1, 1 + xl));
            assert(eb.subrange(1, 1 + xl) =~= xb);
        },
        Expression::Sum(x, y) => {
            let xb = expr_bytes(*x);
            let xl: int = xb.len() as int;
            let yb = expr_bytes(*y);
            let yl: int = yb.len() as int;
            assert(b[pos] == s[0]);
            assert(b.subrange(pos + 1, pos + 1 + xl) =~= s.subrange(1, 1 + xl));
            assert(eb.subrange(1, 1 + xl) =~= xb);
            assert(b.subrange(pos + 1 + xl, pos + 1 + xl + yl) =~= s.subrange(1 + xl, 1 + xl + yl));
            assert(eb.subrange(1 + xl, 1 + xl + yl) =~= yb);
        },
        Expression::Product(x, y) => {
            let xb = expr_bytes(*x);
            let xl: int = xb.len() as int;
            let yb = expr_bytes(*y);
            let yl: int = yb.len() as int;
            assert(b[pos] == s[0]);
            assert(b.subrange(pos + 1, pos + 1 + xl) =~= s.subrange(1, 1 + xl));
            assert(eb.subrange(1, 1 + xl) =~= xb);
            assert(b.subrange(pos + 1 + xl, pos + 1 + xl + yl) =~= s.subrange(1 + xl, 1 + xl + yl));
            assert(eb.subrange(1 + xl, 1 + xl + yl) =~= yb);
        },
        Expression::Scaled(x, c) => {
            let xb = expr_bytes(*x);
            let xl: int = xb.len() as int;
            crate::field::lemma_fr_view_nonneg(c);
            lemma_canonical_bytes_of(c@);
            assert(b[pos] == s[0]);
            assert(b.subrange(pos + 1, pos + 1 + xl) =~= s.subrange(1, 1 + xl));
            assert(eb.subrange(1, 1 + xl) =~= xb);
            assert(b.subrange(pos + 1 + xl, pos + 1 + xl + 32) =~= s.subrange(1 + xl, 1 + xl + 32));
            assert(eb.subrange(1 + xl, 1 + xl + 32) =~= canonical_bytes(c@));
        },
    }
}

/// The error of an encoding that is no expression.
fn expr_err() -> (r: Error)
    ensures
        r matches Error::Serialization(m) && m@ == expr_msg(),
{
    Error::Serialization(String::from_str("Invalid expression encoding"))
}

/// Reads an expression without subexpressions, whose tag `tag` is at `pos`.
fn read_leaf(bytes: &[u8], pos: usize, tag: u8) -> (r: Result<(Expression, usize), Error>)
    requires
        pos < bytes@.len(),
        bytes@[pos as int] == tag,
        tag <= 3,
    ensures
        r matches Ok((e, end)) ==> expr_at(bytes@, pos as int, e) && end == pos + expr_bytes(e).len(),
        forall|e: Expression| #[trigger] expr_at(bytes@, pos as int, e) ==> (r matches Ok((d, _)) && d == e),
        r is Err ==> (r matches Err(Error::Serialization(m)) && m@ == expr_msg()),
{
    let len = bytes.len();
    let rest = len - pos - 1;
    if tag == 0 {
        if rest < 32 {
            proof {
                assert forall|e: Expression| #[trigger] expr_at(bytes@, pos as int, e) implies false by {
                    lemma_expr_at_parts(bytes@, pos as int, e);
                }
            }
            return Err(expr_err());
        }
        match read_fr(bytes, pos + 1) {
            Some(c) => {
                let ghost d = Expression::Constant(c);
                proof {
                    crate::field::lemma_fr_view_nonneg(c);
                    lemma_canonical_bytes_of(c@);
                    assert(bytes@.subrange(pos as int, pos + 33) =~= seq![0u8] + bytes@.subrange(pos + 1, pos + 33));
                    assert forall|e: Expression| #[trigger] expr_at(bytes@, pos as int, e) implies e == d by {
                        lemma_expr_at_parts(bytes@, pos as int, e);
                        if let Expression::Constant(c2) = e {
                            lemma_canonical_bytes_injective(c, c2);
                        }
                    }
                }
                Ok((Expression::Constant(c), pos + 33))
            },
            None => {
                proof {
                    assert forall|e: Expression| #[trigger] expr_at(bytes@, pos as int, e) implies false by {
                        lemma_expr_at_parts(bytes@, pos as int, e);
                    }
                }
                Err(expr_err())
            },
        }
    } else if tag == 1 {
        if rest < 1 {
            proof {
                assert forall|e: Expression| #[trigger] expr_at(bytes@, pos as int, e) implies false by {
                    lemma_expr_at_parts(bytes@, pos as int, e);
                }
            }
            return Err(expr_err());
        }
        let sub = bytes[pos + 1];
        if sub == 0 {
            let ghost d = Expression::CommonPolynomial(CommonPolynomial::Identity);
            proof {
                assert(bytes@.subrange(pos as int, pos + 2) =~= seq![1u8, 0u8]);
                assert forall|e: Expression| #[trigger] expr_at(bytes@, pos as int, e) implies e == d by {
                    lemma_expr_at_parts(bytes@, pos as int, e);
                }
            }
            Ok((Expression::CommonPolynomial(CommonPolynomial::Identity), pos + 2))
        } else if sub == 1 && rest >= 5 {
            let i = read_i32(bytes, pos + 2);
            let ghost d = Expression::CommonPolynomial(CommonPolynomial::Lagrange(i));
            proof {
                lemma_le_bytes((i as u32) as nat, 4);
                assert(bytes@.subrange(pos as int, pos + 6) =~= seq![1u8, 1u8] + bytes@.subrange(pos + 2, pos + 6));
                assert forall|e: Expression| #[trigger] expr_at(bytes@, pos as int, e) implies e == d by {
                    lemma_expr_at_parts(bytes@, pos as int, e);
                    if let Expression::CommonPolynomial(CommonPolynomial::Lagrange(j)) = e {
                        lemma_i32_bytes_injective(i, j);
                    }
                }
            }
            Ok((Expression::CommonPolynomial(CommonPolynomial::Lagrange(i)), pos + 6))
        } else if sub == 2 && rest >= 9 {
            match read_usize(bytes, pos + 2) {
                Some(n) => {
                    let ghost d = Expression::CommonPolynomial(CommonPolynomial::EqXY(n));
                    proof {
                        lemma_le_bytes(n as nat, 8);
                        assert(bytes@.subrange(pos as int, pos + 10) =~= seq![1u8, 2u8] + bytes@.subrange(pos + 2, pos + 10));
                        assert forall|e: Expression| #[trigger] expr_at(bytes@, pos as int, e) implies e == d by {
                            lemma_expr_at_parts(bytes@, pos as int, e);
                            if let Expression::CommonPolynomial(CommonPolynomial::EqXY(m)) = e {
                                lemma_usize_bytes_injective(n, m);
                            }
                        }
                    }
                    Ok((Expression::CommonPolynomial(CommonPolynomial::EqXY(n)), pos + 10))
                },
                None => {
                    proof {
                        assert forall|e: Expression| #[trigger] expr_at(bytes@, pos as int, e) implies false by {
                            lemma_expr_at_parts(bytes@, pos as int, e);
                        }
                    }
                    Err(expr_err())
                },
            }
        } else {
            proof {
                assert forall|e: Expression| #[trigger] expr_at(bytes@, pos as int, e) implies false by {
                    lemma_expr_at_parts(bytes@, pos as int, e);
                }
            }
            Err(expr_err())
        }
    } else if tag == 2 {
        if rest < 12 {
            proof {
                assert forall|e: Expression| #[trigger] expr_at(bytes@, pos as int, e) implies false by {
                    lemma_expr_at_parts(bytes@, pos as int, e);
                }
            }
            return Err(expr_err());
        }
        match read_usize(bytes, pos + 1) {
            Some(n) => {
                let i = read_i32(bytes, pos + 9);
                let q = Query::new(n, Rotation(i));
                let ghost d = Expression::Polynomial(q);
                proof {
                    lemma_le_bytes(n as nat, 8);
                    lemma_le_bytes((i as u32) as nat, 4);
                    assert(bytes@.subrange(pos as int, pos + 13) =~= seq![2u8] + bytes@.subrange(pos + 1, pos + 9)
                        + bytes@.subrange(pos + 9, pos + 13));
                    assert forall|e: Expression| #[trigger] expr_at(bytes@, pos as int, e) implies e == d by {
                        lemma_expr_at_parts(bytes@, pos as int, e);
                        if let Expression::Polynomial(q2) = e {
                            lemma_usize_bytes_injective(n, q2.poly);
                            lemma_i32_bytes_injective(i, q2.rotation.0);
                        }
                    }
                }
                Ok((Expression::Polynomial(q), pos + 13))
            },
            None => {
                proof {
                    assert forall|e: Expression| #[trigger] expr_at(bytes@, pos as int, e) implies false by {
                        lemma_expr_at_parts(bytes@, pos as int, e);
                    }
                }
                Err(expr_err())
            },
        }
    } else {
        if rest < 8 {
            proof {
                assert forall|e: Expression| #[trigger] expr_at(bytes@, pos as int, e) implies false by {
                    lemma_expr_at_parts(bytes@, pos as int, e);
                }
            }
            return Err(expr_err());
        }
        match read_usize(bytes, pos + 1) {
            Some(n) => {
                let ghost d = Expression::Challenge(n);
                proof {
                    lemma_le_bytes(n as nat, 8);
                    assert(bytes@.subrange(pos as int, pos + 9) =~= seq![3u8] + bytes@.subrange(pos + 1, pos + 9));
                    assert forall|e: Expression| #[trigger] expr_at(bytes@, pos as int, e) implies e == d by {
                        lemma_expr_at_parts(bytes@, pos as int, e);
                        if let Expression::Challenge(m) = e {
                            lemma_usize_bytes_injective(n, m);
                        }
                    }
                }
                Ok((Expression::Challenge(n), pos + 9))
            },
            None => {
                proof {
                    assert forall|e: Expression| #[trigger] expr_at(bytes@, pos as int, e) implies false by {
                        lemma_expr_at_parts(bytes@, pos as int, e);
                    }
                }
                Err(expr_err())
            },
        }
    }
}

/// Reads the expression whose encoding starts at `pos`, and where it ends.
/// Exactly when such an encoding of a valid expression stands there, the
/// result is that expression; otherwise it is a serialization error.
pub fn read_expression(bytes: &[u8], pos: usize) -> (r: Result<(Expression, usize), Error>)
    requires
        pos <= bytes@.len(),
    ensures
        r matches Ok((e, end)) ==> expr_at(bytes@, pos as int, e) && end == pos + expr_bytes(e).len(),
        forall|e: Expression| #[trigger] expr_at(bytes@, pos as int, e) ==> (r matches Ok((d, _)) && d == e),
        r is Err ==> (r matches Err(Error::Serialization(m)) && m@ == expr_msg()),
    decreases bytes@.len() - pos,
{
    let len = bytes.len();
    if pos >= len {
        proof {
            assert forall|e: Expression| #[trigger] expr_at(bytes@, pos as int, e) implies false by {
                lemma_expr_at_parts(bytes@, pos as int, e);
            }
        }
        return Err(expr_err());
    }
    let tag = bytes[pos];
    if tag <= 3 {
        return read_leaf(bytes, pos, tag);
    }
    if tag > 7 {
        proof {
            assert forall|e: Expression| #[trigger] expr_at(bytes@, pos as int, e) implies false by {
                lemma_expr_at_parts(bytes@, pos as int, e);
            }
        }
        return Err(expr_err());
    }
    let first = read_expression(bytes, pos + 1);
    let (a, end1) = match first {
        Ok(v) => v,
        Err(err) => {
            proof {
                assert forall|e: Expression| #[trigger] expr_at(bytes@, pos as int, e) implies false by {
                    lemma_expr_at_parts(bytes@, pos as int, e);
                }
            }
            return Err(err);
        },
    };
    let ghost ab = expr_bytes(a);
    if tag == 4 {
        let ghost d = Expression::Negated(Box::new(a));
        proof {
            assert(bytes@.subrange(pos as int, end1 as int) =~= seq![4u8] + bytes@.subrange(pos + 1, end1 as int));
            assert forall|e: Expression| #[trigger] expr_at(bytes@, pos as int, e) implies e == d by {
                lemma_expr_at_parts(bytes@, pos as int, e);
            }
        }
        return Ok((Expression::Negated(Box::new(a)), end1));
    }
    if tag == 7 {
        if len - end1 < 32 {
            proof {
                assert forall|e: Expression| #[trigger] expr_at(bytes@, pos as int, e) implies false by {
                    lemma_expr_at_parts(bytes@, pos as int, e);
                }
            }
            return Err(expr_err());
        }
        match read_fr(bytes, end1) {
            Some(c) => {
                let ghost d = Expression::Scaled(Box::new(a), c);
                proof {
                    crate::field::lemma_fr_view_nonneg(c);
                    lemma_canonical_bytes_of(c@);
                    assert(bytes@.subrange(pos as int, end1 + 32) =~= seq![7u8] + bytes@.subrange(pos + 1, end1 as int)
                        + bytes@.subrange(end1 as int, end1 + 32));
                    assert forall|e: Expression| #[trigger] expr_at(bytes@, pos as int, e) implies e == d by {
                        lemma_expr_at_parts(bytes@, pos as int, e);
                        if let Expression::Scaled(x, c2) = e {
                            lemma_canonical_bytes_injective(c, c2);
                        }
                    }
                }
                return Ok((Expression::Scaled(Box::new(a), c), end1 + 32));
            },
            None => {
                proof {
                    assert forall|e: Expression| #[trigger] expr_at(bytes@, pos as int, e) implies false by {
                        lemma_expr_at_parts(bytes@, pos as int, e);
                    }
                }
                return Err(expr_err());
            },
        }
    }
    let second = read_expression(bytes, end1);
    let (b, end2) = match second {
        Ok(v) => v,
        Err(err) => {
            proof {
                assert forall|e: Expression| #[trigger] expr_at(bytes@, pos as int, e) implies false by {
                    lemma_expr_at_parts(bytes@, pos as int, e);
                }
            }
            return Err(err);
        },
    };
    proof {
        assert(bytes@.subrange(pos as int, end2 as int) =~= seq![tag] + bytes@.subrange(pos + 1, end1 as int)
            + bytes@.subrange(end1 as int, end2 as int));
    }
    if tag == 5 {
        let ghost d = Expression::Sum(Box::new(a), Box::new(b));
        proof {
            assert forall|e: Expression| #[trigger] expr_at(bytes@, pos as int, e) implies e == d by {
                lemma_expr_at_parts(bytes@, pos as int, e);
            }
        }
        Ok((Expression::Sum(Box::new(a), Box::new(b)), end2))
    } else {
        let ghost d = Expression::Product(Box::new(a), Box::new(b));
        proof {
            assert forall|e: Expression| #[trigger] expr_at(bytes@, pos as int, e) implies e == d by {
                lemma_expr_at_parts(bytes@, pos as int, e);
            }
        }
        Ok((Expression::Product(Box::new(a), Box::new(b)), end2))
    }
}

/// The four bytes of a count, truncated to 32 bits.
pub open spec fn u32_bytes(n: nat) -> Seq<u8> {
    le_bytes((n as u32) as nat, 4)
}

/// The encoding of a named column: the length of its name in UTF-8, the
/// name, and the column index.
pub open spec fn named_entry_bytes(t: (Seq<char>, u32)) -> Seq<u8> {
    u32_bytes(encode_utf8(t.0).len()) + encode_utf8(t.0) + u32_bytes(t.1 as nat)
}

/// The name of a named column is short enough for its length to be written.
pub open spec fn named_entry_fits(t: (Seq<char>, u32)) -> bool {
    encode_utf8(t.0).len() <= u32::MAX
}

/// The encoding of the named column `t` stands at `pos` of `b`.
pub open spec fn named_entry_at(b: Seq<u8>, pos: int, t: (Seq<char>, u32)) -> bool {
    &&& 0 <= pos
    &&& pos + named_entry_bytes(t).len() <= b.len()
    &&& b.subrange(pos, pos + named_entry_bytes(t).len()) == named_entry_bytes(t)
}

/// The message of an encoding that is no named column.
pub open spec fn named_msg() -> Seq<char> {
    "Invalid named column encoding"@
}

fn named_err() -> (r: Error)
    ensures
        r matches Error::Serialization(m) && m@ == named_msg(),
{
    Error::Serialization(String::from_str("Invalid named column encoding"))
}

/// The string that bytes encode in UTF-8 (`std::str::from_utf8`): `None`
/// exactly when the bytes are not valid UTF-8; otherwise a string whose
/// UTF-8 encoding is the bytes.
#[verifier::external_body]
fn str_from_utf8(v: &[u8]) -> (r: Option<&str>)
    ensures
        r is Some <==> valid_utf8(v@),
        r matches Some(s) ==> s.spec_bytes() == v@,
{
    std::str::from_utf8(v).ok()
}

/// `256^4` is `2^32`.
pub proof fn lemma_pow256_4()
    ensures
        pow256(4) == 0x100000000,
{
    reveal_with_fuel(pow256, 5);
}

/// Appends a count as four bytes.
pub fn write_u32(out: &mut Vec<u8>, n: u32)
    ensures
        final(out)@ == old(out)@ + u32_bytes(n as nat),
{
    write_le(out, n as u64, 4);
}

/// Appends the encoding of a named column.
pub fn write_named_entry(out: &mut Vec<u8>, name: &String, index: u32)
    ensures
        final(out)@ == old(out)@ + named_entry_bytes((name@, index)),
{
    let b = name.as_str().as_bytes();
    let n = b.len();
    write_le(out, (n as u32) as u64, 4);
    crate::transcript::extend(out, b);
    write_u32(out, index);
    proof {
        assert(out@ =~= old(out)@ + named_entry_bytes((name@, index)));
    }
}

/// A count read back from its four bytes.
pub proof fn lemma_u32_bytes(n: nat)
    requires
        n <= u32::MAX,
    ensures
        u32_bytes(n).len() == 4,
        le_value(u32_bytes(n)) == n,
{
    lemma_pow256_4();
    lemma_le_bytes_small(n, 4);
}

/// Reads four bytes at `pos` as a count.
pub(crate) fn read_u32_at(bytes: &[u8], pos: usize) -> (r: u32)
    requires
        pos + 4 <= bytes@.len(),
    ensures
        u32_bytes(r as nat) == bytes@.subrange(pos as int, pos + 4),
        forall|n: nat| n <= u32::MAX && #[trigger] u32_bytes(n) == bytes@.subrange(pos as int, pos + 4) ==> r == n,
{
    let v = read_le(bytes, pos, 4);
    let ghost sub = bytes@.subrange(pos as int, pos + 4);
    proof {
        lemma_le_value_bound(sub);
        lemma_pow256_4();
        lemma_le_bytes_of_value(sub);
        assert forall|n: nat| n <= u32::MAX && #[trigger] u32_bytes(n) == sub implies v == n by {
            lemma_u32_bytes(n);
        }
    }
    v as u32
}

/// Reads the named column whose encoding starts at `pos`, and where it
/// ends. Exactly when such an encoding stands there, the result is that
/// column; otherwise it is a serialization error.
pub fn read_named_entry(bytes: &[u8], pos: usize) -> (r: Result<(String, u32, usize), Error>)
    requires
        pos <= bytes@.len(),
    ensures
        r matches Ok((s, v, end)) ==> named_entry_fits((s@, v)) && named_entry_at(bytes@, pos as int, (s@, v))
            && end == pos + named_entry_bytes((s@, v)).len(),
        forall|t: (Seq<char>, u32)| named_entry_fits(t) && #[trigger] named_entry_at(bytes@, pos as int, t)
            ==> (r matches Ok((s, v, _)) && s@ == t.0 && v == t.1),
        r is Err ==> (r matches Err(Error::Serialization(m)) && m@ == named_msg()),
{
    let len = bytes.len();
    if len - pos < 4 {
        proof {
            assert forall|t: (Seq<char>, u32)| named_entry_fits(t) && #[trigger] named_entry_at(bytes@, pos as int, t) implies false by {
                lemma_u32_bytes(encode_utf8(t.0).len());
            }
        }
        return Err(named_err());
    }
    let n = read_u32_at(bytes, pos) as usize;
    proof {
        assert forall|t: (Seq<char>, u32)| named_entry_fits(t) && #[trigger] named_entry_at(bytes@, pos as int, t)
            implies n == encode_utf8(t.0).len() by {
            let nb = named_entry_bytes(t);
            lemma_u32_bytes(encode_utf8(t.0).len());
            assert(bytes@.subrange(pos as int, pos + 4) =~= nb.subrange(0, 4));
            assert(nb.subrange(0, 4) =~= u32_bytes(encode_utf8(t.0).len()));
        }
    }
    if len - pos - 4 < n {
        proof {
            assert forall|t: (Seq<char>, u32)| named_entry_fits(t) && #[trigger] named_entry_at(bytes@, pos as int, t) implies false by {
                lemma_u32_bytes(encode_utf8(t.0).len());
            }
        }
        return Err(named_err());
    }
    let start = pos + 4;
    let stop = start + n;
    let slice = &bytes[start..stop];
    proof {
        assert forall|t: (Seq<char>, u32)| named_entry_fits(t) && #[trigger] named_entry_at(bytes@, pos as int, t)
            implies slice@ == encode_utf8(t.0) by {
            let nb = named_entry_bytes(t);
            lemma_u32_bytes(encode_utf8(t.0).len());
            assert(slice@ =~= nb.subrange(4, 4 + n));
            assert(nb.subrange(4, 4 + n) =~= encode_utf8(t.0));
        }
    }
    let text = match str_from_utf8(slice) {
        Some(text) => text,
        None => {
            proof {
                assert forall|t: (Seq<char>, u32)| named_entry_fits(t) && #[trigger] named_entry_at(bytes@, pos as int, t) implies false by {
                    vstd::utf8::encode_utf8_valid_utf8(t.0);
                }
            }
            return Err(named_err());
        },
    };
    let name = text.to_owned();
    if len - stop < 4 {
        proof {
            assert forall|t: (Seq<char>, u32)| named_entry_fits(t) && #[trigger] named_entry_at(bytes@, pos as int, t) implies false by {
                lemma_u32_bytes(encode_utf8(t.0).len());
                lemma_u32_bytes(t.1 as nat);
            }
        }
        return Err(named_err());
    }
    let v = read_u32_at(bytes, stop);
    proof {
        encode_utf8_decode_utf8(name@);
        lemma_u32_bytes(n as nat);
        let t = (name@, v);
        let nb = named_entry_bytes(t);
        assert(encode_utf8(name@) == slice@);
        assert(bytes@.subrange(pos as int, stop + 4) =~= bytes@.subrange(pos as int, pos + 4) + slice@
            + bytes@.subrange(stop as int, stop + 4));
        assert(nb =~= bytes@.subrange(pos as int, stop + 4));
        assert forall|t2: (Seq<char>, u32)| named_entry_fits(t2) && #[trigger] named_entry_at(bytes@, pos as int, t2)
            implies name@ == t2.0 && v == t2.1 by {
            encode_utf8_decode_utf8(t2.0);
            let nb2 = named_entry_bytes(t2);
            lemma_u32_bytes(encode_utf8(t2.0).len());
            lemma_u32_bytes(t2.1 as nat);
            assert(bytes@.subrange(stop as int, stop + 4) =~= nb2.subrange(4 + n, 8 + n));
            assert(nb2.subrange(4 + n, 8 + n) =~= u32_bytes(t2.1 as nat));
        }
    }
    Ok((name, v, stop + 4))
}

/// The names and indices of named columns.
pub open spec fn named_view(v: Seq<(String, u32)>) -> Seq<(Seq<char>, u32)> {
    v.map_values(|t: (String, u32)| (t.0@, t.1))
}

/// The encodings of named columns, one after the other.
pub open spec fn named_list_bytes(s: Seq<(Seq<char>, u32)>) -> Seq<u8>
    decreases s.len(),
{
    if s.len() == 0 {
        Seq::empty()
    } else {
        named_list_bytes(s.drop_last()) + named_entry_bytes(s.last())
    }
}

/// The encoding of a list of named columns: the count, then each column.
pub open spec fn named_bytes(s: Seq<(Seq<char>, u32)>) -> Seq<u8> {
    u32_bytes(s.len()) + named_list_bytes(s)
}

/// The count and every name fit the lengths that are written.
pub open spec fn named_fits(s: Seq<(Seq<char>, u32)>) -> bool {
    &&& s.len() <= u32::MAX
    &&& forall|i: int| 0 <= i < s.len() ==> #[trigger] named_entry_fits(s[i])
}

/// The encoding of the list `s` of named columns stands at `pos` of `b`.
pub open spec fn named_at(b: Seq<u8>, pos: int, s: Seq<(Seq<char>, u32)>) -> bool {
    &&& 0 <= pos
    &&& pos + named_bytes(s).len() <= b.len()
    &&& b.subrange(pos, pos + named_bytes(s).len()) == named_bytes(s)
}

/// The encoding of the first `k` columns begins the encoding of all.
pub proof fn lemma_named_list_prefix(s: Seq<(Seq<char>, u32)>, k: int)
    requires
        0 <= k <= s.len(),
    ensures
        named_list_bytes(s.take(k)).len() <= named_list_bytes(s).len(),
        named_list_bytes(s).subrange(0, named_list_bytes(s.take(k)).len() as int) == named_list_bytes(s.take(k)),
    decreases s.len(),
{
    if k == s.len() {
        assert(s.take(k) =~= s);
    } else {
        let t = s.drop_last();
        lemma_named_list_prefix(t, k);
        assert(t.take(k) =~= s.take(k));
        let a = named_list_bytes(t);
        let pre = named_list_bytes(s.take(k));
        assert(named_list_bytes(s).subrange(0, pre.len() as int) =~= a.subrange(0, pre.len() as int));
    }
}

/// Appends the encoding of a list of named columns.
pub fn write_named(out: &mut Vec<u8>, v: &Vec<(String, u32)>)
    ensures
        final(out)@ == old(out)@ + named_bytes(named_view(v@)),
{
    write_le(out, (v.len() as u32) as u64, 4);
    let ghost start = out@;
    let mut i: usize = 0;
    while i < v.len()
        invariant
            i <= v@.len(),
            start == old(out)@ + u32_bytes(v@.len()),
            out@ == start + named_list_bytes(named_view(v@.take(i as int))),
        decreases v@.len() - i,
    {
        write_named_entry(out, &v[i].0, v[i].1);
        proof {
            let s = named_view(v@.take(i + 1));
            assert(s.drop_last() =~= named_view(v@.take(i as int)));
            assert(s.last() == (v@[i as int].0@, v@[i as int].1));
        }
        i += 1;
    }
    proof {
        assert(v@.take(i as int) =~= v@);
        assert(named_view(v@).len() == v@.len());
    }
}

/// Reads the list of named columns whose encoding starts at `pos`, and
/// where it ends. Exactly when such an encoding stands there, the result
/// is that list; otherwise it is a serialization error.
pub fn read_named(bytes: &[u8], pos: usize) -> (r: Result<(Vec<(String, u32)>, usize), Error>)
    requires
        pos <= bytes@.len(),
    ensures
        r matches Ok((v, end)) ==> named_fits(named_view(v@)) && named_at(bytes@, pos as int, named_view(v@))
            && end == pos + named_bytes(named_view(v@)).len(),
        forall|s: Seq<(Seq<char>, u32)>| named_fits(s) && #[trigger] named_at(bytes@, pos as int, s)
            ==> (r matches Ok((v, _)) && named_view(v@) == s),
        r is Err ==> (r matches Err(Error::Serialization(m)) && m@ == named_msg()),
{
    let len = bytes.len();
    if len - pos < 4 {
        proof {
            assert forall|s: Seq<(Seq<char>, u32)>| named_fits(s) && #[trigger] named_at(bytes@, pos as int, s) implies false by {
                lemma_u32_bytes(s.len());
            }
        }
        return Err(named_err());
    }
    let count = read_u32_at(bytes, pos);
    proof {
        assert forall|s: Seq<(Seq<char>, u32)>| named_fits(s) && #[trigger] named_at(bytes@, pos as int, s)
            implies count == s.len() by {
            lemma_u32_bytes(s.len());
            assert(bytes@.subrange(pos as int, pos + 4) =~= named_bytes(s).subrange(0, 4));
            assert(named_bytes(s).subrange(0, 4) =~= u32_bytes(s.len()));
        }
    }
    let mut v: Vec<(String, u32)> = Vec::new();
    let mut cur: usize = pos + 4;
    let mut i: u32 = 0;
    while i < count
        invariant
            len == bytes@.len(),
            pos + 4 <= cur <= len,
            i <= count,
            v@.len() == i,
            u32_bytes(count as nat) == bytes@.subrange(pos as int, pos + 4),
            named_fits(named_view(v@)),
            cur == pos + 4 + named_list_bytes(named_view(v@)).len(),
            bytes@.subrange(pos + 4, cur as int) == named_list_bytes(named_view(v@)),
            forall|s: Seq<(Seq<char>, u32)>| named_fits(s) && #[trigger] named_at(bytes@, pos as int, s)
                ==> s.len() == count && named_view(v@) == s.take(i as int),
        decreases count - i,
    {
        let ghost before = named_view(v@);
        proof {
            assert forall|s: Seq<(Seq<char>, u32)>| named_fits(s) && #[trigger] named_at(bytes@, pos as int, s)
                implies named_entry_fits(s[i as int]) && named_entry_at(bytes@, cur as int, s[i as int]) by {
                lemma_named_list_prefix(s, i + 1);
                let pre = named_list_bytes(s.take(i + 1));
                let pl: int = pre.len() as int;
                assert(s.take(i + 1).drop_last() =~= s.take(i as int));
                assert(pre == named_list_bytes(before) + named_entry_bytes(s[i as int]));
                let nb = named_bytes(s);
                assert(bytes@.subrange(pos + 4, pos + 4 + pl) =~= nb.subrange(4, 4 + pl));
                assert(nb.subrange(4, 4 + pl) =~= named_list_bytes(s).subrange(0, pl));
                let eb = named_entry_bytes(s[i as int]);
                let lb = named_list_bytes(before);
                assert(before == s.take(i as int));
                assert(bytes@.subrange(pos + 4, pos + 4 + pl) == pre);
                assert(pre.subrange(lb.len() as int, pl) =~= eb);
                assert(bytes@.subrange(cur as int, cur + eb.len()) =~= pre.subrange(lb.len() as int, pl));
            }
        }
        let entry = read_named_entry(bytes, cur);
        let (name, index, end) = match entry {
            Ok(x) => x,
            Err(err) => {
                proof {
                    assert forall|s: Seq<(Seq<char>, u32)>| named_fits(s) && #[trigger] named_at(bytes@, pos as int, s) implies false by {
                        assert(named_entry_fits(s[i as int]) && named_entry_at(bytes@, cur as int, s[i as int]));
                    }
                }
                return Err(err);
            },
        };
        let ghost t = (name@, index);
        v.push((name, index));
        proof {
            let after = named_view(v@);
            assert(after =~= before.push(t));
            assert(after.drop_last() =~= before);
            assert(bytes@.subrange(pos + 4, end as int) =~= bytes@.subrange(pos + 4, cur as int) + bytes@.subrange(cur as int, end as int));
            assert forall|j: int| 0 <= j < after.len() implies #[trigger] named_entry_fits(after[j]) by {
                if j < before.len() {
                    assert(after[j] == before[j]);
                }
            }
            assert forall|s: Seq<(Seq<char>, u32)>| named_fits(s) && #[trigger] named_at(bytes@, pos as int, s)
                implies s.len() == count && after == s.take(i + 1) by {
                assert(named_entry_fits(s[i as int]) && named_entry_at(bytes@, cur as int, s[i as int]));
                assert(s.take(i + 1) =~= s.take(i as int).push(s[i as int]));
            }
        }
        cur = end;
        i += 1;
    }
    proof {
        let vv = named_view(v@);
        assert(bytes@.subrange(pos as int, cur as int) =~= bytes@.subrange(pos as int, pos + 4) + bytes@.subrange(pos + 4, cur as int));
        assert forall|s: Seq<(Seq<char>, u32)>| named_fits(s) && #[trigger] named_at(bytes@, pos as int, s)
            implies vv == s by {
            assert(s.take(i as int) =~= s);
        }
    }
    Ok((v, cur))
}

/// The encoding of a list of points: the count, then each point.
pub open spec fn g1_list_bytes(s: Seq<G1>) -> Seq<u8> {
    u32_bytes(s.len()) + g1_bytes(g1_views(s))
}

/// Every point of the list encodes a point of `G1` (as every point built by
/// this library does).
pub open spec fn g1s_valid(s: Seq<G1>) -> bool {
    forall|i: int| 0 <= i < s.len() ==> g1_decodes(#[trigger] s[i]@)
}

/// The encoding of the list of points `s` stands at `pos` of `b`.
pub open spec fn g1s_at(b: Seq<u8>, pos: int, s: Seq<G1>) -> bool {
    &&& 0 <= pos
    &&& pos + g1_list_bytes(s).len() <= b.len()
    &&& b.subrange(pos, pos + g1_list_bytes(s).len()) == g1_list_bytes(s)
}

/// The message of an encoding that is no list of points.
pub open spec fn points_msg() -> Seq<char> {
    "Invalid point encoding"@
}

fn points_err() -> (r: Error)
    ensures
        r matches Error::Serialization(m) && m@ == points_msg(),
{
    Error::Serialization(String::from_str("Invalid point encoding"))
}

/// The encodings of the first `k` points: `32 * k` bytes that begin the
/// encodings of all.
pub proof fn lemma_g1_bytes_prefix(s: Seq<G1>, k: int)
    requires
        0 <= k <= s.len(),
    ensures
        g1_bytes(g1_views(s.take(k))).len() == 32 * k,
        g1_bytes(g1_views(s)).len() == 32 * s.len(),
        g1_bytes(g1_views(s)).subrange(0, 32 * k) == g1_bytes(g1_views(s.take(k))),
    decreases s.len(),
{
    if s.len() == 0 {
        assert(g1_views(s) =~= Seq::<Seq<u8>>::empty());
        assert(g1_views(s.take(k)) =~= Seq::<Seq<u8>>::empty());
    } else {
        let t = s.drop_last();
        lemma_g1_view_len(s.last());
        assert(g1_views(s).drop_last() =~= g1_views(t));
        assert(g1_views(s).last() == s.last()@);
        if k == s.len() {
            lemma_g1_bytes_prefix(t, t.len() as int);
            assert(s.take(k) =~= s);
        } else {
            lemma_g1_bytes_prefix(t, k);
            assert(t.take(k) =~= s.take(k));
            let a = g1_bytes(g1_views(t));
            assert(g1_bytes(g1_views(s)).subrange(0, 32 * k) =~= a.subrange(0, 32 * k));
        }
    }
}

/// Appends the encoding of a list of points.
pub fn write_g1s(out: &mut Vec<u8>, v: &Vec<G1>)
    ensures
        final(out)@ == old(out)@ + g1_list_bytes(v@),
{
    write_le(out, (v.len() as u32) as u64, 4);
    let ghost start = out@;
    let mut i: usize = 0;
    while i < v.len()
        invariant
            i <= v@.len(),
            start == old(out)@ + u32_bytes(v@.len()),
            out@ == start + g1_bytes(g1_views(v@.take(i as int))),
        decreases v@.len() - i,
    {
        let b = v[i].to_bytes();
        crate::transcript::extend(out, &b);
        proof {
            let w = g1_views(v@.take(i + 1));
            assert(w.drop_last() =~= g1_views(v@.take(i as int)));
            assert(w.last() == v@[i as int]@);
        }
        i += 1;
    }
    proof {
        assert(v@.take(i as int) =~= v@);
    }
}

/// Reads a point at `pos`: `None` exactly when the 32 bytes encode no point.
fn read_g1(bytes: &[u8], pos: usize) -> (r: Option<G1>)
    requires
        pos + 32 <= bytes@.len(),
    ensures
        r is Some <==> g1_decodes(bytes@.subrange(pos as int, pos + 32)),
        r matches Some(g) ==> g@ == bytes@.subrange(pos as int, pos + 32),
{
    let len = bytes.len();
    let mut b = [0u8; 32];
    let mut i: usize = 0;
    while i < 32
        invariant
            i <= 32,
            len == bytes@.len(),
            pos + 32 <= bytes@.len(),
            forall|j: int| 0 <= j < i ==> #[trigger] b@[j] == bytes@[pos + j],
        decreases 32 - i,
    {
        b[i] = bytes[pos + i];
        i += 1;
    }
    proof {
        assert(b@ =~= bytes@.subrange(pos as int, pos + 32));
    }
    G1::from_bytes(&b)
}

/// Reads the list of points whose encoding starts at `pos`, and where it
/// ends. Exactly when such an encoding stands there, the result is that
/// list; otherwise it is a serialization error.
pub fn read_g1s(bytes: &[u8], pos: usize) -> (r: Result<(Vec<G1>, usize), Error>)
    requires
        pos <= bytes@.len(),
    ensures
        r matches Ok((v, end)) ==> v@.len() <= u32::MAX && g1s_valid(v@) && g1s_at(bytes@, pos as int, v@)
            && end == pos + g1_list_bytes(v@).len(),
        forall|s: Seq<G1>| s.len() <= u32::MAX && g1s_valid(s) && #[trigger] g1s_at(bytes@, pos as int, s)
            ==> (r matches Ok((v, _)) && v@ == s),
        r is Err ==> (r matches Err(Error::Serialization(m)) && m@ == points_msg()),
{
    let len = bytes.len();
    if len - pos < 4 {
        proof {
            assert forall|s: Seq<G1>| s.len() <= u32::MAX && g1s_valid(s) && #[trigger] g1s_at(bytes@, pos as int, s) implies false by {
                lemma_u32_bytes(s.len());
            }
        }
        return Err(points_err());
    }
    let count = read_u32_at(bytes, pos);
    proof {
        assert forall|s: Seq<G1>| s.len() <= u32::MAX && g1s_valid(s) && #[trigger] g1s_at(bytes@, pos as int, s)
            implies count == s.len() by {
            lemma_u32_bytes(s.len());
            assert(bytes@.subrange(pos as int, pos + 4) =~= g1_list_bytes(s).subrange(0, 4));
            assert(g1_list_bytes(s).subrange(0, 4) =~= u32_bytes(s.len()));
        }
    }
    let mut v: Vec<G1> = Vec::new();
    let mut cur: usize = pos + 4;
    let mut i: u32 = 0;
    while i < count
        invariant
            len == bytes@.len(),
            pos + 4 <= cur <= len,
            i <= count,
            v@.len() == i,
            cur == pos + 4 + 32 * i,
            u32_bytes(count as nat) == bytes@.subrange(pos as int, pos + 4),
            g1s_valid(v@),
            bytes@.subrange(pos + 4, cur as int) == g1_bytes(g1_views(v@)),
            forall|s: Seq<G1>| s.len() <= u32::MAX && g1s_valid(s) && #[trigger] g1s_at(bytes@, pos as int, s)
                ==> s.len() == count && v@ == s.take(i as int),
        decreases count - i,
    {
        let ghost before = v@;
        proof {
            assert forall|s: Seq<G1>| s.len() <= u32::MAX && g1s_valid(s) && #[trigger] g1s_at(bytes@, pos as int, s)
                implies cur + 32 <= len && bytes@.subrange(cur as int, cur + 32) == s[i as int]@ by {
                lemma_g1_bytes_prefix(s, i + 1);
                lemma_g1_bytes_prefix(s.take(i + 1), i as int);
                lemma_g1_view_len(s[i as int]);
                let pre = g1_bytes(g1_views(s.take(i + 1)));
                let w = g1_views(s.take(i + 1));
                assert(w.drop_last() =~= g1_views(s.take(i as int)));
                assert(w.last() == s[i as int]@);
                let nb = g1_list_bytes(s);
                lemma_u32_bytes(s.len());
                assert(bytes@.subrange(pos + 4, pos + 4 + 32 * (i + 1)) =~= nb.subrange(4, 4 + 32 * (i + 1)));
                assert(nb.subrange(4, 4 + 32 * (i + 1)) =~= g1_bytes(g1_views(s)).subrange(0, 32 * (i + 1)));
                assert(pre.subrange(32 * i, 32 * (i + 1)) =~= s[i as int]@);
                assert(bytes@.subrange(cur as int, cur + 32) =~= pre.subrange(32 * i, 32 * (i + 1)));
            }
        }
        if len - cur < 32 {
            proof {
                assert forall|s: Seq<G1>| s.len() <= u32::MAX && g1s_valid(s) && #[trigger] g1s_at(bytes@, pos as int, s) implies false by {
                    assert(cur + 32 <= len);
                }
            }
            return Err(points_err());
        }
        let g = match read_g1(bytes, cur) {
            Some(g) => g,
            None => {
                proof {
                    assert forall|s: Seq<G1>| s.len() <= u32::MAX && g1s_valid(s) && #[trigger] g1s_at(bytes@, pos as int, s) implies false by {
                        assert(bytes@.subrange(cur as int, cur + 32) == s[i as int]@);
                        assert(g1_decodes(s[i as int]@));
                    }
                }
                return Err(points_err());
            },
        };
        v.push(g);
        proof {
            assert(v@.drop_last() =~= before);
            assert(g1_views(v@).drop_last() =~= g1_views(before));
            assert(g1_views(v@).last() == g@);
            assert(bytes@.subrange(pos + 4, cur + 32) =~= bytes@.subrange(pos + 4, cur as int) + bytes@.subrange(cur as int, cur + 32));
            assert forall|j: int| 0 <= j < v@.len() implies g1_decodes(#[trigger] v@[j]@) by {
                if j < before.len() {
                    assert(v@[j] == before[j]);
                }
            }
            assert forall|s: Seq<G1>| s.len() <= u32::MAX && g1s_valid(s) && #[trigger] g1s_at(bytes@, pos as int, s)
                implies s.len() == count && v@ == s.take(i + 1) by {
                assert(bytes@.subrange(cur as int, cur + 32) == s[i as int]@);
                lemma_g1_view_injective(g, s[i as int]);
                assert(v@ =~= s.take(i + 1));
            }
        }
        cur = cur + 32;
        i += 1;
    }
    proof {
        lemma_g1_bytes_prefix(v@, 0);
        assert(bytes@.subrange(pos as int, cur as int) =~= bytes@.subrange(pos as int, pos + 4) + bytes@.subrange(pos + 4, cur as int));
        assert forall|s: Seq<G1>| s.len() <= u32::MAX && g1s_valid(s) && #[trigger] g1s_at(bytes@, pos as int, s)
            implies v@ == s by {
            assert(s.take(i as int) =~= s);
        }
    }
    Ok((v, cur))
}

} // verus!
