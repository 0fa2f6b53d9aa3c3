//! Embeddings: directions in a semantic space, and how close two of them are.
//!
//! The components of an embedding are counted in hundred-millionths, so that
//! `1.0` is [`UNIT`]; a similarity is in billionths, see [`crate::fixed`].

use vstd::prelude::*;

use crate::fixed::ONE;
use crate::wide::{at_least, compute_places, multiply_wide};

verus! {

/// The component `1.0`, in hundred-millionths.
pub const UNIT: i32 = 100_000_000;

/// The sum of the products of the components.
pub open spec fn dot(a: Seq<i32>, b: Seq<i32>) -> int
    decreases a.len(),
{
    if a.len() == 0 || b.len() == 0 {
        0
    } else {
        dot(a.drop_last(), b.drop_last()) + a.last() * b.last()
    }
}

/// The largest number whose square is at most `n`.
pub open spec fn root(n: nat) -> nat
    decreases n,
{
    if n == 0 {
        0
    } else {
        let r = root((n - 1) as nat);
        if (r + 1) * (r + 1) <= n {
            r + 1
        } else {
            r
        }
    }
}

/// The cosine of the angle between two embeddings, rounded toward zero; zero where
/// they cannot be compared, because their lengths differ or one has no direction.
pub open spec fn similarity(a: Seq<i32>, b: Seq<i32>) -> int {
    let d = dot(a, b);
    let norms = dot(a, a) * dot(b, b);
    if a.len() != b.len() || norms == 0 {
        0
    } else {
        let s = root((d * d * (ONE * ONE) / norms) as nat) as int;
        if d < 0 {
            -s
        } else {
            s
        }
    }
}

/// A root lies just below or at what it is the root of.
pub proof fn law_root(n: nat)
    ensures
        root(n) * root(n) <= n < (root(n) + 1) * (root(n) + 1),
    decreases n,
{
    if n > 0 {
        law_root((n - 1) as nat);
        let r = root((n - 1) as nat);
        let s = root(n);
        if (r + 1) * (r + 1) <= n {
            assert(s == r + 1);
            assert((s + 1) * (s + 1) > s * s) by (nonlinear_arith);
        }
    } else {
        let s = root(n);
        assert(s * s == 0 && (s + 1) * (s + 1) == 1) by (nonlinear_arith)
            requires
                s == 0,
        ;
    }
}

proof fn lemma_root_unique(n: nat, r: nat)
    requires
        r * r <= n < (r + 1) * (r + 1),
    ensures
        root(n) == r,
{
    law_root(n);
    let s = root(n);
    assert(s <= r) by (nonlinear_arith)
        requires
            s * s <= n < (r + 1) * (r + 1),
            s >= 0,
            r >= 0,
    ;
    assert(r <= s) by (nonlinear_arith)
        requires
            r * r <= n < (s + 1) * (s + 1),
            s >= 0,
            r >= 0,
    ;
}

proof fn lemma_root_of_square(r: nat)
    ensures
        root(r * r) == r,
{
    assert(r * r < (r + 1) * (r + 1)) by (nonlinear_arith);
    lemma_root_unique(r * r, r);
}

proof fn lemma_dot_symmetric(a: Seq<i32>, b: Seq<i32>)
    ensures
        dot(a, b) == dot(b, a),
    decreases a.len(),
{
    if a.len() > 0 && b.len() > 0 {
        lemma_dot_symmetric(a.drop_last(), b.drop_last());
        assert(a.last() * b.last() == b.last() * a.last()) by (nonlinear_arith);
    }
}

proof fn lemma_dot_self(a: Seq<i32>)
    ensures
        dot(a, a) >= 0,
    decreases a.len(),
{
    if a.len() > 0 {
        lemma_dot_self(a.drop_last());
        let x = a.last();
        assert(x * x >= 0) by (nonlinear_arith);
    }
}

/// The square of a product of embeddings is at most the product of their squares.
proof fn lemma_dot_bounded(a: Seq<i32>, b: Seq<i32>)
    requires
        a.len() == b.len(),
    ensures
        dot(a, b) * dot(a, b) <= dot(a, a) * dot(b, b),
    decreases a.len(),
{
    if a.len() > 0 {
        let (a1, b1) = (a.drop_last(), b.drop_last());
        lemma_dot_bounded(a1, b1);
        lemma_dot_self(a1);
        lemma_dot_self(b1);
        lemma_bound_step(
            dot(a1, b1),
            dot(a1, a1),
            dot(b1, b1),
            a.last() as int,
            b.last() as int,
        );
    }
}

proof fn lemma_bound_step(s: int, p: int, q: int, x: int, y: int)
    requires
        s * s <= p * q,
        p >= 0,
        q >= 0,
    ensures
        (s + x * y) * (s + x * y) <= (p + x * x) * (q + y * y),
{
    let u = p * (y * y);
    let v = q * (x * x);
    let t = s * (x * y);
    assert(u >= 0 && v >= 0) by (nonlinear_arith)
        requires
            u == p * (y * y),
            v == q * (x * x),
            p >= 0,
            q >= 0,
    ;
    assert(t * t <= u * v) by {
        let z = (x * y) * (x * y);
        assert(z >= 0) by (nonlinear_arith)
            requires
                z == (x * y) * (x * y),
        ;
        assert(t * t == (s * s) * z) by (nonlinear_arith)
            requires
                t == s * (x * y),
                z == (x * y) * (x * y),
        ;
        assert(u * v == (p * q) * z) by (nonlinear_arith)
            requires
                u == p * (y * y),
                v == q * (x * x),
                z == (x * y) * (x * y),
        ;
        assert((s * s) * z <= (p * q) * z) by (nonlinear_arith)
            requires
                s * s <= p * q,
                z >= 0,
        ;
    }
    assert((u + v) * (u + v) >= 4 * (u * v)) by (nonlinear_arith);
    assert(2 * t <= u + v) by (nonlinear_arith)
        requires
            (u + v) * (u + v) >= 4 * (u * v),
            t * t <= u * v,
            u + v >= 0,
    ;
    assert((s + x * y) * (s + x * y) == s * s + 2 * t + (x * y) * (x * y)) by (nonlinear_arith)
        requires
            t == s * (x * y),
    ;
    assert((p + x * x) * (q + y * y) == p * q + u + v + (x * y) * (x * y)) by (nonlinear_arith)
        requires
            u == p * (y * y),
            v == q * (x * x),
    ;
}

/// Embeddings have a direction where their squares do not vanish.
proof fn lemma_norms(a: Seq<i32>, b: Seq<i32>)
    ensures
        dot(a, a) >= 0,
        dot(b, b) >= 0,
        dot(a, a) * dot(b, b) >= 0,
        dot(a, a) * dot(b, b) == 0 <==> dot(a, a) == 0 || dot(b, b) == 0,
{
    lemma_dot_self(a);
    lemma_dot_self(b);
    let (x, y) = (dot(a, a), dot(b, b));
    assert(x * y >= 0 && (x * y == 0 <==> x == 0 || y == 0)) by (nonlinear_arith)
        requires
            x >= 0,
            y >= 0,
    ;
}

/// A similarity is the cosine of the angle, in billionths: apart from the sign, its
/// square is at most the square of the cosine, and with one billionth more it would
/// be above it.
pub proof fn law_similarity_is_the_cosine(a: Seq<i32>, b: Seq<i32>)
    requires
        a.len() == b.len(),
    ensures
        ({
            let d = dot(a, b);
            let norms = dot(a, a) * dot(b, b);
            let s = if d < 0 {
                -similarity(a, b)
            } else {
                similarity(a, b)
            };
            &&& s >= 0
            &&& norms > 0 ==> s * s * norms <= d * d * (ONE * ONE) < (s + 1) * (s + 1) * norms
        }),
{
    let d = dot(a, b);
    let norms = dot(a, a) * dot(b, b);
    lemma_norms(a, b);
    if norms > 0 {
        let n = d * d * (ONE * ONE);
        assert(n >= 0) by (nonlinear_arith)
            requires
                n == d * d * (ONE * ONE),
        ;
        let q = n / norms;
        vstd::arithmetic::div_mod::lemma_div_pos_is_pos(n, norms);
        vstd::arithmetic::div_mod::lemma_fundamental_div_mod(n, norms);
        vstd::arithmetic::div_mod::lemma_mod_bound(n, norms);
        law_root(q as nat);
        let s = root(q as nat) as int;
        assert(s * s * norms <= norms * q) by (nonlinear_arith)
            requires
                s * s <= q,
                norms > 0,
        ;
        assert(norms * (q + 1) <= (s + 1) * (s + 1) * norms) by (nonlinear_arith)
            requires
                q + 1 <= (s + 1) * (s + 1),
                norms > 0,
        ;
        assert(norms * (q + 1) == norms * q + norms) by (nonlinear_arith);
    }
}

/// Similarity does not depend on the order of the two embeddings.
pub proof fn law_similarity_symmetric(a: Seq<i32>, b: Seq<i32>)
    ensures
        similarity(a, b) == similarity(b, a),
{
    lemma_dot_symmetric(a, b);
    let (x, y) = (dot(a, a), dot(b, b));
    assert(x * y == y * x) by (nonlinear_arith);
}

/// An embedding with a direction is wholly similar to itself.
pub proof fn law_similarity_to_itself(a: Seq<i32>)
    requires
        dot(a, a) > 0,
    ensures
        similarity(a, a) == ONE,
{
    let d = dot(a, a);
    let n = d * d;
    assert(n > 0) by (nonlinear_arith)
        requires
            d > 0,
            n == d * d,
    ;
    vstd::arithmetic::div_mod::lemma_div_by_multiple(ONE * ONE, n);
    assert(n * (ONE * ONE) == (ONE * ONE) * n) by (nonlinear_arith);
    lemma_root_of_square(ONE as nat);
}

/// A similarity lies between minus one and one.
pub proof fn law_similarity_range(a: Seq<i32>, b: Seq<i32>)
    ensures
        -ONE <= similarity(a, b) <= ONE,
{
    let d = dot(a, b);
    let norms = dot(a, a) * dot(b, b);
    lemma_norms(a, b);
    if a.len() == b.len() && norms > 0 {
        lemma_dot_bounded(a, b);
        law_similarity_is_the_cosine(a, b);
        let s = if d < 0 {
            -similarity(a, b)
        } else {
            similarity(a, b)
        };
        let one = ONE as int;
        assert(s <= one) by (nonlinear_arith)
            requires
                s * s * norms <= d * d * (one * one),
                d * d <= norms,
                norms > 0,
                s >= 0,
                one > 0,
        {
            if s > one {
                assert(s * s > one * one);
                assert(s * s * norms > one * one * norms);
                assert(d * d * (one * one) <= norms * (one * one));
            }
        }
    }
}

/// Multiplies two embeddings.
fn compute_dot(a: &Vec<i32>, b: &Vec<i32>) -> (r: i128)
    requires
        a.len() == b.len(),
    ensures
        r == dot(a@, b@),
        -0x4000_0000_0000_0000_0000_0000_0000_0000 < r
            < 0x4000_0000_0000_0000_0000_0000_0000_0000,
{
    let mut sum: i128 = 0;
    let mut i: usize = 0;
    while i < a.len()
        invariant
            i <= a.len() == b.len(),
            sum == dot(a@.take(i as int), b@.take(i as int)),
            -0x4000_0000_0000_0000 * i <= sum <= 0x4000_0000_0000_0000 * i,
        decreases a.len() - i,
    {
        let x: i128 = a[i] as i128;
        let y: i128 = b[i] as i128;
        assert(-0x4000_0000_0000_0000 <= x * y <= 0x4000_0000_0000_0000) by (nonlinear_arith)
            requires
                i32::MIN <= x <= i32::MAX,
                i32::MIN <= y <= i32::MAX,
        ;
        assert(a@.take(i + 1).drop_last() == a@.take(i as int));
        assert(b@.take(i + 1).drop_last() == b@.take(i as int));
        sum = sum + x * y;
        i = i + 1;
    }
    assert(a@.take(i as int) == a@);
    assert(b@.take(i as int) == b@);
    sum
}

/// Computes the largest number whose square is at most `n`.
pub fn compute_root(n: u128) -> (r: u128)
    requires
        n < 0x4000_0000_0000_0000_0000_0000_0000_0000,
    ensures
        r == root(n as nat),
        r < 0x8000_0000_0000_0000,
        r * r <= n,
{
    let mut low: u128 = 0;
    let mut high: u128 = 0x8000_0000_0000_0000;
    while high - low > 1
        invariant
            low < high <= 0x8000_0000_0000_0000,
            low * low <= n < high * high,
        decreases high - low,
    {
        let middle: u128 = low + (high - low) / 2;
        assert(0 <= middle * middle <= 0x8000_0000_0000_0000 * 0x8000_0000_0000_0000)
            by (nonlinear_arith)
            requires
                0 <= middle <= 0x8000_0000_0000_0000,
        ;
        if middle * middle <= n {
            low = middle;
        } else {
            high = middle;
        }
    }
    proof {
        lemma_root_unique(n as nat, low as nat);
    }
    low
}

/// Computes the cosine of the angle between two embeddings.
pub fn cosine_similarity(a: &Vec<i32>, b: &Vec<i32>) -> (r: i64)
    ensures
        r == similarity(a@, b@),
        -ONE <= r <= ONE,
{
    proof {
        law_similarity_range(a@, b@);
    }
    if a.len() != b.len() {
        return 0;
    }
    proof {
        lemma_norms(a@, b@);
        lemma_dot_bounded(a@, b@);
    }
    let na: u128 = compute_dot(a, a) as u128;
    let nb: u128 = compute_dot(b, b) as u128;
    if na == 0 || nb == 0 {
        return 0;
    }
    let d: i128 = compute_dot(a, b);
    let size: u128 = if d < 0 {
        (-d) as u128
    } else {
        d as u128
    };
    let square = multiply_wide(size, size);
    let norms = multiply_wide(na, nb);
    assert(square@ == d * d) by (nonlinear_arith)
        requires
            square@ == size * size,
            size == d || size == -d,
    ;
    let share: i64 = if at_least(square, norms) {
        proof {
            let n = norms@;
            vstd::arithmetic::div_mod::lemma_div_by_multiple(ONE * ONE, n);
            assert(n * (ONE * ONE) == (ONE * ONE) * n) by (nonlinear_arith);
            lemma_root_of_square(ONE as nat);
        }
        ONE
    } else {
        assert(norms@ < 0x4000_0000_0000_0000_0000_0000_0000_0000
            * 0x4000_0000_0000_0000_0000_0000_0000_0000) by (nonlinear_arith)
            requires
                norms@ == na * nb,
                0 <= na < 0x4000_0000_0000_0000_0000_0000_0000_0000,
                0 <= nb < 0x4000_0000_0000_0000_0000_0000_0000_0000,
        ;
        let places: u64 = compute_places(square, norms);
        let r: u128 = compute_root(places as u128);
        assert(r <= ONE) by (nonlinear_arith)
            requires
                r * r <= places < 1_000_000_000_000_000_000,
                ONE == 1_000_000_000,
        ;
        r as i64
    };
    if d < 0 {
        -share
    } else {
        share
    }
}

// ---- bytes ----

/// The four bytes of a component, least significant first.
pub open spec fn component_bytes(x: i32) -> Seq<u8> {
    let n = if x >= 0 {
        x as int
    } else {
        x + 0x1_0000_0000
    };
    seq![
        (n % 256) as u8,
        (n / 256 % 256) as u8,
        (n / 65536 % 256) as u8,
        (n / 16777216 % 256) as u8,
    ]
}

/// The bytes of an embedding, component by component.
pub open spec fn embedding_bytes(v: Seq<i32>) -> Seq<u8>
    decreases v.len(),
{
    if v.len() == 0 {
        Seq::empty()
    } else {
        embedding_bytes(v.drop_last()) + component_bytes(v.last())
    }
}

/// The component that four bytes stand for.
pub open spec fn bytes_component(b: Seq<u8>) -> i32 {
    let n = b[0] + 256 * b[1] + 65536 * b[2] + 16777216 * b[3];
    if n < 0x8000_0000 {
        n as i32
    } else {
        (n - 0x1_0000_0000) as i32
    }
}

/// The components that the whole groups of four bytes stand for; bytes left
/// over at the end are not read.
pub open spec fn bytes_embedding(b: Seq<u8>) -> Seq<i32>
    decreases b.len(),
{
    if b.len() < 4 {
        Seq::empty()
    } else {
        seq![bytes_component(b.take(4))] + bytes_embedding(b.skip(4))
    }
}

/// Writes an embedding as bytes.
pub fn embedding_to_bytes(embedding: &Vec<i32>) -> (r: Vec<u8>)
    ensures
        r@ == embedding_bytes(embedding@),
{
    let mut bytes: Vec<u8> = Vec::new();
    let mut i: usize = 0;
    while i < embedding.len()
        invariant
            i <= embedding.len(),
            bytes@ == embedding_bytes(embedding@.take(i as int)),
        decreases embedding.len() - i,
    {
        let x: i64 = embedding[i] as i64;
        let n: u64 = if x >= 0 {
            x as u64
        } else {
            (x + 0x1_0000_0000) as u64
        };
        let ghost before = bytes@;
        bytes.push((n % 256) as u8);
        bytes.push((n / 256 % 256) as u8);
        bytes.push((n / 65536 % 256) as u8);
        bytes.push((n / 16777216 % 256) as u8);
        assert(bytes@ == before + component_bytes(embedding@[i as int]));
        assert(embedding@.take(i + 1).drop_last() == embedding@.take(i as int));
        i = i + 1;
    }
    assert(embedding@.take(i as int) == embedding@);
    bytes
}

/// Reads an embedding from bytes.
pub fn bytes_to_embedding(bytes: &Vec<u8>) -> (r: Vec<i32>)
    ensures
        r@ == bytes_embedding(bytes@),
{
    let mut out: Vec<i32> = Vec::new();
    let mut i: usize = 0;
    assert(bytes@.skip(0) == bytes@);
    while bytes.len() - i >= 4
        invariant
            i <= bytes.len(),
            out@ + bytes_embedding(bytes@.skip(i as int)) == bytes_embedding(bytes@),
        decreases bytes.len() - i,
    {
        let n: i64 = bytes[i] as i64 + 256 * bytes[i + 1] as i64 + 65536 * bytes[i + 2] as i64
            + 16777216 * bytes[i + 3] as i64;
        let x: i32 = if n < 0x8000_0000 {
            n as i32
        } else {
            (n - 0x1_0000_0000) as i32
        };
        proof {
            let rest = bytes@.skip(i as int);
            assert(rest.take(4) == seq![
                bytes@[i as int],
                bytes@[i + 1],
                bytes@[i + 2],
                bytes@[i + 3],
            ]);
            assert(rest.skip(4) == bytes@.skip(i + 4));
            assert(out@.push(x) + bytes_embedding(rest.skip(4)) == out@ + (seq![x]
                + bytes_embedding(rest.skip(4))));
        }
        out.push(x);
        i = i + 4;
    }
    assert(out@ + bytes_embedding(bytes@.skip(i as int)) == out@);
    out
}

proof fn lemma_component_roundtrip(x: i32)
    ensures
        bytes_component(component_bytes(x)) == x,
{
}

proof fn lemma_bytes_append(b: Seq<u8>, x: i32)
    requires
        b.len() % 4 == 0,
    ensures
        bytes_embedding(b + component_bytes(x)) == bytes_embedding(b).push(x),
    decreases b.len(),
{
    let whole = b + component_bytes(x);
    if b.len() == 0 {
        assert(whole.take(4) == component_bytes(x));
        assert(whole.skip(4).len() == 0);
        lemma_component_roundtrip(x);
        assert(bytes_embedding(whole.skip(4)) == Seq::<i32>::empty());
    } else {
        assert(whole.take(4) == b.take(4));
        assert(whole.skip(4) == b.skip(4) + component_bytes(x));
        lemma_bytes_append(b.skip(4), x);
    }
}

proof fn lemma_bytes_len(v: Seq<i32>)
    ensures
        embedding_bytes(v).len() == 4 * v.len(),
    decreases v.len(),
{
    if v.len() > 0 {
        lemma_bytes_len(v.drop_last());
    }
}

/// Reading what was written gives the embedding back.
pub proof fn law_embedding_roundtrip(v: Seq<i32>)
    ensures
        bytes_embedding(embedding_bytes(v)) == v,
    decreases v.len(),
{
    if v.len() > 0 {
        law_embedding_roundtrip(v.drop_last());
        lemma_bytes_len(v.drop_last());
        lemma_bytes_append(embedding_bytes(v.drop_last()), v.last());
        assert(v.drop_last().push(v.last()) == v);
    }
}

/// Embeddings are multiplied component by component: one more of each adds the product
/// of the two. What cannot be compared, because the lengths differ or one has no
/// direction, is not similar, and what points the other way is so by a negative number.
pub proof fn law_dot(a: Seq<i32>, b: Seq<i32>, x: i32, y: i32)
    ensures
        dot(Seq::empty(), Seq::empty()) == 0,
        dot(a.push(x), b.push(y)) == dot(a, b) + x * y,
        a.len() != b.len() ==> similarity(a, b) == 0,
        dot(a, a) == 0 ==> similarity(a, b) == 0,
        dot(a, b) <= 0 ==> similarity(a, b) <= 0,
        dot(a, b) >= 0 ==> similarity(a, b) >= 0,
{
    assert(a.push(x).drop_last() == a);
    assert(b.push(y).drop_last() == b);
    let other = dot(b, b);
    assert(0 * other == 0) by (nonlinear_arith);
    if dot(a, b) == 0 {
        let norms = dot(a, a) * dot(b, b);
        lemma_norms(a, b);
        if norms > 0 {
            assert(0int / norms == 0) by (nonlinear_arith)
                requires
                    norms > 0,
            ;
            assert(0 * 0 * (ONE * ONE) == 0);
            law_root(0);
        }
    }
}

/// An embedding is written component by component, four bytes for each and the least
/// significant first; a negative one as what is missing to two to the power of 32.
pub proof fn law_embedding_bytes(v: Seq<i32>, x: i32)
    ensures
        embedding_bytes(Seq::empty()).len() == 0,
        embedding_bytes(v).len() == 4 * v.len(),
        ({
            let before = embedding_bytes(v);
            let after = embedding_bytes(v.push(x));
            let n = before.len() as int;
            let value = after[n] + 0x100 * after[n + 1] + 0x1_0000 * after[n + 2] + 0x100_0000
                * after[n + 3];
            &&& after.take(n) == before
            &&& x >= 0 ==> value == x
            &&& x < 0 ==> value == x + 0x1_0000_0000
        }),
{
    lemma_bytes_len(v);
    lemma_bytes_len(v.push(x));
    assert(v.push(x).drop_last() == v);
}

} // verus!
