//! Sorting of records by up to four 32-bit keys.

use vstd::multiset::Multiset;
use vstd::prelude::*;
use vstd::seq_lib::to_multiset_build;

verus! {

/// Four keys, the first one the most significant.
pub type Quad = (u32, u32, u32, u32);

/// Every element is at most the elements after it.
pub open spec fn ascending(s: Seq<u128>) -> bool {
    forall|i: int, j: int| 0 <= i < j < s.len() ==> s[i] <= s[j]
}

/// `sort_unstable` of std on a slice of `u128`: afterwards the numbers are
/// in ascending order, and they are the numbers that were there before.
#[verifier::external_body]
fn sort_numbers(numbers: &mut Vec<u128>)
    ensures
        ascending(final(numbers)@),
        final(numbers)@.to_multiset() == old(numbers)@.to_multiset(),
{
    numbers.sort_unstable();
}

/// Two to the power 32.
pub const WORD: u128 = 0x1_0000_0000;

/// The four keys as one number that orders as they do.
pub open spec fn packed(q: Quad) -> u128 {
    (((q.0 as int * WORD + q.1) * WORD + q.2) * WORD + q.3) as u128
}

/// The four keys that a number stands for.
pub open spec fn unpacked(k: u128) -> Quad {
    (
        (k as int / (WORD * WORD * WORD)) as u32,
        ((k as int / (WORD * WORD)) % (WORD as int)) as u32,
        ((k as int / (WORD as int)) % (WORD as int)) as u32,
        (k as int % (WORD as int)) as u32,
    )
}

/// `a` comes before `b`, or is `b`, when the keys are compared one after
/// the other.
pub open spec fn quad_le(a: Quad, b: Quad) -> bool {
    a.0 < b.0 || (a.0 == b.0 && (a.1 < b.1 || (a.1 == b.1 && (a.2 < b.2 || (a.2 == b.2 && a.3
        <= b.3)))))
}

/// Every element comes before the elements after it, or equals them.
pub open spec fn quads_ascending(s: Seq<Quad>) -> bool {
    forall|i: int, j: int| 0 <= i < j < s.len() ==> quad_le(s[i], s[j])
}

/// Packing and unpacking undo each other, and packing keeps the order.
pub proof fn lemma_packed(a: Quad, b: Quad, k: u128)
    ensures
        unpacked(packed(a)) == a,
        packed(unpacked(k)) == k,
        packed(a) <= packed(b) <==> quad_le(a, b),
        packed(a) == (((a.0 as int * WORD + a.1) * WORD + a.2) * WORD + a.3),
{
    let w = WORD as int;
    let hi = (a.0 as int * w + a.1) * w + a.2;
    assert(0 <= hi < w * w * w) by (nonlinear_arith)
        requires
            hi == (a.0 as int * w + a.1) * w + a.2,
            0 <= a.0 < w,
            0 <= a.1 < w,
            0 <= a.2 < w,
            w == 0x1_0000_0000,
    ;
    let pa = hi * w + a.3;
    assert(w * w * w * w == 0x1_0000_0000_0000_0000_0000_0000_0000_0000) by (nonlinear_arith)
        requires
            w == 0x1_0000_0000,
    ;
    assert(0 <= pa < w * w * w * w) by (nonlinear_arith)
        requires
            pa == hi * w + a.3,
            0 <= hi < w * w * w,
            0 <= a.3 < w,
            w == 0x1_0000_0000,
    ;
    lemma_digits(a.0 as int, a.1 as int, a.2 as int, a.3 as int);
    lemma_digits(b.0 as int, b.1 as int, b.2 as int, b.3 as int);
    let u = unpacked(k);
    lemma_digits_of(k as int);
    lemma_digits(u.0 as int, u.1 as int, u.2 as int, u.3 as int);
    lemma_digits_order(a.0 as int, a.1 as int, a.2 as int, a.3 as int, b.0 as int, b.1 as int, b.2 as int, b.3 as int);
}

/// The number made of four digits to the base `WORD`, and its digits.
proof fn lemma_digits(a: int, b: int, c: int, d: int)
    requires
        0 <= a < WORD,
        0 <= b < WORD,
        0 <= c < WORD,
        0 <= d < WORD,
    ensures
        ({
            let n = ((a * WORD + b) * WORD + c) * WORD + d;
            &&& 0 <= n < WORD * WORD * WORD * WORD
            &&& n / (WORD * WORD * WORD) == a
            &&& (n / (WORD * WORD)) % (WORD as int) == b
            &&& (n / (WORD as int)) % (WORD as int) == c
            &&& n % (WORD as int) == d
        }),
{
    let w = WORD as int;
    let n = ((a * w + b) * w + c) * w + d;
    let n1 = (a * w + b) * w + c;
    let n2 = a * w + b;
    vstd::arithmetic::div_mod::lemma_fundamental_div_mod_converse(n, w, n1, d);
    vstd::arithmetic::div_mod::lemma_fundamental_div_mod_converse(n1, w, n2, c);
    vstd::arithmetic::div_mod::lemma_fundamental_div_mod_converse(n2, w, a, b);
    assert(n == n2 * (w * w) + (c * w + d)) by (nonlinear_arith)
        requires
            n == ((n2) * w + c) * w + d,
    ;
    assert(0 <= c * w + d < w * w) by (nonlinear_arith)
        requires
            0 <= c < w,
            0 <= d < w,
    ;
    vstd::arithmetic::div_mod::lemma_fundamental_div_mod_converse(n, w * w, n2, c * w + d);
    assert(n == a * (w * w * w) + ((b * w + c) * w + d)) by (nonlinear_arith)
        requires
            n == ((a * w + b) * w + c) * w + d,
    ;
    assert(0 <= (b * w + c) * w + d < w * w * w) by (nonlinear_arith)
        requires
            0 <= b < w,
            0 <= c < w,
            0 <= d < w,
    ;
    vstd::arithmetic::div_mod::lemma_fundamental_div_mod_converse(n, w * w * w, a, (b * w + c) * w + d);
    assert(n < w * w * w * w) by (nonlinear_arith)
        requires
            n == a * (w * w * w) + ((b * w + c) * w + d),
            0 <= a < w,
            (b * w + c) * w + d < w * w * w,
            w > 0,
    ;
    assert(0 <= n) by (nonlinear_arith)
        requires
            n == a * (w * w * w) + ((b * w + c) * w + d),
            0 <= a,
            0 <= (b * w + c) * w + d,
            w > 0,
    ;
}

/// A number below `WORD` to the fourth is made of its four digits.
proof fn lemma_digits_of(n: int)
    requires
        0 <= n < WORD * WORD * WORD * WORD,
    ensures
        ({
            let a = n / (WORD * WORD * WORD);
            let b = (n / (WORD * WORD)) % (WORD as int);
            let c = (n / (WORD as int)) % (WORD as int);
            let d = n % (WORD as int);
            &&& 0 <= a < WORD
            &&& 0 <= b < WORD
            &&& 0 <= c < WORD
            &&& 0 <= d < WORD
            &&& n == ((a * WORD + b) * WORD + c) * WORD + d
        }),
{
    let w = WORD as int;
    let n1 = n / w;
    let d = n % w;
    let n2 = n1 / w;
    let c = n1 % w;
    let a = n2 / w;
    let b = n2 % w;
    assert(0 <= n1 < w * w * w) by (nonlinear_arith)
        requires
            n1 == n / w,
            0 <= n < w * w * w * w,
            w == 0x1_0000_0000,
    ;
    assert(0 <= n2 < w * w) by (nonlinear_arith)
        requires
            n2 == n1 / w,
            0 <= n1 < w * w * w,
            w == 0x1_0000_0000,
    ;
    assert(0 <= a < w) by (nonlinear_arith)
        requires
            a == n2 / w,
            0 <= n2 < w * w,
            w == 0x1_0000_0000,
    ;
    vstd::arithmetic::div_mod::lemma_fundamental_div_mod(n, w);
    vstd::arithmetic::div_mod::lemma_fundamental_div_mod(n1, w);
    vstd::arithmetic::div_mod::lemma_fundamental_div_mod(n2, w);
    assert(n == ((a * w + b) * w + c) * w + d) by (nonlinear_arith)
        requires
            n == w * n1 + d,
            n1 == w * n2 + c,
            n2 == w * a + b,
    ;
    lemma_digits(a, b, c, d);
}

/// Numbers of four digits compare as their digits do, the first digit first.
proof fn lemma_digits_order(a: int, b: int, c: int, d: int, a2: int, b2: int, c2: int, d2: int)
    requires
        0 <= a < WORD,
        0 <= b < WORD,
        0 <= c < WORD,
        0 <= d < WORD,
        0 <= a2 < WORD,
        0 <= b2 < WORD,
        0 <= c2 < WORD,
        0 <= d2 < WORD,
    ensures
        ((a * WORD + b) * WORD + c) * WORD + d <= ((a2 * WORD + b2) * WORD + c2) * WORD + d2 <==> (a < a2
            || (a == a2 && (b < b2 || (b == b2 && (c < c2 || (c == c2 && d <= d2)))))),
{
    let w = WORD as int;
    lemma_step_order(a, b, a2, b2);
    let n2 = a * w + b;
    let m2 = a2 * w + b2;
    assert(0 <= n2 && 0 <= m2) by (nonlinear_arith)
        requires
            n2 == a * w + b,
            m2 == a2 * w + b2,
            0 <= a,
            0 <= b,
            0 <= a2,
            0 <= b2,
            w > 0,
    ;
    lemma_step_order(n2, c, m2, c2);
    let n1 = n2 * w + c;
    let m1 = m2 * w + c2;
    assert(0 <= n1 && 0 <= m1) by (nonlinear_arith)
        requires
            n1 == n2 * w + c,
            m1 == m2 * w + c2,
            0 <= n2,
            0 <= c,
            0 <= m2,
            0 <= c2,
            w > 0,
    ;
    lemma_step_order(n1, d, m1, d2);
}

/// A number with one more digit compares by what precedes the digit first.
proof fn lemma_step_order(hi: int, lo: int, hi2: int, lo2: int)
    requires
        0 <= lo < WORD,
        0 <= lo2 < WORD,
    ensures
        hi * WORD + lo <= hi2 * WORD + lo2 <==> (hi < hi2 || (hi == hi2 && lo <= lo2)),
        hi * WORD + lo == hi2 * WORD + lo2 <==> (hi == hi2 && lo == lo2),
{
    let w = WORD as int;
    if hi < hi2 {
        assert(hi * w + w <= hi2 * w) by (nonlinear_arith)
            requires
                hi + 1 <= hi2,
                w > 0,
        ;
    } else if hi > hi2 {
        assert(hi2 * w + w <= hi * w) by (nonlinear_arith)
            requires
                hi2 + 1 <= hi,
                w > 0,
        ;
    }
}

/// Packs four keys into one number.
pub fn pack(q: Quad) -> (k: u128)
    ensures
        k == packed(q),
{
    proof {
        lemma_digits(q.0 as int, q.1 as int, q.2 as int, q.3 as int);
        let w = WORD as int;
        let n2 = q.0 as int * w + q.1;
        let n1 = n2 * w + q.2;
        assert(0 <= n2 < w * w && 0 <= n1 < w * w * w) by (nonlinear_arith)
            requires
                n2 == q.0 as int * w + q.1,
                n1 == n2 * w + q.2,
                0 <= q.0 < w,
                0 <= q.1 < w,
                0 <= q.2 < w,
                w == 0x1_0000_0000,
        ;
        assert(w * w == 0x1_0000_0000_0000_0000 && w * w * w == 0x1_0000_0000_0000_0000_0000_0000
            && w * w * w * w == 0x1_0000_0000_0000_0000_0000_0000_0000_0000) by (nonlinear_arith)
            requires
                w == 0x1_0000_0000,
        ;
    }
    ((q.0 as u128 * WORD + q.1 as u128) * WORD + q.2 as u128) * WORD + q.3 as u128
}

/// Unpacks the four keys of a number.
pub fn unpack(k: u128) -> (q: Quad)
    ensures
        q == unpacked(k),
{
    proof {
        let w = WORD as int;
        assert(w * w == 0x1_0000_0000_0000_0000 && w * w * w == 0x1_0000_0000_0000_0000_0000_0000
            && w * w * w * w == 0x1_0000_0000_0000_0000_0000_0000_0000_0000) by (nonlinear_arith)
            requires
                w == 0x1_0000_0000,
        ;
        lemma_digits_of(k as int);
    }
    (
        (k / 0x1_0000_0000_0000_0000_0000_0000u128) as u32,
        ((k / 0x1_0000_0000_0000_0000u128) % WORD) as u32,
        ((k / WORD) % WORD) as u32,
        (k % WORD) as u32,
    )
}

/// Where `f` maps different elements to different images, the image of
/// `x` occurs among the images of the elements of `s` as often as `x` occurs
/// in `s`.
pub proof fn lemma_mapped_count<A, B>(s: Seq<A>, f: spec_fn(A) -> B, x: A)
    requires
        forall|a: A, b: A| #[trigger] f(a) == #[trigger] f(b) ==> a == b,
    ensures
        s.map_values(f).to_multiset().count(f(x)) == s.to_multiset().count(x),
    decreases s.len(),
{
    broadcast use to_multiset_build;

    if s.len() == 0 {
        assert(s.map_values(f) =~= Seq::<B>::empty());
        assert(s =~= Seq::<A>::empty());
        s.to_multiset_ensures();
        s.map_values(f).to_multiset_ensures();
        if s.to_multiset().count(x) > 0 {
            assert(s.to_multiset().contains(x));
        }
        if s.map_values(f).to_multiset().count(f(x)) > 0 {
            assert(s.map_values(f).to_multiset().contains(f(x)));
        }
    } else {
        let t = s.drop_last();
        let a = s.last();
        lemma_mapped_count(t, f, x);
        assert(s =~= t.push(a));
        assert(s.map_values(f) =~= t.map_values(f).push(f(a)));
    }
}

/// Where `f` maps different elements to different images, two sequences
/// whose images make up the same multiset make up the same multiset.
pub proof fn lemma_mapped_multiset<A, B>(s: Seq<A>, t: Seq<A>, f: spec_fn(A) -> B)
    requires
        forall|a: A, b: A| #[trigger] f(a) == #[trigger] f(b) ==> a == b,
        s.map_values(f).to_multiset() == t.map_values(f).to_multiset(),
    ensures
        s.to_multiset() == t.to_multiset(),
{
    assert forall|x: A| s.to_multiset().count(x) == t.to_multiset().count(x) by {
        lemma_mapped_count(s, f, x);
        lemma_mapped_count(t, f, x);
    }
    assert(s.to_multiset() =~= t.to_multiset());
}

/// Sorts records of four keys into ascending order, the first key deciding
/// first. The records afterwards are the records that were there before.
pub fn sort_quads(items: &mut Vec<Quad>)
    ensures
        quads_ascending(final(items)@),
        final(items)@.to_multiset() == old(items)@.to_multiset(),
        final(items)@.len() == old(items)@.len(),
{
    let ghost f = |q: Quad| packed(q);
    let ghost g = |k: u128| unpacked(k);
    let mut numbers: Vec<u128> = Vec::new();
    let mut i: usize = 0;
    while i < items.len()
        invariant
            i <= items.len(),
            items@ == old(items)@,
            numbers@.len() == i,
            forall|k: int| 0 <= k < i ==> numbers@[k] == packed(#[trigger] items@[k]),
        decreases items.len() - i,
    {
        numbers.push(pack(items[i]));
        i += 1;
    }
    let ghost unsorted = numbers@;
    assert(unsorted =~= old(items)@.map_values(f));
    sort_numbers(&mut numbers);
    let ghost sorted = numbers@;
    items.clear();
    let mut j: usize = 0;
    while j < numbers.len()
        invariant
            j <= numbers.len(),
            numbers@ == sorted,
            items@.len() == j,
            forall|k: int| 0 <= k < j ==> items@[k] == unpacked(#[trigger] sorted[k]),
        decreases numbers.len() - j,
    {
        items.push(unpack(numbers[j]));
        j += 1;
    }
    proof {
        assert(items@ =~= sorted.map_values(g));
        assert forall|a: Quad, b: Quad| #[trigger] f(a) == #[trigger] f(b) implies a == b by {
            lemma_packed(a, a, 0);
            lemma_packed(b, b, 0);
        }
        assert(items@.map_values(f) =~= sorted) by {
            assert forall|k: int| 0 <= k < sorted.len() implies f(items@[k]) == sorted[k] by {
                lemma_packed((0, 0, 0, 0), (0, 0, 0, 0), sorted[k]);
            }
        }
        lemma_mapped_multiset(items@, old(items)@, f);
        assert forall|a: int, b: int| 0 <= a < b < items@.len() implies quad_le(items@[a], items@[b]) by {
            lemma_packed(items@[a], items@[b], sorted[a]);
            lemma_packed(items@[a], items@[b], sorted[b]);
        }
        sorted.to_multiset_ensures();
        unsorted.to_multiset_ensures();
    }
}

} // verus!
