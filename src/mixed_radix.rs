//! Mixed-radix numbering of a block's state fields: an assignment of value
//! indices to fields as one integer, and back.

use vstd::prelude::*;

verus! {

/// Number of states of a schema whose fields have radices `r`: their product
/// (one state for an empty schema).
pub open spec fn radix_product(r: Seq<u32>) -> nat
    decreases r.len(),
{
    if r.len() == 0 {
        1
    } else {
        r[0] as nat * radix_product(r.drop_first())
    }
}

/// Every field has at least one value.
pub open spec fn radices_valid(r: Seq<u32>) -> bool {
    forall|i: int| 0 <= i < r.len() ==> r[i] >= 1
}

/// `v` assigns each field of `r` a value index inside its domain.
pub open spec fn in_domain(r: Seq<u32>, v: Seq<u32>) -> bool {
    &&& v.len() == r.len()
    &&& forall|i: int| 0 <= i < r.len() ==> v[i] < r[i]
}

/// Positional weight of field `i`: the product of the radices declared after
/// it, so that the last declared field varies fastest.
pub open spec fn field_offset(r: Seq<u32>, i: int) -> nat {
    radix_product(r.skip(i + 1))
}

/// Mixed-radix value of the assignment `v`: the sum of each value index times
/// its field's positional weight, the first field weighing the most.
pub open spec fn mixed_encode(r: Seq<u32>, v: Seq<u32>) -> nat
    decreases r.len(),
{
    if r.len() == 0 || v.len() == 0 {
        0
    } else {
        v[0] as nat * radix_product(r.drop_first()) + mixed_encode(r.drop_first(), v.drop_first())
    }
}

/// The assignment whose mixed-radix value is `x`: the first field's value
/// index is the quotient by the weight of the rest, and the rest decodes the
/// remainder.
pub open spec fn mixed_decode(r: Seq<u32>, x: nat) -> Seq<u32>
    decreases r.len(),
{
    if r.len() == 0 {
        seq![]
    } else {
        let p = radix_product(r.drop_first());
        if p == 0 {
            seq![0u32] + mixed_decode(r.drop_first(), 0)
        } else {
            seq![(x / p) as u32] + mixed_decode(r.drop_first(), x % p)
        }
    }
}

pub proof fn lemma_decode_len(r: Seq<u32>, x: nat)
    ensures
        mixed_decode(r, x).len() == r.len(),
    decreases r.len(),
{
    if r.len() > 0 {
        let p = radix_product(r.drop_first());
        lemma_decode_len(r.drop_first(), 0);
        if p != 0 {
            lemma_decode_len(r.drop_first(), x % p);
        }
    }
}

pub proof fn lemma_radix_product_positive(r: Seq<u32>)
    requires
        radices_valid(r),
    ensures
        radix_product(r) >= 1,
    decreases r.len(),
{
    if r.len() > 0 {
        lemma_radix_product_positive(r.drop_first());
        let p = radix_product(r.drop_first());
        let h = r[0] as nat;
        assert(h * p >= 1) by (nonlinear_arith)
            requires
                h >= 1,
                p >= 1,
        ;
    }
}

/// The radices after position `i` multiply to no more than all of them.
pub proof fn lemma_radix_product_skip(r: Seq<u32>, i: int)
    requires
        radices_valid(r),
        0 <= i <= r.len(),
    ensures
        radix_product(r.skip(i)) <= radix_product(r),
    decreases i,
{
    if i == 0 {
        assert(r.skip(0) =~= r);
    } else {
        assert(r.drop_first().skip(i - 1) =~= r.skip(i));
        assert(radices_valid(r.drop_first()));
        lemma_radix_product_skip(r.drop_first(), i - 1);
        lemma_radix_product_positive(r.drop_first());
        let p = radix_product(r.drop_first());
        let h = r[0] as nat;
        assert(radix_product(r) == h * p);
        assert(p <= h * p) by (nonlinear_arith)
            requires
                h >= 1,
        ;
    }
}

/// An assignment inside the domain encodes below the number of states.
pub proof fn lemma_encode_bound(r: Seq<u32>, v: Seq<u32>)
    requires
        in_domain(r, v),
    ensures
        mixed_encode(r, v) < radix_product(r),
    decreases r.len(),
{
    if r.len() > 0 {
        lemma_encode_bound(r.drop_first(), v.drop_first());
        let e = mixed_encode(r.drop_first(), v.drop_first());
        let p = radix_product(r.drop_first());
        let h = r[0] as nat;
        let a = v[0] as nat;
        assert(a * p + e < h * p) by (nonlinear_arith)
            requires
                a < h,
                e < p,
        ;
    }
}

/// Decoding an encoded assignment inside the domain gives it back.
pub proof fn lemma_decode_encode(r: Seq<u32>, v: Seq<u32>)
    requires
        in_domain(r, v),
    ensures
        mixed_decode(r, mixed_encode(r, v)) == v,
    decreases r.len(),
{
    if r.len() > 0 {
        let e = mixed_encode(r.drop_first(), v.drop_first());
        let p = radix_product(r.drop_first());
        let a = v[0] as nat;
        let x = a * p + e;
        lemma_encode_bound(r.drop_first(), v.drop_first());
        assert(x / p == a && x % p == e) by {
            vstd::arithmetic::div_mod::lemma_fundamental_div_mod_converse(
                x as int,
                p as int,
                a as int,
                e as int,
            );
        }
        lemma_decode_encode(r.drop_first(), v.drop_first());
        assert(mixed_decode(r, x) =~= v);
    } else {
        assert(mixed_decode(r, mixed_encode(r, v)) =~= v);
    }
}

/// Every value below the number of states decodes to an assignment inside the
/// domain that encodes back to it.
pub proof fn lemma_encode_decode(r: Seq<u32>, x: nat)
    requires
        radices_valid(r),
        x < radix_product(r),
    ensures
        in_domain(r, mixed_decode(r, x)),
        mixed_encode(r, mixed_decode(r, x)) == x,
    decreases r.len(),
{
    if r.len() > 0 {
        let h = r[0] as nat;
        let rest = r.drop_first();
        assert(radices_valid(rest));
        lemma_radix_product_positive(rest);
        let p = radix_product(rest);
        assert(x / p < h && x % p < p && x == (x / p) * p + x % p) by {
            vstd::arithmetic::div_mod::lemma_fundamental_div_mod(x as int, p as int);
            vstd::arithmetic::div_mod::lemma_mod_pos_bound(x as int, p as int);
            assert(x / p < h) by (nonlinear_arith)
                requires
                    x < h * p,
                    p >= 1,
                    x == p * (x / p) + x % p,
                    x % p >= 0,
            ;
        }
        lemma_encode_decode(rest, x % p);
        let d = mixed_decode(r, x);
        assert(d.drop_first() =~= mixed_decode(rest, x % p));
        assert(d[0] as nat == x / p);
    }
}

/// The product of the radices splits at any position.
pub proof fn lemma_radix_product_split(r: Seq<u32>, k: int)
    requires
        0 <= k <= r.len(),
    ensures
        radix_product(r) == radix_product(r.take(k)) * radix_product(r.skip(k)),
    decreases k,
{
    if k == 0 {
        assert(r.take(0) =~= Seq::<u32>::empty());
        assert(r.skip(0) =~= r);
    } else {
        lemma_radix_product_split(r.drop_first(), k - 1);
        assert(r.take(k).drop_first() =~= r.drop_first().take(k - 1));
        assert(r.drop_first().skip(k - 1) =~= r.skip(k));
        let h = r[0] as nat;
        let a = radix_product(r.drop_first().take(k - 1));
        let b = radix_product(r.skip(k));
        assert(h * (a * b) == (h * a) * b) by (nonlinear_arith);
    }
}

/// The value index of field `i` in the decoding of `x` is `(x / offset_i) % r[i]`.
pub proof fn lemma_field_value(r: Seq<u32>, x: nat, i: int)
    requires
        radices_valid(r),
        x < radix_product(r),
        0 <= i < r.len(),
    ensures
        mixed_decode(r, x)[i] as nat == (x / field_offset(r, i)) % (r[i] as nat),
        field_offset(r, i) >= 1,
    decreases i,
{
    let h = r[0] as nat;
    let rest = r.drop_first();
    assert(radices_valid(rest));
    lemma_radix_product_positive(rest);
    let p = radix_product(rest);
    lemma_decode_len(r, x);
    lemma_decode_len(rest, x % p);
    assert(mixed_decode(r, x) == seq![(x / p) as u32] + mixed_decode(rest, x % p));
    assert(r.skip(i + 1) =~= rest.skip(i));
    if i == 0 {
        assert(rest.skip(0) =~= rest);
        assert(x / p < h) by {
            vstd::arithmetic::div_mod::lemma_fundamental_div_mod(x as int, p as int);
            vstd::arithmetic::div_mod::lemma_mod_pos_bound(x as int, p as int);
            assert(x / p < h) by (nonlinear_arith)
                requires
                    x < h * p,
                    p >= 1,
                    x == p * (x / p) + x % p,
                    x % p >= 0,
            ;
        }
        vstd::arithmetic::div_mod::lemma_small_mod(x / p, h);
    } else {
        let y = x % p;
        assert(y < p) by {
            vstd::arithmetic::div_mod::lemma_mod_pos_bound(x as int, p as int);
        }
        assert(mixed_decode(r, x)[i] == mixed_decode(rest, y)[i - 1]);
        lemma_field_value(rest, y, i - 1);
        let o = field_offset(rest, i - 1);
        assert(field_offset(r, i) == o);
        let m = r[i] as nat;
        // p = (radices of rest before field i) * r[i] * o
        lemma_radix_product_split(rest, i - 1);
        let c = radix_product(rest.take(i - 1));
        let tail = rest.skip(i - 1);
        assert(tail.drop_first() =~= rest.skip(i));
        assert(tail[0] == r[i]);
        assert(radix_product(tail) == m * o);
        let k = m * c;
        assert(p == o * k) by (nonlinear_arith)
            requires
                p == c * (m * o),
                k == m * c,
        ;
        lemma_radix_product_positive(rest.take(i - 1));
        assert(o >= 1 && m >= 1 && c >= 1);
        assert(k >= 1) by (nonlinear_arith)
            requires
                m >= 1,
                c >= 1,
                k == m * c,
        ;
        // y / o == (x / o) % k
        vstd::arithmetic::div_mod::lemma_mod_breakdown(x as int, o as int, k as int);
        let z = (x / o) % k;
        assert(y == o * z + x % o);
        vstd::arithmetic::div_mod::lemma_mod_pos_bound(x as int, o as int);
        vstd::arithmetic::div_mod::lemma_mod_pos_bound((x / o) as int, k as int);
        vstd::arithmetic::div_mod::lemma_fundamental_div_mod_converse(
            y as int,
            o as int,
            z as int,
            (x % o) as int,
        );
        // ((x / o) % (m * c)) % m == (x / o) % m
        vstd::arithmetic::div_mod::lemma_mod_mod((x / o) as int, m as int, c as int);
    }
}

/// Replacing the value index of field `i` by `n` moves the encoding by
/// `(n - v[i]) * offset_i`.
pub proof fn lemma_encode_update(r: Seq<u32>, v: Seq<u32>, i: int, n: u32)
    requires
        in_domain(r, v),
        0 <= i < r.len(),
    ensures
        mixed_encode(r, v.update(i, n)) + v[i] as nat * field_offset(r, i) == mixed_encode(r, v)
            + n as nat * field_offset(r, i),
    decreases i,
{
    let w = v.update(i, n);
    let p = radix_product(r.drop_first());
    assert(r.skip(i + 1) =~= r.drop_first().skip(i));
    assert(mixed_encode(r, w) == w[0] as nat * p + mixed_encode(r.drop_first(), w.drop_first()));
    assert(mixed_encode(r, v) == v[0] as nat * p + mixed_encode(r.drop_first(), v.drop_first()));
    if i == 0 {
        assert(r.drop_first().skip(0) =~= r.drop_first());
        assert(w.drop_first() =~= v.drop_first());
        assert(w[0] == n);
    } else {
        assert(w.drop_first() =~= v.drop_first().update(i - 1, n));
        assert(w[0] == v[0]);
        lemma_encode_update(r.drop_first(), v.drop_first(), i - 1, n);
    }
}

/// Single-field update in place: the current value index of field `i` comes out
/// of `x` by the extraction formula, and swapping its contribution for `n`'s
/// gives the encoding of the decoded assignment with field `i` set to `n`,
/// which stays below the number of states.
pub proof fn lemma_field_update(r: Seq<u32>, x: nat, i: int, n: u32)
    requires
        radices_valid(r),
        x < radix_product(r),
        0 <= i < r.len(),
        n < r[i],
    ensures
        ({
            let off = field_offset(r, i);
            let cur = (x / off) % (r[i] as nat);
            &&& cur == mixed_decode(r, x)[i] as nat
            &&& cur * off <= x
            &&& x - cur * off + n * off == mixed_encode(r, mixed_decode(r, x).update(i, n))
            &&& x - cur * off + n * off < radix_product(r)
        }),
{
    let off = field_offset(r, i);
    let d = mixed_decode(r, x);
    lemma_encode_decode(r, x);
    lemma_field_value(r, x, i);
    lemma_encode_update(r, d, i, n);
    let w = d.update(i, n);
    assert(in_domain(r, w));
    lemma_encode_bound(r, w);
    let q = x / off;
    let h = r[i] as nat;
    assert(q * off <= x) by {
        vstd::arithmetic::div_mod::lemma_fundamental_div_mod(x as int, off as int);
        vstd::arithmetic::div_mod::lemma_mod_pos_bound(x as int, off as int);
    }
    assert(q % h <= q) by {
        vstd::arithmetic::div_mod::lemma_mod_decreases(q, h);
    }
    vstd::arithmetic::mul::lemma_mul_inequality((q % h) as int, q as int, off as int);
}

} // verus!
