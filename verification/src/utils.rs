//! Big-endian byte addition: the primitive that merges two digests before
//! they are re-hashed into a parent digest.

use vstd::arithmetic::div_mod::lemma_fundamental_div_mod;
use vstd::arithmetic::div_mod::lemma_fundamental_div_mod_converse_div;
use vstd::arithmetic::div_mod::lemma_fundamental_div_mod_converse_mod;
use vstd::prelude::*;

verus! {

/// 256 raised to `w`: the number of values a big-endian byte string of
/// width `w` can denote.
pub open spec fn pow256(w: nat) -> nat
    decreases w,
{
    if w == 0 {
        1
    } else {
        256 * pow256((w - 1) as nat)
    }
}

/// The non-negative integer denoted by `s`, read as a big-endian byte string.
pub open spec fn be_val(s: Seq<u8>) -> nat
    decreases s.len(),
{
    if s.len() == 0 {
        0
    } else {
        be_val(s.drop_last()) * 256 + (s.last() as nat)
    }
}

/// The big-endian byte string of width `w` denoting `v` (low bytes of `v`
/// if it does not fit).
pub open spec fn be_enc(v: nat, w: nat) -> Seq<u8>
    decreases w,
{
    if w == 0 {
        Seq::empty()
    } else {
        be_enc(v / 256, (w - 1) as nat).push((v % 256) as u8)
    }
}

/// The byte `i` positions from the right end of `s`; zero past the left end.
pub open spec fn ext_byte(s: Seq<u8>, i: nat) -> u8 {
    if i < s.len() {
        s[s.len() - 1 - i]
    } else {
        0
    }
}

/// The value of the `k` rightmost byte positions of `s` (positions past the
/// left end count as zero).
pub open spec fn low_val(s: Seq<u8>, k: nat) -> nat
    decreases k,
{
    if k == 0 {
        0
    } else {
        (ext_byte(s, (k - 1) as nat) as nat) * pow256((k - 1) as nat) + low_val(
            s,
            (k - 1) as nat,
        )
    }
}

/// The width of the wider of two byte strings.
pub open spec fn max_len(a: Seq<u8>, b: Seq<u8>) -> nat {
    if a.len() >= b.len() {
        a.len()
    } else {
        b.len()
    }
}

/// The big-endian sum of `a` and `b`: both are read as big-endian unsigned
/// integers, the shorter one implicitly zero-extended on its most-significant
/// side; a final carry prepends one extra byte to the result.
pub open spec fn combined(a: Seq<u8>, b: Seq<u8>) -> Seq<u8> {
    let s: nat = be_val(a) + be_val(b);
    if s < pow256(max_len(a, b)) {
        be_enc(s, max_len(a, b))
    } else {
        be_enc(s, max_len(a, b) + 1)
    }
}

pub proof fn lemma_pow256_pos(w: nat)
    ensures
        pow256(w) >= 1,
    decreases w,
{
    if w > 0 {
        lemma_pow256_pos((w - 1) as nat);
    }
}

pub proof fn lemma_pow256_mono(w1: nat, w2: nat)
    requires
        w1 <= w2,
    ensures
        pow256(w1) <= pow256(w2),
    decreases w2,
{
    if w1 < w2 {
        lemma_pow256_mono(w1, (w2 - 1) as nat);
        lemma_pow256_pos((w2 - 1) as nat);
    }
}

/// A big-endian byte string of width `w` denotes a value below 256^w.
pub proof fn lemma_be_val_bound(s: Seq<u8>)
    ensures
        be_val(s) < pow256(s.len()),
    decreases s.len(),
{
    if s.len() > 0 {
        lemma_be_val_bound(s.drop_last());
        let p: nat = pow256((s.len() - 1) as nat);
        lemma_pow256_pos((s.len() - 1) as nat);
        assert(be_val(s.drop_last()) * 256 <= (p - 1) * 256) by (nonlinear_arith)
            requires
                be_val(s.drop_last()) < p,
                p >= 1,
        ;
    }
}

/// Prepending a byte raises the value by that byte times the place value of
/// the old width.
proof fn lemma_be_val_prepend(x: u8, t: Seq<u8>)
    ensures
        be_val(seq![x] + t) == (x as nat) * pow256(t.len()) + be_val(t),
    decreases t.len(),
{
    let u = seq![x] + t;
    if t.len() == 0 {
        assert(u =~= seq![x]);
        assert(u.drop_last() =~= Seq::<u8>::empty());
        assert(be_val(u.drop_last()) == 0);
        assert(u.last() == x);
        assert(be_val(u) == x);
        assert(pow256(t.len()) == 1);
        assert(be_val(t) == 0);
    } else {
        assert(u.drop_last() =~= seq![x] + t.drop_last());
        assert(u.last() == t.last());
        lemma_be_val_prepend(x, t.drop_last());
        let p: nat = pow256((t.len() - 1) as nat);
        let q: nat = be_val(t.drop_last());
        assert(((x as nat) * p + q) * 256 == (x as nat) * (256 * p) + q * 256)
            by (nonlinear_arith);
        assert(pow256(t.len()) == 256 * p);
        assert(be_val(u) == be_val(u.drop_last()) * 256 + (u.last() as nat));
        assert(be_val(u.drop_last()) == (x as nat) * p + q);
        assert(be_val(u) == ((x as nat) * p + q) * 256 + (t.last() as nat));
        assert(be_val(u) == (x as nat) * pow256(t.len()) + q * 256 + (t.last() as nat));
        assert(be_val(t) == q * 256 + (t.last() as nat));
    }
}

/// For `k` within `s`, the low-`k` value is the value of the `k`-byte suffix.
proof fn lemma_low_val_le(s: Seq<u8>, k: nat)
    requires
        k <= s.len(),
    ensures
        low_val(s, k) == be_val(s.skip(s.len() - k)),
    decreases k,
{
    if k == 0 {
        assert(s.skip(s.len() as int) =~= Seq::<u8>::empty());
    } else {
        lemma_low_val_le(s, (k - 1) as nat);
        let tail = s.skip(s.len() - (k - 1));
        assert(s.skip(s.len() - k) =~= seq![s[s.len() - k]] + tail);
        lemma_be_val_prepend(s[s.len() - k], tail);
        assert(s[s.len() - k] == ext_byte(s, (k - 1) as nat));
    }
}

/// Once `k` covers the whole of `s`, the low-`k` value is the full value.
proof fn lemma_low_val_full(s: Seq<u8>, k: nat)
    requires
        k >= s.len(),
    ensures
        low_val(s, k) == be_val(s),
    decreases k,
{
    if k == s.len() {
        lemma_low_val_le(s, k);
        assert(s.skip(0) =~= s);
    } else {
        lemma_low_val_full(s, (k - 1) as nat);
        assert(ext_byte(s, (k - 1) as nat) == 0);
        assert(low_val(s, k) == (ext_byte(s, (k - 1) as nat) as nat) * pow256((k - 1) as nat)
            + low_val(s, (k - 1) as nat));
    }
}

proof fn lemma_be_enc_len(v: nat, w: nat)
    ensures
        be_enc(v, w).len() == w,
    decreases w,
{
    if w > 0 {
        lemma_be_enc_len(v / 256, (w - 1) as nat);
    }
}

/// Encoding a string's own value at its own width gives the string back:
/// a big-endian byte string is determined by its width and its value.
proof fn lemma_be_enc_of_val(r: Seq<u8>)
    ensures
        be_enc(be_val(r), r.len()) == r,
    decreases r.len(),
{
    if r.len() == 0 {
        assert(be_enc(0, 0) =~= r);
    } else {
        let v: nat = be_val(r);
        let q: nat = be_val(r.drop_last());
        assert(v == q * 256 + (r.last() as nat));
        lemma_fundamental_div_mod_converse_div(v as int, 256, q as int, r.last() as int);
        lemma_fundamental_div_mod_converse_mod(v as int, 256, q as int, r.last() as int);
        lemma_be_enc_of_val(r.drop_last());
        assert(be_enc(v, r.len()) =~= r.drop_last().push(r.last()));
        assert(r.drop_last().push(r.last()) =~= r);
    }
}

/// The value of an in-range encoding is the encoded value.
proof fn lemma_be_enc_val(v: nat, w: nat)
    requires
        v < pow256(w),
    ensures
        be_val(be_enc(v, w)) == v,
    decreases w,
{
    if w == 0 {
        assert(v == 0);
    } else {
        let p: nat = pow256((w - 1) as nat);
        lemma_pow256_pos((w - 1) as nat);
        assert(v / 256 < p) by (nonlinear_arith)
            requires
                v < 256 * p,
                p >= 1,
        ;
        lemma_be_enc_val(v / 256, (w - 1) as nat);
        let e = be_enc(v / 256, (w - 1) as nat).push((v % 256) as u8);
        assert(e.drop_last() =~= be_enc(v / 256, (w - 1) as nat));
        lemma_fundamental_div_mod(v as int, 256);
    }
}

/// An encoding one byte wider than needed, of a value in [256^w, 2*256^w),
/// starts with a 1 byte.
proof fn lemma_be_enc_lead1(v: nat, w: nat)
    requires
        pow256(w) <= v < 2 * pow256(w),
    ensures
        be_enc(v, w + 1)[0] == 1,
    decreases w,
{
    if w == 0 {
        assert(v == 1);
        lemma_fundamental_div_mod_converse_div(1, 256, 0, 1);
        lemma_fundamental_div_mod_converse_mod(1, 256, 0, 1);
        assert(be_enc(v, 1) =~= be_enc(0, 0).push(1u8));
        assert(be_enc(v, 1)[0] == 1);
    } else {
        let p: nat = pow256((w - 1) as nat);
        lemma_pow256_pos((w - 1) as nat);
        assert(pow256(w) == 256 * p);
        assert(p <= v / 256 < 2 * p) by (nonlinear_arith)
            requires
                256 * p <= v < 2 * (256 * p),
                p >= 1,
        ;
        lemma_be_enc_lead1(v / 256, (w - 1) as nat);
        lemma_be_enc_len(v / 256, w);
        assert(be_enc(v, w + 1)[0] == be_enc(v / 256, w)[0]);
    }
}

/// The value of a non-empty string splits at its most significant byte.
pub proof fn lemma_be_val_front(s: Seq<u8>)
    requires
        s.len() >= 1,
    ensures
        be_val(s) == (s[0] as nat) * pow256((s.len() - 1) as nat) + be_val(s.skip(1)),
{
    assert(s =~= seq![s[0]] + s.skip(1));
    lemma_be_val_prepend(s[0], s.skip(1));
}

/// Two equally long big-endian strings that agree up to position `k` and
/// differ there are ordered by their bytes at `k`.
pub proof fn lemma_be_val_prefix_lt(a: Seq<u8>, b: Seq<u8>, k: int)
    requires
        a.len() == b.len(),
        0 <= k < a.len(),
        forall|j: int| 0 <= j < k ==> a[j] == b[j],
        a[k] < b[k],
    ensures
        be_val(a) < be_val(b),
    decreases k,
{
    lemma_be_val_front(a);
    lemma_be_val_front(b);
    let p: nat = pow256((a.len() - 1) as nat);
    if k == 0 {
        lemma_be_val_bound(a.skip(1));
        assert(a.skip(1).len() == a.len() - 1);
        assert((a[0] as nat) * p + p == ((a[0] as nat) + 1) * p) by (nonlinear_arith);
        assert(((a[0] as nat) + 1) * p <= (b[0] as nat) * p) by (nonlinear_arith)
            requires
                (a[0] as nat) + 1 <= (b[0] as nat),
                p >= 0,
        ;
        lemma_be_val_bound(b.skip(1));
    } else {
        assert(a[0] == b[0]);
        assert(forall|j: int| 0 <= j < k - 1 ==> a.skip(1)[j] == b.skip(1)[j]);
        assert(a.skip(1)[k - 1] == a[k] && b.skip(1)[k - 1] == b[k]);
        lemma_be_val_prefix_lt(a.skip(1), b.skip(1), k - 1);
    }
}

/// The big-endian sum does not depend on the order of its operands.
pub proof fn lemma_combined_commutative(a: Seq<u8>, b: Seq<u8>)
    ensures
        combined(a, b) == combined(b, a),
{
}

/// The big-endian sum denotes exactly the sum of the values its operands
/// denote; it is as wide as the wider operand, except that a final carry
/// adds one leading byte with value 1.
pub proof fn lemma_combined_adds(a: Seq<u8>, b: Seq<u8>)
    ensures
        be_val(combined(a, b)) == be_val(a) + be_val(b),
        be_val(a) + be_val(b) < pow256(max_len(a, b)) ==> combined(a, b).len() == max_len(a, b),
        be_val(a) + be_val(b) >= pow256(max_len(a, b)) ==> combined(a, b).len() == max_len(a, b)
            + 1 && combined(a, b)[0] == 1,
{
    let w: nat = max_len(a, b);
    let s: nat = be_val(a) + be_val(b);
    lemma_be_val_bound(a);
    lemma_be_val_bound(b);
    lemma_pow256_mono(a.len(), w);
    lemma_pow256_mono(b.len(), w);
    lemma_be_enc_len(s, w);
    lemma_be_enc_len(s, w + 1);
    if s >= pow256(w) {
        assert(s < 2 * pow256(w));
        lemma_pow256_pos(w);
        assert(2 * pow256(w) <= 256 * pow256(w));
        lemma_be_enc_val(s, w + 1);
        lemma_be_enc_lead1(s, w);
    } else {
        lemma_be_enc_val(s, w);
    }
}

/// Adds two byte strings as big-endian unsigned integers, walking from the
/// least-significant end with a carry; a final carry prepends a 1 byte.
pub fn hash_adder(left: Vec<u8>, right: Vec<u8>) -> (res: Vec<u8>)
    ensures
        res@ == combined(left@, right@),
{
    proof {
        lemma_combined_commutative(left@, right@);
    }
    let (big, small) = if right.len() > left.len() {
        (right, left)
    } else {
        (left, right)
    };
    let ghost a = big@;
    let ghost b = small@;
    let mut res: Vec<u8> = Vec::new();
    let mut carry: bool = false;
    let mut i: usize = 0;
    while i < big.len()
        invariant
            big@ == a,
            small@ == b,
            b.len() <= a.len(),
            i <= a.len(),
            res@.len() == i,
            be_val(res@) + (if carry {
                pow256(i as nat)
            } else {
                0
            }) == low_val(a, i as nat) + low_val(b, i as nat),
        decreases a.len() - i,
    {
        let v: u8 = big[big.len() - 1 - i];
        let r_byte: u8 = if i < small.len() {
            small[small.len() - 1 - i]
        } else {
            0u8
        };
        let c: u16 = if carry {
            1
        } else {
            0
        };
        let sum: u16 = v as u16 + r_byte as u16 + c;
        let digit: u8 = (sum % 256) as u8;
        let new_carry: bool = sum >= 256;
        proof {
            let p: nat = pow256(i as nat);
            let cv: nat = if carry {
                1
            } else {
                0
            };
            let cv2: nat = if new_carry {
                1
            } else {
                0
            };
            assert(v == ext_byte(a, i as nat));
            assert(r_byte == ext_byte(b, i as nat));
            assert(sum < 512);
            assert(digit + 256 * cv2 == v + r_byte + cv);
            assert((digit as nat) * p + cv2 * (256 * p) == (v as nat) * p + (r_byte as nat) * p
                + cv * p) by (nonlinear_arith)
                requires
                    digit + 256 * cv2 == v + r_byte + cv,
            ;
            lemma_be_val_prepend(digit, res@);
            assert(pow256((i + 1) as nat) == 256 * p);
            assert(low_val(a, (i + 1) as nat) == (ext_byte(a, i as nat) as nat) * p + low_val(
                a,
                i as nat,
            ));
            assert(low_val(b, (i + 1) as nat) == (ext_byte(b, i as nat) as nat) * p + low_val(
                b,
                i as nat,
            ));
            assert(cv * p == (if carry {
                pow256(i as nat)
            } else {
                0
            }));
            assert(cv2 * (256 * p) == cv2 * pow256((i + 1) as nat));
            assert(cv2 * pow256((i + 1) as nat) == (if new_carry {
                pow256((i + 1) as nat)
            } else {
                0
            }));
            assert(be_val(seq![digit] + res@) == (digit as nat) * p + be_val(res@));
            assert(be_val(seq![digit] + res@) + (if new_carry {
                pow256((i + 1) as nat)
            } else {
                0
            }) == low_val(a, (i + 1) as nat) + low_val(b, (i + 1) as nat));
        }
        let ghost before = res@;
        res.insert(0, digit);
        proof {
            assert(res@ =~= seq![digit] + before);
        }
        carry = new_carry;
        i = i + 1;
    }
    proof {
        lemma_low_val_full(a, a.len());
        lemma_low_val_full(b, a.len());
    }
    if carry {
        proof {
            lemma_be_val_prepend(1u8, res@);
        }
        let ghost before = res@;
        res.insert(0, 1u8);
        proof {
            assert(res@ =~= seq![1u8] + before);
        }
    }
    proof {
        lemma_be_val_bound(res@);
        lemma_be_enc_of_val(res@);
        assert(combined(a, b) == res@);
        lemma_combined_commutative(a, b);
    }
    res
}

} // verus!
