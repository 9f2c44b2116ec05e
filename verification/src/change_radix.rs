//! Radix conversion of numerals held as strings: a string of decimal digit
//! characters is read as a base-`a` numeral and written out as the base-`b`
//! numeral of the same value.

use vstd::prelude::*;
use vstd::arithmetic::div_mod::lemma_div_decreases;
use vstd::string::StringSliceAdditionalSpecFns;

verus! {

/// Value of a big-endian digit-byte string in base `a`, by Horner's rule.
pub open spec fn digits_value(bs: Seq<u8>, a: int) -> int
    decreases bs.len(),
{
    if bs.len() == 0 {
        0
    } else {
        digits_value(bs.drop_last(), a) * a + (bs.last() - 48)
    }
}

/// The base-`b` numeral of a positive value, most significant digit first,
/// as digit characters; empty for 0.
pub open spec fn rendered(v: int, b: int) -> Seq<char>
    decreases v,
    via rendered_decreases
{
    if v <= 0 || b < 2 {
        Seq::empty()
    } else {
        rendered(v / b, b).push((((48 + v % b) as u8) as char))
    }
}

#[via_fn]
proof fn rendered_decreases(v: int, b: int) {
    if !(v <= 0 || b < 2) {
        lemma_div_decreases(v, b);
    }
}

/// The digit bytes as characters.
pub open spec fn chars_of(bs: Seq<u8>) -> Seq<char> {
    Seq::new(bs.len(), |i: int| bs[i] as char)
}

/// With valid digits and a base of at least 2, every prefix of a numeral is
/// non-negative and no larger in value than the whole.
proof fn lemma_prefix_bounded(bs: Seq<u8>, a: int, i: int)
    requires
        forall|q: int| 0 <= q < bs.len() ==> 48 <= #[trigger] bs[q] <= 57,
        a >= 2,
        0 <= i <= bs.len(),
    ensures
        0 <= digits_value(bs.subrange(0, i), a) <= digits_value(bs, a),
    decreases bs.len() - i,
{
    if i == bs.len() {
        assert(bs.subrange(0, i) =~= bs);
        lemma_value_nonneg(bs, a);
    } else {
        lemma_prefix_bounded(bs, a, i + 1);
        let p = bs.subrange(0, i);
        let p1 = bs.subrange(0, i + 1);
        assert(p1.drop_last() =~= p);
        lemma_value_nonneg(p, a);
        assert(digits_value(p, a) <= digits_value(p, a) * a) by (nonlinear_arith)
            requires
                digits_value(p, a) >= 0,
                a >= 2,
        ;
    }
}

/// A valid numeral never has a negative value.
proof fn lemma_value_nonneg(bs: Seq<u8>, a: int)
    requires
        forall|q: int| 0 <= q < bs.len() ==> 48 <= #[trigger] bs[q] <= 57,
        a >= 2,
    ensures
        digits_value(bs, a) >= 0,
    decreases bs.len(),
{
    if bs.len() > 0 {
        lemma_value_nonneg(bs.drop_last(), a);
        assert(digits_value(bs.drop_last(), a) * a >= 0) by (nonlinear_arith)
            requires
                digits_value(bs.drop_last(), a) >= 0,
                a >= 2,
        ;
    }
}

/// Relies on `String::push`: appends the given character to the end of the
/// string.
#[verifier::external_body]
fn push_char(s: &mut String, c: char)
    ensures
        final(s)@ == old(s)@.push(c),
{
    s.push(c)
}

/// Rewrite the decimal-digit string `s`, read as a base-`a` numeral, as the
/// base-`b` numeral of the same value ("0" when the value is zero). The value
/// must fit the machine word; the target base must be a digit base.
#[verifier::loop_isolation(false)]
pub fn change_radix(s: &str, a: i64, b: i64) -> (r: String)
    requires
        forall|q: int| 0 <= q < s.spec_bytes().len() ==> 48 <= #[trigger] s.spec_bytes()[q] <= 57,
        2 <= a,
        2 <= b <= 10,
        digits_value(s.spec_bytes(), a as int) <= i64::MAX,
    ensures
        digits_value(s.spec_bytes(), a as int) == 0 ==> r@ == seq!['0'],
        digits_value(s.spec_bytes(), a as int) > 0 ==> r@ == rendered(
            digits_value(s.spec_bytes(), a as int),
            b as int,
        ),
{
    let bs = s.as_bytes();
    let total = bs.len();
    let mut base10: i64 = 0;
    let mut i: usize = 0;
    while i < total
        invariant
            i <= total,
            bs@ == s.spec_bytes(),
            total == bs@.len(),
            base10 as int == digits_value(bs@.subrange(0, i as int), a as int),
            0 <= base10,
        decreases total - i,
    {
        proof {
            lemma_prefix_bounded(bs@, a as int, i as int + 1);
            assert(bs@.subrange(0, i as int + 1).drop_last() =~= bs@.subrange(0, i as int));
            assert(base10 * a >= base10) by (nonlinear_arith)
                requires
                    base10 >= 0,
                    a >= 2,
            ;
        }
        let d = (bs[i] - 48) as i64;
        base10 = base10 * a + d;
        i += 1;
    }
    proof {
        assert(bs@.subrange(0, total as int) =~= bs@);
    }

    let mut out = String::new();
    if base10 == 0 {
        push_char(&mut out, '0');
        proof {
            assert(out@ =~= seq!['0']);
        }
        return out;
    }

    // collect the base-b digits, least significant first
    let ghost v0 = base10 as int;
    let mut digits: Vec<u8> = Vec::new();
    let mut v = base10;
    while v != 0
        invariant
            0 <= v,
            2 <= b <= 10,
            rendered(v0, b as int) == rendered(v as int, b as int) + chars_of(digits@.reverse()),
        decreases v,
    {
        let ghost dv0 = digits@;
        let ghost vprev = v as int;
        let dgt = (48 + (v % b)) as u8;
        digits.push(dgt);
        v = v / b;
        proof {
            lemma_div_decreases(vprev, b as int);
            assert(rendered(vprev, b as int) == rendered(v as int, b as int).push(
                (((48 + vprev % (b as int)) as u8) as char),
            ));
            assert(chars_of(digits@.reverse()) =~= seq![dgt as char] + chars_of(dv0.reverse()));
            assert(rendered(v0, b as int) =~= rendered(v as int, b as int) + chars_of(
                digits@.reverse(),
            ));
        }
    }
    proof {
        assert(rendered(0, b as int) =~= Seq::<char>::empty());
        assert(rendered(v0, b as int) =~= chars_of(digits@.reverse()));
    }

    // write them out most significant first
    let total_d = digits.len();
    let mut j = total_d;
    while j > 0
        invariant
            j <= total_d,
            total_d == digits@.len(),
            out@ == chars_of(digits@.reverse().subrange(0, (total_d - j) as int)),
        decreases j,
    {
        j -= 1;
        let c8 = digits[j];
        push_char(&mut out, c8 as char);
        proof {
            assert(digits@.reverse()[(total_d - j - 1) as int] == digits@[j as int]);
            assert(out@ =~= chars_of(digits@.reverse().subrange(0, (total_d - j) as int)));
        }
    }
    proof {
        assert(digits@.reverse().subrange(0, total_d as int) =~= digits@.reverse());
    }
    out
}

} // verus!
