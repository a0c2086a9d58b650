//! Decimal digit strings: the spec-level meaning of a digit sequence, the
//! canonical decimal rendering of an integer, and a verified integer-to-string
//! conversion.

use vstd::prelude::*;

verus! {

/// The decimal digit character for a value below ten.
pub open spec fn digit_char(v: nat) -> char {
    if v == 0 {
        '0'
    } else if v == 1 {
        '1'
    } else if v == 2 {
        '2'
    } else if v == 3 {
        '3'
    } else if v == 4 {
        '4'
    } else if v == 5 {
        '5'
    } else if v == 6 {
        '6'
    } else if v == 7 {
        '7'
    } else if v == 8 {
        '8'
    } else {
        '9'
    }
}

pub open spec fn is_digit(c: char) -> bool {
    '0' <= c && c <= '9'
}

/// The numeric value of a digit character.
pub open spec fn digit_val(c: char) -> nat {
    (c as nat - '0' as nat) as nat
}

/// A non-empty string made of decimal digits only.
pub open spec fn is_digits(s: Seq<char>) -> bool {
    s.len() >= 1 && forall|i: int| 0 <= i < s.len() ==> is_digit(#[trigger] s[i])
}

/// The canonical decimal rendering of a non-negative integer: no leading
/// zeros, except that zero itself is "0".
pub open spec fn dec_digits(v: nat) -> Seq<char>
    decreases v,
{
    if v < 10 {
        seq![digit_char(v)]
    } else {
        dec_digits(v / 10).push(digit_char(v % 10))
    }
}

/// The canonical decimal rendering of an integer, with a leading '-' for
/// negative values.
pub open spec fn dec_int(v: int) -> Seq<char> {
    if v < 0 {
        seq!['-'] + dec_digits((-v) as nat)
    } else {
        dec_digits(v as nat)
    }
}

/// The value of a digit string, most significant digit first.
pub open spec fn digits_val(s: Seq<char>) -> nat
    decreases s.len(),
{
    if s.len() == 0 {
        0
    } else {
        digits_val(s.drop_last()) * 10 + digit_val(s.last())
    }
}

/// The value of an optionally '-'-signed digit string.
pub open spec fn int_val(s: Seq<char>) -> int {
    if s.len() >= 1 && s[0] == '-' {
        -(digits_val(s.skip(1)) as int)
    } else {
        digits_val(s) as int
    }
}

/// An optionally '-'-signed non-empty digit string.
pub open spec fn is_int_literal(s: Seq<char>) -> bool {
    if s.len() >= 1 && s[0] == '-' {
        is_digits(s.skip(1))
    } else {
        is_digits(s)
    }
}

pub proof fn lemma_dec_digits_well_formed(v: nat)
    ensures
        is_digits(dec_digits(v)),
        dec_digits(v)[0] != '0' <==> v != 0,
        digits_val(dec_digits(v)) == v,
    decreases v,
{
    if v < 10 {
        assert(dec_digits(v) == seq![digit_char(v)]);
        assert(dec_digits(v).drop_last() =~= Seq::<char>::empty());
        assert(digits_val(Seq::<char>::empty()) == 0);
        assert(digits_val(dec_digits(v)) == 0 * 10 + digit_val(digit_char(v)));
    } else {
        lemma_dec_digits_well_formed(v / 10);
        let pre = dec_digits(v / 10);
        let s = dec_digits(v);
        assert(s == pre.push(digit_char(v % 10)));
        assert(s.drop_last() == pre);
        assert(forall|i: int|
            0 <= i < s.len() ==> is_digit(#[trigger] s[i]) == if i < pre.len() {
                is_digit(pre[i])
            } else {
                is_digit(digit_char(v % 10))
            });
        assert(digits_val(s) == (v / 10) * 10 + v % 10);
        assert((v / 10) * 10 + v % 10 == v) by (nonlinear_arith);
    }
}

/// Two canonical digit strings with the same value are the same string;
/// stated constructively: rendering is injective on values because rendering
/// then evaluating is the identity (`lemma_dec_digits_well_formed`).
pub proof fn lemma_dec_int_well_formed(v: int)
    ensures
        is_int_literal(dec_int(v)),
        int_val(dec_int(v)) == v,
        v >= 0 ==> dec_int(v) == dec_digits(v as nat),
        v < 0 ==> dec_int(v) == seq!['-'] + dec_digits((-v) as nat),
        dec_int(v)[0] == '-' <==> v < 0,
{
    if v < 0 {
        lemma_dec_digits_well_formed((-v) as nat);
        let s = dec_int(v);
        assert(s.skip(1) == dec_digits((-v) as nat));
    } else {
        lemma_dec_digits_well_formed(v as nat);
        assert(is_digit(dec_int(v)[0]));
    }
}

/// The canonical rendering of zero is "0", and no other value renders to it.
pub proof fn lemma_dec_int_zero(v: int)
    ensures
        dec_int(v) == seq!['0'] <==> v == 0,
{
    lemma_dec_int_well_formed(v);
    if dec_int(v) == seq!['0'] {
        assert(int_val(seq!['0']) == digits_val(seq!['0']));
        assert(seq!['0'].drop_last() =~= Seq::<char>::empty());
        assert(digits_val(Seq::<char>::empty()) == 0);
        assert(digits_val(seq!['0']) == 0 * 10 + digit_val('0'));
    } else {
    }
}

/// A single-character string holding the decimal digit for a value below ten.
pub fn digit_str(d: u8) -> (r: &'static str)
    requires
        d < 10,
    ensures
        r@ == seq![digit_char(d as nat)],
{
    proof {
        reveal_strlit("0");
        reveal_strlit("1");
        reveal_strlit("2");
        reveal_strlit("3");
        reveal_strlit("4");
        reveal_strlit("5");
        reveal_strlit("6");
        reveal_strlit("7");
        reveal_strlit("8");
        reveal_strlit("9");
    }
    let r: &'static str = if d == 0 {
        "0"
    } else if d == 1 {
        "1"
    } else if d == 2 {
        "2"
    } else if d == 3 {
        "3"
    } else if d == 4 {
        "4"
    } else if d == 5 {
        "5"
    } else if d == 6 {
        "6"
    } else if d == 7 {
        "7"
    } else if d == 8 {
        "8"
    } else {
        "9"
    };
    proof {
        assert(r@ =~= seq![digit_char(d as nat)]);
    }
    r
}

/// Renders a non-negative machine integer in canonical decimal form.
pub fn nat_to_string(v: u128) -> (s: String)
    ensures
        s@ == dec_digits(v as nat),
    decreases v,
{
    if v < 10 {
        String::from_str(digit_str(v as u8))
    } else {
        let mut s = nat_to_string(v / 10);
        s.append(digit_str((v % 10) as u8));
        proof {
            assert(s@ =~= dec_digits((v / 10) as nat).push(digit_char((v % 10) as nat)));
        }
        s
    }
}

/// Renders a machine integer in canonical decimal form, '-'-signed when
/// negative.
pub fn int_to_string(v: i128) -> (s: String)
    ensures
        s@ == dec_int(v as int),
{
    if v >= 0 {
        nat_to_string(v as u128)
    } else {
        let mag: u128 = if v == i128::MIN {
            170141183460469231731687303715884105728u128
        } else {
            (-v) as u128
        };
        assert(mag == -(v as int));
        let mut s = String::from_str("-");
        proof {
            reveal_strlit("-");
        }
        s.append(nat_to_string(mag).as_str());
        proof {
            assert(s@ =~= seq!['-'] + dec_digits((-(v as int)) as nat));
        }
        s
    }
}

} // verus!
