//! The rational literal parser.
//!
//! Accepted grammar, anchored to the whole string: an optional leading `-`,
//! then either a digit sequence, a `digits/digits` fraction, or a mixed
//! number `digits digits/digits` (one space). The components are each read as
//! a rational and summed; a leading `-` negates the final sum, so `-3 1/2`
//! means `-(3 + 1/2)`. Anything else, and any fraction with denominator zero,
//! is a malformed literal.

use vstd::prelude::*;
use crate::decimal::{digit_val, digits_val, is_digit, is_digits};
use crate::rational::{rat_add, rat_canon, rat_int, rat_neg, ExactRational, Rat, lemma_gcd_one,
    abs_nat, gcd};

verus! {

/// Whether the literal carries a leading minus sign.
pub open spec fn has_sign(s: Seq<char>) -> bool {
    s.len() >= 1 && s[0] == '-'
}

/// The literal body: everything after the optional leading minus sign.
pub open spec fn body_of(s: Seq<char>) -> Seq<char> {
    if has_sign(s) {
        s.skip(1)
    } else {
        s
    }
}

/// A whole-number body: digits only.
pub open spec fn form_whole(t: Seq<char>) -> bool {
    is_digits(t)
}

/// `t` splits as `digits '/' digits` with the slash at `i`.
pub open spec fn frac_split_at(t: Seq<char>, i: int) -> bool {
    &&& 0 <= i < t.len()
    &&& t[i] == '/'
    &&& is_digits(t.take(i))
    &&& is_digits(t.skip(i + 1))
}

/// A bare-fraction body.
pub open spec fn form_frac(t: Seq<char>) -> bool {
    exists|i: int| frac_split_at(t, i)
}

/// `t` splits as `digits ' ' digits '/' digits` with the space at `i` and the
/// slash at `j`.
pub open spec fn mixed_split_at(t: Seq<char>, i: int, j: int) -> bool {
    &&& 0 <= i < j < t.len()
    &&& t[i] == ' '
    &&& t[j] == '/'
    &&& is_digits(t.take(i))
    &&& is_digits(t.subrange(i + 1, j))
    &&& is_digits(t.skip(j + 1))
}

/// A mixed-number body.
pub open spec fn form_mixed(t: Seq<char>) -> bool {
    exists|i: int, j: int| mixed_split_at(t, i, j)
}

/// Negates the sum when the literal carries a leading minus sign: the sign
/// applies to the whole literal, not to its first component.
pub open spec fn apply_sign(s: Seq<char>, m: Rat) -> Rat {
    if has_sign(s) {
        rat_neg(m)
    } else {
        m
    }
}

/// What parsing a literal yields: `Some` of the exact rational value in
/// lowest terms when the string matches the grammar and no fraction
/// denominator is zero, `None` otherwise. Each component is read as a
/// rational on its own and the components are summed.
pub open spec fn spec_parse(s: Seq<char>) -> Option<Rat> {
    let t = body_of(s);
    if form_whole(t) {
        Some(apply_sign(s, rat_int(digits_val(t) as int)))
    } else if form_frac(t) {
        let i = choose|i: int| frac_split_at(t, i);
        if digits_val(t.skip(i + 1)) != 0 {
            Some(
                apply_sign(
                    s,
                    rat_canon(digits_val(t.take(i)) as int, digits_val(t.skip(i + 1)) as int),
                ),
            )
        } else {
            None
        }
    } else if form_mixed(t) {
        let (i, j) = choose|i: int, j: int| mixed_split_at(t, i, j);
        if digits_val(t.skip(j + 1)) != 0 {
            Some(
                apply_sign(
                    s,
                    rat_add(
                        rat_int(digits_val(t.take(i)) as int),
                        rat_canon(
                            digits_val(t.subrange(i + 1, j)) as int,
                            digits_val(t.skip(j + 1)) as int,
                        ),
                    ),
                ),
            )
        } else {
            None
        }
    } else {
        None
    }
}

/// The error for a literal outside the grammar (or with a zero denominator),
/// carrying the offending text for diagnostics.
#[derive(Debug)]
pub struct MalformedLiteral {
    pub text: String,
}

/// A raw amount as the input hands it over: either a native integer or a
/// piece of text for the grammar above.
#[derive(Debug)]
pub enum RawLiteral {
    Integer(i128),
    Text(String),
}

/// What parsing a raw literal yields: native integers always convert, text
/// goes through the grammar.
pub open spec fn spec_parse_literal(l: RawLiteral) -> Option<Rat> {
    match l {
        RawLiteral::Integer(v) => Some(rat_int(v as int)),
        RawLiteral::Text(s) => spec_parse(s@),
    }
}

/// In any fraction split, the slash stands at the first slash of the body.
proof fn lemma_frac_split_is_first(t: Seq<char>, i: int, k: int)
    requires
        frac_split_at(t, i),
        0 <= k < t.len(),
        t[k] == '/',
        forall|m: int| 0 <= m < k ==> t[m] != '/',
    ensures
        i == k,
{
    assert(!is_digit('/'));
    if i < k {
        assert(t[i] == '/');
        assert(t[i] != '/');
    }
    if k < i {
        assert(t.take(i)[k] == '/');
        assert(is_digit(t.take(i)[k]));
    }
}

/// In any mixed split, the space stands at the first space and the slash at
/// the first slash of the body.
proof fn lemma_mixed_split_is_first(t: Seq<char>, i: int, j: int, sp: int, k: int)
    requires
        mixed_split_at(t, i, j),
        0 <= k < t.len(),
        t[k] == '/',
        forall|m: int| 0 <= m < k ==> t[m] != '/',
        0 <= sp < t.len(),
        t[sp] == ' ',
        forall|m: int| 0 <= m < sp ==> t[m] != ' ',
    ensures
        i == sp,
        j == k,
{
    assert(!is_digit(' '));
    assert(!is_digit('/'));
    // the split's space is the first space
    if sp < i {
        assert(t.take(i)[sp] == ' ');
        assert(is_digit(t.take(i)[sp]));
    }
    if i < sp {
        assert(t[i] != ' ');
    }
    assert(i == sp);
    // the split's slash is the first slash
    if k < j {
        if k < i {
            assert(t.take(i)[k] == '/');
            assert(is_digit(t.take(i)[k]));
        } else if k == i {
            assert(t[i] == ' ');
        } else {
            assert(t.subrange(i + 1, j)[k - i - 1] == '/');
            assert(is_digit(t.subrange(i + 1, j)[k - i - 1]));
        }
    }
    if j < k {
        assert(t[j] != '/');
    }
    assert(j == k);
}

/// A body without a slash is neither a fraction nor a mixed number.
proof fn lemma_no_slash(t: Seq<char>)
    requires
        forall|k: int| 0 <= k < t.len() ==> t[k] != '/',
    ensures
        !form_frac(t),
        !form_mixed(t),
{
    assert forall|i: int| !frac_split_at(t, i) by {
        if 0 <= i < t.len() {
            assert(t[i] != '/');
        }
    }
    assert forall|i: int, j: int| !mixed_split_at(t, i, j) by {
        if 0 <= j < t.len() {
            assert(t[j] != '/');
        }
    }
}

/// A digit string denotes zero exactly when every digit is '0'.
proof fn lemma_digits_val_zero(s: Seq<char>)
    requires
        forall|i: int| 0 <= i < s.len() ==> is_digit(#[trigger] s[i]),
    ensures
        digits_val(s) == 0 <==> (forall|i: int| 0 <= i < s.len() ==> s[i] == '0'),
    decreases s.len(),
{
    if s.len() == 0 {
    } else {
        let d = s.drop_last();
        assert(forall|i: int| 0 <= i < d.len() ==> is_digit(#[trigger] d[i])) by {
            assert(forall|i: int| 0 <= i < d.len() ==> d[i] == s[i]);
        }
        lemma_digits_val_zero(d);
        assert(digits_val(s) == digits_val(d) * 10 + digit_val(s.last()));
        if digits_val(s) == 0 {
            assert(digits_val(d) == 0);
            assert(digit_val(s.last()) == 0);
            assert(is_digit(s.last()));
            assert(s.last() == '0');
            assert forall|i: int| 0 <= i < s.len() implies s[i] == '0' by {
                if i < s.len() - 1 {
                    assert(d[i] == '0');
                }
            }
        }
        if forall|i: int| 0 <= i < s.len() ==> s[i] == '0' {
            assert forall|i: int| 0 <= i < d.len() implies d[i] == '0' by {
                assert(d[i] == s[i]);
            }
            assert(s.last() == '0');
            assert(digit_val('0') == 0);
        }
    }
}

/// True when the characters at `[from, to)` are a non-empty run of digits.
fn check_digits(s: &str, from: usize, to: usize) -> (b: bool)
    requires
        from <= to <= s@.len(),
    ensures
        b == is_digits(s@.subrange(from as int, to as int)),
{
    let ghost sub = s@.subrange(from as int, to as int);
    if from >= to {
        proof {
            assert(sub.len() == 0);
        }
        return false;
    }
    let mut i = from;
    while i < to
        invariant
            from <= i <= to <= s@.len(),
            from < to,
            sub == s@.subrange(from as int, to as int),
            forall|k: int| from <= k < i ==> is_digit(#[trigger] s@[k]),
        decreases to - i,
    {
        let c = s.get_char(i);
        if !('0' <= c && c <= '9') {
            proof {
                assert(sub[i - from] == s@[i as int]);
                assert(!is_digit(sub[i - from]));
            }
            return false;
        }
        i += 1;
    }
    proof {
        assert forall|k: int| 0 <= k < sub.len() implies is_digit(#[trigger] sub[k]) by {
            assert(sub[k] == s@[from + k]);
        }
    }
    true
}

/// True when the digit run at `[from, to)` denotes a nonzero value.
fn check_nonzero(s: &str, from: usize, to: usize) -> (b: bool)
    requires
        from <= to <= s@.len(),
        is_digits(s@.subrange(from as int, to as int)),
    ensures
        b == (digits_val(s@.subrange(from as int, to as int)) != 0),
{
    let ghost sub = s@.subrange(from as int, to as int);
    proof {
        lemma_digits_val_zero(sub);
    }
    let mut i = from;
    while i < to
        invariant
            from <= i <= to <= s@.len(),
            sub == s@.subrange(from as int, to as int),
            is_digits(sub),
            forall|k: int| from <= k < i ==> s@[k] == '0',
        decreases to - i,
    {
        let c = s.get_char(i);
        if c != '0' {
            proof {
                lemma_digits_val_zero(sub);
                assert(sub[i - from] == s@[i as int]);
                assert(!(forall|k: int| 0 <= k < sub.len() ==> sub[k] == '0')) by {
                    assert(sub[i - from] != '0');
                }
            }
            return true;
        }
        i += 1;
    }
    proof {
        assert forall|k: int| 0 <= k < sub.len() implies sub[k] == '0' by {
            assert(sub[k] == s@[from + k]);
        }
    }
    false
}

/// The first position of `target` at or after `from`, if any.
fn find_first(s: &str, target: char, from: usize) -> (r: Option<usize>)
    requires
        from <= s@.len(),
    ensures
        match r {
            Some(i) => from <= i < s@.len() && s@[i as int] == target && (forall|k: int|
                from <= k < i ==> s@[k] != target),
            None => forall|k: int| from <= k < s@.len() ==> s@[k] != target,
        },
{
    let len = s.unicode_len();
    let mut i = from;
    while i < len
        invariant
            from <= i <= len == s@.len(),
            forall|k: int| from <= k < i ==> s@[k] != target,
        decreases len - i,
    {
        if s.get_char(i) == target {
            return Some(i);
        }
        i += 1;
    }
    None
}

/// `rat_canon(w, 1)` is just `w/1`: reading a whole number as a fraction over
/// one changes nothing.
proof fn lemma_canon_over_one(w: int)
    requires
        w >= 0,
    ensures
        rat_canon(w, 1) == rat_int(w),
{
    lemma_gcd_one(abs_nat(w));
    assert(abs_nat(1) == 1);
    assert(w / 1 == w) by (nonlinear_arith);
    assert(1int / 1 == 1) by (nonlinear_arith);
}

/// The string "1".
fn one_str() -> (r: &'static str)
    ensures
        r@ == seq!['1'],
        is_digits(r@),
        digits_val(r@) == 1,
{
    proof {
        reveal_strlit("1");
    }
    let r = "1";
    proof {
        assert(r@ =~= seq!['1']);
        assert(is_digit('1'));
        assert(r@.drop_last() =~= Seq::<char>::empty());
        assert(digits_val(Seq::<char>::empty()) == 0);
        assert(digits_val(r@) == 0 * 10 + digit_val('1'));
    }
    r
}

/// Parses a rational literal: an optional minus sign, then a whole number, a
/// fraction, or a mixed number. Yields the exact value in lowest terms, or a
/// `MalformedLiteral` for any string outside the grammar or with a zero
/// fraction denominator. The sign applies to the whole literal.
pub fn parse_mixed_number(number: &str) -> (r: Result<ExactRational, MalformedLiteral>)
    ensures
        match r {
            Ok(q) => q.wf() && spec_parse(number@) == Some(q@),
            Err(e) => spec_parse(number@) is None && e.text@ == number@,
        },
{
    let len = number.unicode_len();
    let neg = if len >= 1 {
        number.get_char(0) == '-'
    } else {
        false
    };
    let start: usize = if neg {
        1
    } else {
        0
    };
    let ghost s = number@;
    let ghost t = body_of(s);
    proof {
        assert(neg == has_sign(s));
        assert(t =~= s.subrange(start as int, s.len() as int));
    }
    let slash = find_first(number, '/', start);
    let space = find_first(number, ' ', start);
    match slash {
        None => {
            proof {
                assert forall|k: int| 0 <= k < t.len() implies t[k] != '/' by {
                    assert(t[k] == s[start + k]);
                }
                lemma_no_slash(t);
            }
            if check_digits(number, start, len) {
                let whole = number.substring_char(start, len);
                proof {
                    assert(whole@ =~= t);
                }
                let q = ExactRational::reduce_fraction(whole, one_str());
                proof {
                    lemma_canon_over_one(digits_val(t) as int);
                }
                if neg {
                    Ok(q.neg())
                } else {
                    Ok(q)
                }
            } else {
                proof {
                    assert(s.subrange(start as int, len as int) =~= t);
                }
                Err(MalformedLiteral { text: number.to_owned() })
            }
        },
        Some(k) => {
            let ghost gj = k - start;
            proof {
                assert(t[gj] == s[k as int]);
                assert(!is_digit('/'));
                assert(!form_whole(t));
                assert forall|m: int| 0 <= m < gj implies t[m] != '/' by {
                    assert(t[m] == s[start + m]);
                }
            }
            let mixed = match space {
                Some(sp) => sp < k,
                None => false,
            };
            if mixed {
                let sp = match space {
                    Some(sp) => sp,
                    None => 0,
                };
                // segments: whole [start, sp), numerator (sp, k), denominator (k, len)
                let ghost gi = sp - start;
                proof {
                    assert(t[gi] == s[sp as int]);
                    assert forall|m: int| 0 <= m < gi implies t[m] != ' ' by {
                        assert(t[m] == s[start + m]);
                    }
                }
                let ok = check_digits(number, start, sp) && check_digits(number, sp + 1, k)
                    && check_digits(number, k + 1, len);
                proof {
                    assert(s.subrange(start as int, sp as int) =~= t.take(gi));
                    assert(s.subrange(sp + 1, k as int) =~= t.subrange(gi + 1, gj));
                    assert(s.subrange(k + 1, len as int) =~= t.skip(gj + 1));
                }
                if ok {
                    proof {
                        assert(mixed_split_at(t, gi, gj));
                        assert(form_mixed(t));
                        // the spec's split is this split
                        let (ci, cj) = choose|i: int, j: int| mixed_split_at(t, i, j);
                        assert(mixed_split_at(t, ci, cj));
                        lemma_mixed_split_is_first(t, ci, cj, gi, gj);
                        // no bare-fraction reading: the digits left of the slash
                        // would have to include the space
                        assert forall|i: int| !frac_split_at(t, i) by {
                            if frac_split_at(t, i) {
                                lemma_frac_split_is_first(t, i, gj);
                                assert(t.take(gj)[gi] == ' ');
                                assert(is_digit(t.take(gj)[gi]));
                                assert(!is_digit(' '));
                            }
                        }
                        assert(!form_frac(t));
                    }
                    if check_nonzero(number, k + 1, len) {
                        let whole = number.substring_char(start, sp);
                        let fnum = number.substring_char(sp + 1, k);
                        let fden = number.substring_char(k + 1, len);
                        proof {
                            assert(whole@ =~= t.take(gi));
                            assert(fnum@ =~= t.subrange(gi + 1, gj));
                            assert(fden@ =~= t.skip(gj + 1));
                        }
                        let w = ExactRational::reduce_fraction(whole, one_str());
                        let f = ExactRational::reduce_fraction(fnum, fden);
                        proof {
                            lemma_canon_over_one(digits_val(t.take(gi)) as int);
                        }
                        let q = w.add(&f);
                        if neg {
                            Ok(q.neg())
                        } else {
                            Ok(q)
                        }
                    } else {
                        Err(MalformedLiteral { text: number.to_owned() })
                    }
                } else {
                    proof {
                        assert forall|i: int| !frac_split_at(t, i) by {
                            if frac_split_at(t, i) {
                                lemma_frac_split_is_first(t, i, gj);
                                assert(t.take(gj)[gi] == ' ');
                                assert(is_digit(t.take(gj)[gi]));
                                assert(!is_digit(' '));
                            }
                        }
                        assert forall|i: int, j: int| !mixed_split_at(t, i, j) by {
                            if mixed_split_at(t, i, j) {
                                lemma_mixed_split_is_first(t, i, j, gi, gj);
                            }
                        }
                        assert(!form_frac(t));
                        assert(!form_mixed(t));
                    }
                    Err(MalformedLiteral { text: number.to_owned() })
                }
            } else {
                // fraction route: numerator [start, k), denominator (k, len)
                let ok = check_digits(number, start, k) && check_digits(number, k + 1, len);
                proof {
                    assert(s.subrange(start as int, k as int) =~= t.take(gj));
                    assert(s.subrange(k + 1, len as int) =~= t.skip(gj + 1));
                    // no mixed reading: the first space, if any, stands after the
                    // first slash, so the split's leading digits would include it
                    assert forall|i: int, j: int| !mixed_split_at(t, i, j) by {
                        if mixed_split_at(t, i, j) {
                            assert(t[i] == ' ');
                            assert(t[i] == s[start + i]);
                            match space {
                                Some(sp2) => {
                                    assert(start + i >= sp2) by {
                                        if start + i < sp2 {
                                            assert(s[start + i] != ' ');
                                        }
                                    }
                                    assert(sp2 != k);
                                    assert(i > gj);
                                    assert(t.take(i)[gj] == '/');
                                    assert(is_digit(t.take(i)[gj]));
                                    assert(!is_digit('/'));
                                },
                                None => {
                                    assert(s[start + i] != ' ');
                                },
                            }
                        }
                    }
                    assert(!form_mixed(t));
                }
                if ok {
                    proof {
                        assert(frac_split_at(t, gj));
                        assert(form_frac(t));
                        let ci = choose|i: int| frac_split_at(t, i);
                        assert(frac_split_at(t, ci));
                        lemma_frac_split_is_first(t, ci, gj);
                    }
                    if check_nonzero(number, k + 1, len) {
                        let fnum = number.substring_char(start, k);
                        let fden = number.substring_char(k + 1, len);
                        proof {
                            assert(fnum@ =~= t.take(gj));
                            assert(fden@ =~= t.skip(gj + 1));
                        }
                        let q = ExactRational::reduce_fraction(fnum, fden);
                        if neg {
                            Ok(q.neg())
                        } else {
                            Ok(q)
                        }
                    } else {
                        Err(MalformedLiteral { text: number.to_owned() })
                    }
                } else {
                    proof {
                        assert forall|i: int| !frac_split_at(t, i) by {
                            if frac_split_at(t, i) {
                                lemma_frac_split_is_first(t, i, gj);
                            }
                        }
                        assert(!form_frac(t));
                    }
                    Err(MalformedLiteral { text: number.to_owned() })
                }
            }
        },
    }
}

/// Parses a raw amount: a native integer converts directly (denominator 1);
/// text goes through the literal grammar.
pub fn parse_literal(lit: &RawLiteral) -> (r: Result<ExactRational, MalformedLiteral>)
    ensures
        match r {
            Ok(q) => q.wf() && spec_parse_literal(*lit) == Some(q@),
            Err(e) => spec_parse_literal(*lit) is None && (lit matches RawLiteral::Text(s)
                && e.text@ == s@),
        },
{
    match lit {
        RawLiteral::Integer(v) => Ok(ExactRational::from_integer(*v)),
        RawLiteral::Text(s) => parse_mixed_number(s.as_str()),
    }
}

} // verus!
// The laws below state the parser's contract on whole families of inputs.
