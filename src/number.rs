use vstd::prelude::*;

use crate::lexer::is_digit_char;
use crate::parser::chars_of;
use crate::value::{Number, NumberModel};

verus! {

/// One more than the largest `u32`.
pub const U32_LIMIT: u128 = 0x1_0000_0000;

pub open spec fn digit_value(c: char) -> int {
    c as int - '0' as int
}

/// The natural number that a string of decimal digits denotes.
pub open spec fn digits_value(s: Seq<char>) -> int
    decreases s.len(),
{
    if s.len() == 0 {
        0
    } else {
        digits_value(s.drop_last()) * 10 + digit_value(s.last())
    }
}

pub open spec fn all_digits(s: Seq<char>) -> bool {
    forall|i: int| 0 <= i < s.len() ==> is_digit_char(#[trigger] s[i])
}

/// Ten to the power `n`.
pub open spec fn pow10(n: nat) -> int
    decreases n,
{
    if n == 0 {
        1
    } else {
        10 * pow10((n - 1) as nat)
    }
}

pub open spec fn min_int(a: int, b: int) -> int {
    if a < b {
        a
    } else {
        b
    }
}

impl NumberModel {
    /// Every part holds decimal digits only.
    pub open spec fn wf(self) -> bool {
        all_digits(self.integer) && all_digits(self.fraction) && all_digits(self.exponent)
    }

    /// All the digits of the significand, integer part first.
    pub open spec fn digits(self) -> Seq<char> {
        self.integer + self.fraction
    }

    /// The exponent as a signed integer (0 when there is none).
    pub open spec fn exp_value(self) -> int {
        if self.exponent_negative {
            -digits_value(self.exponent)
        } else {
            digits_value(self.exponent)
        }
    }

    /// The number is `digits_value(digits()) * 10^scale()`, with its sign.
    pub open spec fn scale(self) -> int {
        self.exp_value() - self.fraction.len()
    }

    /// The number has no fractional part: every digit that stands after the
    /// decimal point, once the exponent is applied, is a zero.
    pub open spec fn is_integral(self) -> bool {
        forall|i: int|
            0 <= i < self.digits().len() && i >= self.digits().len() + self.scale() ==> #[trigger] self.digits()[i]
                == '0'
    }

    /// The magnitude of the number with any fractional part cut off.
    pub open spec fn integer_part(self) -> int {
        let d = self.digits();
        if self.scale() >= 0 {
            digits_value(d) * pow10(self.scale() as nat)
        } else if d.len() + self.scale() > 0 {
            digits_value(d.subrange(0, d.len() + self.scale()))
        } else {
            0
        }
    }

    /// The number cut to an integer and held to the range of `u32`: a
    /// negative number gives 0 and one above the range gives `u32::MAX`.
    pub open spec fn to_u32(self) -> u32 {
        if self.negative {
            0
        } else if self.integer_part() > u32::MAX {
            u32::MAX
        } else {
            self.integer_part() as u32
        }
    }
}

pub open spec fn or_zero(s: Seq<char>) -> Seq<char> {
    if s.len() == 0 {
        "0"@
    } else {
        s
    }
}

/// The decimal text of a number: sign, integer part, point, fraction,
/// exponent marker and exponent, with `0` for an empty part.
pub open spec fn decimal_text(n: NumberModel) -> Seq<char> {
    (if n.negative {
        "-"@
    } else {
        Seq::empty()
    }) + or_zero(n.integer) + "."@ + or_zero(n.fraction) + "e"@ + (if n.exponent_negative {
        "-"@
    } else {
        Seq::empty()
    }) + or_zero(n.exponent)
}

fn part_or_zero(s: &String) -> (r: String)
    ensures
        r@ == or_zero(s@),
{
    if s.as_str().is_empty() {
        "0".to_owned()
    } else {
        s.clone()
    }
}

proof fn lemma_pow10_positive(n: nat)
    ensures
        pow10(n) > 0,
    decreases n,
{
    if n > 0 {
        lemma_pow10_positive((n - 1) as nat);
    }
}

pub proof fn lemma_digits_value_nonneg(s: Seq<char>)
    requires
        all_digits(s),
    ensures
        digits_value(s) >= 0,
    decreases s.len(),
{
    if s.len() > 0 {
        assert(is_digit_char(s[s.len() - 1]));
        lemma_digits_value_nonneg(s.drop_last());
    }
}

proof fn lemma_saturate_step(x: int, d: int, c: int)
    requires
        x >= 0,
        0 <= d,
        c >= 0,
    ensures
        min_int(min_int(x, c) * 10 + d, c) == min_int(x * 10 + d, c),
{
    if x >= c {
        assert(x * 10 >= c * 10) by (nonlinear_arith)
            requires
                x >= c,
        ;
    }
}

proof fn lemma_pow10_large(n: nat)
    requires
        n >= 10,
    ensures
        pow10(n) >= 10_000_000_000,
        pow10(n) > 0,
    decreases n,
{
    if n == 10 {
        assert(pow10(0) == 1);
        assert(pow10(1) == 10);
        assert(pow10(2) == 100);
        assert(pow10(3) == 1000);
        assert(pow10(4) == 10000);
        assert(pow10(5) == 100000);
        assert(pow10(6) == 1000000);
        assert(pow10(7) == 10000000);
        assert(pow10(8) == 100000000);
        assert(pow10(9) == 1000000000);
        assert(pow10(10) == 10000000000);
    } else {
        lemma_pow10_large((n - 1) as nat);
    }
}

/// All characters of `v` are decimal digits.
fn all_digits_exec(v: &Vec<char>) -> (r: bool)
    ensures
        r == all_digits(v@),
{
    let mut i: usize = 0;
    while i < v.len()
        invariant
            i <= v@.len(),
            forall|j: int| 0 <= j < i ==> is_digit_char(#[trigger] v@[j]),
        decreases v@.len() - i,
    {
        if !(v[i] >= '0' && v[i] <= '9') {
            return false;
        }
        i += 1;
    }
    true
}

/// The value of the digits `v[0..upto]`, held at most at `cap`.
fn saturating_value(v: &Vec<char>, upto: usize, cap: u128) -> (r: u128)
    requires
        all_digits(v@),
        upto <= v@.len(),
        cap <= 0x1_0000_0000_0000_0000_0000,
    ensures
        r == min_int(digits_value(v@.subrange(0, upto as int)), cap as int),
{
    let mut acc: u128 = 0;
    let mut i: usize = 0;
    proof {
        assert(v@.subrange(0, 0) =~= Seq::<char>::empty());
    }
    while i < upto
        invariant
            all_digits(v@),
            i <= upto <= v@.len(),
            cap <= 0x1_0000_0000_0000_0000_0000,
            acc == min_int(digits_value(v@.subrange(0, i as int)), cap as int),
        decreases upto - i,
    {
        let d = v[i] as u32 - '0' as u32;
        proof {
            assert(is_digit_char(v@[i as int]));
            let p = v@.subrange(0, i as int);
            let q = v@.subrange(0, i + 1);
            assert(q.drop_last() =~= p);
            assert(p =~= v@.subrange(0, i as int));
            assert forall|j: int| 0 <= j < p.len() implies is_digit_char(#[trigger] p[j]) by {
                assert(p[j] == v@[j]);
            }
            lemma_digits_value_nonneg(p);
            lemma_saturate_step(digits_value(p), d as int, cap as int);
        }
        let next = acc * 10 + d as u128;
        acc = if next < cap {
            next
        } else {
            cap
        };
        i += 1;
    }
    acc
}

impl Number {
    /// Decodes this number into a `u32`: `None` where it has a fractional
    /// part (or a part that is not all digits), else the number cut and held
    /// to the range of `u32`.
    pub fn to_u32(&self) -> (r: Option<u32>)
        ensures
            r is Some <==> (self@.wf() && self@.is_integral()),
            r matches Some(x) ==> x == self@.to_u32(),
    {
        let ghost n = self@;
        let mut d = chars_of(self.integer.as_str());
        let mut f = chars_of(self.fraction.as_str());
        let e = chars_of(self.exponent.as_str());
        if !all_digits_exec(&d) || !all_digits_exec(&f) || !all_digits_exec(&e) {
            return None;
        }
        let frac_len = f.len();
        d.append(&mut f);
        let len = d.len();
        proof {
            assert(d@ =~= n.digits());
            assert forall|j: int| 0 <= j < d@.len() implies is_digit_char(#[trigger] d@[j]) by {
                if j < n.integer.len() {
                    assert(d@[j] == n.integer[j]);
                } else {
                    assert(d@[j] == n.fraction[j - n.integer.len()]);
                }
            }
            assert(e@.subrange(0, e@.len() as int) =~= e@);
            lemma_digits_value_nonneg(e@);
        }
        // Past this bound every exponent gives the same answer.
        let cap: u128 = len as u128 + 11;
        let ev = saturating_value(&e, e.len(), cap);
        let k: i128 = if self.exponent_negative {
            -(ev as i128) - frac_len as i128
        } else {
            ev as i128 - frac_len as i128
        };
        let ghost kt = n.scale();
        proof {
            if digits_value(e@) <= cap {
                assert(k == kt);
            } else if self.exponent_negative {
                assert(k <= -(len as int) - 11 && kt <= -(len as int) - 11);
            } else {
                assert(k >= 11 && kt >= 11);
            }
        }
        // The digits from `start` on must all be zeros.
        let start_i: i128 = len as i128 + k;
        let start: usize = if start_i <= 0 {
            0
        } else if start_i >= len as i128 {
            len
        } else {
            start_i as usize
        };
        proof {
            assert(start < len ==> start >= len + kt);
            assert(start == 0 || start <= len + kt);
        }
        let mut i: usize = start;
        while i < len
            invariant
                start <= i <= len,
                len == d@.len(),
                d@ == n.digits(),
                n == self@,
                kt == n.scale(),
                start < len ==> start >= len + kt,
                start == 0 || start <= len + kt,
                forall|j: int| start <= j < i ==> #[trigger] d@[j] == '0',
            decreases len - i,
        {
            if d[i] != '0' {
                proof {
                    assert(n.digits()[i as int] != '0');
                    assert(i >= len + kt);
                    assert(!n.is_integral()) by {
                        if n.is_integral() {
                            assert(n.digits()[i as int] == '0');
                        }
                    }
                }
                return None;
            }
            i += 1;
        }
        proof {
            assert forall|j: int|
                0 <= j < n.digits().len() && j >= n.digits().len() + n.scale() implies #[trigger] n.digits()[j]
                == '0' by {
                assert(d@[j] == n.digits()[j]);
            }
        }
        if self.negative {
            return Some(0);
        }
        let magnitude: u128 = if k >= 0 {
            let mut v = saturating_value(&d, len, U32_LIMIT);
            let mut j: i128 = 0;
            proof {
                assert(d@.subrange(0, len as int) =~= d@);
                lemma_digits_value_nonneg(d@);
                assert(pow10(0) == 1);
            }
            while j < k
                invariant
                    0 <= j <= k,
                    digits_value(d@) >= 0,
                    v == min_int(digits_value(d@) * pow10(j as nat), U32_LIMIT as int),
                decreases k - j,
            {
                proof {
                    lemma_pow10_positive(j as nat);
                    assert(digits_value(d@) * pow10(j as nat) >= 0) by (nonlinear_arith)
                        requires
                            digits_value(d@) >= 0,
                            pow10(j as nat) > 0,
                    ;
                    lemma_saturate_step(digits_value(d@) * pow10(j as nat), 0, U32_LIMIT as int);
                    assert(pow10((j + 1) as nat) == 10 * pow10(((j + 1) as nat - 1) as nat));
                    assert(digits_value(d@) * pow10(j as nat) * 10 == digits_value(d@) * pow10(
                        (j + 1) as nat,
                    )) by (nonlinear_arith)
                        requires
                            pow10((j + 1) as nat) == 10 * pow10(j as nat),
                    ;
                }
                v = if v * 10 < U32_LIMIT {
                    v * 10
                } else {
                    U32_LIMIT
                };
                j += 1;
            }
            proof {
                assert(n.digits() == d@);
                if kt == k {
                    assert(n.integer_part() == digits_value(d@) * pow10(k as nat));
                } else {
                    // Both scales are at least 11, so a nonzero value overflows either way.
                    lemma_pow10_large(kt as nat);
                    lemma_pow10_large(k as nat);
                    assert(n.integer_part() == digits_value(d@) * pow10(kt as nat));
                    if digits_value(d@) > 0 {
                        assert(digits_value(d@) * pow10(kt as nat) >= pow10(kt as nat))
                            by (nonlinear_arith)
                            requires
                                digits_value(d@) > 0,
                                pow10(kt as nat) > 0,
                        ;
                        assert(digits_value(d@) * pow10(k as nat) >= pow10(k as nat))
                            by (nonlinear_arith)
                            requires
                                digits_value(d@) > 0,
                                pow10(k as nat) > 0,
                        ;
                    } else {
                        assert(digits_value(d@) == 0);
                        assert(digits_value(d@) * pow10(kt as nat) == 0) by (nonlinear_arith)
                            requires
                                digits_value(d@) == 0,
                        ;
                        assert(digits_value(d@) * pow10(k as nat) == 0) by (nonlinear_arith)
                            requires
                                digits_value(d@) == 0,
                        ;
                    }
                }
                assert(v == min_int(n.integer_part(), U32_LIMIT as int));
            }
            v
        } else if start_i > 0 {
            proof {
                assert(kt == k);
                assert(n.digits() == d@);
            }
            saturating_value(&d, start_i as usize, U32_LIMIT)
        } else {
            proof {
                assert(n.scale() < 0);
                assert(n.digits().len() + n.scale() <= 0);
            }
            0
        };
        proof {
            assert(magnitude == min_int(n.integer_part(), U32_LIMIT as int));
        }
        if magnitude > u32::MAX as u128 {
            Some(u32::MAX)
        } else {
            Some(magnitude as u32)
        }
    }

    /// This number as decimal text in the form `[-]I.FeX`, where an empty
    /// part is written `0`; every such text is a valid float literal.
    pub fn to_decimal_string(&self) -> (r: String)
        ensures
            r@ == decimal_text(self@),
    {
        let mut r = if self.negative {
            "-".to_owned()
        } else {
            String::new()
        };
        r.append(part_or_zero(&self.integer).as_str());
        r.append(".");
        r.append(part_or_zero(&self.fraction).as_str());
        r.append("e");
        if self.exponent_negative {
            r.append("-");
        }
        r.append(part_or_zero(&self.exponent).as_str());
        proof {
            assert(r@ =~= decimal_text(self@));
        }
        r
    }
}

} // verus!
