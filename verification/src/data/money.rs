//! Money: exact fixed-point decimal scalars ([`Number`]), currency tokens
//! ([`Currency`]), and multi-currency vectors ([`Amount`]).

use vstd::prelude::*;
use vstd::string::*;
use vstd::std_specs::cmp::PartialEqSpec;
use crate::data::digits::{
    all_digits, append_char, append_grouped, dec_digits, digit_val, digits_val, find_char_str,
    first_ix, grouped, i64_from_text, int_text_digits, int_text_val, is_digit, is_int_text,
    lemma_dec_digits, lemma_dec_digits_len_lower, lemma_digits_val_bound, lemma_digits_val_mod10,
    lemma_digits_val_nonneg, lemma_digits_val_split, lemma_first_ix_of, lemma_pow10_mono,
    lemma_pow10_pos, lemma_trim_zeros_last, parse_i64_str, pow10, pow10_i64, strs_equal,
    trim_zeros, trim_zeros_str, u64_digits,
};
use crate::data::assoc::{
    kv_map, kv_unique, lemma_kv_map_contains, lemma_kv_map_index, lemma_kv_map_push,
    lemma_kv_map_remove, lemma_kv_map_update,
};

verus! {

// ---------------------------------------------------------------------------
// Number
// ---------------------------------------------------------------------------

/// An exact decimal scalar: `value * 10^-n_decimals`.
///
/// Equality is on the pair of fields, so equal magnitudes at different
/// scales are distinct values; this is deliberate.
#[derive(Debug, Clone, Copy, PartialEq, Eq, Structural)]
pub struct Number {
    pub value: i64,
    pub n_decimals: u32,
}

/// Magnitude of a machine integer, as a mathematical natural.
pub open spec fn nat_abs(v: i64) -> nat {
    if v >= 0 {
        v as nat
    } else {
        (-(v as int)) as nat
    }
}

/// The negation of a `Number`; scale is kept.
pub open spec fn spec_neg(n: Number) -> Number
    recommends
        n.value != i64::MIN,
{
    Number { value: (-n.value) as i64, n_decimals: n.n_decimals }
}

/// The common scale both operands of an addition are promoted to.
pub open spec fn add_scale(a: Number, b: Number) -> nat {
    if a.n_decimals >= b.n_decimals {
        a.n_decimals as nat
    } else {
        b.n_decimals as nat
    }
}

/// Addition stays within the machine: the scale promotions keep `10^k`
/// representable and no intermediate product or the sum leaves `i64`.
pub open spec fn add_ok(a: Number, b: Number) -> bool {
    let m = add_scale(a, b);
    &&& m - a.n_decimals <= 18
    &&& m - b.n_decimals <= 18
    &&& i64::MIN <= a.value * pow10((m - a.n_decimals) as nat) <= i64::MAX
    &&& i64::MIN <= b.value * pow10((m - b.n_decimals) as nat) <= i64::MAX
    &&& i64::MIN <= a.value * pow10((m - a.n_decimals) as nat) + b.value * pow10(
        (m - b.n_decimals) as nat,
    ) <= i64::MAX
}

/// Exact addition: both operands promoted to the larger scale, then the
/// underlying integers added. No rounding ever happens.
pub open spec fn spec_add(a: Number, b: Number) -> Number
    recommends
        add_ok(a, b),
{
    let m = add_scale(a, b);
    Number {
        value: (a.value * pow10((m - a.n_decimals) as nat) + b.value * pow10(
            (m - b.n_decimals) as nat,
        )) as i64,
        n_decimals: m as u32,
    }
}

impl Default for Number {
    /// The canonical zero: value `0` at scale `0`.
    fn default() -> (r: Number)
        ensures
            r == (Number { value: 0, n_decimals: 0 }),
    {
        Number { value: 0, n_decimals: 0 }
    }
}

impl Number {
    pub fn is_zero(&self) -> (r: bool)
        ensures
            r == (self.value == 0),
    {
        self.value == 0
    }

    pub fn is_nonnegative(&self) -> (r: bool)
        ensures
            r == (self.value >= 0),
    {
        self.value >= 0
    }

    /// Flips the sign; the scale is unchanged.
    pub fn neg(self) -> (r: Number)
        requires
            self.value != i64::MIN,
        ensures
            r == spec_neg(self),
    {
        Number { value: -self.value, n_decimals: self.n_decimals }
    }

    /// Exact addition by scale promotion.
    pub fn add(self, other: Number) -> (r: Number)
        requires
            add_ok(self, other),
        ensures
            r == spec_add(self, other),
    {
        let n_decimals = if self.n_decimals >= other.n_decimals {
            self.n_decimals
        } else {
            other.n_decimals
        };
        let p1 = pow10_i64(n_decimals - self.n_decimals);
        let p2 = pow10_i64(n_decimals - other.n_decimals);
        let value = self.value * p1 + other.value * p2;
        Number { value, n_decimals }
    }

    /// Exact addition when it stays within the machine, nothing
    /// otherwise.
    pub fn checked_add(self, other: Number) -> (r: Option<Number>)
        ensures
            match r {
                Some(n) => add_ok(self, other) && n == spec_add(self, other),
                None => !add_ok(self, other),
            },
    {
        let m = if self.n_decimals >= other.n_decimals {
            self.n_decimals
        } else {
            other.n_decimals
        };
        let d1 = m - self.n_decimals;
        let d2 = m - other.n_decimals;
        if d1 > 18 || d2 > 18 {
            return None;
        }
        let p1 = pow10_i64(d1);
        let p2 = pow10_i64(d2);
        proof {
            reveal_with_fuel(pow10, 20);
            lemma_pow10_mono(d1 as nat, 18nat);
            lemma_pow10_mono(d2 as nat, 18nat);
            assert((self.value as int) * (p1 as int) <= 9223372036854775808000000000000000000 && (
            self.value as int) * (p1 as int) >= -9223372036854775808000000000000000000)
                by (nonlinear_arith)
                requires
                    -9223372036854775808 <= self.value as int <= 9223372036854775807,
                    1 <= p1 as int <= 1000000000000000000,
            ;
            assert((other.value as int) * (p2 as int) <= 9223372036854775808000000000000000000 && (
            other.value as int) * (p2 as int) >= -9223372036854775808000000000000000000)
                by (nonlinear_arith)
                requires
                    -9223372036854775808 <= other.value as int <= 9223372036854775807,
                    1 <= p2 as int <= 1000000000000000000,
            ;
        }
        let w1: i128 = (self.value as i128) * (p1 as i128);
        let w2: i128 = (other.value as i128) * (p2 as i128);
        if w1 < i64::MIN as i128 || w1 > i64::MAX as i128 {
            return None;
        }
        if w2 < i64::MIN as i128 || w2 > i64::MAX as i128 {
            return None;
        }
        let w = w1 + w2;
        if w < i64::MIN as i128 || w > i64::MAX as i128 {
            return None;
        }
        Some(Number { value: w as i64, n_decimals: m })
    }

    /// Exact subtraction: addition of the negation.
    pub fn sub(self, other: Number) -> (r: Number)
        requires
            other.value != i64::MIN,
            add_ok(self, spec_neg(other)),
        ensures
            r == spec_add(self, spec_neg(other)),
    {
        self.add(other.neg())
    }
}

// ---------------------------------------------------------------------------
// Parsing a Number
// ---------------------------------------------------------------------------

/// Parsing once a separator is fixed: the text before the first separator
/// is the signed integer part; the text between the first and second
/// separator, trailing zeros trimmed, gives the fractional digits; text
/// after a second separator is ignored. The combined value is
/// `units * 10^scale + sign(units) * fraction` and must fit in an `i64`,
/// with a scale of at most 18.
pub open spec fn number_with_sep(s: Seq<char>, sep: char) -> Option<Number> {
    let i = first_ix(s, sep);
    let units_txt = s.take(i);
    let rest = s.skip(i + 1);
    let dec_seg = if rest.contains(sep) {
        rest.take(first_ix(rest, sep))
    } else {
        rest
    };
    let dtrim = trim_zeros(dec_seg);
    let nd = dtrim.len() as int;
    match i64_from_text(units_txt) {
        None => None,
        Some(units) => {
            if nd == 0 {
                Some(Number { value: units, n_decimals: 0 })
            } else if nd > 18 {
                None
            } else {
                match i64_from_text(dtrim) {
                    None => None,
                    Some(frac) => {
                        let sign: int = if units >= 0 {
                            1
                        } else {
                            -1
                        };
                        let v = units * pow10(nd as nat) + frac * sign;
                        if i64::MIN <= v <= i64::MAX {
                            Some(Number { value: v as i64, n_decimals: nd as u32 })
                        } else {
                            None
                        }
                    },
                }
            }
        },
    }
}

/// What parsing a decimal literal yields. A comma is preferred over a dot
/// as the decimal separator when both occur; with no separator the whole
/// text is the signed integer part at scale zero.
pub open spec fn number_from_text(s: Seq<char>) -> Option<Number> {
    if s.contains(',') {
        number_with_sep(s, ',')
    } else if s.contains('.') {
        number_with_sep(s, '.')
    } else {
        match i64_from_text(s) {
            Some(v) => Some(Number { value: v, n_decimals: 0 }),
            None => None,
        }
    }
}

impl Number {
    /// Reads a decimal literal; see [`number_from_text`] for exactly which
    /// texts are accepted and what they denote.
    pub fn parse_str(s: &str) -> (r: Result<Number, &'static str>)
        ensures
            match number_from_text(s@) {
                Some(n) => r matches Ok(x) && x == n,
                None => r matches Err(m) && m@ == "Unparsable"@,
            },
    {
        let n_len = s.unicode_len();
        let comma = find_char_str(s, ',');
        let sep: char;
        let i: usize;
        match comma {
            Some(ci) => {
                sep = ',';
                i = ci;
            },
            None => {
                match find_char_str(s, '.') {
                    Some(di) => {
                        sep = '.';
                        i = di;
                    },
                    None => {
                        return match parse_i64_str(s) {
                            Some(v) => Ok(Number { value: v, n_decimals: 0 }),
                            None => Err("Unparsable"),
                        };
                    },
                }
            },
        }
        proof {
            assert(number_from_text(s@) == number_with_sep(s@, sep));
            assert(first_ix(s@, sep) == i);
        }
        let units_str = s.substring_char(0, i);
        let rest_str = s.substring_char(i + 1, n_len);
        proof {
            assert(units_str@ =~= s@.take(i as int));
            assert(rest_str@ =~= s@.skip(i as int + 1));
        }
        let dec_seg: &str = match find_char_str(rest_str, sep) {
            Some(j) => rest_str.substring_char(0, j),
            None => rest_str,
        };
        proof {
            if rest_str@.contains(sep) {
                assert(dec_seg@ =~= rest_str@.take(first_ix(rest_str@, sep)));
            }
        }
        let dtrim = trim_zeros_str(dec_seg);
        let units = match parse_i64_str(units_str) {
            Some(u) => u,
            None => {
                return Err("Unparsable");
            },
        };
        let nd = dtrim.unicode_len();
        if nd == 0 {
            return Ok(Number { value: units, n_decimals: 0 });
        }
        if nd > 18 {
            return Err("Unparsable");
        }
        let frac = match parse_i64_str(dtrim) {
            Some(f) => f,
            None => {
                return Err("Unparsable");
            },
        };
        proof {
            // The fraction comes from at most 18 digits, so its magnitude
            // is below 10^18.
            let digits = int_text_digits(dtrim@);
            lemma_digits_val_nonneg(digits);
            lemma_digits_val_bound(digits);
            lemma_pow10_mono(digits.len() as nat, 18nat);
            reveal_with_fuel(pow10, 20);
            assert(pow10(18) == 1000000000000000000);
            assert(-1000000000000000000 < frac < 1000000000000000000);
        }
        let p = pow10_i64(nd as u32);
        let signed_frac: i64 = if units >= 0 {
            frac
        } else {
            -frac
        };
        proof {
            reveal_with_fuel(pow10, 20);
            lemma_pow10_mono(nd as nat, 18nat);
            lemma_pow10_pos(nd as nat);
            assert((units as int) * (p as int) <= 9223372036854775808000000000000000000 && (
            units as int) * (p as int) >= -9223372036854775808000000000000000000)
                by (nonlinear_arith)
                requires
                    -9223372036854775808 <= units as int <= 9223372036854775807,
                    1 <= p as int <= 1000000000000000000,
            ;
        }
        let w: i128 = (units as i128) * (p as i128) + (signed_frac as i128);
        proof {
            let sign: int = if units >= 0 {
                1
            } else {
                -1
            };
            assert(frac * sign == if units >= 0 {
                frac as int
            } else {
                -(frac as int)
            }) by (nonlinear_arith)
                requires
                    sign == if units >= 0 {
                        1int
                    } else {
                        -1int
                    },
            ;
            assert(w as int == units * pow10(nd as nat) + frac * sign);
        }
        if w < (i64::MIN as i128) || w > (i64::MAX as i128) {
            return Err("Unparsable");
        }
        Ok(Number { value: w as i64, n_decimals: nd as u32 })
    }
}

impl core::str::FromStr for Number {
    type Err = &'static str;

    fn from_str(s: &str) -> Result<Number, &'static str> {
        Number::parse_str(s)
    }
}

// ---------------------------------------------------------------------------
// Rendering a Number
// ---------------------------------------------------------------------------

pub open spec fn zeros(k: int) -> Seq<char> {
    Seq::new(
        if k >= 0 {
            k as nat
        } else {
            0
        },
        |i: int| '0',
    )
}

pub open spec fn spaces(k: int) -> Seq<char> {
    Seq::new(
        if k >= 0 {
            k as nat
        } else {
            0
        },
        |i: int| ' ',
    )
}

/// The sign part of the canonical rendering: empty unless negative.
pub open spec fn number_sign_str(n: Number) -> Seq<char> {
    if n.value >= 0 {
        Seq::<char>::empty()
    } else {
        seq!['-']
    }
}

/// The integer part of the canonical rendering, grouped in thousands;
/// empty when the magnitude has no digits left of the decimal point.
pub open spec fn number_units_str(n: Number) -> Seq<char> {
    let ds = dec_digits(nat_abs(n.value));
    if ds.len() > n.n_decimals {
        grouped(ds.take(ds.len() - n.n_decimals))
    } else {
        Seq::<char>::empty()
    }
}

/// The fractional digits of the canonical rendering, zero-padded on the
/// left up to the scale.
pub open spec fn number_decimals_str(n: Number) -> Seq<char> {
    let ds = dec_digits(nat_abs(n.value));
    if ds.len() > n.n_decimals {
        ds.skip(ds.len() - n.n_decimals)
    } else {
        zeros(n.n_decimals - ds.len()) + ds
    }
}

/// The canonical text of a `Number`: sign, integer part (at least "0"),
/// a decimal point, and the fractional digits padded to two places.
pub open spec fn number_text(n: Number) -> Seq<char> {
    let units = number_units_str(n);
    let decs = number_decimals_str(n);
    number_sign_str(n) + (if units.len() == 0 {
        seq!['0']
    } else {
        units
    }) + seq!['.'] + decs + zeros(2 - decs.len())
}

fn append_spaces(out: &mut String, k: usize)
    ensures
        final(out)@ == old(out)@ + spaces(k as int),
{
    let mut i: usize = 0;
    while i < k
        invariant
            i <= k,
            out@ == old(out)@ + spaces(i as int),
        decreases k - i,
    {
        append_char(out, ' ');
        proof {
            assert(old(out)@ + spaces(i as int + 1) =~= (old(out)@ + spaces(i as int)).push(' '));
        }
        i += 1;
    }
}

fn append_zeros(out: &mut String, k: usize)
    ensures
        final(out)@ == old(out)@ + zeros(k as int),
{
    let mut i: usize = 0;
    while i < k
        invariant
            i <= k,
            out@ == old(out)@ + zeros(i as int),
        decreases k - i,
    {
        append_char(out, '0');
        proof {
            assert(old(out)@ + zeros(i as int + 1) =~= (old(out)@ + zeros(i as int)).push('0'));
        }
        i += 1;
    }
}

impl Number {
    /// The three pieces of the canonical rendering: sign, thousands-grouped
    /// integer part, and fractional digits.
    pub fn get_strings(&self) -> (r: (String, String, String))
        ensures
            r.0@ == number_sign_str(*self),
            r.1@ == number_units_str(*self),
            r.2@ == number_decimals_str(*self),
    {
        let mag: u64 = if self.value >= 0 {
            self.value as u64
        } else if self.value == i64::MIN {
            9223372036854775808u64
        } else {
            (-self.value) as u64
        };
        proof {
            assert(mag == nat_abs(self.value));
            lemma_dec_digits(mag as nat);
        }
        let ds = u64_digits(mag);
        let nd = self.n_decimals as usize;
        let mut sign = String::new();
        if self.value < 0 {
            append_char(&mut sign, '-');
            proof {
                assert(sign@ =~= number_sign_str(*self));
            }
        }
        let mut units = String::new();
        let mut decs = String::new();
        if ds.len() > nd {
            let cut = ds.len() - nd;
            append_grouped(&mut units, &ds, cut);
            let mut i: usize = cut;
            while i < ds.len()
                invariant
                    cut <= i <= ds@.len(),
                    all_digits(ds@),
                    decs@ == ds@.subrange(cut as int, i as int),
                decreases ds@.len() - i,
            {
                proof {
                    assert(is_digit(ds@[i as int]));
                }
                append_char(&mut decs, ds[i]);
                proof {
                    assert(ds@.subrange(cut as int, i as int + 1) =~= ds@.subrange(
                        cut as int,
                        i as int,
                    ).push(ds@[i as int]));
                }
                i += 1;
            }
            proof {
                assert(decs@ =~= ds@.skip(cut as int));
            }
        } else {
            append_zeros(&mut decs, nd - ds.len());
            let mut i: usize = 0;
            while i < ds.len()
                invariant
                    i <= ds@.len(),
                    all_digits(ds@),
                    nd >= ds@.len(),
                    decs@ == zeros(nd - ds@.len()) + ds@.take(i as int),
                decreases ds@.len() - i,
            {
                proof {
                    assert(is_digit(ds@[i as int]));
                }
                append_char(&mut decs, ds[i]);
                proof {
                    assert(zeros(nd - ds@.len()) + ds@.take(i as int + 1) =~= (zeros(
                        nd - ds@.len(),
                    ) + ds@.take(i as int)).push(ds@[i as int]));
                }
                i += 1;
            }
            proof {
                assert(ds@.take(ds@.len() as int) =~= ds@);
                assert(units@ =~= number_units_str(*self));
            }
        }
        (sign, units, decs)
    }

    /// The canonical text, e.g. `-123,456.425` or `0.40`.
    pub fn to_text(&self) -> (r: String)
        ensures
            r@ == number_text(*self),
    {
        let (sign, units, decs) = self.get_strings();
        let mut out = sign;
        if units.as_str().unicode_len() == 0 {
            append_char(&mut out, '0');
            proof {
                assert(number_units_str(*self) =~= Seq::<char>::empty());
                assert(out@ =~= number_sign_str(*self) + seq!['0']);
            }
        } else {
            out.append(units.as_str());
        }
        append_char(&mut out, '.');
        out.append(decs.as_str());
        let dl = decs.as_str().unicode_len();
        if dl < 2 {
            append_zeros(&mut out, 2 - dl);
        } else {
            proof {
                assert(zeros(2 - number_decimals_str(*self).len()) =~= Seq::<char>::empty());
            }
        }
        proof {
            assert(out@ =~= number_text(*self));
        }
        out
    }

    /// Renders within fixed slot widths, for aligned tabular output.
    #[verifier::rlimit(50)]
    pub fn format(&self, alignment: &NumberAlignment) -> (r: String)
        ensures
            r@ == number_format(*self, *alignment),
    {
        let (_, units, decs) = self.get_strings();
        let ul = units.as_str().unicode_len();
        let dl = decs.as_str().unicode_len();
        let mut out = String::new();
        if alignment.minus_alignment {
            if self.value >= 0 {
                append_char(&mut out, ' ');
            } else {
                append_char(&mut out, '-');
            }
            if ul < alignment.unit_slots {
                append_spaces(&mut out, alignment.unit_slots - ul);
            } else {
                proof {
                    assert(spaces(alignment.unit_slots - number_units_str(*self).len()) =~= Seq::<
                        char,
                    >::empty());
                }
            }
            out.append(units.as_str());
        } else {
            if ul < alignment.unit_slots {
                append_spaces(&mut out, alignment.unit_slots - ul);
            } else {
                proof {
                    assert(spaces(
                        alignment.unit_slots + 1 - (1 + number_units_str(*self).len()),
                    ) =~= Seq::<char>::empty());
                }
            }
            if self.value >= 0 {
                append_char(&mut out, ' ');
            } else {
                append_char(&mut out, '-');
            }
            out.append(units.as_str());
        }
        append_char(&mut out, '.');
        if dl < 2 {
            append_zeros(&mut out, 2 - dl);
        } else {
            proof {
                assert(zeros(2 - number_decimals_str(*self).len()) =~= Seq::<char>::empty());
            }
        }
        out.append(decs.as_str());
        let dpl = if dl >= 2 {
            dl
        } else {
            2
        };
        if dpl < alignment.decimal_slots {
            append_spaces(&mut out, alignment.decimal_slots - dpl);
        } else {
            proof {
                let padded = zeros(2 - number_decimals_str(*self).len()) + number_decimals_str(
                    *self,
                );
                assert(spaces(alignment.decimal_slots - padded.len()) =~= Seq::<char>::empty());
            }
        }
        proof {
            assert(out@ =~= number_format(*self, *alignment));
        }
        out
    }
}

/// Slot widths for aligned rendering of several `Number`s.
pub struct NumberAlignment {
    pub minus_alignment: bool,
    pub unit_slots: usize,
    pub decimal_slots: usize,
}

/// The widest integer part over a sequence of numbers.
pub open spec fn unit_slots_of(s: Seq<Number>) -> int
    decreases s.len(),
{
    if s.len() == 0 {
        0
    } else {
        let rest = unit_slots_of(s.drop_last());
        let this = number_units_str(s.last()).len() as int;
        if this >= rest {
            this
        } else {
            rest
        }
    }
}

/// The widest fractional part (at least two places) over a sequence.
pub open spec fn decimal_slots_of(s: Seq<Number>) -> int
    decreases s.len(),
{
    if s.len() == 0 {
        0
    } else {
        let rest = decimal_slots_of(s.drop_last());
        let this0 = number_decimals_str(s.last()).len() as int;
        let this = if this0 >= 2 {
            this0
        } else {
            2
        };
        if this >= rest {
            this
        } else {
            rest
        }
    }
}

/// The zero-padded fractional part, then the parts padded with spaces into
/// the alignment's slots; with `minus_alignment` the sign has a column of
/// its own, otherwise it is padded together with the integer part.
pub open spec fn number_format(n: Number, a: NumberAlignment) -> Seq<char> {
    let sign = if n.value >= 0 {
        seq![' ']
    } else {
        seq!['-']
    };
    let units = number_units_str(n);
    let decs0 = number_decimals_str(n);
    let decs = zeros(2 - decs0.len()) + decs0;
    if a.minus_alignment {
        sign + spaces(a.unit_slots - units.len()) + units + seq!['.'] + decs + spaces(
            a.decimal_slots - decs.len(),
        )
    } else {
        spaces(a.unit_slots + 1 - (sign + units).len()) + sign + units + seq!['.'] + decs + spaces(
            a.decimal_slots - decs.len(),
        )
    }
}

impl NumberAlignment {
    /// Slot widths wide enough for every number given.
    pub fn from_numbers(numbers: &Vec<Number>) -> (r: NumberAlignment)
        ensures
            r.minus_alignment == true,
            r.unit_slots == unit_slots_of(numbers@),
            r.decimal_slots == decimal_slots_of(numbers@),
    {
        let mut unit_slots: usize = 0;
        let mut decimal_slots: usize = 0;
        let mut i: usize = 0;
        while i < numbers.len()
            invariant
                i <= numbers@.len(),
                unit_slots == unit_slots_of(numbers@.take(i as int)),
                decimal_slots == decimal_slots_of(numbers@.take(i as int)),
            decreases numbers@.len() - i,
        {
            let (_, units, decimals) = numbers[i].get_strings();
            let n_units = units.as_str().unicode_len();
            let d = decimals.as_str().unicode_len();
            let n_decimals = if d >= 2 {
                d
            } else {
                2
            };
            if n_units > unit_slots {
                unit_slots = n_units;
            }
            if n_decimals > decimal_slots {
                decimal_slots = n_decimals;
            }
            proof {
                let t = numbers@.take(i as int + 1);
                assert(t.drop_last() =~= numbers@.take(i as int));
                assert(t.last() == numbers@[i as int]);
            }
            i += 1;
        }
        proof {
            assert(numbers@.take(numbers@.len() as int) =~= numbers@);
        }
        NumberAlignment { minus_alignment: true, unit_slots, decimal_slots }
    }
}

// ---------------------------------------------------------------------------
// Currency
// ---------------------------------------------------------------------------

/// An opaque currency token; two currencies are the same exactly when
/// their names are.
#[derive(Debug, Clone)]
pub struct Currency(pub String);

impl View for Currency {
    type V = Seq<char>;

    open spec fn view(&self) -> Seq<char> {
        self.0@
    }
}

impl Currency {
    pub fn new(name: &str) -> (r: Currency)
        ensures
            r@ == name@,
    {
        Currency(name.to_owned())
    }
}

impl PartialEq for Currency {
    /// Currencies are equal exactly when their names are.
    fn eq(&self, other: &Currency) -> (r: bool) {
        strs_equal(self.0.as_str(), other.0.as_str())
    }
}

impl vstd::std_specs::cmp::PartialEqSpecImpl for Currency {
    open spec fn obeys_eq_spec() -> bool {
        true
    }

    open spec fn eq_spec(&self, other: &Currency) -> bool {
        self@ == other@
    }
}

// ---------------------------------------------------------------------------
// Amount
// ---------------------------------------------------------------------------

/// A multi-currency amount: a mapping from currencies to non-zero
/// `Number`s. The empty mapping is the one representation of zero.
#[derive(Debug, Clone)]
pub struct Amount {
    amounts: Vec<(Currency, Number)>,
}

impl View for Amount {
    type V = Map<Seq<char>, Number>;

    open spec fn view(&self) -> Map<Seq<char>, Number> {
        kv_map(self.entry_seq())
    }
}

impl Amount {
    /// The stored entries, in storage order.
    pub closed spec fn entry_seq(self) -> Seq<(Currency, Number)> {
        self.amounts@
    }

    /// Canonical form: distinct currencies, and no stored zero.
    pub open spec fn wf(self) -> bool {
        &&& kv_unique(self.entry_seq())
        &&& forall|i: int|
            0 <= i < self.entry_seq().len() ==> (#[trigger] self.entry_seq()[i]).1.value != 0
    }
}

/// In a canonical amount every stored number is non-zero.
pub proof fn lemma_amount_wf_map(a: Amount)
    requires
        a.wf(),
    ensures
        forall|c: Seq<char>| #[trigger] a@.contains_key(c) ==> a@[c].value != 0,
{
    assert forall|c: Seq<char>| #[trigger] a@.contains_key(c) implies a@[c].value != 0 by {
        lemma_kv_map_contains(a.amounts@, c);
        let i = choose|i: int| 0 <= i < a.amounts@.len() && (#[trigger] a.amounts@[i]).0@ == c;
        lemma_kv_map_index(a.amounts@, i);
    }
}

/// Both additions performed on a shared currency stay within the machine.
pub open spec fn amount_add_ok(m1: Map<Seq<char>, Number>, m2: Map<Seq<char>, Number>) -> bool {
    forall|c: Seq<char>|
        #[trigger] m1.contains_key(c) && #[trigger] m2.contains_key(c) ==> add_ok(m1[c], m2[c])
}

/// Pointwise addition; currencies whose sum is zero are dropped.
pub open spec fn amount_add(m1: Map<Seq<char>, Number>, m2: Map<Seq<char>, Number>) -> Map<
    Seq<char>,
    Number,
> {
    Map::new(
        |c: Seq<char>|
            if m1.contains_key(c) && m2.contains_key(c) {
                spec_add(m1[c], m2[c]).value != 0
            } else {
                m1.contains_key(c) || m2.contains_key(c)
            },
        |c: Seq<char>|
            if m1.contains_key(c) && m2.contains_key(c) {
                spec_add(m1[c], m2[c])
            } else if m1.contains_key(c) {
                m1[c]
            } else {
                m2[c]
            },
    )
}

/// No stored value is the one integer whose negation overflows.
pub open spec fn amount_neg_ok(m: Map<Seq<char>, Number>) -> bool {
    forall|c: Seq<char>| #[trigger] m.contains_key(c) ==> m[c].value != i64::MIN
}

/// Pointwise negation; the currencies are kept.
pub open spec fn amount_neg(m: Map<Seq<char>, Number>) -> Map<Seq<char>, Number> {
    Map::new(|c: Seq<char>| m.contains_key(c), |c: Seq<char>| spec_neg(m[c]))
}

pub proof fn lemma_amount_add_empty(m: Map<Seq<char>, Number>)
    ensures
        amount_add(m, Map::<Seq<char>, Number>::empty()) == m,
{
    assert(amount_add(m, Map::<Seq<char>, Number>::empty()) =~= m);
}

/// One step of folding a fresh currency into a running sum.
proof fn lemma_amount_add_insert(
    m1: Map<Seq<char>, Number>,
    m2: Map<Seq<char>, Number>,
    c: Seq<char>,
    n: Number,
)
    requires
        !m2.contains_key(c),
        n.value != 0,
    ensures
        amount_add(m1, m2.insert(c, n)) == (if m1.contains_key(c) {
            if spec_add(m1[c], n).value != 0 {
                amount_add(m1, m2).insert(c, spec_add(m1[c], n))
            } else {
                amount_add(m1, m2).remove(c)
            }
        } else {
            amount_add(m1, m2).insert(c, n)
        }),
{
    let lhs = amount_add(m1, m2.insert(c, n));
    if m1.contains_key(c) {
        if spec_add(m1[c], n).value != 0 {
            assert(lhs =~= amount_add(m1, m2).insert(c, spec_add(m1[c], n)));
        } else {
            assert(lhs =~= amount_add(m1, m2).remove(c));
        }
    } else {
        assert(lhs =~= amount_add(m1, m2).insert(c, n));
    }
}

impl Default for Amount {
    /// The zero amount: no currencies at all.
    fn default() -> (r: Amount)
        ensures
            r.wf(),
            r@ == Map::<Seq<char>, Number>::empty(),
    {
        let r = Amount { amounts: Vec::new() };
        proof {
            assert(r@ =~= Map::<Seq<char>, Number>::empty());
        }
        r
    }
}

impl Amount {
    /// Index of the entry for a currency, if stored.
    fn find(&self, c: &Currency) -> (r: Option<usize>)
        ensures
            match r {
                Some(i) => i < self.amounts@.len() && self.amounts@[i as int].0@ == c@,
                None => !self@.contains_key(c@),
            },
    {
        let mut i: usize = 0;
        while i < self.amounts.len()
            invariant
                i <= self.amounts@.len(),
                forall|j: int| 0 <= j < i ==> (#[trigger] self.amounts@[j]).0@ != c@,
            decreases self.amounts@.len() - i,
        {
            if strs_equal(self.amounts[i].0.0.as_str(), c.0.as_str()) {
                return Some(i);
            }
            i += 1;
        }
        proof {
            lemma_kv_map_contains(self.amounts@, c@);
        }
        None
    }

    /// The stored entries, for walking an amount from inside the crate.
    pub(crate) fn entries_ref(&self) -> (r: &Vec<(Currency, Number)>)
        ensures
            r@ == self.entry_seq(),
    {
        &self.amounts
    }

    /// A copy holding the same entries in the same order.
    pub fn duplicate(&self) -> (r: Amount)
        ensures
            r.entry_seq() == self.entry_seq(),
            r@ == self@,
            r.wf() == self.wf(),
    {
        let mut v: Vec<(Currency, Number)> = Vec::new();
        let mut i: usize = 0;
        while i < self.amounts.len()
            invariant
                i <= self.amounts@.len(),
                v@ == self.amounts@.take(i as int),
            decreases self.amounts@.len() - i,
        {
            v.push((Currency(self.amounts[i].0.0.clone()), self.amounts[i].1));
            proof {
                assert(self.amounts@.take(i as int + 1) =~= self.amounts@.take(i as int).push(
                    self.amounts@[i as int],
                ));
            }
            i += 1;
        }
        proof {
            assert(self.amounts@.take(self.amounts@.len() as int) =~= self.amounts@);
        }
        Amount { amounts: v }
    }

    /// Builds an amount from ready entries: zero numbers are dropped, a
    /// repeated currency is an error.
    pub fn from_entries(entries: &Vec<(Currency, Number)>) -> (r: Result<Amount, &'static str>)
        ensures
            match r {
                Ok(a) => {
                    &&& a.wf()
                    &&& forall|c: Seq<char>|
                        #[trigger] a@.contains_key(c) <==> exists|i: int|
                            0 <= i < entries@.len() && (#[trigger] entries@[i]).0@ == c
                                && entries@[i].1.value != 0
                    &&& forall|i: int|
                        0 <= i < entries@.len() && (#[trigger] entries@[i]).1.value != 0
                            ==> a@[entries@[i].0@] == entries@[i].1
                },
                Err(m) => m@ == "Same currency introduced twice"@,
            },
    {
        let mut out: Vec<(Currency, Number)> = Vec::new();
        let mut i: usize = 0;
        while i < entries.len()
            invariant
                i <= entries@.len(),
                kv_unique(out@),
                forall|j: int| 0 <= j < out@.len() ==> (#[trigger] out@[j]).1.value != 0,
                forall|c: Seq<char>|
                    #[trigger] kv_map(out@).contains_key(c) <==> exists|k: int|
                        0 <= k < i && (#[trigger] entries@[k]).0@ == c && entries@[k].1.value != 0,
                forall|k: int|
                    0 <= k < i && (#[trigger] entries@[k]).1.value != 0 ==> kv_map(
                        out@,
                    )[entries@[k].0@] == entries@[k].1,
            decreases entries@.len() - i,
        {
            let n = entries[i].1;
            if n.value != 0 {
                let mut dup = false;
                let mut d: usize = 0;
                while d < out.len()
                    invariant
                        d <= out@.len(),
                        dup ==> exists|j: int|
                            0 <= j < out@.len() && (#[trigger] out@[j]).0@
                                == entries@[i as int].0@,
                        !dup ==> forall|j: int|
                            0 <= j < d ==> (#[trigger] out@[j]).0@ != entries@[i as int].0@,
                        i < entries@.len(),
                    decreases out@.len() - d,
                {
                    if strs_equal(out[d].0.0.as_str(), entries[i].0.0.as_str()) {
                        dup = true;
                    }
                    d += 1;
                }
                if dup {
                    return Err("Same currency introduced twice");
                }
                let ghost prev = out@;
                proof {
                    lemma_kv_map_contains(prev, entries@[i as int].0@);
                    lemma_kv_map_push(prev, (entries@[i as int].0, n));
                }
                out.push((Currency(entries[i].0.0.clone()), n));
                proof {
                    assert(out@ =~= prev.push((entries@[i as int].0, n)));
                    assert forall|j: int|
                        0 <= j < out@.len() implies (#[trigger] out@[j]).1.value != 0 by {
                        if j < prev.len() {
                            assert(out@[j] == prev[j]);
                        }
                    }
                    assert forall|c: Seq<char>| #[trigger]
                        kv_map(out@).contains_key(c) <==> exists|k: int|
                            0 <= k < i + 1 && (#[trigger] entries@[k]).0@ == c
                                && entries@[k].1.value != 0 by {
                        if kv_map(out@).contains_key(c) {
                            if c != entries@[i as int].0@ {
                                assert(kv_map(prev).contains_key(c));
                            } else {
                                assert(entries@[i as int].0@ == c && entries@[i as int].1.value
                                    != 0);
                            }
                        }
                        if exists|k: int|
                            0 <= k < i + 1 && (#[trigger] entries@[k]).0@ == c
                                && entries@[k].1.value != 0 {
                            let k = choose|k: int|
                                0 <= k < i + 1 && (#[trigger] entries@[k]).0@ == c
                                    && entries@[k].1.value != 0;
                            if k < i {
                                assert(kv_map(prev).contains_key(c));
                            }
                        }
                    }
                }
            } else {
                proof {
                    assert forall|c: Seq<char>| #[trigger]
                        kv_map(out@).contains_key(c) <==> exists|k: int|
                            0 <= k < i + 1 && (#[trigger] entries@[k]).0@ == c
                                && entries@[k].1.value != 0 by {
                        if exists|k: int|
                            0 <= k < i + 1 && (#[trigger] entries@[k]).0@ == c
                                && entries@[k].1.value != 0 {
                            let k = choose|k: int|
                                0 <= k < i + 1 && (#[trigger] entries@[k]).0@ == c
                                    && entries@[k].1.value != 0;
                            assert(k < i);
                        }
                    }
                }
            }
            i += 1;
        }
        Ok(Amount { amounts: out })
    }

    /// An amount is zero exactly when it maps no currency.
    pub fn is_zero(&self) -> (r: bool)
        ensures
            r == (self@ == Map::<Seq<char>, Number>::empty()),
    {
        let r = self.amounts.len() == 0;
        proof {
            if self.amounts@.len() == 0 {
                assert(self@ =~= Map::<Seq<char>, Number>::empty());
            } else {
                lemma_kv_map_contains(self.amounts@, self.amounts@[0].0@);
                assert(self@.contains_key(self.amounts@[0].0@));
            }
        }
        r
    }

    /// The currencies stored, in storage order.
    pub fn currencies(&self) -> (r: Vec<Currency>)
        ensures
            r@.len() == self.entry_seq().len(),
            forall|i: int| 0 <= i < r@.len() ==> (#[trigger] r@[i])@ == self.entry_seq()[i].0@,
            forall|c: Seq<char>|
                #[trigger] self@.contains_key(c) <==> exists|i: int|
                    0 <= i < r@.len() && (#[trigger] r@[i])@ == c,
    {
        let mut r: Vec<Currency> = Vec::new();
        let mut i: usize = 0;
        while i < self.amounts.len()
            invariant
                i <= self.amounts@.len(),
                r@.len() == i,
                forall|j: int| 0 <= j < i ==> (#[trigger] r@[j])@ == self.amounts@[j].0@,
            decreases self.amounts@.len() - i,
        {
            r.push(Currency(self.amounts[i].0.0.clone()));
            i += 1;
        }
        proof {
            assert forall|c: Seq<char>| #[trigger]
                self@.contains_key(c) <==> exists|i: int|
                    0 <= i < r@.len() && (#[trigger] r@[i])@ == c by {
                lemma_kv_map_contains(self.amounts@, c);
                if exists|i: int| 0 <= i < self.amounts@.len() && (#[trigger] self.amounts@[i]).0@
                    == c {
                    let i = choose|i: int|
                        0 <= i < self.amounts@.len() && (#[trigger] self.amounts@[i]).0@ == c;
                    assert(r@[i]@ == c);
                }
                if exists|i: int| 0 <= i < r@.len() && (#[trigger] r@[i])@ == c {
                    let i = choose|i: int| 0 <= i < r@.len() && (#[trigger] r@[i])@ == c;
                    assert(self.amounts@[i].0@ == c);
                }
            }
        }
        r
    }

    /// The stored number for a currency, or the canonical zero: an amount
    /// is zero-extended over all currencies it does not mention.
    pub fn in_currency(&self, currency: &Currency) -> (r: Number)
        requires
            self.wf(),
        ensures
            r == if self@.contains_key(currency@) {
                self@[currency@]
            } else {
                Number { value: 0, n_decimals: 0 }
            },
    {
        match self.find(currency) {
            Some(i) => {
                proof {
                    lemma_kv_map_index(self.amounts@, i as int);
                }
                self.amounts[i].1
            },
            None => Number::default(),
        }
    }

    /// Pointwise negation of every stored number.
    pub fn neg(&self) -> (r: Amount)
        requires
            self.wf(),
            amount_neg_ok(self@),
        ensures
            r.wf(),
            r@ == amount_neg(self@),
    {
        let mut out: Vec<(Currency, Number)> = Vec::new();
        let mut i: usize = 0;
        while i < self.amounts.len()
            invariant
                self.wf(),
                amount_neg_ok(self@),
                i <= self.amounts@.len(),
                out@.len() == i,
                forall|j: int|
                    0 <= j < i ==> (#[trigger] out@[j]).0@ == self.amounts@[j].0@ && out@[j].1
                        == spec_neg(self.amounts@[j].1),
            decreases self.amounts@.len() - i,
        {
            proof {
                lemma_kv_map_index(self.amounts@, i as int);
                assert(self@[self.amounts@[i as int].0@].value != i64::MIN);
            }
            let n = self.amounts[i].1;
            out.push((Currency(self.amounts[i].0.0.clone()), n.neg()));
            i += 1;
        }
        let r = Amount { amounts: out };
        proof {
            assert forall|a: int, b: int| 0 <= a < b < out@.len() implies (#[trigger] out@[a]).0@
                != (#[trigger] out@[b]).0@ by {
                assert(self.amounts@[a].0@ != self.amounts@[b].0@);
            }
            assert forall|j: int| 0 <= j < out@.len() implies (#[trigger] out@[j]).1.value != 0 by {
                lemma_kv_map_index(self.amounts@, j);
                assert(self.amounts@[j].1.value != 0);
                assert(self.amounts@[j].1.value != i64::MIN);
            }
            assert forall|c: Seq<char>|
                kv_map(out@).contains_key(c) <==> amount_neg(self@).contains_key(c) by {
                lemma_kv_map_contains(out@, c);
                lemma_kv_map_contains(self.amounts@, c);
                if exists|i: int| 0 <= i < out@.len() && (#[trigger] out@[i]).0@ == c {
                    let i = choose|i: int| 0 <= i < out@.len() && (#[trigger] out@[i]).0@ == c;
                    assert(self.amounts@[i].0@ == c);
                }
                if self@.contains_key(c) {
                    let i = choose|i: int|
                        0 <= i < self.amounts@.len() && (#[trigger] self.amounts@[i]).0@ == c;
                    assert(out@[i].0@ == c);
                }
            }
            assert forall|c: Seq<char>| kv_map(out@).contains_key(c) implies kv_map(out@)[c]
                == amount_neg(self@)[c] by {
                lemma_kv_map_contains(out@, c);
                let i = choose|i: int| 0 <= i < out@.len() && (#[trigger] out@[i]).0@ == c;
                lemma_kv_map_index(out@, i);
                lemma_kv_map_index(self.amounts@, i);
            }
            assert(kv_map(out@) =~= amount_neg(self@));
        }
        r
    }

    /// Adds another amount currency by currency, dropping currencies that
    /// cancel to zero; nothing is yielded when some shared currency's
    /// addition would leave the machine.
    pub fn checked_add(self, other: &Amount) -> (r: Option<Amount>)
        requires
            self.wf(),
            other.wf(),
        ensures
            match r {
                Some(a) => amount_add_ok(self@, other@) && a.wf() && a@ == amount_add(
                    self@,
                    other@,
                ),
                None => !amount_add_ok(self@, other@),
            },
    {
        let ghost m1 = self@;
        let ghost m2 = other@;
        let mut cur = self;
        let mut i: usize = 0;
        proof {
            lemma_amount_add_empty(m1);
            assert(other.amounts@.take(0) =~= Seq::<(Currency, Number)>::empty());
        }
        while i < other.amounts.len()
            invariant
                i <= other.amounts@.len(),
                other.wf(),
                m1 == self@,
                m2 == other@,
                amount_add_ok(m1, kv_map(other.amounts@.take(i as int))),
                cur.wf(),
                cur@ == amount_add(m1, kv_map(other.amounts@.take(i as int))),
            decreases other.amounts@.len() - i,
        {
            let ghost m2i = kv_map(other.amounts@.take(i as int));
            let n = other.amounts[i].1;
            proof {
                lemma_kv_map_index(other.amounts@, i as int);
                assert(m2.contains_key(other.amounts@[i as int].0@));
                assert(m2[other.amounts@[i as int].0@] == n);
                assert(n.value != 0);
                lemma_kv_map_contains(
                    other.amounts@.take(i as int),
                    other.amounts@[i as int].0@,
                );
                assert forall|j: int| 0 <= j < i implies (#[trigger] other.amounts@.take(
                    i as int,
                )[j]).0@ != other.amounts@[i as int].0@ by {
                    assert(other.amounts@.take(i as int)[j] == other.amounts@[j]);
                }
                assert(!m2i.contains_key(other.amounts@[i as int].0@));
                // the spec fold takes exactly this step
                lemma_amount_add_insert(m1, m2i, other.amounts@[i as int].0@, n);
                assert(other.amounts@.take(i as int + 1) =~= other.amounts@.take(i as int).push(
                    other.amounts@[i as int],
                ));
                crate::data::assoc::lemma_kv_unique_sub(
                    other.amounts@,
                    other.amounts@.take(i as int),
                );
                lemma_kv_map_push(other.amounts@.take(i as int), other.amounts@[i as int]);
            }
            let found = cur.find(&other.amounts[i].0);
            match found {
                Some(idx) => {
                    let ghost prev = cur.amounts@;
                    let ghost c = other.amounts@[i as int].0@;
                    proof {
                        lemma_kv_map_index(prev, idx as int);
                        assert(cur@.contains_key(c));
                        assert(cur@[c] == prev[idx as int].1);
                        // the running value at a currency not yet folded is
                        // still the left operand's
                        assert(m1.contains_key(c));
                        assert(cur@[c] == m1[c]);
                    }
                    let s = cur.amounts[idx].1;
                    let sum = match s.checked_add(n) {
                        Some(x) => x,
                        None => {
                            proof {
                                assert(m1.contains_key(c) && m2.contains_key(c) && !add_ok(
                                    m1[c],
                                    m2[c],
                                ));
                            }
                            return None;
                        },
                    };
                    if sum.value == 0 {
                        let _ = cur.amounts.remove(idx);
                        proof {
                            lemma_kv_map_remove(prev, idx as int);
                            assert forall|j: int|
                                0 <= j < cur.amounts@.len() implies (#[trigger] cur.amounts@[j]).1.value
                                != 0 by {
                                if j < idx {
                                    assert(cur.amounts@[j] == prev[j]);
                                } else {
                                    assert(cur.amounts@[j] == prev[j + 1]);
                                }
                            }
                        }
                    } else {
                        cur.amounts[idx].1 = sum;
                        proof {
                            lemma_kv_map_update(prev, idx as int, (prev[idx as int].0, sum));
                            assert(cur.amounts@ =~= prev.update(
                                idx as int,
                                (prev[idx as int].0, sum),
                            ));
                            assert forall|j: int|
                                0 <= j < cur.amounts@.len() implies (#[trigger] cur.amounts@[j]).1.value
                                != 0 by {
                                if j != idx {
                                    assert(cur.amounts@[j] == prev[j]);
                                }
                            }
                        }
                    }
                },
                None => {
                    let ghost prev = cur.amounts@;
                    let ghost c = other.amounts@[i as int].0@;
                    proof {
                        assert(!cur@.contains_key(c));
                        // a currency absent from the running sum and not yet
                        // folded is absent from the left operand
                        assert(!m1.contains_key(c));
                        lemma_kv_map_push(prev, (other.amounts@[i as int].0, n));
                    }
                    let c_clone = Currency(other.amounts[i].0.0.clone());
                    cur.amounts.push((c_clone, n));
                    proof {
                        assert(cur.amounts@ =~= prev.push((other.amounts@[i as int].0, n)));
                        assert forall|j: int|
                            0 <= j < cur.amounts@.len() implies (#[trigger] cur.amounts@[j]).1.value
                            != 0 by {
                            if j < prev.len() {
                                assert(cur.amounts@[j] == prev[j]);
                            }
                        }
                    }
                },
            }
            proof {
                let c = other.amounts@[i as int].0@;
                let m2next = kv_map(other.amounts@.take(i as int + 1));
                assert forall|c2: Seq<char>| #[trigger]
                    m1.contains_key(c2) && #[trigger] m2next.contains_key(c2) implies add_ok(
                    m1[c2],
                    m2next[c2],
                ) by {
                    if c2 != c {
                        assert(m2next[c2] == kv_map(other.amounts@.take(i as int))[c2]);
                    }
                }
            }
            i += 1;
        }
        proof {
            assert(other.amounts@.take(other.amounts@.len() as int) =~= other.amounts@);
        }
        Some(cur)
    }

    /// Adds another amount currency by currency, dropping currencies that
    /// cancel to zero.
    pub fn add(self, other: &Amount) -> (r: Amount)
        requires
            self.wf(),
            other.wf(),
            amount_add_ok(self@, other@),
        ensures
            r.wf(),
            r@ == amount_add(self@, other@),
    {
        match self.checked_add(other) {
            Some(a) => a,
            None => {
                proof {
                    assert(false);
                }
                Amount::default()
            },
        }
    }

    /// Subtraction: addition of the negation.
    pub fn sub(self, other: &Amount) -> (r: Amount)
        requires
            self.wf(),
            other.wf(),
            amount_neg_ok(other@),
            amount_add_ok(self@, amount_neg(other@)),
        ensures
            r.wf(),
            r@ == amount_add(self@, amount_neg(other@)),
    {
        let negated = other.neg();
        self.add(&negated)
    }
}

/// The canonical listing of an amount: each entry's number, a blank, its
/// currency, and a trailing comma-blank pair.
pub open spec fn amount_text(e: Seq<(Currency, Number)>) -> Seq<char>
    decreases e.len(),
{
    if e.len() == 0 {
        Seq::<char>::empty()
    } else {
        amount_text(e.drop_last()) + number_text(e.last().1) + seq![' '] + e.last().0@ + seq![
            ',',
            ' ',
        ]
    }
}

impl Amount {
    /// Renders every entry in storage order, as `12.50 EUR, 3.00 USD, `.
    pub fn to_text(&self) -> (r: String)
        ensures
            r@ == amount_text(self.entry_seq()),
    {
        let mut out = String::new();
        let mut i: usize = 0;
        while i < self.amounts.len()
            invariant
                i <= self.amounts@.len(),
                out@ == amount_text(self.amounts@.take(i as int)),
            decreases self.amounts@.len() - i,
        {
            let nt = self.amounts[i].1.to_text();
            out.append(nt.as_str());
            append_char(&mut out, ' ');
            out.append(self.amounts[i].0.0.as_str());
            append_char(&mut out, ',');
            append_char(&mut out, ' ');
            proof {
                let t = self.amounts@.take(i as int + 1);
                assert(t.drop_last() =~= self.amounts@.take(i as int));
                assert(t.last() == self.amounts@[i as int]);
                assert(out@ =~= amount_text(t));
            }
            i += 1;
        }
        proof {
            assert(self.amounts@.take(self.amounts@.len() as int) =~= self.amounts@);
        }
        out
    }
}

// ---------------------------------------------------------------------------
// Parsing an Amount
// ---------------------------------------------------------------------------

/// Index at which the first `", "` begins, or `-1` when there is none.
pub open spec fn sep2_ix(s: Seq<char>) -> int
    decreases s.len(),
{
    if s.len() < 2 {
        -1
    } else if s[0] == ',' && s[1] == ' ' {
        0
    } else {
        let r = sep2_ix(s.drop_first());
        if r < 0 {
            -1
        } else {
            1 + r
        }
    }
}

proof fn lemma_sep2_of(s: Seq<char>, i: int)
    requires
        0 <= i,
        i + 1 < s.len(),
        s[i] == ',',
        s[i + 1] == ' ',
        forall|j: int| 0 <= j < i ==> !((#[trigger] s[j]) == ',' && s[j + 1] == ' '),
    ensures
        sep2_ix(s) == i,
    decreases s.len(),
{
    if i == 0 {
    } else {
        assert(!(s[0] == ',' && s[1] == ' '));
        let d = s.drop_first();
        assert(d[i - 1] == ',' && d[i] == ' ');
        assert forall|j: int| 0 <= j < i - 1 implies !((#[trigger] d[j]) == ',' && d[j + 1]
            == ' ') by {
            assert(d[j] == s[j + 1] && d[j + 1] == s[j + 2]);
        }
        lemma_sep2_of(d, i - 1);
    }
}

proof fn lemma_sep2_none(s: Seq<char>)
    requires
        forall|j: int| 0 <= j && j + 1 < s.len() ==> !((#[trigger] s[j]) == ',' && s[j + 1] == ' '),
    ensures
        sep2_ix(s) == -1,
    decreases s.len(),
{
    if s.len() >= 2 {
        assert(!(s[0] == ',' && s[1] == ' '));
        let d = s.drop_first();
        assert forall|j: int| 0 <= j && j + 1 < d.len() implies !((#[trigger] d[j]) == ',' && d[j
            + 1] == ' ') by {
            assert(d[j] == s[j + 1] && d[j + 1] == s[j + 2]);
        }
        lemma_sep2_none(d);
    }
}

/// Finds the first `", "` at or after `from`.
fn find_sep2_from(s: &str, from: usize) -> (r: Option<usize>)
    requires
        from <= s@.len(),
    ensures
        match r {
            Some(k) => from <= k && k + 1 < s@.len() && sep2_ix(s@.skip(from as int)) == k - from,
            None => sep2_ix(s@.skip(from as int)) == -1,
        },
{
    let n = s.unicode_len();
    let ghost t = s@.skip(from as int);
    let mut k: usize = from;
    while n - k > 1
        invariant
            from <= k <= n == s@.len(),
            t == s@.skip(from as int),
            forall|j: int| from <= j && j < k ==> !((#[trigger] s@[j]) == ',' && s@[j + 1] == ' '),
        decreases n - k,
    {
        if s.get_char(k) == ',' && s.get_char(k + 1) == ' ' {
            proof {
                assert(t[k - from] == s@[k as int] && t[k - from + 1] == s@[k as int + 1]);
                assert forall|j: int| 0 <= j < k - from implies !((#[trigger] t[j]) == ',' && t[j
                    + 1] == ' ') by {
                    assert(t[j] == s@[j + from] && t[j + 1] == s@[j + from + 1]);
                }
                lemma_sep2_of(t, k - from);
            }
            return Some(k);
        }
        k += 1;
    }
    proof {
        assert forall|j: int| 0 <= j && j + 1 < t.len() implies !((#[trigger] t[j]) == ',' && t[j
            + 1] == ' ') by {
            assert(t[j] == s@[j + from] && t[j + 1] == s@[j + from + 1]);
        }
        lemma_sep2_none(t);
    }
    None
}

/// Some accumulated entry already carries this currency name.
pub open spec fn names_contain(acc: Seq<(Seq<char>, Number)>, k: Seq<char>) -> bool {
    exists|i: int| 0 <= i < acc.len() && (#[trigger] acc[i]).0 == k
}

/// One `"<number> <currency>"` segment folded into the accumulated
/// entries: an unreadable number is an error; a zero number is dropped
/// before anything else is looked at; then the currency must be present,
/// must not be followed by more text, and must be new.
pub open spec fn segment_entry(seg: Seq<char>, acc: Seq<(Seq<char>, Number)>) -> Result<
    Seq<(Seq<char>, Number)>,
    Seq<char>,
> {
    let has_space = seg.contains(' ');
    let num_txt = if has_space {
        seg.take(first_ix(seg, ' '))
    } else {
        seg
    };
    match number_from_text(num_txt) {
        None => Err("Parse error"@),
        Some(n) => {
            if n.value == 0 {
                Ok(acc)
            } else if !has_space {
                Err("Format issue"@)
            } else {
                let cur = seg.skip(first_ix(seg, ' ') + 1);
                if cur.contains(' ') {
                    Err("What the hell???!"@)
                } else if names_contain(acc, cur) {
                    Err("Same currency introduced twice"@)
                } else {
                    Ok(acc.push((cur, n)))
                }
            }
        },
    }
}

/// The text split on `", "`, each segment folded in turn.
pub open spec fn amount_entries(s: Seq<char>, acc: Seq<(Seq<char>, Number)>) -> Result<
    Seq<(Seq<char>, Number)>,
    Seq<char>,
>
    decreases s.len(),
{
    let ix = sep2_ix(s);
    let more = 0 <= ix && ix + 1 < s.len();
    let seg = if more {
        s.take(ix)
    } else {
        s
    };
    match segment_entry(seg, acc) {
        Err(m) => Err(m),
        Ok(acc2) => {
            if more {
                amount_entries(s.skip(ix + 2), acc2)
            } else {
                Ok(acc2)
            }
        },
    }
}

/// What parsing a comma-separated amount listing yields: the entries in
/// order, or the message of the first failure.
pub open spec fn amount_from_text(s: Seq<char>) -> Result<Seq<(Seq<char>, Number)>, Seq<char>> {
    amount_entries(s, Seq::<(Seq<char>, Number)>::empty())
}

/// The mapping described by a sequence of parsed entries.
pub open spec fn entries_to_map(e: Seq<(Seq<char>, Number)>) -> Map<Seq<char>, Number>
    decreases e.len(),
{
    if e.len() == 0 {
        Map::empty()
    } else {
        entries_to_map(e.drop_last()).insert(e.last().0, e.last().1)
    }
}

proof fn lemma_kv_entries_map(a: Seq<(Currency, Number)>, e: Seq<(Seq<char>, Number)>)
    requires
        a.len() == e.len(),
        forall|i: int| 0 <= i < a.len() ==> (#[trigger] a[i]).0@ == e[i].0 && a[i].1 == e[i].1,
    ensures
        kv_map(a) == entries_to_map(e),
    decreases a.len(),
{
    if a.len() > 0 {
        assert forall|i: int| 0 <= i < a.len() - 1 implies (#[trigger] a.drop_last()[i]).0@
            == e.drop_last()[i].0 && a.drop_last()[i].1 == e.drop_last()[i].1 by {
            assert(a.drop_last()[i] == a[i] && e.drop_last()[i] == e[i]);
        }
        lemma_kv_entries_map(a.drop_last(), e.drop_last());
        assert(a.last().0@ == e.last().0 && a.last().1 == e.last().1);
    }
}

impl Amount {
    /// Reads a comma-separated listing of numbers with currencies; see
    /// [`amount_from_text`] for exactly which texts are accepted.
    pub fn parse_str(s: &str) -> (r: Result<Amount, &'static str>)
        ensures
            match amount_from_text(s@) {
                Ok(entries) => r matches Ok(a) && a.wf() && a@ == entries_to_map(entries)
                    && a.entry_seq().len() == entries.len() && (forall|i: int|
                    0 <= i < entries.len() ==> (#[trigger] a.entry_seq()[i]).0@ == entries[i].0
                        && a.entry_seq()[i].1 == entries[i].1),
                Err(msg) => r matches Err(m) && m@ == msg,
            },
    {
        let n = s.unicode_len();
        let mut out: Vec<(Currency, Number)> = Vec::new();
        let ghost mut acc: Seq<(Seq<char>, Number)> = Seq::<(Seq<char>, Number)>::empty();
        let mut pos: usize = 0;
        proof {
            assert(s@.skip(0) =~= s@);
        }
        loop
            invariant
                pos <= n,
                n == s@.len(),
                out@.len() == acc.len(),
                forall|i: int|
                    0 <= i < out@.len() ==> (#[trigger] out@[i]).0@ == acc[i].0 && out@[i].1
                        == acc[i].1,
                kv_unique(out@),
                forall|i: int| 0 <= i < out@.len() ==> (#[trigger] out@[i]).1.value != 0,
                amount_from_text(s@) == amount_entries(s@.skip(pos as int), acc),
            decreases n - pos,
        {
            let ghost rem = s@.skip(pos as int);
            let seg_end = find_sep2_from(s, pos);
            let seg_to = match seg_end {
                Some(k) => k,
                None => n,
            };
            let seg_str = s.substring_char(pos, seg_to);
            proof {
                let ix = sep2_ix(rem);
                match seg_end {
                    Some(k) => {
                        assert(ix == k - pos);
                        assert(rem.take(ix) =~= s@.subrange(pos as int, k as int));
                        assert(seg_str@ == rem.take(ix));
                    },
                    None => {
                        assert(rem =~= s@.subrange(pos as int, n as int));
                        assert(seg_str@ == rem);
                    },
                }
            }
            let ghost seg = seg_str@;
            let seg_len = s_len_of(seg_str);
            let sp = find_char_str(seg_str, ' ');
            let num_str = match sp {
                Some(j) => seg_str.substring_char(0, j),
                None => seg_str,
            };
            proof {
                if seg.contains(' ') {
                    assert(num_str@ =~= seg.take(first_ix(seg, ' ')));
                }
            }
            let num = match Number::parse_str(num_str) {
                Ok(x) => x,
                Err(_) => {
                    return Err("Parse error");
                },
            };
            if num.value != 0 {
                let j = match sp {
                    Some(j) => j,
                    None => {
                        return Err("Format issue");
                    },
                };
                let cur_str = seg_str.substring_char(j + 1, seg_len);
                proof {
                    assert(cur_str@ =~= seg.skip(j + 1));
                }
                match find_char_str(cur_str, ' ') {
                    Some(_) => {
                        return Err("What the hell???!");
                    },
                    None => {},
                }
                // reject a currency that was already listed
                let mut dup = false;
                let mut d: usize = 0;
                while d < out.len()
                    invariant
                        d <= out@.len(),
                        out@.len() == acc.len(),
                        forall|i: int|
                            0 <= i < out@.len() ==> (#[trigger] out@[i]).0@ == acc[i].0
                                && out@[i].1 == acc[i].1,
                        dup ==> names_contain(acc, cur_str@),
                        !dup ==> forall|i: int| 0 <= i < d ==> (#[trigger] acc[i]).0 != cur_str@,
                    decreases out@.len() - d,
                {
                    if !dup {
                        if strs_equal(out[d].0.0.as_str(), cur_str) {
                            proof {
                                assert(acc[d as int].0 == cur_str@);
                            }
                            dup = true;
                        } else {
                            proof {
                                assert(acc[d as int].0 == out@[d as int].0@);
                            }
                        }
                    }
                    d += 1;
                }
                if dup {
                    return Err("Same currency introduced twice");
                }
                proof {
                    assert(!names_contain(acc, cur_str@));
                }
                let ghost prev = out@;
                out.push((Currency(cur_str.to_owned()), num));
                proof {
                    assert forall|a2: int, b2: int|
                        0 <= a2 < b2 < out@.len() implies (#[trigger] out@[a2]).0@ != (
                    #[trigger] out@[b2]).0@ by {
                        if b2 < prev.len() {
                            assert(out@[a2] == prev[a2] && out@[b2] == prev[b2]);
                        } else {
                            assert(out@[b2].0@ == cur_str@);
                            assert(out@[a2] == prev[a2]);
                            assert(acc[a2].0 == prev[a2].0@);
                        }
                    }
                    acc = acc.push((cur_str@, num));
                }
            }
            match seg_end {
                Some(k) => {
                    proof {
                        assert(rem.skip(sep2_ix(rem) + 2) =~= s@.skip(k as int + 2));
                    }
                    pos = k + 2;
                },
                None => {
                    let r = Amount { amounts: out };
                    proof {
                        lemma_kv_entries_map(r.amounts@, acc);
                    }
                    return Ok(r);
                },
            }
        }
    }
}

impl core::str::FromStr for Amount {
    type Err = &'static str;

    fn from_str(s: &str) -> Result<Amount, &'static str> {
        Amount::parse_str(s)
    }
}

/// The character length of a text slice.
fn s_len_of(s: &str) -> (r: usize)
    ensures
        r == s@.len(),
{
    s.unicode_len()
}

// ---------------------------------------------------------------------------
// Amount equality
// ---------------------------------------------------------------------------

/// Some entry of `b` carries this currency with this number.
pub open spec fn entry_in(b: Seq<(Currency, Number)>, c: Seq<char>, n: Number) -> bool {
    exists|j: int| 0 <= j < b.len() && (#[trigger] b[j]).0@ == c && b[j].1 == n
}

/// Every entry of `a` occurs, with the same number, somewhere in `b`.
pub open spec fn entries_contained(a: Seq<(Currency, Number)>, b: Seq<(Currency, Number)>) -> bool {
    forall|i: int| 0 <= i < a.len() ==> entry_in(b, (#[trigger] a[i]).0@, a[i].1)
}

fn entries_contained_exec(a: &Vec<(Currency, Number)>, b: &Vec<(Currency, Number)>) -> (r: bool)
    ensures
        r == entries_contained(a@, b@),
{
    let mut i: usize = 0;
    while i < a.len()
        invariant
            i <= a@.len(),
            forall|i2: int| 0 <= i2 < i ==> entry_in(b@, (#[trigger] a@[i2]).0@, a@[i2].1),
        decreases a@.len() - i,
    {
        let mut j: usize = 0;
        let mut hit = false;
        while j < b.len()
            invariant
                j <= b@.len(),
                i < a@.len(),
                hit ==> entry_in(b@, a@[i as int].0@, a@[i as int].1),
                !hit ==> forall|k: int|
                    0 <= k < j ==> !((#[trigger] b@[k]).0@ == a@[i as int].0@ && b@[k].1
                        == a@[i as int].1),
            decreases b@.len() - j,
        {
            if !hit {
                if strs_equal(a[i].0.0.as_str(), b[j].0.0.as_str()) && a[i].1 == b[j].1 {
                    hit = true;
                    proof {
                        assert(b@[j as int].0@ == a@[i as int].0@ && b@[j as int].1
                            == a@[i as int].1);
                    }
                }
            }
            j += 1;
        }
        if !hit {
            proof {
                assert(!entry_in(b@, a@[i as int].0@, a@[i as int].1));
                assert(!entries_contained(a@, b@));
            }
            return false;
        }
        i += 1;
    }
    true
}

impl PartialEq for Amount {
    /// Amounts are equal as mappings, whatever the storage order.
    fn eq(&self, other: &Amount) -> (r: bool) {
        let fwd = entries_contained_exec(&self.amounts, &other.amounts);
        if !fwd {
            return false;
        }
        entries_contained_exec(&other.amounts, &self.amounts)
    }
}

impl vstd::std_specs::cmp::PartialEqSpecImpl for Amount {
    open spec fn obeys_eq_spec() -> bool {
        true
    }

    closed spec fn eq_spec(&self, other: &Amount) -> bool {
        entries_contained(self.amounts@, other.amounts@) && entries_contained(
            other.amounts@,
            self.amounts@,
        )
    }
}

/// On canonical amounts, `==` agrees with equality of the abstract maps.
pub proof fn lemma_amount_eq_is_map_eq(a: Amount, b: Amount)
    requires
        a.wf(),
        b.wf(),
    ensures
        a.eq_spec(&b) <==> a@ == b@,
{
    if a.eq_spec(&b) {
        assert forall|c: Seq<char>| a@.contains_key(c) <==> b@.contains_key(c) by {
            lemma_kv_map_contains(a.amounts@, c);
            lemma_kv_map_contains(b.amounts@, c);
            if exists|i: int| 0 <= i < a.amounts@.len() && (#[trigger] a.amounts@[i]).0@ == c {
                let i = choose|i: int|
                    0 <= i < a.amounts@.len() && (#[trigger] a.amounts@[i]).0@ == c;
                assert(entry_in(b.amounts@, a.amounts@[i].0@, a.amounts@[i].1));
                let j = choose|j: int|
                    0 <= j < b.amounts@.len() && (#[trigger] b.amounts@[j]).0@ == a.amounts@[i].0@
                        && b.amounts@[j].1 == a.amounts@[i].1;
                assert(b.amounts@[j].0@ == c);
            }
            if exists|i: int| 0 <= i < b.amounts@.len() && (#[trigger] b.amounts@[i]).0@ == c {
                let i = choose|i: int|
                    0 <= i < b.amounts@.len() && (#[trigger] b.amounts@[i]).0@ == c;
                assert(entry_in(a.amounts@, b.amounts@[i].0@, b.amounts@[i].1));
                let j = choose|j: int|
                    0 <= j < a.amounts@.len() && (#[trigger] a.amounts@[j]).0@ == b.amounts@[i].0@
                        && a.amounts@[j].1 == b.amounts@[i].1;
                assert(a.amounts@[j].0@ == c);
            }
        }
        assert forall|c: Seq<char>| a@.contains_key(c) implies a@[c] == b@[c] by {
            lemma_kv_map_contains(a.amounts@, c);
            let i = choose|i: int| 0 <= i < a.amounts@.len() && (#[trigger] a.amounts@[i]).0@ == c;
            lemma_kv_map_index(a.amounts@, i);
            assert(entry_in(b.amounts@, a.amounts@[i].0@, a.amounts@[i].1));
            let j = choose|j: int|
                0 <= j < b.amounts@.len() && (#[trigger] b.amounts@[j]).0@ == a.amounts@[i].0@
                    && b.amounts@[j].1 == a.amounts@[i].1;
            lemma_kv_map_index(b.amounts@, j);
        }
        assert(a@ =~= b@);
    }
    if a@ == b@ {
        assert forall|i: int| 0 <= i < a.amounts@.len() implies entry_in(
            b.amounts@,
            (#[trigger] a.amounts@[i]).0@,
            a.amounts@[i].1,
        ) by {
            lemma_kv_map_index(a.amounts@, i);
            let c = a.amounts@[i].0@;
            assert(b@.contains_key(c));
            lemma_kv_map_contains(b.amounts@, c);
            let j = choose|j: int| 0 <= j < b.amounts@.len() && (#[trigger] b.amounts@[j]).0@ == c;
            lemma_kv_map_index(b.amounts@, j);
            assert(b.amounts@[j].1 == b@[c]);
        }
        assert forall|i: int| 0 <= i < b.amounts@.len() implies entry_in(
            a.amounts@,
            (#[trigger] b.amounts@[i]).0@,
            b.amounts@[i].1,
        ) by {
            lemma_kv_map_index(b.amounts@, i);
            let c = b.amounts@[i].0@;
            assert(a@.contains_key(c));
            lemma_kv_map_contains(a.amounts@, c);
            let j = choose|j: int| 0 <= j < a.amounts@.len() && (#[trigger] a.amounts@[j]).0@ == c;
            lemma_kv_map_index(a.amounts@, j);
            assert(a.amounts@[j].1 == a@[c]);
        }
    }
}

// ---------------------------------------------------------------------------
// Laws
// ---------------------------------------------------------------------------

/// Adding the zero amount changes nothing, and adding an amount's
/// negation cancels every currency, leaving the zero amount.
pub proof fn lemma_amount_additive_identity(a: Amount)
    requires
        a.wf(),
        amount_neg_ok(a@),
    ensures
        amount_add(a@, Map::<Seq<char>, Number>::empty()) == a@,
        amount_add_ok(a@, amount_neg(a@)),
        amount_add(a@, amount_neg(a@)) == Map::<Seq<char>, Number>::empty(),
{
    lemma_amount_add_empty(a@);
    lemma_amount_wf_map(a);
    assert forall|c: Seq<char>| #[trigger] a@.contains_key(c) && amount_neg(a@).contains_key(
        c,
    ) implies add_ok(a@[c], amount_neg(a@)[c]) by {
        let x = a@[c];
        assert(amount_neg(a@)[c] == spec_neg(x));
        assert(add_scale(x, spec_neg(x)) == x.n_decimals as nat);
        assert(pow10(0) == 1);
    }
    assert forall|c: Seq<char>| !(#[trigger] amount_add(a@, amount_neg(a@)).contains_key(c)) by {
        if a@.contains_key(c) {
            let x = a@[c];
            assert(pow10(0) == 1);
            assert(spec_add(x, spec_neg(x)).value == 0);
        }
    }
    assert(amount_add(a@, amount_neg(a@)) =~= Map::<Seq<char>, Number>::empty());
}

/// What parsing yields is canonical: the scale never exceeds 18, and a
/// positive scale means the stored integer does not end in zero.
pub proof fn lemma_parse_canonical(s: Seq<char>, n: Number)
    requires
        number_from_text(s) == Some(n),
    ensures
        n.n_decimals <= 18,
        n.n_decimals > 0 ==> n.value % 10 != 0,
{
    if s.contains(',') || s.contains('.') {
        let sep: char = if s.contains(',') {
            ','
        } else {
            '.'
        };
        assert(number_with_sep(s, sep) == Some(n));
        let i = first_ix(s, sep);
        let units_txt = s.take(i);
        let rest = s.skip(i + 1);
        let dec_seg = if rest.contains(sep) {
            rest.take(first_ix(rest, sep))
        } else {
            rest
        };
        let dtrim = trim_zeros(dec_seg);
        let nd = dtrim.len() as int;
        if nd == 0 {
        } else {
            let units = choose|u: i64| i64_from_text(units_txt) == Some(u);
            let frac = choose|f: i64| i64_from_text(dtrim) == Some(f);
            assert(i64_from_text(dtrim) == Some(frac));
            let digits = int_text_digits(dtrim);
            assert(all_digits(digits) && digits.len() > 0);
            lemma_trim_zeros_last(dec_seg);
            assert(dtrim.last() != '0');
            assert(digits.last() == dtrim.last());
            let d0 = digit_val(digits.last());
            assert(is_digit(digits.last()));
            assert(1 <= d0 <= 9);
            lemma_digits_val_mod10(digits);
            let y = digits_val(digits);
            lemma_digits_val_nonneg(digits);
            assert(y % 10 == d0);
            let sign: int = if units >= 0 {
                1
            } else {
                -1
            };
            let v = units * pow10(nd as nat) + frac * sign;
            assert(n.value == v && n.n_decimals == nd);
            // the units contribute a multiple of ten
            assert(pow10(nd as nat) == 10 * pow10((nd - 1) as nat));
            let k = units * pow10((nd - 1) as nat);
            assert(units * pow10(nd as nat) == 10 * k) by (nonlinear_arith)
                requires
                    pow10(nd as nat) == 10 * pow10((nd - 1) as nat),
                    k == units * pow10((nd - 1) as nat),
            ;
            let x = frac * sign;
            vstd::arithmetic::div_mod::lemma_mod_multiples_vanish(k, x, 10);
            assert(v % 10 == x % 10);
            vstd::arithmetic::div_mod::lemma_fundamental_div_mod(y, 10);
            let q = y / 10;
            assert(y == 10 * q + d0);
            assert(frac == y || frac == -y) by {
                assert(frac == int_text_val(dtrim));
            }
            assert(x == y || x == -y) by (nonlinear_arith)
                requires
                    sign == 1 || sign == -1,
                    frac == y || frac == -y,
                    x == frac * sign,
            ;
            if x == y {
                assert(x % 10 == d0);
            } else {
                assert(x == 10 * (-q) + (-d0));
                vstd::arithmetic::div_mod::lemma_mod_multiples_vanish(-q, -d0, 10);
                assert(x % 10 == (-d0) % 10);
                vstd::arithmetic::div_mod::lemma_mod_multiples_vanish(-1, 10 - d0, 10);
                assert((10 * (-1) + (10 - d0)) % 10 == (10 - d0) % 10);
                assert((10 - d0) % 10 == 10 - d0) by (nonlinear_arith)
                    requires
                        1 <= d0 <= 9,
                ;
                assert(x % 10 == 10 - d0);
            }
            assert(v % 10 != 0);
        }
    }
}

proof fn lemma_digits_val_zeros(k: int)
    requires
        k >= 0,
    ensures
        all_digits(zeros(k)),
        digits_val(zeros(k)) == 0,
    decreases k,
{
    if k > 0 {
        lemma_digits_val_zeros(k - 1);
        assert(zeros(k).drop_last() =~= zeros(k - 1));
        assert(zeros(k).last() == '0');
        assert(digit_val('0') == 0);
    }
}

proof fn lemma_trim_pad(x: Seq<char>, k: int)
    requires
        k >= 0,
    ensures
        trim_zeros(x + zeros(k)) == trim_zeros(x),
    decreases k,
{
    if k == 0 {
        assert(x + zeros(0) =~= x);
    } else {
        let y = x + zeros(k);
        assert(y.len() > 0 && y.last() == '0');
        assert(y.drop_last() =~= x + zeros(k - 1));
        lemma_trim_pad(x, k - 1);
    }
}

proof fn lemma_pow10_add3(k: nat)
    ensures
        pow10(k + 3) == 1000 * pow10(k),
{
    assert(pow10(k + 3) == 10 * pow10(k + 2));
    assert(pow10(k + 2) == 10 * pow10(k + 1));
    assert(pow10(k + 1) == 10 * pow10(k));
}

/// The unit part as rendered: at least the single digit zero.
pub open spec fn unit_part(n: Number) -> Seq<char> {
    if number_units_str(n).len() == 0 {
        seq!['0']
    } else {
        number_units_str(n)
    }
}

/// How the canonical text of a sufficiently small number decomposes when
/// it is read back: one decimal point, sign and digits around it, and
/// trimming recovers exactly the fractional digits.
proof fn lemma_number_text_parts(n: Number)
    requires
        nat_abs(n.value) < 1000 * pow10(n.n_decimals as nat),
        n.n_decimals > 0 ==> n.value % 10 != 0,
    ensures
        number_text(n) == number_sign_str(n) + unit_part(n) + seq!['.'] + number_decimals_str(n)
            + zeros(2 - number_decimals_str(n).len()),
        all_digits(unit_part(n)),
        unit_part(n).len() >= 1,
        all_digits(number_decimals_str(n)),
        number_decimals_str(n).len() == n.n_decimals,
        !number_text(n).contains(','),
        number_text(n).contains('.'),
        first_ix(number_text(n), '.') == number_sign_str(n).len() + unit_part(n).len(),
        number_text(n).take(number_sign_str(n).len() + unit_part(n).len() as int)
            == number_sign_str(n) + unit_part(n),
        !number_text(n).skip(
            number_sign_str(n).len() + unit_part(n).len() as int + 1,
        ).contains('.'),
        trim_zeros(number_text(n).skip(number_sign_str(n).len() + unit_part(n).len() as int + 1))
            == if n.n_decimals > 0 {
            number_decimals_str(n)
        } else {
            Seq::<char>::empty()
        },
{
    let v = n.value as int;
    let nd = n.n_decimals as int;
    let mag = nat_abs(n.value);
    let ds = dec_digits(mag);
    lemma_dec_digits(mag);
    let len = ds.len() as int;
    lemma_digits_val_bound(ds);
    lemma_pow10_add3(nd as nat);
    lemma_pow10_pos(nd as nat);

    // the integer part has at most three digits
    if mag >= 1 {
        lemma_dec_digits_len_lower(mag);
        if len - 1 >= nd + 3 {
            lemma_pow10_mono((nd + 3) as nat, (len - 1) as nat);
        }
    }
    assert(len <= nd + 3);

    let sign_s = number_sign_str(n);
    let units0 = number_units_str(n);
    let d_s = number_decimals_str(n);
    let u_prime = unit_part(n);
    let a_part = sign_s + u_prime;
    let pad = zeros(2 - d_s.len());
    let text = number_text(n);
    assert(text == a_part + seq!['.'] + d_s + pad);

    if len > nd {
        assert(units0 == grouped(ds.take(len - nd)));
        assert(ds.take(len - nd).len() == len - nd <= 3);
        assert(units0 == ds.take(len - nd));
        assert(units0.len() > 0);
        assert forall|j: int| 0 <= j < units0.len() implies is_digit(#[trigger] units0[j]) by {
            assert(units0[j] == ds[j]);
        }
        assert forall|j: int| 0 <= j < d_s.len() implies is_digit(#[trigger] d_s[j]) by {
            assert(d_s[j] == ds[j + (len - nd)]);
        }
    } else {
        assert(units0.len() == 0);
        assert(u_prime == seq!['0']);
        lemma_digits_val_zeros(nd - len);
        assert forall|j: int| 0 <= j < d_s.len() implies is_digit(#[trigger] d_s[j]) by {
            if j < nd - len {
                assert(d_s[j] == zeros(nd - len)[j]);
            } else {
                assert(d_s[j] == ds[j - (nd - len)]);
            }
        }
    }
    assert(all_digits(u_prime)) by {
        if units0.len() == 0 {
            assert(is_digit('0'));
        }
    }
    assert(d_s.len() == nd);

    let pos = a_part.len() as int;
    assert(text.len() == pos + 1 + d_s.len() + pad.len());
    assert(text[pos] == '.');

    assert forall|j: int| 0 <= j < text.len() implies text[j] != ',' by {
        if j < sign_s.len() {
            assert(text[j] == '-');
        } else if j < pos {
            assert(text[j] == u_prime[j - sign_s.len()]);
            assert(is_digit(u_prime[j - sign_s.len()]));
        } else if j == pos {
        } else if j < pos + 1 + d_s.len() {
            assert(text[j] == d_s[j - pos - 1]);
            assert(is_digit(d_s[j - pos - 1]));
        } else {
            assert(text[j] == pad[j - pos - 1 - d_s.len()]);
            assert(pad[j - pos - 1 - d_s.len()] == '0');
        }
    }
    assert(!text.contains(',')) by {
        if text.contains(',') {
            let w = choose|w: int| 0 <= w < text.len() && text[w] == ',';
            assert(false);
        }
    }
    assert(text.contains('.')) by {
        assert(text[pos] == '.');
    }

    assert forall|j: int| 0 <= j < pos implies text[j] != '.' by {
        if j < sign_s.len() {
            assert(text[j] == '-');
        } else {
            assert(text[j] == u_prime[j - sign_s.len()]);
            assert(is_digit(u_prime[j - sign_s.len()]));
        }
    }
    lemma_first_ix_of(text, '.', pos);

    let rest = text.skip(pos + 1);
    assert(text.take(pos) =~= a_part);
    assert(rest =~= d_s + pad);
    assert(!rest.contains('.')) by {
        if rest.contains('.') {
            let w = choose|w: int| 0 <= w < rest.len() && rest[w] == '.';
            if w < d_s.len() {
                assert(is_digit(d_s[w]));
            } else {
                assert(rest[w] == pad[w - d_s.len()]);
                assert(rest[w] == '0');
            }
            assert(false);
        }
    }

    if d_s.len() < 2 {
        lemma_trim_pad(d_s, 2 - d_s.len());
    } else {
        assert(pad =~= Seq::<char>::empty());
        assert(d_s + pad =~= d_s);
    }
    assert(trim_zeros(d_s + pad) == trim_zeros(d_s));
    if nd == 0 {
        assert(d_s =~= Seq::<char>::empty());
        assert(trim_zeros(d_s) =~= Seq::<char>::empty());
    } else {
        assert(mag % 10 != 0) by {
            if mag % 10 == 0 {
                let q = (mag / 10) as int;
                vstd::arithmetic::div_mod::lemma_fundamental_div_mod(mag as int, 10);
                assert(mag == 10 * q);
                if v >= 0 {
                    vstd::arithmetic::div_mod::lemma_mod_multiples_vanish(q, 0int, 10);
                } else {
                    vstd::arithmetic::div_mod::lemma_mod_multiples_vanish(-q, 0int, 10);
                    assert(v == 10 * (-q));
                }
                assert(v % 10 == 0);
            }
        }
        lemma_digits_val_mod10(ds);
        assert(digit_val(ds.last()) != 0);
        assert(ds.last() != '0');
        assert(d_s.len() > 0 && d_s.last() == ds.last()) by {
            if len > nd {
                assert(d_s[nd - 1] == ds[len - 1]);
            } else {
                assert(d_s[nd - 1] == ds[len - 1]);
            }
        }
        assert(trim_zeros(d_s) == d_s) by {
            assert(d_s.last() != '0');
        }
    }
}

/// Parse/format round trip: a parsed decimal literal, rendered in the
/// canonical form, reads back as the very same number.
///
/// Stated away from two renderings the grammar cannot re-read: an integer
/// part wide enough to receive a thousands separator, and a negative value
/// whose magnitude is below one whole unit (reachable only through
/// literals with a signed fraction, where the sign of the zero integer
/// part is lost).
#[verifier::rlimit(100)]
pub proof fn lemma_number_round_trip(s: Seq<char>, n: Number)
    requires
        number_from_text(s) == Some(n),
        nat_abs(n.value) < 1000 * pow10(n.n_decimals as nat),
        n.value < 0 ==> nat_abs(n.value) >= pow10(n.n_decimals as nat),
    ensures
        number_from_text(number_text(n)) == Some(n),
{
    lemma_parse_canonical(s, n);
    lemma_number_text_parts(n);
    let v = n.value as int;
    let nd = n.n_decimals as int;
    let mag = nat_abs(n.value);
    let ds = dec_digits(mag);
    lemma_dec_digits(mag);
    let len = ds.len() as int;
    lemma_digits_val_bound(ds);
    lemma_pow10_pos(nd as nat);

    let sign_s = number_sign_str(n);
    let units0 = number_units_str(n);
    let d_s = number_decimals_str(n);
    let u_prime = unit_part(n);
    let text = number_text(n);
    let pos = sign_s.len() + u_prime.len() as int;
    let units_txt = text.take(pos);
    let rest = text.skip(pos + 1);
    assert(units_txt == sign_s + u_prime);
    assert(number_from_text(text) == number_with_sep(text, '.'));
    assert(first_ix(text, '.') == pos);
    let dtrim = trim_zeros(rest);

    // the magnitude splits into integer part and fraction
    let p = pow10(nd as nat);
    let q: int;
    let r: int;
    if len > nd {
        lemma_digits_val_split(ds, len - nd);
        assert(all_digits(ds.take(len - nd)) && all_digits(ds.skip(len - nd)));
        lemma_digits_val_nonneg(ds.take(len - nd));
        lemma_digits_val_nonneg(ds.skip(len - nd));
        lemma_digits_val_bound(ds.skip(len - nd));
        q = digits_val(ds.take(len - nd));
        r = digits_val(ds.skip(len - nd));
        assert(mag == q * p + r);
        vstd::arithmetic::div_mod::lemma_fundamental_div_mod_converse(mag as int, p, q, r);
        assert(units0 == grouped(ds.take(len - nd)));
        assert(ds.take(len - nd).len() <= 3) by {
            if mag >= 1 {
                lemma_dec_digits_len_lower(mag);
                lemma_pow10_add3(nd as nat);
                if len - 1 >= nd + 3 {
                    lemma_pow10_mono((nd + 3) as nat, (len - 1) as nat);
                }
            }
        }
        assert(units0 == ds.take(len - nd));
    } else {
        lemma_pow10_mono(len as nat, nd as nat);
        assert(mag < p);
        q = 0;
        r = mag as int;
        vstd::arithmetic::div_mod::lemma_fundamental_div_mod_converse(mag as int, p, q, r);
        assert(units0.len() == 0);
    }
    assert(0 <= q && 0 <= r < p);
    assert(q <= mag) by (nonlinear_arith)
        requires
            mag == q * p + r,
            q >= 0,
            r >= 0,
            p >= 1,
    ;

    // the re-read integer part is the quotient, signed
    if v >= 0 {
        assert(sign_s =~= Seq::<char>::empty());
        assert(units_txt =~= u_prime);
        assert(units_txt.len() > 0);
        assert(is_digit(units_txt[0]));
        assert(units_txt[0] != '+' && units_txt[0] != '-');
        assert(int_text_digits(units_txt) == units_txt);
        assert(is_int_text(units_txt));
        if len > nd {
            assert(digits_val(units_txt) == q);
        } else {
            assert(units_txt =~= seq!['0']);
            assert(units_txt.last() == '0');
            assert(units_txt.drop_last() =~= Seq::<char>::empty());
            assert(digits_val(units_txt) == digits_val(units_txt.drop_last()) * 10 + digit_val(
                units_txt.last(),
            ));
            assert(digit_val('0') == 0);
            assert(digits_val(units_txt) == 0);
        }
        assert(int_text_val(units_txt) == q);
    } else {
        // a negative value spans at least one whole unit, so the integer
        // part carries digits of its own
        assert(mag >= p);
        assert(len > nd) by {
            if len <= nd {
                lemma_pow10_mono(len as nat, nd as nat);
            }
        }
        assert(sign_s =~= seq!['-']);
        assert(units_txt[0] == '-');
        assert(units_txt.drop_first() =~= units0);
        assert(int_text_digits(units_txt) == units0);
        assert(units0.len() > 0 && all_digits(units0));
        assert(is_int_text(units_txt));
        assert(int_text_val(units_txt) == -q);
        assert(q >= 1) by {
            if q == 0 {
                assert(mag == r);
            }
        }
    }
    assert(i64::MIN <= int_text_val(units_txt) <= i64::MAX);
    let u = int_text_val(units_txt) as i64;
    assert(i64_from_text(units_txt) == Some(u));

    if nd == 0 {
        assert(p == 1);
        assert(r == 0);
        assert(q == mag);
        assert(u == v);
        assert(number_with_sep(text, '.') == Some(Number { value: u, n_decimals: 0 }));
        assert(Number { value: u, n_decimals: 0 } == n);
    } else {
        // the fraction re-read is the remainder
        assert(dtrim == d_s);
        assert(d_s.len() == nd && 1 <= nd <= 18);
        assert(is_digit(d_s[0]));
        assert(d_s[0] != '+' && d_s[0] != '-');
        assert(int_text_digits(d_s) == d_s);
        assert(is_int_text(d_s));
        let fr_val = digits_val(d_s);
        if len > nd {
            assert(d_s == ds.skip(len - nd));
            assert(fr_val == r);
        } else {
            lemma_digits_val_split(d_s, nd - len);
            assert(d_s.take(nd - len) =~= zeros(nd - len));
            assert(d_s.skip(nd - len) =~= ds);
            lemma_digits_val_zeros(nd - len);
            assert(fr_val == 0 * pow10(len as nat) + mag);
            assert(fr_val == r);
        }
        assert(int_text_val(d_s) == r);
        assert(r < p);
        lemma_pow10_mono(nd as nat, 18nat);
        assert(pow10(18) == 1000000000000000000) by {
            reveal_with_fuel(pow10, 20);
        }
        assert(i64::MIN <= r <= i64::MAX);
        let fr = r as i64;
        assert(i64_from_text(d_s) == Some(fr));
        let sign2: int = if u >= 0 {
            1
        } else {
            -1
        };
        let v2 = u * p + fr * sign2;
        if v >= 0 {
            assert(u == q && sign2 == 1);
            assert(v2 == q * p + r);
            assert(v2 == v);
        } else {
            assert(u == -q && q >= 1);
            assert(sign2 == -1);
            assert(v2 == (-q) * p + r * (-1));
            assert((-q) * p == -(q * p)) by (nonlinear_arith);
            assert(v2 == -(q * p + r));
            assert(v2 == v);
        }
        assert(number_with_sep(text, '.') == Some(
            Number { value: v2 as i64, n_decimals: nd as u32 },
        ));
        assert(Number { value: v2 as i64, n_decimals: nd as u32 } == n);
    }
}

} // verus!
