//! Decimal text: specifications and executable helpers for reading and
//! writing runs of decimal digits, signed integer literals, and the
//! thousands-grouped rendering used by [`crate::data::money::Number`].

use vstd::prelude::*;
use vstd::string::*;

verus! {

// ---------------------------------------------------------------------------
// Digit characters
// ---------------------------------------------------------------------------

pub open spec fn is_digit(c: char) -> bool {
    '0' <= c && c <= '9'
}

/// Numeric value of a digit character.
pub open spec fn digit_val(c: char) -> int {
    c as int - '0' as int
}

/// The digit character for a value in `0..10`.
pub open spec fn digit_char(d: int) -> char
    recommends
        0 <= d < 10,
{
    if d == 0 {
        '0'
    } else if d == 1 {
        '1'
    } else if d == 2 {
        '2'
    } else if d == 3 {
        '3'
    } else if d == 4 {
        '4'
    } else if d == 5 {
        '5'
    } else if d == 6 {
        '6'
    } else if d == 7 {
        '7'
    } else if d == 8 {
        '8'
    } else {
        '9'
    }
}

pub open spec fn all_digits(s: Seq<char>) -> bool {
    forall|i: int| 0 <= i < s.len() ==> is_digit(#[trigger] s[i])
}

/// Value of a run of digit characters, most significant first.
pub open spec fn digits_val(s: Seq<char>) -> int
    decreases s.len(),
{
    if s.len() == 0 {
        0
    } else {
        digits_val(s.drop_last()) * 10 + digit_val(s.last())
    }
}

pub open spec fn pow10(n: nat) -> int
    decreases n,
{
    if n == 0 {
        1
    } else {
        10 * pow10((n - 1) as nat)
    }
}

pub proof fn lemma_pow10_pos(n: nat)
    ensures
        pow10(n) >= 1,
    decreases n,
{
    if n > 0 {
        lemma_pow10_pos((n - 1) as nat);
    }
}

pub proof fn lemma_pow10_mono(a: nat, b: nat)
    requires
        a <= b,
    ensures
        pow10(a) <= pow10(b),
    decreases b,
{
    lemma_pow10_pos(a);
    if a < b {
        lemma_pow10_mono(a, (b - 1) as nat);
    }
}

/// `10^k` as a machine integer, for exponents where it fits.
pub fn pow10_i64(k: u32) -> (r: i64)
    requires
        k <= 18,
    ensures
        r == pow10(k as nat),
        r >= 1,
{
    proof {
        reveal_with_fuel(pow10, 20);
        assert(pow10(18) == 1000000000000000000);
    }
    let mut r: i64 = 1;
    let mut i: u32 = 0;
    while i < k
        invariant
            i <= k <= 18,
            r == pow10(i as nat),
            pow10(18) == 1000000000000000000,
        decreases k - i,
    {
        proof {
            lemma_pow10_mono((i + 1) as nat, 18nat);
            lemma_pow10_pos(i as nat);
        }
        r = r * 10;
        i += 1;
    }
    proof {
        lemma_pow10_pos(k as nat);
    }
    r
}

pub proof fn lemma_digits_val_nonneg(s: Seq<char>)
    requires
        all_digits(s),
    ensures
        digits_val(s) >= 0,
    decreases s.len(),
{
    if s.len() > 0 {
        assert(all_digits(s.drop_last()));
        lemma_digits_val_nonneg(s.drop_last());
        assert(is_digit(s.last()));
    }
}

pub proof fn lemma_digits_val_bound(s: Seq<char>)
    requires
        all_digits(s),
    ensures
        digits_val(s) < pow10(s.len() as nat),
    decreases s.len(),
{
    if s.len() > 0 {
        assert(all_digits(s.drop_last()));
        lemma_digits_val_bound(s.drop_last());
        assert(is_digit(s.last()));
    }
}

/// Splitting a digit run at position `i` splits its value.
pub proof fn lemma_digits_val_split(s: Seq<char>, i: int)
    requires
        0 <= i <= s.len(),
    ensures
        digits_val(s) == digits_val(s.take(i)) * pow10((s.len() - i) as nat) + digits_val(
            s.skip(i),
        ),
    decreases s.len() - i,
{
    if i == s.len() {
        assert(s.take(i) =~= s);
        assert(s.skip(i) =~= Seq::<char>::empty());
    } else {
        let dl = s.drop_last();
        lemma_digits_val_split(dl, i);
        let a = digits_val(s.take(i));
        let b = digits_val(dl.skip(i));
        let p = pow10((dl.len() - i) as nat);
        assert(dl.take(i) =~= s.take(i));
        assert(digits_val(dl) == a * p + b);
        assert(s.skip(i).drop_last() =~= dl.skip(i));
        assert(s.skip(i).len() > 0);
        assert(s.skip(i).last() == s.last());
        assert(digits_val(s.skip(i)) == b * 10 + digit_val(s.last()));
        assert(digits_val(s) == digits_val(dl) * 10 + digit_val(s.last()));
        assert((a * p + b) * 10 == a * (10 * p) + b * 10) by (nonlinear_arith);
        assert(pow10((s.len() - i) as nat) == 10 * p);
        assert(digits_val(s) == a * pow10((s.len() - i) as nat) + digits_val(s.skip(i)));
    }
}

/// A digit run is worth at least any of its prefixes.
pub proof fn lemma_digits_val_prefix(s: Seq<char>, i: int)
    requires
        all_digits(s),
        0 <= i <= s.len(),
    ensures
        digits_val(s) >= digits_val(s.take(i)),
    decreases s.len() - i,
{
    lemma_digits_val_split(s, i);
    assert(all_digits(s.take(i)));
    assert(all_digits(s.skip(i)));
    lemma_digits_val_nonneg(s.take(i));
    lemma_digits_val_nonneg(s.skip(i));
    lemma_pow10_pos((s.len() - i) as nat);
    assert(digits_val(s.take(i)) * pow10((s.len() - i) as nat) >= digits_val(s.take(i)))
        by (nonlinear_arith)
        requires
            digits_val(s.take(i)) >= 0,
            pow10((s.len() - i) as nat) >= 1,
    ;
}

// ---------------------------------------------------------------------------
// Signed and unsigned integer literals (the shape `i64::from_str` accepts)
// ---------------------------------------------------------------------------

/// The digit part of an integer literal, once an optional sign is stripped.
pub open spec fn int_text_digits(s: Seq<char>) -> Seq<char> {
    if s.len() > 0 && (s[0] == '+' || s[0] == '-') {
        s.drop_first()
    } else {
        s
    }
}

pub open spec fn is_int_text(s: Seq<char>) -> bool {
    int_text_digits(s).len() > 0 && all_digits(int_text_digits(s))
}

pub open spec fn int_text_val(s: Seq<char>) -> int {
    if s.len() > 0 && s[0] == '-' {
        -digits_val(int_text_digits(s))
    } else {
        digits_val(int_text_digits(s))
    }
}

/// What parsing the text as an `i64` yields: the value for a well-shaped
/// in-range literal, nothing otherwise.
pub open spec fn i64_from_text(s: Seq<char>) -> Option<i64> {
    if is_int_text(s) && i64::MIN <= int_text_val(s) && int_text_val(s) <= i64::MAX {
        Some(int_text_val(s) as i64)
    } else {
        None
    }
}

/// What parsing the text as an unsigned integer bounded by `max` yields;
/// unsigned parsing accepts a leading `+` but no `-`.
pub open spec fn uint_from_text(s: Seq<char>, max: int) -> Option<int> {
    if s.len() > 0 && s[0] == '-' {
        None
    } else if is_int_text(s) && int_text_val(s) <= max {
        Some(int_text_val(s))
    } else {
        None
    }
}

/// Reads a signed decimal integer, as `i64::from_str` would.
pub fn parse_i64_str(s: &str) -> (r: Option<i64>)
    ensures
        r == i64_from_text(s@),
{
    let n = s.unicode_len();
    if n == 0 {
        return None;
    }
    let first = s.get_char(0);
    let neg = first == '-';
    let start: usize = if first == '-' || first == '+' {
        1
    } else {
        0
    };
    if start == n {
        return None;
    }
    let limit: u64 = if neg {
        9223372036854775808u64
    } else {
        9223372036854775807u64
    };
    let ghost digits = int_text_digits(s@);
    proof {
        assert(digits =~= s@.skip(start as int));
    }
    let mut acc: u64 = 0;
    let mut i: usize = start;
    while i < n
        invariant
            start <= i <= n,
            n == s@.len(),
            start == if neg || (s@.len() > 0 && s@[0] == '+') {
                1int
            } else {
                0int
            },
            neg == (s@.len() > 0 && s@[0] == '-'),
            digits == s@.skip(start as int),
            limit == if neg {
                9223372036854775808u64
            } else {
                9223372036854775807u64
            },
            acc <= limit,
            all_digits(s@.subrange(start as int, i as int)),
            acc == digits_val(s@.subrange(start as int, i as int)),
        decreases n - i,
    {
        let c = s.get_char(i);
        proof {
            assert(s@.subrange(start as int, i as int) =~= digits.take(i - start));
        }
        if !('0' <= c && c <= '9') {
            proof {
                assert(digits[i - start] == c);
                assert(!is_digit(c));
                assert(!all_digits(digits));
            }
            return None;
        }
        let d = (c as u32) as u64 - 48;
        proof {
            assert(d == digit_val(c));
        }
        if acc > (limit - d) / 10 {
            proof {
                // The value read so far already exceeds the range of `i64`,
                // and further digits can only increase it.
                let pre = digits.take(i + 1 - start);
                assert(pre.drop_last() =~= s@.subrange(start as int, i as int));
                assert(pre.last() == c);
                assert(digits_val(pre) == acc * 10 + d);
                assert(acc * 10 + d > limit) by (nonlinear_arith)
                    requires
                        acc > (limit - d) / 10,
                        0 <= d < 10,
                        d <= limit,
                ;
                if is_int_text(s@) {
                    lemma_digits_val_prefix(digits, i + 1 - start);
                    assert(digits_val(digits) >= digits_val(pre));
                    assert(digits_val(digits) > limit);
                    assert(int_text_digits(s@) == digits);
                    if neg {
                        assert(s@[0] == '-');
                        assert(int_text_val(s@) == -digits_val(digits));
                        assert(int_text_val(s@) < i64::MIN);
                    } else {
                        assert(!(s@[0] == '-'));
                        assert(int_text_val(s@) == digits_val(digits));
                        assert(int_text_val(s@) > i64::MAX);
                    }
                }
            }
            return None;
        }
        proof {
            assert(acc * 10 + d <= limit) by (nonlinear_arith)
                requires
                    acc <= (limit - d) / 10,
                    0 <= d < 10,
                    d <= limit,
            ;
            let pre = digits.take(i + 1 - start);
            assert(pre.drop_last() =~= s@.subrange(start as int, i as int));
            assert(pre.last() == c);
            assert(pre =~= s@.subrange(start as int, i as int + 1));
        }
        acc = acc * 10 + d;
        i += 1;
    }
    proof {
        assert(s@.subrange(start as int, n as int) =~= digits);
        assert(is_int_text(s@));
        assert(digits_val(digits) == acc);
    }
    if neg {
        if acc == 9223372036854775808u64 {
            Some(i64::MIN)
        } else {
            Some(0i64 - (acc as i64))
        }
    } else {
        Some(acc as i64)
    }
}

/// Reads an unsigned decimal integer no larger than `max`.
pub fn parse_uint_str(s: &str, max: u64) -> (r: Option<u64>)
    requires
        max <= i64::MAX as u64,
    ensures
        match r {
            Some(v) => uint_from_text(s@, max as int) == Some(v as int) && v <= max,
            None => uint_from_text(s@, max as int) is None,
        },
{
    if s.unicode_len() > 0 {
        if s.get_char(0) == '-' {
            return None;
        }
    }
    match parse_i64_str(s) {
        None => {
            proof {
                // `i64` parsing fails on shape or on range; a value within
                // `max <= i64::MAX` would have been in range, so unsigned
                // parsing fails as well.
                if is_int_text(s@) {
                    lemma_digits_val_nonneg(int_text_digits(s@));
                    if int_text_val(s@) <= max as int {
                        assert(i64_from_text(s@) is Some);
                        assert(false);
                    }
                }
            }
            None
        },
        Some(v) => {
            proof {
                lemma_digits_val_nonneg(int_text_digits(s@));
            }
            if (v as u64) <= max {
                Some(v as u64)
            } else {
                None
            }
        },
    }
}

// ---------------------------------------------------------------------------
// Searching and trimming
// ---------------------------------------------------------------------------

/// Index of the first occurrence of `c`, meaningful when `s` contains `c`.
pub open spec fn first_ix(s: Seq<char>, c: char) -> int
    decreases s.len(),
{
    if s.len() == 0 {
        0
    } else if s[0] == c {
        0
    } else {
        1 + first_ix(s.drop_first(), c)
    }
}

pub proof fn lemma_first_ix(s: Seq<char>, c: char)
    requires
        s.contains(c),
    ensures
        0 <= first_ix(s, c) < s.len(),
        s[first_ix(s, c)] == c,
        forall|j: int| 0 <= j < first_ix(s, c) ==> s[j] != c,
    decreases s.len(),
{
    if s[0] == c {
    } else {
        let d = s.drop_first();
        assert(d.contains(c)) by {
            let w = choose|w: int| 0 <= w < s.len() && s[w] == c;
            assert(d[w - 1] == c);
        }
        lemma_first_ix(d, c);
        assert(forall|j: int| 0 <= j < first_ix(d, c) ==> d[j] != c);
        assert forall|j: int| 0 <= j < first_ix(s, c) implies s[j] != c by {
            if j > 0 {
                assert(d[j - 1] != c);
            }
        }
    }
}

pub proof fn lemma_first_ix_of(s: Seq<char>, c: char, i: int)
    requires
        0 <= i < s.len(),
        s[i] == c,
        forall|j: int| 0 <= j < i ==> s[j] != c,
    ensures
        first_ix(s, c) == i,
        s.contains(c),
    decreases s.len(),
{
    assert(s.contains(c));
    if i > 0 {
        let d = s.drop_first();
        assert(d[i - 1] == c);
        assert forall|j: int| 0 <= j < i - 1 implies d[j] != c by {
            assert(d[j] == s[j + 1]);
        }
        lemma_first_ix_of(d, c, i - 1);
    }
}

/// Finds the first occurrence of a character.
pub fn find_char_str(s: &str, c: char) -> (r: Option<usize>)
    ensures
        match r {
            Some(i) => s@.contains(c) && first_ix(s@, c) == i && i < s@.len() && s@[i as int] == c,
            None => !s@.contains(c),
        },
{
    let n = s.unicode_len();
    let mut i: usize = 0;
    while i < n
        invariant
            i <= n == s@.len(),
            forall|j: int| 0 <= j < i ==> s@[j] != c,
        decreases n - i,
    {
        if s.get_char(i) == c {
            proof {
                lemma_first_ix_of(s@, c, i as int);
            }
            return Some(i);
        }
        i += 1;
    }
    proof {
        if s@.contains(c) {
            let w = choose|w: int| 0 <= w < s@.len() && s@[w] == c;
            assert(false);
        }
    }
    None
}

/// Character-for-character equality of two text slices.
pub fn strs_equal(a: &str, b: &str) -> (r: bool)
    ensures
        r == (a@ == b@),
{
    let n = a.unicode_len();
    if n != b.unicode_len() {
        proof {
            assert(a@ != b@);
        }
        return false;
    }
    let mut i: usize = 0;
    while i < n
        invariant
            i <= n == a@.len(),
            b@.len() == n,
            forall|j: int| 0 <= j < i ==> a@[j] == b@[j],
        decreases n - i,
    {
        if a.get_char(i) != b.get_char(i) {
            return false;
        }
        i += 1;
    }
    proof {
        assert(a@ =~= b@);
    }
    true
}

/// The text with trailing `'0'` characters removed.
pub open spec fn trim_zeros(s: Seq<char>) -> Seq<char>
    decreases s.len(),
{
    if s.len() > 0 && s.last() == '0' {
        trim_zeros(s.drop_last())
    } else {
        s
    }
}

pub proof fn lemma_trim_zeros_take(s: Seq<char>, t: int)
    requires
        0 <= t <= s.len(),
        t > 0 ==> s[t - 1] != '0',
        forall|j: int| t <= j < s.len() ==> s[j] == '0',
    ensures
        trim_zeros(s) == s.take(t),
    decreases s.len(),
{
    if t == s.len() {
        if s.len() > 0 {
            assert(s.last() != '0');
        }
        assert(s.take(t) =~= s);
    } else {
        assert(s.last() == '0');
        let d = s.drop_last();
        assert forall|j: int| t <= j < d.len() implies d[j] == '0' by {
            assert(d[j] == s[j]);
        }
        lemma_trim_zeros_take(d, t);
        assert(d.take(t) =~= s.take(t));
    }
}

/// Removes trailing zero characters, as `str::trim_end_matches('0')` does.
pub fn trim_zeros_str<'a>(s: &'a str) -> (r: &'a str)
    ensures
        r@ == trim_zeros(s@),
{
    let n = s.unicode_len();
    let mut t: usize = n;
    while t > 0 && s.get_char(t - 1) == '0'
        invariant
            t <= n == s@.len(),
            forall|j: int| t <= j < s@.len() ==> s@[j] == '0',
        decreases t,
    {
        t -= 1;
    }
    proof {
        lemma_trim_zeros_take(s@, t as int);
    }
    s.substring_char(0, t)
}

// ---------------------------------------------------------------------------
// Rendering
// ---------------------------------------------------------------------------

/// The decimal digits of `v`, most significant first, no leading zeros
/// (except for the single digit of zero itself).
pub open spec fn dec_digits(v: nat) -> Seq<char>
    decreases v,
{
    if v < 10 {
        seq![digit_char(v as int)]
    } else {
        dec_digits(v / 10).push(digit_char((v % 10) as int))
    }
}

pub proof fn lemma_dec_digits(v: nat)
    ensures
        dec_digits(v).len() >= 1,
        all_digits(dec_digits(v)),
        digits_val(dec_digits(v)) == v,
    decreases v,
{
    if v < 10 {
        assert(is_digit(digit_char(v as int)));
        let s = dec_digits(v);
        assert(s.len() == 1);
        assert(s.drop_last() =~= Seq::<char>::empty());
        assert(s.last() == digit_char(v as int));
        assert(digits_val(s) == digits_val(s.drop_last()) * 10 + digit_val(s.last()));
        assert(digit_val(digit_char(v as int)) == v);
    } else {
        lemma_dec_digits(v / 10);
        let s = dec_digits(v);
        assert(s.drop_last() =~= dec_digits(v / 10));
        assert(is_digit(digit_char((v % 10) as int)));
        assert(digit_val(digit_char((v % 10) as int)) == v % 10);
        assert forall|i: int| 0 <= i < s.len() implies is_digit(#[trigger] s[i]) by {
            if i < s.len() - 1 {
                assert(s[i] == dec_digits(v / 10)[i]);
            }
        }
    }
}

/// Trimming leaves no trailing zero behind.
pub proof fn lemma_trim_zeros_last(s: Seq<char>)
    ensures
        trim_zeros(s).len() > 0 ==> trim_zeros(s).last() != '0',
        trim_zeros(s).len() <= s.len(),
    decreases s.len(),
{
    if s.len() > 0 && s.last() == '0' {
        lemma_trim_zeros_last(s.drop_last());
    }
}

/// A number of at least one has at least as many digits as its magnitude
/// demands.
pub proof fn lemma_dec_digits_len_lower(v: nat)
    requires
        v >= 1,
    ensures
        pow10((dec_digits(v).len() - 1) as nat) <= v,
    decreases v,
{
    if v < 10 {
        assert(dec_digits(v).len() == 1);
    } else {
        lemma_dec_digits_len_lower(v / 10);
        let l = dec_digits(v / 10).len();
        assert(dec_digits(v).len() == l + 1);
        assert(pow10(l as nat) == 10 * pow10((l - 1) as nat));
        assert(10 * (v / 10) <= v);
        assert(10 * pow10((l - 1) as nat) <= 10 * (v / 10)) by (nonlinear_arith)
            requires
                pow10((l - 1) as nat) <= v / 10,
        ;
    }
}

/// The last digit of a digit run is its value modulo ten.
pub proof fn lemma_digits_val_mod10(s: Seq<char>)
    requires
        all_digits(s),
        s.len() > 0,
    ensures
        digits_val(s) % 10 == digit_val(s.last()),
{
    assert(all_digits(s.drop_last()));
    lemma_digits_val_nonneg(s.drop_last());
    assert(is_digit(s.last()));
    let q = digits_val(s.drop_last());
    let d = digit_val(s.last());
    assert((q * 10 + d) % 10 == d) by (nonlinear_arith)
        requires
            q >= 0,
            0 <= d < 10,
    ;
}

/// Inserts a thousands separator before every group of three digits,
/// counting from the right.
pub open spec fn grouped(s: Seq<char>) -> Seq<char>
    decreases s.len(),
{
    if s.len() <= 3 {
        s
    } else {
        grouped(s.take(s.len() - 3)) + seq![','] + s.skip(s.len() - 3)
    }
}

/// Appends a single character drawn from the small alphabet this crate
/// renders with.
pub fn append_char(out: &mut String, c: char)
    requires
        is_digit(c) || c == ',' || c == '.' || c == '-' || c == ' ',
    ensures
        final(out)@ == old(out)@.push(c),
{
    match c {
        '0' => {
            proof {
                reveal_strlit("0");
            }
            out.append("0");
        },
        '1' => {
            proof {
                reveal_strlit("1");
            }
            out.append("1");
        },
        '2' => {
            proof {
                reveal_strlit("2");
            }
            out.append("2");
        },
        '3' => {
            proof {
                reveal_strlit("3");
            }
            out.append("3");
        },
        '4' => {
            proof {
                reveal_strlit("4");
            }
            out.append("4");
        },
        '5' => {
            proof {
                reveal_strlit("5");
            }
            out.append("5");
        },
        '6' => {
            proof {
                reveal_strlit("6");
            }
            out.append("6");
        },
        '7' => {
            proof {
                reveal_strlit("7");
            }
            out.append("7");
        },
        '8' => {
            proof {
                reveal_strlit("8");
            }
            out.append("8");
        },
        '9' => {
            proof {
                reveal_strlit("9");
            }
            out.append("9");
        },
        ',' => {
            proof {
                reveal_strlit(",");
            }
            out.append(",");
        },
        '.' => {
            proof {
                reveal_strlit(".");
            }
            out.append(".");
        },
        '-' => {
            proof {
                reveal_strlit("-");
            }
            out.append("-");
        },
        ' ' => {
            proof {
                reveal_strlit(" ");
            }
            out.append(" ");
        },
        _ => {
            proof {
                assert(false);
            }
        },
    }
    proof {
        assert(out@ =~= old(out)@.push(c));
    }
}

fn digit_to_char(d: u64) -> (c: char)
    requires
        d < 10,
    ensures
        c == digit_char(d as int),
{
    if d == 0 {
        '0'
    } else if d == 1 {
        '1'
    } else if d == 2 {
        '2'
    } else if d == 3 {
        '3'
    } else if d == 4 {
        '4'
    } else if d == 5 {
        '5'
    } else if d == 6 {
        '6'
    } else if d == 7 {
        '7'
    } else if d == 8 {
        '8'
    } else {
        '9'
    }
}

/// The decimal digits of `v` as characters.
pub fn u64_digits(v: u64) -> (r: Vec<char>)
    ensures
        r@ == dec_digits(v as nat),
    decreases v,
{
    if v < 10 {
        let mut r: Vec<char> = Vec::new();
        r.push(digit_to_char(v));
        proof {
            assert(r@ =~= dec_digits(v as nat));
        }
        r
    } else {
        let mut r = u64_digits(v / 10);
        r.push(digit_to_char(v % 10));
        proof {
            assert(r@ =~= dec_digits(v as nat));
        }
        r
    }
}

/// Appends `digits[..upto]` with thousands separators inserted.
pub fn append_grouped(out: &mut String, digits: &Vec<char>, upto: usize)
    requires
        upto <= digits@.len(),
        all_digits(digits@),
    ensures
        final(out)@ == old(out)@ + grouped(digits@.take(upto as int)),
    decreases upto,
{
    if upto <= 3 {
        let mut i: usize = 0;
        while i < upto
            invariant
                i <= upto <= digits@.len(),
                all_digits(digits@),
                out@ == old(out)@ + digits@.take(i as int),
            decreases upto - i,
        {
            append_char(out, digits[i]);
            proof {
                assert(old(out)@ + digits@.take(i as int + 1) =~= (old(out)@ + digits@.take(
                    i as int,
                )).push(digits@[i as int]));
            }
            i += 1;
        }
        proof {
            assert(out@ + Seq::<char>::empty() =~= out@);
        }
    } else {
        append_grouped(out, digits, upto - 3);
        append_char(out, ',');
        let mut i: usize = upto - 3;
        while i < upto
            invariant
                upto - 3 <= i <= upto <= digits@.len(),
                3 < upto,
                all_digits(digits@),
                out@ == old(out)@ + grouped(digits@.take(upto as int - 3)) + seq![','] + digits@.subrange(
                    upto as int - 3,
                    i as int,
                ),
            decreases upto - i,
        {
            append_char(out, digits[i]);
            proof {
                assert(digits@.subrange(upto as int - 3, i as int + 1) =~= digits@.subrange(
                    upto as int - 3,
                    i as int,
                ).push(digits@[i as int]));
                assert(out@ =~= old(out)@ + grouped(digits@.take(upto as int - 3)) + seq![',']
                    + digits@.subrange(upto as int - 3, i as int + 1));
            }
            i += 1;
        }
        proof {
            let t = digits@.take(upto as int);
            assert(t.take(t.len() - 3) =~= digits@.take(upto as int - 3));
            assert(t.skip(t.len() - 3) =~= digits@.subrange(upto as int - 3, upto as int));
            assert(out@ =~= old(out)@ + grouped(digits@.take(upto as int)));
        }
    }
}

} // verus!
