//! Decimal numerals: parsing unsigned integers exactly as `str::parse` of an
//! unsigned type accepts them (an optional leading `+`, then digits, value in
//! range), and rendering integers back to decimal text.
use vstd::prelude::*;

verus! {

pub open spec fn is_digit(c: char) -> bool {
    '0' as int <= c as int <= '9' as int
}

pub open spec fn digit_val(c: char) -> int {
    c as int - '0' as int
}

pub open spec fn all_digits(s: Seq<char>) -> bool {
    forall|i: int| 0 <= i < s.len() ==> is_digit(#[trigger] s[i])
}

/// The value of a sequence of decimal digits, most significant first.
pub open spec fn dec_val(s: Seq<char>) -> int
    decreases s.len(),
{
    if s.len() == 0 {
        0
    } else {
        dec_val(s.drop_last()) * 10 + digit_val(s.last())
    }
}

/// The digits of the numeral: a single leading `+` is allowed and ignored.
pub open spec fn digits_part(s: Seq<char>) -> Seq<char> {
    if s.len() > 0 && s[0] == '+' {
        s.subrange(1, s.len() as int)
    } else {
        s
    }
}

/// Whether `str::parse` of an unbounded unsigned type would accept `s`.
pub open spec fn parses_as_uint(s: Seq<char>) -> bool {
    digits_part(s).len() > 0 && all_digits(digits_part(s))
}

/// The numeric value of an accepted numeral.
pub open spec fn uint_val(s: Seq<char>) -> int {
    dec_val(digits_part(s))
}

pub proof fn lemma_dec_val_nonneg(s: Seq<char>)
    requires
        all_digits(s),
    ensures
        dec_val(s) >= 0,
    decreases s.len(),
{
    if s.len() > 0 {
        assert(all_digits(s.drop_last())) by {
            assert(forall|i: int| 0 <= i < s.len() - 1 ==> s.drop_last()[i] == #[trigger] s[i]);
        }
        lemma_dec_val_nonneg(s.drop_last());
    }
}

/// Extending a digit string can only increase its value.
pub proof fn lemma_dec_val_prefix(s: Seq<char>, i: int, j: int)
    requires
        all_digits(s),
        0 <= i <= j <= s.len(),
    ensures
        dec_val(s.subrange(0, i)) <= dec_val(s.subrange(0, j)),
    decreases j - i,
{
    if i < j {
        lemma_dec_val_prefix(s, i + 1, j);
        let p = s.subrange(0, i);
        let q = s.subrange(0, i + 1);
        assert(q.drop_last() =~= p);
        assert(all_digits(p));
        lemma_dec_val_nonneg(p);
        assert(is_digit(q.last()));
        assert(dec_val(q) == dec_val(p) * 10 + digit_val(q.last()));
        assert(dec_val(p) * 10 >= dec_val(p)) by (nonlinear_arith)
            requires
                dec_val(p) >= 0,
        ;
    }
}

/// `str::parse::<u64>`: `Some` exactly on an optional `+`, one or more
/// digits, and a value that fits in `u64`.
pub fn parse_u64(s: &str) -> (r: Option<u64>)
    ensures
        r is Some <==> parses_as_uint(s@) && uint_val(s@) <= u64::MAX,
        r is Some ==> r->0 == uint_val(s@),
{
    let n = s.unicode_len();
    let start: usize = if n > 0 && s.get_char(0) == '+' {
        1
    } else {
        0
    };
    let ghost d = digits_part(s@);
    proof {
        assert(d =~= s@.subrange(start as int, n as int));
    }
    if start >= n {
        return None;
    }
    let mut acc: u64 = 0;
    let mut i: usize = start;
    while i < n
        invariant
            start <= i <= n,
            n == s@.len(),
            d == digits_part(s@),
            d == s@.subrange(start as int, n as int),
            d.len() == n - start,
            all_digits(d.subrange(0, i - start)),
            acc == dec_val(d.subrange(0, i - start)),
        decreases n - i,
    {
        let c = s.get_char(i);
        let cv = c as u32;
        proof {
            assert(d[i - start] == s@[i as int]);
            assert(d.subrange(0, i - start + 1).drop_last() =~= d.subrange(0, i - start));
        }
        if cv < 48 || cv > 57 {
            proof {
                assert(!is_digit(d[i - start]));
            }
            return None;
        }
        let dv: u64 = (cv - 48) as u64;
        proof {
            assert(is_digit(d[i - start]));
            assert(dv == digit_val(d[i - start]));
        }
        if acc > (u64::MAX - dv) / 10 {
            proof {
                let pre = d.subrange(0, i - start + 1);
                assert(dec_val(pre) == acc * 10 + dv);
                assert(acc * 10 + dv > u64::MAX) by (nonlinear_arith)
                    requires
                        acc > (u64::MAX - dv) / 10,
                        0 <= dv <= 9,
                ;
                if parses_as_uint(s@) && uint_val(s@) <= u64::MAX {
                    lemma_dec_val_prefix(d, i - start + 1, d.len() as int);
                    assert(d.subrange(0, d.len() as int) =~= d);
                    assert(uint_val(s@) >= dec_val(pre));
                    assert(false);
                }
            }
            return None;
        }
        proof {
            assert(acc * 10 + dv <= u64::MAX) by (nonlinear_arith)
                requires
                    acc <= (u64::MAX - dv) / 10,
                    0 <= dv <= 9,
            ;
        }
        acc = acc * 10 + dv;
        i += 1;
    }
    proof {
        assert(d.subrange(0, (n - start) as int) =~= d);
    }
    Some(acc)
}

/// The value `str::parse` would give, or zero where it fails or overflows
/// the 16-bit range: the lenient decoding the pair fields use.
pub open spec fn u16_or_zero(s: Seq<char>) -> u16 {
    if parses_as_uint(s) && uint_val(s) <= u16::MAX {
        uint_val(s) as u16
    } else {
        0
    }
}

pub open spec fn u64_or_zero(s: Seq<char>) -> u64 {
    if parses_as_uint(s) && uint_val(s) <= u64::MAX {
        uint_val(s) as u64
    } else {
        0
    }
}

pub fn parse_u16_or_zero(s: &str) -> (r: u16)
    ensures
        r == u16_or_zero(s@),
{
    match parse_u64(s) {
        Some(v) => if v <= u16::MAX as u64 {
            v as u16
        } else {
            0
        },
        None => 0,
    }
}

pub fn parse_u64_or_zero(s: &str) -> (r: u64)
    ensures
        r == u64_or_zero(s@),
{
    match parse_u64(s) {
        Some(v) => v,
        None => 0,
    }
}

pub open spec fn digit_char(d: int) -> char {
    ((d + 48) as u8) as char
}

/// The decimal numeral of a non-negative integer, without sign or padding.
pub open spec fn dec_str(n: int) -> Seq<char>
    decreases n,
{
    if n < 10 {
        seq![digit_char(if n < 0 {
            0
        } else {
            n
        })]
    } else {
        dec_str(n / 10).push(digit_char(n % 10))
    }
}

/// Renders `n` in decimal.
pub fn u128_to_string(n: u128) -> (r: String)
    ensures
        r@ == dec_str(n as int),
{
    let mut digits: Vec<char> = Vec::new();
    let mut m: u128 = n;
    while m >= 10
        invariant
            dec_str(n as int) == dec_str(m as int) + digits@.reverse(),
        decreases m,
    {
        let d = (m % 10) as u8;
        let ghost old_digits = digits@;
        digits.push((d + 48) as char);
        proof {
            assert(digits@.reverse() =~= seq![digit_char(m as int % 10)] + old_digits.reverse());
            assert(dec_str(m as int) == dec_str(m as int / 10).push(digit_char(m as int % 10)));
            assert(dec_str(m as int / 10).push(digit_char(m as int % 10)) + old_digits.reverse()
                =~= dec_str(m as int / 10) + digits@.reverse());
        }
        m = m / 10;
    }
    let ghost old_digits = digits@;
    digits.push(((m % 10) as u8 + 48) as char);
    proof {
        assert(digits@.reverse() =~= seq![digit_char(m as int)] + old_digits.reverse());
        assert(dec_str(m as int) =~= seq![digit_char(m as int)]);
        assert(dec_str(n as int) =~= digits@.reverse());
    }
    let mut r = String::new();
    let mut i: usize = digits.len();
    while i > 0
        invariant
            0 <= i <= digits@.len(),
            r@ == digits@.subrange(i as int, digits@.len() as int).reverse(),
        decreases i,
    {
        i -= 1;
        crate::text::push_char(&mut r, digits[i]);
        proof {
            assert(digits@.subrange(i as int, digits@.len() as int).reverse() =~= digits@.subrange(
                i + 1,
                digits@.len() as int,
            ).reverse().push(digits@[i as int]));
        }
    }
    proof {
        assert(digits@.subrange(0, digits@.len() as int) =~= digits@);
        assert(r@ =~= digits@.reverse());
    }
    r
}

} // verus!
