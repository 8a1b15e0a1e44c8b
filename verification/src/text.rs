//! Text output: bytes, numbers and comparison.

use vstd::prelude::*;
use vstd::string::*;

verus! {

/// The bytes of a text.
pub open spec fn text(s: Seq<char>) -> Seq<u8> {
    vstd::utf8::encode_utf8(s)
}

/// The digit `d` in bases up to 16, in lower case.
pub open spec fn digit(d: int) -> u8 {
    if d < 10 {
        (48 + d) as u8
    } else {
        (87 + d) as u8
    }
}

/// The number `n` in base `base`, without leading zeroes.
pub open spec fn numeral(n: nat, base: nat) -> Seq<u8>
    decreases n,
{
    if base < 2 || n < base {
        seq![digit(n as int)]
    } else {
        proof {
            assert(n / base < n) by (nonlinear_arith)
                requires
                    base >= 2,
                    n >= base,
            ;
        }
        numeral(n / base, base).push(digit((n % base) as int))
    }
}

/// The decimal numeral for `n`.
pub open spec fn dec(n: int) -> Seq<u8> {
    numeral(n as nat, 10)
}

/// The decimal numeral for `n`, of two digits at least.
pub open spec fn dec2(n: int) -> Seq<u8> {
    if n < 10 {
        seq![48u8] + dec(n)
    } else {
        dec(n)
    }
}

/// The hexadecimal numeral for `n`, with its prefix.
pub open spec fn hex(n: int) -> Seq<u8> {
    text("0x"@) + numeral(n as nat, 16)
}

/// `s` filled up with spaces on the right to `width` bytes.
pub open spec fn padded(s: Seq<u8>, width: nat) -> Seq<u8> {
    if s.len() < width {
        s + Seq::new((width - s.len()) as nat, |i: int| 32u8)
    } else {
        s
    }
}

/// Append `bytes`.
pub fn push_bytes(out: &mut Vec<u8>, bytes: &[u8])
    ensures
        final(out)@ == old(out)@ + bytes@,
{
    let mut i: usize = 0;
    while i < bytes.len()
        invariant
            i <= bytes@.len(),
            out@ =~= old(out)@ + bytes@.take(i as int),
        decreases bytes@.len() - i,
    {
        out.push(bytes[i]);
        i = i + 1;
    }
    assert(bytes@.take(bytes@.len() as int) =~= bytes@);
}

/// Append the bytes of `s`.
pub fn push_str(out: &mut Vec<u8>, s: &str)
    ensures
        final(out)@ == old(out)@ + text(s@),
{
    push_bytes(out, s.as_bytes());
}

fn digit_of(d: u64) -> (r: u8)
    requires
        d < 16,
    ensures
        r == digit(d as int),
{
    if d < 10 {
        48 + d as u8
    } else {
        87 + d as u8
    }
}

/// Append the numeral for `n` in base `base`.
fn push_numeral(out: &mut Vec<u8>, n: u64, base: u64)
    requires
        2 <= base <= 16,
    ensures
        final(out)@ == old(out)@ + numeral(n as nat, base as nat),
    decreases n,
{
    if n >= base {
        proof {
            assert(n / base < n) by (nonlinear_arith)
                requires
                    base >= 2,
                    n >= base,
            ;
        }
        push_numeral(out, n / base, base);
    } else {
        proof {
            vstd::arithmetic::div_mod::lemma_small_mod(n as nat, base as nat);
        }
    }
    out.push(digit_of(n % base));
    assert(out@ =~= old(out)@ + numeral(n as nat, base as nat));
}

/// Append `n` in decimal.
pub fn push_dec(out: &mut Vec<u8>, n: u64)
    ensures
        final(out)@ == old(out)@ + dec(n as int),
{
    push_numeral(out, n, 10);
}

/// Append `n` in decimal, with two digits at least.
pub fn push_dec2(out: &mut Vec<u8>, n: u64)
    ensures
        final(out)@ == old(out)@ + dec2(n as int),
{
    if n < 10 {
        out.push(48);
    }
    push_numeral(out, n, 10);
    assert(out@ =~= old(out)@ + dec2(n as int));
}

/// Append `n` in hexadecimal, with its prefix.
pub fn push_hex(out: &mut Vec<u8>, n: u64)
    ensures
        final(out)@ == old(out)@ + hex(n as int),
{
    push_str(out, "0x");
    push_numeral(out, n, 16);
    assert(out@ =~= old(out)@ + hex(n as int));
}

/// Append `s`, filled up with spaces on the right to `width` bytes.
pub fn push_padded(out: &mut Vec<u8>, s: &str, width: usize)
    ensures
        final(out)@ == old(out)@ + padded(text(s@), width as nat),
{
    let bytes = s.as_bytes();
    push_bytes(out, bytes);
    let mut n = bytes.len();
    let ghost base = out@;
    while n < width
        invariant
            bytes@ == text(s@),
            bytes@.len() <= n,
            n <= width || n == bytes@.len(),
            out@ =~= base + Seq::new((n - bytes@.len()) as nat, |i: int| 32u8),
        decreases width - n,
    {
        out.push(32);
        n = n + 1;
    }
    assert(out@ =~= old(out)@ + padded(text(s@), width as nat));
}

/// True if `a` and `b` hold the same bytes.
pub fn same_bytes(a: &[u8], b: &[u8]) -> (r: bool)
    ensures
        r == (a@ == b@),
{
    if a.len() != b.len() {
        return false;
    }
    let mut i: usize = 0;
    while i < a.len()
        invariant
            a@.len() == b@.len(),
            i <= a@.len(),
            forall|j: int| 0 <= j < i ==> a@[j] == b@[j],
        decreases a@.len() - i,
    {
        if a[i] != b[i] {
            return false;
        }
        i = i + 1;
    }
    assert(a@ =~= b@);
    true
}

/// True if `a` is the text `s`.
pub fn is_text(a: &[u8], s: &str) -> (r: bool)
    ensures
        r == (a@ == text(s@)),
{
    same_bytes(a, s.as_bytes())
}

/// Length of the UTF-8 encoding of a character at the start of `s`; 0 if there
/// is none.
fn first_scalar(s: &[u8], at: usize) -> (r: usize)
    requires
        at < s@.len(),
    ensures
        ({
            let rest = s@.skip(at as int);
            &&& r > 0 <==> vstd::utf8::valid_first_scalar(rest)
            &&& r > 0 ==> r == vstd::utf8::length_of_first_scalar(rest) && at + r <= s@.len()
        }),
{
    let ghost rest = s@.skip(at as int);
    let left = s.len() - at;
    let a = s[at];
    proof {
        assert(rest[0] == a);
    }
    let code: u32;
    let len: usize;
    if a <= 0x7f {
        code = (a & 0x7f) as u32;
        len = 1;
        assert(a & 0x7f <= 0x7f) by (bit_vector);
    } else if 0xc0 <= a && a <= 0xdf {
        if left < 2 {
            return 0;
        }
        let b = s[at + 1];
        assert(rest[1] == b);
        if !(0x80 <= b && b <= 0xbf) {
            return 0;
        }
        code = (((a & 0x1f) as u32) << 6u32) | ((b & 0x3f) as u32);
        len = 2;
    } else if 0xe0 <= a && a <= 0xef {
        if left < 3 {
            return 0;
        }
        let b = s[at + 1];
        let c = s[at + 2];
        assert(rest[1] == b && rest[2] == c);
        if !(0x80 <= b && b <= 0xbf) || !(0x80 <= c && c <= 0xbf) {
            return 0;
        }
        code = (((a & 0x0f) as u32) << 12u32) | (((b & 0x3f) as u32) << 6u32) | ((c & 0x3f) as u32);
        len = 3;
    } else if 0xf0 <= a && a <= 0xf7 {
        if left < 4 {
            return 0;
        }
        let b = s[at + 1];
        let c = s[at + 2];
        let d = s[at + 3];
        assert(rest[1] == b && rest[2] == c && rest[3] == d);
        if !(0x80 <= b && b <= 0xbf) || !(0x80 <= c && c <= 0xbf) || !(0x80 <= d && d <= 0xbf) {
            return 0;
        }
        code = (((a & 0x07) as u32) << 18u32) | (((b & 0x3f) as u32) << 12u32) | (((c
            & 0x3f) as u32) << 6u32) | ((d & 0x3f) as u32);
        len = 4;
    } else {
        return 0;
    }
    assert(code == vstd::utf8::decode_first_codepoint(rest));
    if (len == 2 && code < 0x80) || (len == 3 && code < 0x800) || (len == 4 && (code < 0x10000
        || code > 0x10ffff)) || (0xd800 <= code && code <= 0xdfff) {
        return 0;
    }
    len
}

/// True if `s` is text in UTF-8.
pub fn is_utf8(s: &[u8]) -> (r: bool)
    ensures
        r == vstd::utf8::valid_utf8(s@),
{
    let total = s.len();
    let mut at: usize = 0;
    assert(s@.skip(0) =~= s@);
    while at < total
        invariant
            at <= total == s@.len(),
            vstd::utf8::valid_utf8(s@) == vstd::utf8::valid_utf8(s@.skip(at as int)),
        decreases total - at,
    {
        let n = first_scalar(s, at);
        if n == 0 {
            return false;
        }
        proof {
            assert(vstd::utf8::pop_first_scalar(s@.skip(at as int)) =~= s@.skip(at + n));
        }
        at = at + n;
    }
    true
}

/// True if every byte of `s` is a decimal digit.
pub open spec fn all_digits(s: Seq<u8>) -> bool {
    forall|i: int| 0 <= i < s.len() ==> 48 <= #[trigger] s[i] <= 57
}

/// The number that the decimal digits `s` stand for.
pub open spec fn digits_value(s: Seq<u8>) -> int
    decreases s.len(),
{
    if s.len() == 0 {
        0
    } else {
        digits_value(s.drop_last()) * 10 + (s.last() - 48)
    }
}

/// `s` without a leading plus sign.
pub open spec fn without_plus(s: Seq<u8>) -> Seq<u8> {
    if s.len() > 0 && s[0] == 43 {
        s.skip(1)
    } else {
        s
    }
}

/// The 32-bit number that `s` stands for: decimal digits, at least one, which
/// may follow a plus sign.
pub open spec fn parsed(s: Seq<u8>) -> Option<u32> {
    let d = without_plus(s);
    if d.len() > 0 && all_digits(d) && digits_value(d) <= u32::MAX {
        Some(digits_value(d) as u32)
    } else {
        None
    }
}

/// Leading digits stand for no more than all of them.
proof fn lemma_digits_value_grows(s: Seq<u8>, n: int)
    requires
        0 <= n <= s.len(),
        all_digits(s),
    ensures
        0 <= digits_value(s.take(n)) <= digits_value(s),
    decreases s.len(),
{
    if n == s.len() {
        assert(s.take(n) =~= s);
        if n > 0 {
            assert(all_digits(s.drop_last()));
            lemma_digits_value_grows(s.drop_last(), n - 1);
            assert(s.drop_last().take(n - 1) =~= s.drop_last());
        }
    } else {
        assert(all_digits(s.drop_last()));
        lemma_digits_value_grows(s.drop_last(), n);
        assert(s.drop_last().take(n) =~= s.take(n));
    }
}

/// The 32-bit number that `s` stands for, if it is a numeral.
pub fn parse_u32(s: &[u8]) -> (r: Option<u32>)
    ensures
        r == parsed(s@),
{
    let first: usize = if s.len() > 0 && s[0] == 43 {
        1
    } else {
        0
    };
    let ghost d = without_plus(s@);
    assert(d =~= s@.skip(first as int));
    if s.len() == first {
        return None;
    }
    let mut value: u32 = 0;
    let mut i = first;
    while i < s.len()
        invariant
            first <= i <= s@.len(),
            d == s@.skip(first as int),
            d.len() > 0,
            d == without_plus(s@),
            all_digits(d.take(i - first)),
            value == digits_value(d.take(i - first)),
        decreases s@.len() - i,
    {
        let c = s[i];
        assert(c == d[i - first]);
        let ghost longer = d.take(i + 1 - first);
        proof {
            assert(longer.drop_last() =~= d.take(i - first));
            assert(longer.last() == c);
            if all_digits(d) {
                lemma_digits_value_grows(d, i + 1 - first);
            }
        }
        if c < 48 || c > 57 {
            return None;
        }
        let next: u64 = value as u64 * 10 + (c - 48) as u64;
        if next > u32::MAX as u64 {
            return None;
        }
        value = next as u32;
        i = i + 1;
        assert(all_digits(longer)) by {
            assert forall|j: int| 0 <= j < longer.len() implies 48 <= #[trigger] longer[j] <= 57 by {
                if j < longer.len() - 1 {
                    assert(longer[j] == longer.drop_last()[j]);
                }
            }
        }
    }
    assert(d.take(i - first) =~= d);
    Some(value)
}

proof fn lemma_numeral_value(n: nat)
    ensures
        numeral(n, 10).len() > 0,
        all_digits(numeral(n, 10)),
        digits_value(numeral(n, 10)) == n,
    decreases n,
{
    let s = numeral(n, 10);
    if n < 10 {
        reveal_with_fuel(digits_value, 2);
        assert(s.drop_last() =~= Seq::empty());
    } else {
        lemma_numeral_value(n / 10);
        assert(s.drop_last() =~= numeral(n / 10, 10));
        assert forall|j: int| 0 <= j < s.len() implies 48 <= #[trigger] s[j] <= 57 by {
            if j < s.len() - 1 {
                assert(s[j] == s.drop_last()[j]);
            }
        }
    }
}

/// Reading back a number that was printed in decimal gives that number.
pub proof fn law_parse_undoes_dec(n: u32)
    ensures
        parsed(dec(n as int)) == Some(n),
{
    lemma_numeral_value(n as nat);
    let s = dec(n as int);
    assert(48 <= s[0] <= 57);
}

/// What a digit stands for: `0` to `9`, then `a` to `f`.
pub open spec fn digit_value(c: u8) -> int {
    if '0' as u8 <= c <= '9' as u8 {
        c - '0' as u8
    } else {
        c - 'a' as u8 + 10
    }
}

/// The number that the digits `s` stand for in base `base`, the first digit
/// counting most.
pub open spec fn value_in(s: Seq<u8>, base: int) -> int
    decreases s.len(),
{
    if s.len() == 0 {
        0
    } else {
        value_in(s.drop_last(), base) * base + digit_value(s.last())
    }
}

/// A numeral stands for its number, in digits of its base, and does not begin
/// with a zero that it could do without.
pub proof fn law_numeral_stands_for_its_number(n: nat, base: nat)
    requires
        2 <= base <= 16,
    ensures
        value_in(numeral(n, base), base as int) == n,
        numeral(n, base).len() > 0,
        n > 0 ==> numeral(n, base)[0] != '0' as u8,
        n < base ==> numeral(n, base).len() == 1,
        forall|i: int|
            0 <= i < numeral(n, base).len() ==> 0 <= digit_value(#[trigger] numeral(n, base)[i])
                < base && ('0' as u8 <= numeral(n, base)[i] <= '9' as u8 || 'a' as u8 <= numeral(
                n,
                base,
            )[i] <= 'f' as u8),
    decreases n,
{
    let s = numeral(n, base);
    if n < base {
        reveal_with_fuel(value_in, 2);
        assert(s.drop_last() =~= Seq::empty());
    } else {
        assert(0 < n / base < n) by (nonlinear_arith)
            requires
                base >= 2,
                n >= base,
        ;
        law_numeral_stands_for_its_number(n / base, base);
        vstd::arithmetic::div_mod::lemma_fundamental_div_mod(n as int, base as int);
        vstd::arithmetic::div_mod::lemma_mod_bound(n as int, base as int);
        assert(s.drop_last() =~= numeral(n / base, base));
        assert((n / base) * base == base * (n / base)) by (nonlinear_arith);
        assert forall|i: int| 0 <= i < s.len() implies 0 <= digit_value(#[trigger] s[i]) < base && (
        '0' as u8 <= s[i] <= '9' as u8 || 'a' as u8 <= s[i] <= 'f' as u8) by {
            if i < s.len() - 1 {
                assert(s[i] == s.drop_last()[i]);
            }
        }
    }
}

/// The decimal numeral stands for its number in base 10, and with one digit it
/// gets a zero in front where two are asked for.
pub proof fn law_decimals(n: int)
    requires
        0 <= n,
    ensures
        value_in(dec(n), 10) == n,
        value_in(dec2(n), 10) == n,
        dec2(n).len() >= 2,
        n >= 10 ==> dec2(n) == dec(n),
        n < 10 ==> dec2(n).len() == 2 && dec2(n)[0] == '0' as u8,
{
    law_numeral_stands_for_its_number(n as nat, 10);
    if n < 10 {
        reveal_with_fuel(value_in, 3);
        assert(dec2(n).drop_last() =~= seq![48u8]);
        assert(seq![48u8].drop_last() =~= Seq::empty());
    } else {
        law_numeral_stands_for_its_number((n / 10) as nat, 10);
        assert(dec(n) =~= numeral((n / 10) as nat, 10).push(digit(n % 10)));
    }
}

/// The hexadecimal numeral is `0x` and digits that stand for the number in
/// base 16.
pub proof fn law_hexadecimals(n: int)
    requires
        0 <= n,
    ensures
        hex(n).len() > 2,
        hex(n)[0] == '0' as u8,
        hex(n)[1] == 'x' as u8,
        value_in(hex(n).skip(2), 16) == n,
{
    law_numeral_stands_for_its_number(n as nat, 16);
    reveal_strlit("0x");
    assert(vstd::utf8::is_ascii_chars("0x"@));
    vstd::utf8::is_ascii_chars_encode_utf8("0x"@);
    assert("0x"@[0] == '0' && "0x"@[1] == 'x');
    assert(hex(n).skip(2) =~= numeral(n as nat, 16));
}

/// Filling up keeps the text, and adds just the spaces that are missing.
pub proof fn law_padding(s: Seq<u8>, width: nat)
    ensures
        padded(s, width).len() == if s.len() < width {
            width
        } else {
            s.len()
        },
        padded(s, width).take(s.len() as int) == s,
        forall|i: int| s.len() <= i < padded(s, width).len() ==> #[trigger] padded(s, width)[i] == ' ' as u8,
{
    assert(padded(s, width).take(s.len() as int) =~= s);
}

/// True if `d` is made of decimal digits, at least one, that stand for `n`.
pub open spec fn is_decimal(d: Seq<u8>, n: int) -> bool {
    &&& d.len() > 0
    &&& forall|i: int| 0 <= i < d.len() ==> '0' as u8 <= #[trigger] d[i] <= '9' as u8
    &&& value_in(d, 10) == n
}

/// A text is read as a number if and only if it is made of decimal digits, at
/// least one, behind a plus sign or not, and the number fits in 32 bits. It is
/// then the number that the digits stand for.
pub proof fn law_numbers_are_read(s: Seq<u8>, n: u32)
    ensures
        s.len() > 0 && s[0] == '+' as u8 ==> (parsed(s) == Some(n) <==> is_decimal(
            s.skip(1),
            n as int,
        )),
        s.len() == 0 || s[0] != '+' as u8 ==> (parsed(s) == Some(n) <==> is_decimal(s, n as int)),
{
    let d = without_plus(s);
    if all_digits(d) {
        lemma_digits_value(d);
        lemma_digits_value_grows(d, 0);
        assert(d.take(0) =~= Seq::empty());
        assert(forall|i: int| 0 <= i < d.len() ==> '0' as u8 <= #[trigger] d[i] <= '9' as u8);
    }
    if is_decimal(d, n as int) {
        assert(all_digits(d));
    }
}

proof fn lemma_digits_value(d: Seq<u8>)
    requires
        forall|i: int| 0 <= i < d.len() ==> '0' as u8 <= #[trigger] d[i] <= '9' as u8,
    ensures
        digits_value(d) == value_in(d, 10),
    decreases d.len(),
{
    if d.len() > 0 {
        lemma_digits_value(d.drop_last());
    }
}

} // verus!
