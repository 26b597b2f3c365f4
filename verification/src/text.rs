//! Characters, numerals and trimming.
use vstd::prelude::*;

verus! {

/// [`String::push`] appends one character.
pub assume_specification[ String::push ](s: &mut String, c: char)
    ensures
        final(s)@ == old(s)@.push(c),
;

/// [`String::from_utf8`] turns valid UTF-8 into the string that it encodes
/// and hands anything else back.
#[verifier::external_body]
pub(crate) fn string_from_utf8(bytes: Vec<u8>) -> (result: Result<String, Vec<u8>>)
    ensures
        match result {
            Ok(s) => vstd::utf8::valid_utf8(bytes@) && s@ == vstd::utf8::decode_utf8(bytes@),
            Err(b) => !vstd::utf8::valid_utf8(bytes@) && b@ == bytes@,
        },
{
    String::from_utf8(bytes).map_err(|e| e.into_bytes())
}

/// The characters of a string.
pub fn chars_of(s: &str) -> (chars: Vec<char>)
    ensures
        chars@ == s@,
{
    let mut chars: Vec<char> = Vec::new();
    for c in it: s.chars()
        invariant
            it.seq() == s@,
            chars@ == s@.take(it.index() as int),
    {
        chars.push(c);
    }
    assert(s@.take(s@.len() as int) =~= s@);
    chars
}

/// The string of the given characters.
pub fn text_of(chars: &Vec<char>) -> (s: String)
    ensures
        s@ == chars@,
{
    let mut s = String::new();
    for i in 0..chars.len()
        invariant
            s@ == chars@.take(i as int),
    {
        s.push(chars[i]);
        assert(chars@.take(i + 1) =~= chars@.take(i as int).push(chars@[i as int]));
    }
    assert(chars@.take(chars@.len() as int) =~= chars@);
    s
}

/// Append `more` to `chars`.
pub fn push_text(chars: &mut Vec<char>, more: &str)
    ensures
        final(chars)@ == old(chars)@ + more@,
{
    let mut tail = chars_of(more);
    chars.append(&mut tail);
}

/// Append the UTF-8 encoding of `chars` to `out`.
pub fn push_utf8(out: &mut Vec<u8>, chars: &Vec<char>)
    ensures
        final(out)@ == old(out)@ + vstd::utf8::encode_utf8(chars@),
{
    let s = text_of(chars);
    out.extend_from_slice(s.as_str().as_bytes());
}

/// The characters of Unicode's `White_Space` property.
pub open spec fn is_white(c: char) -> bool {
    ||| 0x9 <= c as int <= 0xd
    ||| c as int == 0x20
    ||| c as int == 0x85
    ||| c as int == 0xa0
    ||| c as int == 0x1680
    ||| 0x2000 <= c as int <= 0x200a
    ||| c as int == 0x2028
    ||| c as int == 0x2029
    ||| c as int == 0x202f
    ||| c as int == 0x205f
    ||| c as int == 0x3000
}

pub fn white(c: char) -> (b: bool)
    ensures
        b == is_white(c),
{
    let n: u32 = c as u32;
    (0x9 <= n && n <= 0xd) || n == 0x20 || n == 0x85 || n == 0xa0 || n == 0x1680 || (0x2000 <= n && n
        <= 0x200a) || n == 0x2028 || n == 0x2029 || n == 0x202f || n == 0x205f || n == 0x3000
}

/// `s` without leading white space.
pub open spec fn trimmed_start(s: Seq<char>) -> Seq<char>
    decreases s.len(),
{
    if s.len() > 0 && is_white(s[0]) {
        trimmed_start(s.skip(1))
    } else {
        s
    }
}

/// `s` without trailing white space.
pub open spec fn trimmed_end(s: Seq<char>) -> Seq<char>
    decreases s.len(),
{
    if s.len() > 0 && is_white(s.last()) {
        trimmed_end(s.drop_last())
    } else {
        s
    }
}

/// `s` without leading and trailing white space.
pub open spec fn trimmed(s: Seq<char>) -> Seq<char> {
    trimmed_end(trimmed_start(s))
}

pub fn trim(s: &Vec<char>) -> (t: Vec<char>)
    ensures
        t@ == trimmed(s@),
{
    let mut lo: usize = 0;
    assert(s@.skip(0) =~= s@);
    while lo < s.len() && white(s[lo])
        invariant
            lo <= s.len(),
            trimmed_start(s@) == trimmed_start(s@.skip(lo as int)),
        decreases s.len() - lo,
    {
        assert(s@.skip(lo as int).skip(1) =~= s@.skip(lo + 1));
        lo = lo + 1;
    }
    let ghost kept = s@.skip(lo as int);
    assert(trimmed_start(s@) == kept);
    let mut hi: usize = s.len();
    assert(s@.subrange(lo as int, hi as int) =~= kept);
    while hi > lo && white(s[hi - 1])
        invariant
            lo <= hi <= s.len(),
            trimmed_end(kept) == trimmed_end(s@.subrange(lo as int, hi as int)),
        decreases hi,
    {
        assert(s@.subrange(lo as int, hi as int).drop_last() =~= s@.subrange(lo as int, hi - 1));
        hi = hi - 1;
    }
    let mut t: Vec<char> = Vec::new();
    for i in lo..hi
        invariant
            lo <= hi <= s.len(),
            t@ == s@.subrange(lo as int, i as int),
    {
        t.push(s[i]);
        assert(s@.subrange(lo as int, i + 1) =~= s@.subrange(lo as int, i as int).push(s@[i as int]));
    }
    t
}

/// ASCII capitals become small letters; every other character stays.
pub open spec fn lower_char(c: char) -> char {
    if 'A' <= c && c <= 'Z' {
        (c as u8 + 32) as char
    } else {
        c
    }
}

pub open spec fn lowered(s: Seq<char>) -> Seq<char> {
    Seq::new(s.len(), |i: int| lower_char(s[i]))
}

pub fn lower(s: &Vec<char>) -> (t: Vec<char>)
    ensures
        t@ == lowered(s@),
{
    let mut t: Vec<char> = Vec::new();
    for i in 0..s.len()
        invariant
            t@ == lowered(s@).take(i as int),
    {
        let c = s[i];
        if 'A' <= c && c <= 'Z' {
            t.push((c as u8 + 32) as char);
        } else {
            t.push(c);
        }
        assert(lowered(s@).take(i + 1) =~= lowered(s@).take(i as int).push(lowered(s@)[i as int]));
    }
    assert(lowered(s@).take(s@.len() as int) =~= lowered(s@));
    t
}

/// The character for a digit below sixteen.
pub open spec fn digit_char(d: nat) -> char {
    if d < 10 {
        (48 + d) as char
    } else {
        (87 + d) as char
    }
}

pub fn digit(d: u8) -> (c: char)
    requires
        d < 16,
    ensures
        c == digit_char(d as nat),
{
    if d < 10 {
        (48 + d) as char
    } else {
        (87 + d) as char
    }
}

/// The decimal numeral of `n`.
pub open spec fn decimal(n: nat) -> Seq<char>
    decreases n,
{
    if n < 10 {
        seq![digit_char(n)]
    } else {
        decimal(n / 10).push(digit_char(n % 10))
    }
}

/// The last `width` hexadecimal digits of `n`, with leading zeros.
pub open spec fn hex_digits(n: nat, width: nat) -> Seq<char>
    decreases width,
{
    if width == 0 {
        Seq::empty()
    } else {
        hex_digits(n / 16, (width - 1) as nat).push(digit_char(n % 16))
    }
}

/// Append the decimal numeral of `n`.
pub fn push_decimal(out: &mut Vec<char>, n: u128)
    ensures
        final(out)@ == old(out)@ + decimal(n as nat),
    decreases n,
{
    if n < 10 {
        out.push(digit(n as u8));
        assert(out@ =~= old(out)@ + decimal(n as nat));
    } else {
        push_decimal(out, n / 10);
        out.push(digit((n % 10) as u8));
        assert(out@ =~= old(out)@ + decimal(n as nat));
    }
}

fn push_hex_digits(out: &mut Vec<char>, n: u64, width: usize)
    ensures
        final(out)@ == old(out)@ + hex_digits(n as nat, width as nat),
    decreases width,
{
    if width > 0 {
        push_hex_digits(out, n / 16, width - 1);
        out.push(digit((n % 16) as u8));
    }
    assert(out@ =~= old(out)@ + hex_digits(n as nat, width as nat));
}

/// An address as text: `0x` and sixteen hexadecimal digits.
pub open spec fn hex_address(addr: nat) -> Seq<char> {
    seq!['0', 'x'] + hex_digits(addr, 16)
}

/// Append the text of an address.
pub fn push_hex_address(out: &mut Vec<char>, addr: u64)
    ensures
        final(out)@ == old(out)@ + hex_address(addr as nat),
{
    out.push('0');
    out.push('x');
    push_hex_digits(out, addr, 16);
    assert(out@ =~= old(out)@ + hex_address(addr as nat));
}

/// The value of a digit character, if it is one in base `radix`.
pub open spec fn digit_value(c: char, radix: nat) -> Option<nat> {
    let v = if '0' <= c && c <= '9' {
        c as int - 48
    } else if 'a' <= c && c <= 'z' {
        c as int - 87
    } else if 'A' <= c && c <= 'Z' {
        c as int - 55
    } else {
        36
    };
    if v < radix {
        Some(v as nat)
    } else {
        None
    }
}

fn value_of_digit(c: char, radix: u32) -> (v: Option<u32>)
    requires
        radix <= 36,
    ensures
        match v {
            Some(d) => digit_value(c, radix as nat) == Some(d as nat) && d < radix,
            None => digit_value(c, radix as nat) is None,
        },
{
    let n: u32 = c as u32;
    let v: u32 = if '0' <= c && c <= '9' {
        n - 48
    } else if 'a' <= c && c <= 'z' {
        n - 87
    } else if 'A' <= c && c <= 'Z' {
        n - 55
    } else {
        36
    };
    if v < radix {
        Some(v)
    } else {
        None
    }
}

/// Every character is a digit in base `radix`.
pub open spec fn all_digits(s: Seq<char>, radix: nat) -> bool {
    forall|i: int| 0 <= i < s.len() ==> digit_value(#[trigger] s[i], radix) is Some
}

/// The number that a row of digits writes.
pub open spec fn digits_value(s: Seq<char>, radix: nat) -> nat
    decreases s.len(),
{
    if s.len() == 0 {
        0
    } else {
        digits_value(s.drop_last(), radix) * radix + match digit_value(s.last(), radix) {
            Some(d) => d,
            None => 0,
        }
    }
}

/// The number that `s` writes in base `radix`: at least one digit, an
/// optional `+` before them, and a value that a word holds.
pub open spec fn parsed_number(s: Seq<char>, radix: nat) -> Option<nat> {
    let digits = if s.len() > 0 && s[0] == '+' {
        s.skip(1)
    } else {
        s
    };
    if digits.len() > 0 && all_digits(digits, radix) && digits_value(digits, radix) <= usize::MAX {
        Some(digits_value(digits, radix))
    } else {
        None
    }
}

proof fn digits_value_grows(s: Seq<char>, n: int, radix: nat)
    requires
        0 <= n <= s.len(),
        radix >= 1,
    ensures
        digits_value(s.take(n), radix) <= digits_value(s, radix),
    decreases s.len(),
{
    if n == s.len() {
        assert(s.take(n) =~= s);
    } else {
        digits_value_grows(s.drop_last(), n, radix);
        assert(s.drop_last().take(n) =~= s.take(n));
        let v = digits_value(s.drop_last(), radix);
        assert(v * radix >= v) by (nonlinear_arith)
            requires
                radix >= 1,
                v >= 0,
        ;
    }
}

/// Read a number in base `radix`.
pub fn parse_number(s: &Vec<char>, radix: u32) -> (value: Option<usize>)
    requires
        2 <= radix <= 36,
    ensures
        match value {
            Some(v) => parsed_number(s@, radix as nat) == Some(v as nat),
            None => parsed_number(s@, radix as nat) is None,
        },
{
    let start: usize = if s.len() > 0 && s[0] == '+' {
        1
    } else {
        0
    };
    let ghost r = radix as nat;
    let ghost digits = s@.skip(start as int);
    assert(start == 0 ==> digits =~= s@);
    if start == s.len() {
        return None;
    }
    let mut value: usize = 0;
    let mut i: usize = start;
    while i < s.len()
        invariant
            2 <= radix <= 36,
            r == radix as nat,
            start <= i <= s.len(),
            start < s.len(),
            digits == s@.skip(start as int),
            parsed_number(s@, r) == (if digits.len() > 0 && all_digits(digits, r) && digits_value(
                digits,
                r,
            ) <= usize::MAX {
                Some(digits_value(digits, r))
            } else {
                None
            }),
            all_digits(digits.take(i - start), r),
            value == digits_value(digits.take(i - start), r),
        decreases s.len() - i,
    {
        let ghost k = i - start;
        assert(digits[k] == s@[i as int]);
        let d: u32 = match value_of_digit(s[i], radix) {
            Some(d) => d,
            None => {
                return None;
            },
        };
        let ghost longer = digits.take(k + 1);
        assert((value as u128) * (radix as u128) <= 0xffff_ffff_ffff_ffff * 36) by (nonlinear_arith)
            requires
                value <= 0xffff_ffff_ffff_ffff,
                radix <= 36,
        ;
        let wide: u128 = (value as u128) * (radix as u128) + (d as u128);
        proof {
            assert(longer.drop_last() =~= digits.take(k));
            assert(longer.last() == digits[k]);
            assert(wide == digits_value(longer, r));
            digits_value_grows(digits, k + 1, r);
            assert forall|j: int| 0 <= j < longer.len() implies digit_value(
                #[trigger] longer[j],
                r,
            ) is Some by {
                if j < k {
                    assert(longer[j] == digits.take(k)[j]);
                }
            }
        }
        if wide > usize::MAX as u128 {
            return None;
        }
        value = wide as usize;
        i = i + 1;
    }
    assert(digits.take(digits.len() as int) =~= digits);
    Some(value)
}

/// `s` starts with `prefix`.
pub open spec fn starts_with(s: Seq<char>, prefix: Seq<char>) -> bool {
    prefix.len() <= s.len() && s.take(prefix.len() as int) == prefix
}

pub fn has_prefix(s: &Vec<char>, prefix: &str) -> (b: bool)
    ensures
        b == starts_with(s@, prefix@),
{
    let p = chars_of(prefix);
    if p.len() > s.len() {
        return false;
    }
    for i in 0..p.len()
        invariant
            p@ == prefix@,
            p.len() <= s.len(),
            s@.take(i as int) == p@.take(i as int),
    {
        if s[i] != p[i] {
            assert(s@.take(p.len() as int)[i as int] != p@[i as int]);
            return false;
        }
        assert(s@.take(i + 1) =~= s@.take(i as int).push(s@[i as int]));
        assert(p@.take(i + 1) =~= p@.take(i as int).push(p@[i as int]));
    }
    assert(p@.take(p.len() as int) =~= p@);
    true
}

/// The characters are those of `other`.
pub fn same_text(s: &Vec<char>, other: &str) -> (b: bool)
    ensures
        b == (s@ == other@),
{
    let o = chars_of(other);
    if o.len() != s.len() {
        return false;
    }
    let b = has_prefix(s, other);
    assert(s@.take(s.len() as int) =~= s@);
    b
}

proof fn digit_char_reads_back(d: nat, radix: nat)
    requires
        d < radix <= 16,
    ensures
        digit_value(digit_char(d), radix) == Some(d),
{
}

/// Reading the decimal numeral of a number gives the number back.
pub proof fn decimal_reads_back(n: nat)
    ensures
        decimal(n).len() > 0,
        all_digits(decimal(n), 10),
        digits_value(decimal(n), 10) == n,
        n <= usize::MAX ==> parsed_number(decimal(n), 10) == Some(n),
    decreases n,
{
    let s = decimal(n);
    digit_char_reads_back(n % 10, 10);
    if n < 10 {
        assert(s.drop_last() =~= Seq::empty());
        assert(digits_value(s.drop_last(), 10) == 0);
    } else {
        decimal_reads_back(n / 10);
        assert(s.drop_last() =~= decimal(n / 10));
        assert forall|i: int| 0 <= i < s.len() implies digit_value(#[trigger] s[i], 10) is Some by {
            if i < s.len() - 1 {
                assert(s[i] == decimal(n / 10)[i]);
            }
        }
    }
    assert(digit_value(s[0], 10) is Some);
}

/// The number of values that `width` hexadecimal digits write.
pub open spec fn hex_span(width: nat) -> nat
    decreases width,
{
    if width == 0 {
        1
    } else {
        16 * hex_span((width - 1) as nat)
    }
}

/// Reading the hexadecimal digits of a number gives the number back, where
/// there are enough of them.
pub proof fn hex_digits_read_back(n: nat, width: nat)
    requires
        n < hex_span(width),
    ensures
        hex_digits(n, width).len() == width,
        all_digits(hex_digits(n, width), 16),
        digits_value(hex_digits(n, width), 16) == n,
    decreases width,
{
    let s = hex_digits(n, width);
    if width > 0 {
        let shorter = hex_digits(n / 16, (width - 1) as nat);
        hex_digits_read_back(n / 16, (width - 1) as nat);
        digit_char_reads_back(n % 16, 16);
        assert(s.drop_last() =~= shorter);
        assert forall|i: int| 0 <= i < s.len() implies digit_value(#[trigger] s[i], 16) is Some by {
            if i < s.len() - 1 {
                assert(s[i] == shorter[i]);
            }
        }
    }
}

/// An address is `0x` and sixteen digits that read back as the address.
pub proof fn hex_address_reads_back(address: usize)
    ensures
        hex_address(address as nat).len() == 18,
        hex_address(address as nat).take(2) == seq!['0', 'x'],
        all_digits(hex_address(address as nat).skip(2), 16),
        digits_value(hex_address(address as nat).skip(2), 16) == address,
{
    assert(hex_span(16) == 0x1_0000_0000_0000_0000) by {
        reveal_with_fuel(hex_span, 17);
    }
    hex_digits_read_back(address as nat, 16);
    let s = hex_address(address as nat);
    assert(s.take(2) =~= seq!['0', 'x']);
    assert(s.skip(2) =~= hex_digits(address as nat, 16));
}

/// A text starts with a prefix exactly where the prefix and some rest make it
/// up.
pub proof fn prefixes_start_texts(s: Seq<char>, prefix: Seq<char>)
    ensures
        starts_with(s, prefix) <==> prefix.is_prefix_of(s),
        forall|rest: Seq<char>| starts_with(#[trigger] (prefix + rest), prefix),
        starts_with(s, prefix) ==> s == prefix + s.skip(prefix.len() as int),
{
    assert forall|rest: Seq<char>| starts_with(#[trigger] (prefix + rest), prefix) by {
        assert((prefix + rest).take(prefix.len() as int) =~= prefix);
    }
    if prefix.len() <= s.len() {
        assert(s.take(prefix.len() as int) == s.subrange(0, prefix.len() as int));
        assert(s =~= s.take(prefix.len() as int) + s.skip(prefix.len() as int));
    }
}

/// `s` writes `n` in decimal digits, without a zero before them.
pub open spec fn in_decimal(s: Seq<char>, n: nat) -> bool {
    &&& s.len() > 0
    &&& forall|i: int| 0 <= i < s.len() ==> '0' <= #[trigger] s[i] <= '9'
    &&& s.len() > 1 ==> s[0] != '0'
    &&& digits_value(s, 10) == n
}

/// A decimal numeral has the digits 0 to 9 alone, starts with no zero but
/// where it is the only digit, and writes its number.
pub proof fn decimals_are_digits(n: nat)
    ensures
        in_decimal(decimal(n), n),
        n > 0 ==> decimal(n)[0] != '0',
    decreases n,
{
    decimal_reads_back(n);
    let s = decimal(n);
    if n >= 10 {
        decimals_are_digits(n / 10);
        let shorter = decimal(n / 10);
        assert forall|i: int| 0 <= i < s.len() implies '0' <= #[trigger] s[i] <= '9' by {
            if i < s.len() - 1 {
                assert(s[i] == shorter[i]);
            }
        }
        assert(s[0] == shorter[0]);
    }
}

/// Each further digit makes a number `radix` times as large and adds its own
/// value: that of `0` to `9` is 0 to 9, and letters of either case go on from
/// 10.
pub proof fn digits_count_by_place(s: Seq<char>, c: char, radix: nat)
    requires
        2 <= radix <= 36,
    ensures
        digits_value(Seq::empty(), radix) == 0,
        '0' <= c <= '9' && radix > c as int - '0' as int ==> digits_value(s.push(c), radix) == radix
            * digits_value(s, radix) + (c as int - '0' as int),
        'a' <= c <= 'z' && radix > 10 + c as int - 'a' as int ==> digits_value(s.push(c), radix) == radix
            * digits_value(s, radix) + (10 + c as int - 'a' as int),
        'A' <= c <= 'Z' && radix > 10 + c as int - 'A' as int ==> digits_value(s.push(c), radix) == radix
            * digits_value(s, radix) + (10 + c as int - 'A' as int),
{
    assert(s.push(c).drop_last() =~= s);
    let v = digits_value(s, radix);
    assert(v * radix == radix * v) by (nonlinear_arith);
}

/// A character is a digit exactly where its value lies below the base.
pub proof fn digits_lie_below_the_base(c: char, radix: nat)
    requires
        2 <= radix <= 36,
    ensures
        digit_value(c, radix) is Some <==> {
            ||| '0' <= c <= '9' && radix > c as int - '0' as int
            ||| 'a' <= c <= 'z' && radix > 10 + c as int - 'a' as int
            ||| 'A' <= c <= 'Z' && radix > 10 + c as int - 'A' as int
        },
{
}

/// A number is read where there is a digit, there are only digits behind an
/// optional `+`, and a word holds the value; the value is then read, and
/// zeros before it make no difference.
pub proof fn numbers_are_read(s: &Vec<char>, radix: u32, value: Option<usize>, digits: Seq<char>)
    requires
        2 <= radix <= 36,
        call_ensures(parse_number, (s, radix), value),
        s@ == digits || s@ == seq!['+'] + digits,
        digits.len() > 0 ==> digits[0] != '+',
    ensures
        value is Some <==> {
            &&& digits.len() > 0
            &&& forall|i: int|
                0 <= i < digits.len() ==> digit_value(#[trigger] digits[i], radix as nat) is Some
            &&& digits_value(digits, radix as nat) <= usize::MAX
        },
        value is Some ==> value->0 == digits_value(digits, radix as nat),
        digits_value(seq!['0'] + digits, radix as nat) == digits_value(digits, radix as nat),
        forall|n: nat| radix == 10 && n <= usize::MAX && digits == #[trigger] decimal(n) ==> value == Some(
            n as usize,
        ),
{
    if s@ != digits {
        assert(s@.skip(1) =~= digits);
    }
    zeros_before_make_no_difference(digits, radix as nat);
    assert forall|n: nat| radix == 10 && n <= usize::MAX && digits == #[trigger] decimal(n) implies value
        == Some(n as usize) by {
        decimal_reads_back(n);
    }
}

proof fn zeros_before_make_no_difference(digits: Seq<char>, radix: nat)
    requires
        2 <= radix <= 36,
    ensures
        digits_value(seq!['0'] + digits, radix) == digits_value(digits, radix),
    decreases digits.len(),
{
    let s = seq!['0'] + digits;
    if digits.len() == 0 {
        assert(s.drop_last() =~= Seq::empty());
        assert(digits_value(s.drop_last(), radix) == 0);
        assert(0 * radix == 0) by (nonlinear_arith);
    } else {
        zeros_before_make_no_difference(digits.drop_last(), radix);
        assert(s.drop_last() =~= seq!['0'] + digits.drop_last());
    }
}

/// The digits of an address are those from 0 to 9 and the small letters from
/// `a` to `f`.
pub proof fn addresses_are_in_small_letters(address: u64)
    ensures
        hex_address(address as nat).len() == 18,
        hex_address(address as nat).take(2) == seq!['0', 'x'],
        forall|i: int|
            2 <= i < 18 ==> {
                let c = #[trigger] hex_address(address as nat)[i];
                ('0' <= c <= '9') || ('a' <= c <= 'f')
            },
        digits_value(hex_address(address as nat).skip(2), 16) == address,
{
    assert(hex_span(16) == 0x1_0000_0000_0000_0000) by {
        reveal_with_fuel(hex_span, 17);
    }
    hex_digits_read_back(address as nat, 16);
    hex_digits_are_small(address as nat, 16);
    let s = hex_address(address as nat);
    assert(s.take(2) =~= seq!['0', 'x']);
    assert(s.skip(2) =~= hex_digits(address as nat, 16));
    assert forall|i: int| 2 <= i < 18 implies {
        let c = #[trigger] s[i];
        ('0' <= c <= '9') || ('a' <= c <= 'f')
    } by {
        assert(s[i] == hex_digits(address as nat, 16)[i - 2]);
    }
}

proof fn hex_digits_are_small(n: nat, width: nat)
    ensures
        hex_digits(n, width).len() == width,
        forall|i: int|
            0 <= i < width ==> {
                let c = #[trigger] hex_digits(n, width)[i];
                ('0' <= c <= '9') || ('a' <= c <= 'f')
            },
    decreases width,
{
    if width > 0 {
        hex_digits_are_small(n / 16, (width - 1) as nat);
        let shorter = hex_digits(n / 16, (width - 1) as nat);
        let s = hex_digits(n, width);
        assert forall|i: int| 0 <= i < width implies {
            let c = #[trigger] s[i];
            ('0' <= c <= '9') || ('a' <= c <= 'f')
        } by {
            if i < width - 1 {
                assert(s[i] == shorter[i]);
            }
        }
    }
}

/// Every character is white space.
pub open spec fn all_white(s: Seq<char>) -> bool {
    forall|i: int| 0 <= i < s.len() ==> is_white(#[trigger] s[i])
}

proof fn trimmed_start_cuts(s: Seq<char>)
    ensures
        ({
            let t = trimmed_start(s);
            &&& t.len() <= s.len()
            &&& t == s.skip(s.len() - t.len())
            &&& all_white(s.take(s.len() - t.len()))
            &&& t.len() > 0 ==> !is_white(t[0])
        }),
    decreases s.len(),
{
    let t = trimmed_start(s);
    if s.len() > 0 && is_white(s[0]) {
        let rest = s.skip(1);
        trimmed_start_cuts(rest);
        assert(rest.skip(rest.len() - t.len()) =~= s.skip(s.len() - t.len()));
        let head = s.take(s.len() - t.len());
        assert forall|i: int| 0 <= i < head.len() implies is_white(#[trigger] head[i]) by {
            if i > 0 {
                assert(rest.take(rest.len() - t.len())[i - 1] == head[i]);
            }
        }
    } else {
        assert(s.skip(0) =~= s);
    }
}

proof fn trimmed_end_cuts(s: Seq<char>)
    ensures
        ({
            let t = trimmed_end(s);
            &&& t.len() <= s.len()
            &&& t == s.take(t.len() as int)
            &&& all_white(s.skip(t.len() as int))
            &&& t.len() > 0 ==> !is_white(t.last())
        }),
    decreases s.len(),
{
    let t = trimmed_end(s);
    if s.len() > 0 && is_white(s.last()) {
        let rest = s.drop_last();
        trimmed_end_cuts(rest);
        assert(rest.take(t.len() as int) =~= s.take(t.len() as int));
        let tail = s.skip(t.len() as int);
        assert forall|i: int| 0 <= i < tail.len() implies is_white(#[trigger] tail[i]) by {
            if i < tail.len() - 1 {
                assert(rest.skip(t.len() as int)[i] == tail[i]);
            }
        }
    } else {
        assert(s.take(s.len() as int) =~= s);
    }
}

/// Trimming takes white space off both ends of a text and nothing else: what
/// is left is a part of the text with white space alone around it, and is
/// empty or starts and ends with something else.
pub proof fn trimming_takes_white_space_off(s: Seq<char>)
    ensures
        ({
            let t = trimmed(s);
            &&& t.len() > 0 ==> !is_white(t[0]) && !is_white(t[t.len() - 1])
            &&& exists|lo: int, hi: int|
                {
                    &&& 0 <= lo <= hi <= s.len()
                    &&& t == #[trigger] s.subrange(lo, hi)
                    &&& all_white(s.take(lo))
                    &&& all_white(s.skip(hi))
                }
        }),
{
    let a = trimmed_start(s);
    let t = trimmed(s);
    trimmed_start_cuts(s);
    trimmed_end_cuts(a);
    let lo = s.len() - a.len();
    let hi = lo + t.len();
    assert(s.subrange(lo, hi) =~= t);
    if t.len() > 0 {
        assert(t[0] == a[0]);
    }
    let tail = s.skip(hi);
    assert forall|i: int| 0 <= i < tail.len() implies is_white(#[trigger] tail[i]) by {
        assert(a.skip(t.len() as int)[i] == tail[i]);
    }
}

/// What trimming leaves is the same however it was reached, and white space
/// around a text makes no difference.
pub proof fn white_space_around_makes_no_difference(a: Seq<char>, s: Seq<char>, b: Seq<char>)
    requires
        all_white(a),
        all_white(b),
    ensures
        trimmed(a + s + b) == trimmed(s),
{
    let whole = a + s + b;
    let t = trimmed(s);
    let w = trimmed(whole);
    trimming_takes_white_space_off(s);
    trimming_takes_white_space_off(whole);
    let (lo, hi) = choose|lo: int, hi: int|
        {
            &&& 0 <= lo <= hi <= s.len()
            &&& t == #[trigger] s.subrange(lo, hi)
            &&& all_white(s.take(lo))
            &&& all_white(s.skip(hi))
        };
    let (lo2, hi2) = choose|lo: int, hi: int|
        {
            &&& 0 <= lo <= hi <= whole.len()
            &&& w == #[trigger] whole.subrange(lo, hi)
            &&& all_white(whole.take(lo))
            &&& all_white(whole.skip(hi))
        };
    let n = a.len() as int;
    assert forall|i: int| 0 <= i < whole.len() && !(n + lo <= i < n + hi) implies is_white(
        #[trigger] whole[i],
    ) by {
        if i < n {
            assert(whole[i] == a[i]);
        } else if i < n + lo {
            assert(whole[i] == s.take(lo)[i - n]);
        } else if i < n + s.len() {
            assert(whole[i] == s.skip(hi)[i - n - hi]);
        } else {
            assert(whole[i] == b[i - n - s.len()]);
        }
    }
    assert forall|i: int| 0 <= i < whole.len() && !(lo2 <= i < hi2) implies is_white(
        #[trigger] whole[i],
    ) by {
        if i < lo2 {
            assert(whole[i] == whole.take(lo2)[i]);
        } else {
            assert(whole[i] == whole.skip(hi2)[i - hi2]);
        }
    }
    if t.len() > 0 {
        assert(whole[n + lo] == t[0]);
        assert(whole[n + hi - 1] == t[t.len() - 1]);
        assert(lo2 <= n + lo && n + hi <= hi2);
    }
    if w.len() > 0 {
        assert(whole[lo2] == w[0]);
        assert(whole[hi2 - 1] == w[w.len() - 1]);
        assert(n + lo <= lo2 && hi2 <= n + hi);
    }
    assert(t =~= w);
}

/// What is trimmed is what trimming leaves; and white space is the space, the
/// tab and the line breaks, but no letter, digit or sign of ASCII.
pub proof fn texts_are_trimmed(s: &Vec<char>, t: Vec<char>, c: char, b: bool)
    requires
        call_ensures(trim, (s,), t),
        call_ensures(white, (c,), b),
    ensures
        t@ == trimmed(s@),
        b == is_white(c),
        c == ' ' || c == '\t' || c == '\n' || c == '\r' || c as int == 0xb || c as int == 0xc ==> b,
        c as int == 0x85 || c as int == 0xa0 || c as int == 0x1680 || 0x2000 <= c as int <= 0x200a ==> b,
        c as int == 0x2028 || c as int == 0x2029 || c as int == 0x202f || c as int == 0x205f || c as int
            == 0x3000 ==> b,
        '!' <= c <= '~' ==> !b,
        (c as int) < 0x9 || 0xe <= c as int <= 0x1f ==> !b,
        0x7f <= c as int <= 0x84 || 0x86 <= c as int <= 0x9f || 0xa1 <= c as int <= 0x167f ==> !b,
        0x1681 <= c as int <= 0x1fff || 0x200b <= c as int <= 0x2027 || 0x202a <= c as int <= 0x202e
            ==> !b,
        0x2030 <= c as int <= 0x205e || 0x2060 <= c as int <= 0x2fff || c as int > 0x3000 ==> !b,
{
}

/// Lowering keeps every character but the capitals of ASCII, which become the
/// small letters at the same place of the alphabet.
pub proof fn capitals_are_lowered(s: &Vec<char>, t: Vec<char>, i: int)
    requires
        call_ensures(lower, (s,), t),
        0 <= i < s@.len(),
    ensures
        t@.len() == s@.len(),
        t@ == lowered(s@),
        !('A' <= s@[i] <= 'Z') ==> t@[i] == s@[i],
        'A' <= s@[i] <= 'Z' ==> t@[i] as int - 'a' as int == s@[i] as int - 'A' as int,
{
}

/// Texts are told apart by their characters, and prefixes by the first of
/// them.
pub proof fn texts_are_told_apart(s: &Vec<char>, other: &str, same: bool, starts: bool)
    requires
        call_ensures(same_text, (s, other), same),
        call_ensures(has_prefix, (s, other), starts),
    ensures
        same <==> s@.len() == other@.len() && forall|i: int|
            0 <= i < s@.len() ==> #[trigger] s@[i] == other@[i],
        starts <==> other@.is_prefix_of(s@),
{
    prefixes_start_texts(s@, other@);
    if s@.len() == other@.len() && forall|i: int| 0 <= i < s@.len() ==> #[trigger] s@[i] == other@[i] {
        assert(s@ =~= other@);
    }
}

/// Numerals, addresses and texts are added behind what is there.
pub proof fn texts_are_appended(
    out: &mut Vec<char>,
    n: u128,
    hex: &mut Vec<char>,
    address: u64,
    plain: &mut Vec<char>,
    more: &str,
)
    requires
        call_ensures(push_decimal, (out, n), ()),
        call_ensures(push_hex_address, (hex, address), ()),
        call_ensures(push_text, (plain, more), ()),
    ensures
        old(out)@.is_prefix_of(final(out)@),
        in_decimal(final(out)@.skip(old(out)@.len() as int), n as nat),
        old(hex)@.is_prefix_of(final(hex)@),
        final(hex)@.skip(old(hex)@.len() as int) == hex_address(address as nat),
        final(plain)@ == old(plain)@ + more@,
{
    decimals_are_digits(n as nat);
    let a = decimal(n as nat);
    let b = hex_address(address as nat);
    assert((old(out)@ + a).skip(old(out)@.len() as int) =~= a);
    assert((old(hex)@ + b).skip(old(hex)@.len() as int) =~= b);
    assert((old(out)@ + a).subrange(0, old(out)@.len() as int) =~= old(out)@);
    assert((old(hex)@ + b).subrange(0, old(hex)@.len() as int) =~= old(hex)@);
}

/// The characters of a string make up the string again; encoded, they decode
/// to themselves behind what was there.
pub proof fn characters_make_up_the_string(
    s: &str,
    chars: Vec<char>,
    again: String,
    out: &mut Vec<u8>,
)
    requires
        call_ensures(chars_of, (s,), chars),
        call_ensures(text_of, (&chars,), again),
        call_ensures(push_utf8, (out, &chars), ()),
    ensures
        chars@ == s@,
        again@ == s@,
        old(out)@.is_prefix_of(final(out)@),
        ({
            let tail = final(out)@.skip(old(out)@.len() as int);
            vstd::utf8::valid_utf8(tail) && vstd::utf8::decode_utf8(tail) == s@
        }),
{
    let tail = vstd::utf8::encode_utf8(s@);
    vstd::utf8::encode_utf8_valid_utf8(s@);
    vstd::utf8::encode_utf8_decode_utf8(s@);
    assert((old(out)@ + tail).skip(old(out)@.len() as int) =~= tail);
    assert((old(out)@ + tail).subrange(0, old(out)@.len() as int) =~= old(out)@);
}

/// The digits from 0 to 9 come first and then the small letters from `a`.
pub proof fn digits_go_on_with_letters(d: u8, c: char)
    requires
        d < 16,
        call_ensures(digit, (d,), c),
    ensures
        d < 10 ==> c as int == '0' as int + d,
        d >= 10 ==> c as int == 'a' as int + d - 10,
{
}

} // verus!
