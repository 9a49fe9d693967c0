//! Text: the byte order of strings, decimal numerals and blank strings.

use vstd::prelude::*;
use vstd::utf8::encode_utf8;

verus! {

/// Outcome of comparing two strings.
#[derive(Debug, Clone, Copy, PartialEq, Eq, Structural)]
pub enum TextOrder {
    Less,
    Equal,
    Greater,
}

/// `a` and `b` agree on their first `n` bytes.
pub open spec fn agree_up_to(a: Seq<u8>, b: Seq<u8>, n: int) -> bool {
    forall|j: int| 0 <= j < n ==> a[j] == b[j]
}

/// Position `n` is where `a` first falls below `b`.
pub open spec fn drops_below_at(a: Seq<u8>, b: Seq<u8>, n: int) -> bool {
    &&& 0 <= n <= a.len()
    &&& n < b.len()
    &&& agree_up_to(a, b, n)
    &&& n == a.len() || a[n] < b[n]
}

/// Lexicographic order of byte strings.
pub open spec fn bytes_less(a: Seq<u8>, b: Seq<u8>) -> bool {
    exists|n: int| drops_below_at(a, b, n)
}

/// Order of strings: the lexicographic order of their UTF-8 bytes.
pub open spec fn text_less(a: Seq<char>, b: Seq<char>) -> bool {
    bytes_less(encode_utf8(a), encode_utf8(b))
}

/// The order of strings is irreflexive.
pub proof fn text_less_irreflexive(a: Seq<char>)
    ensures
        !text_less(a, a),
{
}

proof fn bytes_less_transitive(a: Seq<u8>, b: Seq<u8>, c: Seq<u8>)
    requires
        bytes_less(a, b),
        bytes_less(b, c),
    ensures
        bytes_less(a, c),
{
    let m = choose|n: int| drops_below_at(a, b, n);
    let k = choose|n: int| drops_below_at(b, c, n);
    if m <= k {
        assert(drops_below_at(a, c, m));
    } else {
        assert(drops_below_at(a, c, k));
    }
}

/// The order of strings is transitive.
pub proof fn text_less_transitive(a: Seq<char>, b: Seq<char>, c: Seq<char>)
    requires
        text_less(a, b),
        text_less(b, c),
    ensures
        text_less(a, c),
{
    bytes_less_transitive(encode_utf8(a), encode_utf8(b), encode_utf8(c));
}

/// No two strings are below each other.
pub proof fn text_less_asymmetric(a: Seq<char>, b: Seq<char>)
    requires
        text_less(a, b),
    ensures
        !text_less(b, a),
        a != b,
{
    if text_less(b, a) {
        text_less_transitive(a, b, a);
    }
    text_less_irreflexive(a);
}

/// Strings with the same UTF-8 bytes are the same string.
pub proof fn encode_utf8_injective(a: Seq<char>, b: Seq<char>)
    requires
        encode_utf8(a) == encode_utf8(b),
    ensures
        a == b,
{
    vstd::utf8::encode_utf8_decode_utf8(a);
    vstd::utf8::encode_utf8_decode_utf8(b);
}

proof fn bytes_less_total(a: Seq<u8>, b: Seq<u8>, n: int)
    requires
        0 <= n <= a.len(),
        n <= b.len(),
        agree_up_to(a, b, n),
        a != b,
    ensures
        bytes_less(a, b) || bytes_less(b, a),
    decreases a.len() - n,
{
    if n == a.len() {
        if n == b.len() {
            assert(a =~= b);
        } else {
            assert(drops_below_at(a, b, n));
        }
    } else if n == b.len() {
        assert(drops_below_at(b, a, n));
    } else if a[n] < b[n] {
        assert(drops_below_at(a, b, n));
    } else if b[n] < a[n] {
        assert(drops_below_at(b, a, n));
    } else {
        bytes_less_total(a, b, n + 1);
    }
}

/// Of two different strings, one is below the other.
pub proof fn text_less_total(a: Seq<char>, b: Seq<char>)
    requires
        a != b,
    ensures
        text_less(a, b) || text_less(b, a),
{
    if encode_utf8(a) == encode_utf8(b) {
        encode_utf8_injective(a, b);
    }
    bytes_less_total(encode_utf8(a), encode_utf8(b), 0);
}

/// Compares two strings byte by byte.
pub fn text_order(a: &str, b: &str) -> (order: TextOrder)
    ensures
        order == TextOrder::Less <==> text_less(a@, b@),
        order == TextOrder::Equal <==> a@ == b@,
        order == TextOrder::Greater <==> text_less(b@, a@),
{
    let left = a.as_bytes();
    let right = b.as_bytes();
    let mut i: usize = 0;
    while i < left.len() && i < right.len()
        invariant
            left@ == encode_utf8(a@),
            right@ == encode_utf8(b@),
            i <= left.len(),
            i <= right.len(),
            agree_up_to(left@, right@, i as int),
        decreases left.len() - i,
    {
        if left[i] < right[i] {
            proof {
                assert(drops_below_at(left@, right@, i as int));
                text_less_asymmetric(a@, b@);
            }
            return TextOrder::Less;
        }
        if left[i] > right[i] {
            proof {
                assert(drops_below_at(right@, left@, i as int));
                text_less_asymmetric(b@, a@);
            }
            return TextOrder::Greater;
        }
        i += 1;
    }
    if i < right.len() {
        proof {
            assert(drops_below_at(left@, right@, i as int));
            text_less_asymmetric(a@, b@);
        }
        TextOrder::Less
    } else if i < left.len() {
        proof {
            assert(drops_below_at(right@, left@, i as int));
            text_less_asymmetric(b@, a@);
        }
        TextOrder::Greater
    } else {
        proof {
            assert(left@ =~= right@);
            encode_utf8_injective(a@, b@);
            text_less_irreflexive(a@);
        }
        TextOrder::Equal
    }
}

/// Whether two strings are equal.
pub fn same_text(a: &str, b: &str) -> (same: bool)
    ensures
        same == (a@ == b@),
{
    text_order(a, b) == TextOrder::Equal
}

/// Number of bytes of a string.
pub fn byte_len(s: &str) -> (len: usize)
    ensures
        len == encode_utf8(s@).len(),
{
    s.as_bytes().len()
}

/// The numeral of a digit.
pub open spec fn digit(d: nat) -> char {
    ('0' as nat + d) as char
}

/// `c` is one of the ten numerals.
pub open spec fn is_digit(c: char) -> bool {
    '0' <= c <= '9'
}

/// Decimal numeral of `n`, without leading zeros.
pub open spec fn decimal(n: nat) -> Seq<char>
    decreases n,
{
    if n < 10 {
        seq![digit(n)]
    } else {
        decimal(n / 10).push(digit(n % 10))
    }
}

/// Decimal numeral of an integer, with a minus sign where it is negative.
pub open spec fn decimal_int(n: int) -> Seq<char> {
    if n < 0 {
        seq!['-'] + decimal((-n) as nat)
    } else {
        decimal(n as nat)
    }
}

/// A numeral is not empty and holds digits only.
pub proof fn decimal_digits(n: nat)
    ensures
        decimal(n).len() > 0,
        forall|i: int| 0 <= i < decimal(n).len() ==> is_digit(#[trigger] decimal(n)[i]),
    decreases n,
{
    if n >= 10 {
        decimal_digits(n / 10);
    }
}

/// Different numbers have different numerals.
pub proof fn decimal_injective(a: nat, b: nat)
    requires
        decimal(a) == decimal(b),
    ensures
        a == b,
    decreases a,
{
    if a < 10 {
        if b >= 10 {
            decimal_digits(b / 10);
            assert(decimal(b).len() > 1);
        } else {
            assert(decimal(a)[0] == digit(a));
            assert(decimal(b)[0] == digit(b));
        }
    } else if b < 10 {
        decimal_digits(a / 10);
        assert(decimal(a).len() > 1);
    } else {
        let x = decimal(a / 10);
        let y = decimal(b / 10);
        assert(decimal(a).last() == digit(a % 10));
        assert(decimal(b).last() == digit(b % 10));
        assert(x =~= decimal(a).drop_last());
        assert(y =~= decimal(b).drop_last());
        decimal_injective(a / 10, b / 10);
        assert(a % 10 == b % 10);
    }
}

/// Different integers have different numerals.
pub proof fn decimal_int_injective(a: int, b: int)
    requires
        decimal_int(a) == decimal_int(b),
    ensures
        a == b,
{
    let x = if a < 0 { -a } else { a } as nat;
    let y = if b < 0 { -b } else { b } as nat;
    decimal_digits(x);
    decimal_digits(y);
    if a < 0 {
        assert(decimal_int(a)[0] == '-');
    } else {
        assert(decimal_int(a)[0] == decimal(x)[0]);
    }
    if b < 0 {
        assert(decimal_int(b)[0] == '-');
    } else {
        assert(decimal_int(b)[0] == decimal(y)[0]);
    }
    if a < 0 && b < 0 {
        assert(decimal(x) =~= decimal_int(a).drop_first());
        assert(decimal(y) =~= decimal_int(b).drop_first());
    }
    decimal_injective(x, y);
}

/// A numeral that a non-digit follows can be read back.
pub proof fn decimal_prefix_injective(a: nat, b: nat, sep: char, x: Seq<char>, y: Seq<char>)
    requires
        !is_digit(sep),
        decimal(a) + seq![sep] + x == decimal(b) + seq![sep] + y,
    ensures
        a == b,
        x == y,
{
    let left = decimal(a) + seq![sep] + x;
    let right = decimal(b) + seq![sep] + y;
    decimal_digits(a);
    decimal_digits(b);
    let m = decimal(a).len() as int;
    let k = decimal(b).len() as int;
    assert(left[m] == sep);
    assert(right[k] == sep);
    if m < k {
        assert(right[m] == decimal(b)[m]);
    } else if k < m {
        assert(left[k] == decimal(a)[k]);
    }
    assert(decimal(a) =~= left.subrange(0, m));
    assert(decimal(b) =~= right.subrange(0, k));
    decimal_injective(a, b);
    assert(x =~= left.subrange(m + 1, left.len() as int));
    assert(y =~= right.subrange(k + 1, right.len() as int));
}

fn digit_text(d: u8) -> (s: &'static str)
    requires
        d < 10,
    ensures
        s@ == seq![digit(d as nat)],
{
    proof {
        reveal_strlit("0");
        reveal_strlit("1");
        reveal_strlit("2");
        reveal_strlit("3");
        reveal_strlit("4");
        reveal_strlit("5");
        reveal_strlit("6");
        reveal_strlit("7");
        reveal_strlit("8");
        reveal_strlit("9");
    }
    match d {
        0 => "0",
        1 => "1",
        2 => "2",
        3 => "3",
        4 => "4",
        5 => "5",
        6 => "6",
        7 => "7",
        8 => "8",
        _ => "9",
    }
}

/// Appends the decimal numeral of `n`.
pub fn push_decimal(out: &mut String, n: u128)
    ensures
        final(out)@ == old(out)@ + decimal(n as nat),
    decreases n,
{
    if n >= 10 {
        push_decimal(out, n / 10);
    }
    out.append(digit_text((n % 10) as u8));
    proof {
        if n >= 10 {
            assert(decimal(n as nat) == decimal((n / 10) as nat).push(digit((n % 10) as nat)));
        }
        assert(out@ =~= old(out)@ + decimal(n as nat));
    }
}

/// Appends the decimal numeral of a signed integer.
pub fn push_decimal_int(out: &mut String, n: i128)
    ensures
        final(out)@ == old(out)@ + decimal_int(n as int),
{
    if n < 0 {
        proof {
            reveal_strlit("-");
        }
        out.append("-");
        let magnitude: u128 = ((-(n + 1)) as u128) + 1;
        push_decimal(out, magnitude);
        assert(out@ =~= old(out)@ + decimal_int(n as int));
    } else {
        push_decimal(out, n as u128);
    }
}

/// `c` is a white space character of Unicode.
pub open spec fn is_white_space(c: char) -> bool {
    let u = c as u32;
    ||| 0x9 <= u <= 0xD
    ||| u == 0x20
    ||| u == 0x85
    ||| u == 0xA0
    ||| u == 0x1680
    ||| 0x2000 <= u <= 0x200A
    ||| u == 0x2028
    ||| u == 0x2029
    ||| u == 0x202F
    ||| u == 0x205F
    ||| u == 0x3000
}

/// A string that holds white space only, or nothing.
pub open spec fn blank(s: Seq<char>) -> bool {
    forall|i: int| 0 <= i < s.len() ==> is_white_space(#[trigger] s[i])
}

fn is_white_space_char(c: char) -> (white: bool)
    ensures
        white == is_white_space(c),
{
    let u: u32 = c as u32;
    (0x9 <= u && u <= 0xD) || u == 0x20 || u == 0x85 || u == 0xA0 || u == 0x1680
        || (0x2000 <= u && u <= 0x200A) || u == 0x2028 || u == 0x2029 || u == 0x202F
        || u == 0x205F || u == 0x3000
}

/// Whether nothing is left of a string once it is trimmed.
pub fn is_blank(s: &str) -> (result: bool)
    ensures
        result == blank(s@),
{
    for c in it: s.chars()
        invariant
            it.seq() == s@,
            forall|i: int| 0 <= i < it.index() ==> is_white_space(#[trigger] s@[i]),
    {
        if !is_white_space_char(c) {
            assert(!is_white_space(s@[it.index() as int]));
            return false;
        }
    }
    true
}

} // verus!
