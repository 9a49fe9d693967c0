//! Typed key values and their unambiguous text form.

use vstd::prelude::*;
use vstd::utf8::encode_utf8;
use crate::text::{
    byte_len, decimal, decimal_digits, decimal_int, decimal_int_injective, decimal_prefix_injective,
    encode_utf8_injective, is_digit, push_decimal, push_decimal_int,
};

verus! {

/// The value of one key column in one row.
#[derive(Debug, PartialEq, Eq, PartialOrd, Ord, Hash)]
pub enum KeyValue {
    Null,
    Utf8(String),
    Int64(i64),
    UInt64(u64),
    Boolean(bool),
    Date32(i32),
    TimestampMicros(i64),
    Decimal(String),
}

/// What a key value stands for.
pub enum KeyDatum {
    Null,
    Utf8(Seq<char>),
    Int64(i64),
    UInt64(u64),
    Boolean(bool),
    Date32(i32),
    TimestampMicros(i64),
    Decimal(Seq<char>),
}

impl View for KeyValue {
    type V = KeyDatum;

    open spec fn view(&self) -> KeyDatum {
        match *self {
            KeyValue::Null => KeyDatum::Null,
            KeyValue::Utf8(s) => KeyDatum::Utf8(s@),
            KeyValue::Int64(n) => KeyDatum::Int64(n),
            KeyValue::UInt64(n) => KeyDatum::UInt64(n),
            KeyValue::Boolean(b) => KeyDatum::Boolean(b),
            KeyValue::Date32(n) => KeyDatum::Date32(n),
            KeyValue::TimestampMicros(n) => KeyDatum::TimestampMicros(n),
            KeyValue::Decimal(s) => KeyDatum::Decimal(s@),
        }
    }
}

impl Clone for KeyValue {
    fn clone(&self) -> (res: Self)
        ensures
            res == *self,
    {
        match self {
            KeyValue::Null => KeyValue::Null,
            KeyValue::Utf8(s) => KeyValue::Utf8(s.clone()),
            KeyValue::Int64(n) => KeyValue::Int64(*n),
            KeyValue::UInt64(n) => KeyValue::UInt64(*n),
            KeyValue::Boolean(b) => KeyValue::Boolean(*b),
            KeyValue::Date32(n) => KeyValue::Date32(*n),
            KeyValue::TimestampMicros(n) => KeyValue::TimestampMicros(*n),
            KeyValue::Decimal(s) => KeyValue::Decimal(s.clone()),
        }
    }
}

impl From<String> for KeyValue {
    fn from(value: String) -> (res: Self) {
        KeyValue::Utf8(value)
    }
}

impl vstd::std_specs::convert::FromSpecImpl<String> for KeyValue {
    open spec fn obeys_from_spec() -> bool {
        true
    }

    open spec fn from_spec(value: String) -> Self {
        KeyValue::Utf8(value)
    }
}

/// `true` or `false`.
pub open spec fn bool_text(b: bool) -> Seq<char> {
    if b {
        "true"@
    } else {
        "false"@
    }
}

/// A text with its length in bytes in front.
pub open spec fn counted(s: Seq<char>) -> Seq<char> {
    decimal(encode_utf8(s).len()) + seq![':'] + s
}

/// The encoded form of a value: its type, then its content, with the length in
/// front where the content is free text.
pub open spec fn encoded_value(value: KeyDatum) -> Seq<char> {
    match value {
        KeyDatum::Null => "null"@,
        KeyDatum::Utf8(s) => "utf8:"@ + counted(s),
        KeyDatum::Int64(n) => "int64:"@ + decimal_int(n as int),
        KeyDatum::UInt64(n) => "uint64:"@ + decimal_int(n as int),
        KeyDatum::Boolean(b) => "bool:"@ + bool_text(b),
        KeyDatum::Date32(n) => "date32:"@ + decimal_int(n as int),
        KeyDatum::TimestampMicros(n) => "timestamp_micros:"@ + decimal_int(n as int),
        KeyDatum::Decimal(s) => "decimal:"@ + counted(s),
    }
}

/// The encoded form of a column with its value.
pub open spec fn encoded_part(column: Seq<char>, value: KeyDatum) -> Seq<char> {
    counted(column) + seq!['#'] + encoded_value(value)
}

/// The plain text of a value; a null has none.
pub open spec fn plain_text(value: KeyDatum) -> Option<Seq<char>> {
    match value {
        KeyDatum::Null => None,
        KeyDatum::Utf8(s) => Some(s),
        KeyDatum::Int64(n) => Some(decimal_int(n as int)),
        KeyDatum::UInt64(n) => Some(decimal_int(n as int)),
        KeyDatum::Boolean(b) => Some(bool_text(b)),
        KeyDatum::Date32(n) => Some(decimal_int(n as int)),
        KeyDatum::TimestampMicros(n) => Some(decimal_int(n as int)),
        KeyDatum::Decimal(s) => Some(s),
    }
}

/// The name of a value's type.
pub open spec fn datum_type(value: KeyDatum) -> Seq<char> {
    match value {
        KeyDatum::Null => "null"@,
        KeyDatum::Utf8(_) => "utf8"@,
        KeyDatum::Int64(_) => "int64"@,
        KeyDatum::UInt64(_) => "uint64"@,
        KeyDatum::Boolean(_) => "boolean"@,
        KeyDatum::Date32(_) => "date32"@,
        KeyDatum::TimestampMicros(_) => "timestamp_micros"@,
        KeyDatum::Decimal(_) => "decimal"@,
    }
}

fn push_counted(out: &mut String, s: &str)
    ensures
        final(out)@ == old(out)@ + counted(s@),
{
    push_decimal(out, byte_len(s) as u128);
    out.append(":");
    out.append(s);
    proof {
        reveal_strlit(":");
        assert(out@ =~= old(out)@ + counted(s@));
    }
}

fn push_bool(out: &mut String, b: bool)
    ensures
        final(out)@ == old(out)@ + bool_text(b),
{
    if b {
        out.append("true");
    } else {
        out.append("false");
    }
}

/// Appends a tag and a number.
fn tagged_number(tag: &str, n: i128) -> (s: String)
    ensures
        s@ == tag@ + decimal_int(n as int),
{
    let mut out = String::new();
    out.append(tag);
    push_decimal_int(&mut out, n);
    assert(out@ =~= tag@ + decimal_int(n as int));
    out
}

/// Appends a tag and a counted text.
fn tagged_text(tag: &str, text: &str) -> (s: String)
    ensures
        s@ == tag@ + counted(text@),
{
    let mut out = String::new();
    out.append(tag);
    push_counted(&mut out, text);
    assert(out@ =~= tag@ + counted(text@));
    out
}

/// Encodes a value so that no two values share a text.
pub fn encode_key_value(value: &KeyValue) -> (s: String)
    ensures
        s@ == encoded_value(value@),
{
    match value {
        KeyValue::Null => "null".to_owned(),
        KeyValue::Utf8(s) => tagged_text("utf8:", s),
        KeyValue::Int64(n) => tagged_number("int64:", *n as i128),
        KeyValue::UInt64(n) => tagged_number("uint64:", *n as i128),
        KeyValue::Boolean(b) => {
            let mut out = "bool:".to_owned();
            push_bool(&mut out, *b);
            out
        },
        KeyValue::Date32(n) => tagged_number("date32:", *n as i128),
        KeyValue::TimestampMicros(n) => tagged_number("timestamp_micros:", *n as i128),
        KeyValue::Decimal(s) => tagged_text("decimal:", s),
    }
}

/// Encodes a column name with its value.
pub fn encode_key_part(column: &str, value: &KeyValue) -> (s: String)
    ensures
        s@ == encoded_part(column@, value@),
{
    let mut out = String::new();
    push_counted(&mut out, column);
    out.append("#");
    let encoded = encode_key_value(value);
    out.append(&encoded);
    proof {
        reveal_strlit("#");
        assert(out@ =~= encoded_part(column@, value@));
    }
    out
}

fn number_text(n: i128) -> (s: String)
    ensures
        s@ == decimal_int(n as int),
{
    let mut out = String::new();
    push_decimal_int(&mut out, n);
    assert(out@ =~= decimal_int(n as int));
    out
}

/// The text of a value as a column of text holds it; a null gives nothing.
pub fn key_value_to_string(value: &KeyValue) -> (s: Option<String>)
    ensures
        match s {
            Some(text) => plain_text(value@) == Some(text@),
            None => plain_text(value@) is None,
        },
{
    match value {
        KeyValue::Null => None,
        KeyValue::Utf8(s) => Some(s.clone()),
        KeyValue::Int64(n) => Some(number_text(*n as i128)),
        KeyValue::UInt64(n) => Some(number_text(*n as i128)),
        KeyValue::Boolean(b) => {
            let mut out = String::new();
            push_bool(&mut out, *b);
            assert(out@ =~= bool_text(*b));
            Some(out)
        },
        KeyValue::Date32(n) => Some(number_text(*n as i128)),
        KeyValue::TimestampMicros(n) => Some(number_text(*n as i128)),
        KeyValue::Decimal(s) => Some(s.clone()),
    }
}

/// The name of a value's type.
pub fn key_value_type_name(value: &KeyValue) -> (name: &'static str)
    ensures
        name@ == datum_type(value@),
{
    match value {
        KeyValue::Null => "null",
        KeyValue::Utf8(_) => "utf8",
        KeyValue::Int64(_) => "int64",
        KeyValue::UInt64(_) => "uint64",
        KeyValue::Boolean(_) => "boolean",
        KeyValue::Date32(_) => "date32",
        KeyValue::TimestampMicros(_) => "timestamp_micros",
        KeyValue::Decimal(_) => "decimal",
    }
}

proof fn encode_utf8_concat(a: Seq<char>, b: Seq<char>)
    ensures
        encode_utf8(a + b) == encode_utf8(a) + encode_utf8(b),
    decreases a.len(),
{
    if a.len() == 0 {
        assert(a + b =~= b);
        assert(encode_utf8(a) + encode_utf8(b) =~= encode_utf8(b));
    } else {
        assert((a + b).drop_first() =~= a.drop_first() + b);
        assert((a + b)[0] == a[0]);
        encode_utf8_concat(a.drop_first(), b);
        assert(encode_utf8(a + b) =~= encode_utf8(a) + encode_utf8(b));
    }
}

/// A counted text can be read back from the front of a longer text.
proof fn counted_prefix_injective(s: Seq<char>, t: Seq<char>, x: Seq<char>, y: Seq<char>)
    requires
        counted(s) + x == counted(t) + y,
    ensures
        s == t,
        x == y,
{
    let n = encode_utf8(s).len();
    let m = encode_utf8(t).len();
    assert(counted(s) + x =~= decimal(n) + seq![':'] + (s + x));
    assert(counted(t) + y =~= decimal(m) + seq![':'] + (t + y));
    decimal_prefix_injective(n, m, ':', s + x, t + y);
    encode_utf8_concat(s, x);
    encode_utf8_concat(t, y);
    let bytes = encode_utf8(s + x);
    assert(encode_utf8(s) =~= bytes.subrange(0, n as int));
    assert(encode_utf8(t) =~= bytes.subrange(0, m as int));
    encode_utf8_injective(s, t);
    assert(x =~= (s + x).skip(s.len() as int));
    assert(y =~= (t + y).skip(t.len() as int));
}

/// `x` is empty or starts with the separator of key parts.
pub open spec fn ends_part(x: Seq<char>) -> bool {
    x.len() == 0 || x[0] == '|'
}

proof fn number_prefix_injective(a: int, b: int, x: Seq<char>, y: Seq<char>)
    requires
        ends_part(x),
        ends_part(y),
        decimal_int(a) + x == decimal_int(b) + y,
    ensures
        a == b,
        x == y,
{
    let p = decimal_int(a);
    let q = decimal_int(b);
    let whole = p + x;
    let other = q + y;
    decimal_digits(if a < 0 { (-a) as nat } else { a as nat });
    decimal_digits(if b < 0 { (-b) as nat } else { b as nat });
    assert forall|i: int| 0 <= i < p.len() implies is_digit(#[trigger] p[i]) || p[i] == '-' by {
        if a < 0 && i > 0 {
            assert(p[i] == decimal((-a) as nat)[i - 1]);
        }
    }
    assert forall|i: int| 0 <= i < q.len() implies is_digit(#[trigger] q[i]) || q[i] == '-' by {
        if b < 0 && i > 0 {
            assert(q[i] == decimal((-b) as nat)[i - 1]);
        }
    }
    if p.len() < q.len() {
        assert(whole[p.len() as int] == x[0]);
        assert(other[p.len() as int] == q[p.len() as int]);
    } else if q.len() < p.len() {
        assert(other[q.len() as int] == y[0]);
        assert(whole[q.len() as int] == p[q.len() as int]);
    }
    assert(p =~= whole.take(p.len() as int));
    assert(q =~= other.take(q.len() as int));
    assert(x =~= whole.skip(p.len() as int));
    assert(y =~= other.skip(q.len() as int));
    decimal_int_injective(a, b);
}

proof fn reveal_tags()
    ensures
        "null"@ == seq!['n', 'u', 'l', 'l'],
        "utf8:"@ == seq!['u', 't', 'f', '8', ':'],
        "int64:"@ == seq!['i', 'n', 't', '6', '4', ':'],
        "uint64:"@ == seq!['u', 'i', 'n', 't', '6', '4', ':'],
        "bool:"@ == seq!['b', 'o', 'o', 'l', ':'],
        "true"@ == seq!['t', 'r', 'u', 'e'],
        "false"@ == seq!['f', 'a', 'l', 's', 'e'],
        "date32:"@ == seq!['d', 'a', 't', 'e', '3', '2', ':'],
        "timestamp_micros:"@[0] == 't',
        "timestamp_micros:"@.len() == 17,
        "decimal:"@ == seq!['d', 'e', 'c', 'i', 'm', 'a', 'l', ':'],
{
    reveal_strlit("null");
    reveal_strlit("utf8:");
    reveal_strlit("int64:");
    reveal_strlit("uint64:");
    reveal_strlit("bool:");
    reveal_strlit("true");
    reveal_strlit("false");
    reveal_strlit("date32:");
    reveal_strlit("timestamp_micros:");
    reveal_strlit("decimal:");
}

/// The number behind a tagged number.
spec fn number_of(value: KeyDatum) -> int {
    match value {
        KeyDatum::Int64(n) => n as int,
        KeyDatum::UInt64(n) => n as int,
        KeyDatum::Date32(n) => n as int,
        KeyDatum::TimestampMicros(n) => n as int,
        _ => 0,
    }
}

/// The text in front of the content.
spec fn tag_of(value: KeyDatum) -> Seq<char> {
    match value {
        KeyDatum::Null => "null"@,
        KeyDatum::Utf8(_) => "utf8:"@,
        KeyDatum::Int64(_) => "int64:"@,
        KeyDatum::UInt64(_) => "uint64:"@,
        KeyDatum::Boolean(_) => "bool:"@,
        KeyDatum::Date32(_) => "date32:"@,
        KeyDatum::TimestampMicros(_) => "timestamp_micros:"@,
        KeyDatum::Decimal(_) => "decimal:"@,
    }
}

proof fn tag_prefix(value: KeyDatum)
    ensures
        tag_of(value).len() >= 2,
        encoded_value(value).len() >= tag_of(value).len(),
        encoded_value(value).take(tag_of(value).len() as int) == tag_of(value),
        encoded_value(value)[0] == tag_of(value)[0],
        encoded_value(value)[1] == tag_of(value)[1],
{
    reveal_tags();
    assert(encoded_value(value).take(tag_of(value).len() as int) =~= tag_of(value));
}

/// The front of a text tells the type of the value that it encodes.
proof fn same_tag(a: KeyDatum, b: KeyDatum, x: Seq<char>, y: Seq<char>)
    requires
        encoded_value(a) + x == encoded_value(b) + y,
    ensures
        tag_of(a) == tag_of(b),
        tag_of(a) == tag_of(b) ==> (a is Null <==> b is Null) && (a is Utf8 <==> b is Utf8)
            && (a is Int64 <==> b is Int64) && (a is UInt64 <==> b is UInt64)
            && (a is Boolean <==> b is Boolean) && (a is Date32 <==> b is Date32)
            && (a is TimestampMicros <==> b is TimestampMicros)
            && (a is Decimal <==> b is Decimal),
{
    tag_prefix(a);
    tag_prefix(b);
    reveal_tags();
    let left = encoded_value(a) + x;
    let right = encoded_value(b) + y;
    assert(left[0] == tag_of(a)[0] && left[1] == tag_of(a)[1]);
    assert(right[0] == tag_of(b)[0] && right[1] == tag_of(b)[1]);
}

/// An encoded value can be read back from the front of a key, up to the
/// separator of key parts.
pub proof fn encoded_value_prefix_injective(a: KeyDatum, b: KeyDatum, x: Seq<char>, y: Seq<char>)
    requires
        ends_part(x),
        ends_part(y),
        encoded_value(a) + x == encoded_value(b) + y,
    ensures
        a == b,
        x == y,
{
    same_tag(a, b, x, y);
    let left = encoded_value(a) + x;
    let right = encoded_value(b) + y;
    let tag = tag_of(a);
    let n = tag.len() as int;
    match (a, b) {
        (KeyDatum::Null, KeyDatum::Null) => {
            assert(x =~= left.skip(n));
            assert(y =~= right.skip(n));
        },
        (KeyDatum::Utf8(s), KeyDatum::Utf8(t)) => {
            assert(counted(s) + x =~= left.skip(n));
            assert(counted(t) + y =~= right.skip(n));
            counted_prefix_injective(s, t, x, y);
        },
        (KeyDatum::Decimal(s), KeyDatum::Decimal(t)) => {
            assert(counted(s) + x =~= left.skip(n));
            assert(counted(t) + y =~= right.skip(n));
            counted_prefix_injective(s, t, x, y);
        },
        (KeyDatum::Boolean(p), KeyDatum::Boolean(q)) => {
            reveal_tags();
            assert(bool_text(p) + x =~= left.skip(n));
            assert(bool_text(q) + y =~= right.skip(n));
            assert((bool_text(p) + x)[0] == bool_text(p)[0]);
            assert((bool_text(q) + y)[0] == bool_text(q)[0]);
            assert(x =~= left.skip(n + bool_text(p).len()));
            assert(y =~= right.skip(n + bool_text(q).len()));
        },
        _ => {
            assert(decimal_int(number_of(a)) + x =~= left.skip(n));
            assert(decimal_int(number_of(b)) + y =~= right.skip(n));
            number_prefix_injective(number_of(a), number_of(b), x, y);
        },
    }
}

/// No two values share an encoded form.
pub proof fn encoded_value_injective(a: KeyDatum, b: KeyDatum)
    requires
        encoded_value(a) == encoded_value(b),
    ensures
        a == b,
{
    let none = Seq::<char>::empty();
    assert(encoded_value(a) + none =~= encoded_value(b) + none);
    encoded_value_prefix_injective(a, b, none, none);
}

/// A key part can be read back from the front of a key.
pub proof fn encoded_part_prefix_injective(
    c: Seq<char>,
    a: KeyDatum,
    d: Seq<char>,
    b: KeyDatum,
    x: Seq<char>,
    y: Seq<char>,
)
    requires
        ends_part(x),
        ends_part(y),
        encoded_part(c, a) + x == encoded_part(d, b) + y,
    ensures
        c == d,
        a == b,
        x == y,
{
    let u = seq!['#'] + (encoded_value(a) + x);
    let v = seq!['#'] + (encoded_value(b) + y);
    assert(encoded_part(c, a) + x =~= counted(c) + u);
    assert(encoded_part(d, b) + y =~= counted(d) + v);
    counted_prefix_injective(c, d, u, v);
    assert(encoded_value(a) + x =~= u.drop_first());
    assert(encoded_value(b) + y =~= v.drop_first());
    encoded_value_prefix_injective(a, b, x, y);
}

/// No two columns with values share an encoded form.
pub proof fn encoded_part_injective(c: Seq<char>, a: KeyDatum, d: Seq<char>, b: KeyDatum)
    requires
        encoded_part(c, a) == encoded_part(d, b),
    ensures
        c == d,
        a == b,
{
    let none = Seq::<char>::empty();
    assert(encoded_part(c, a) + none =~= encoded_part(d, b) + none);
    encoded_part_prefix_injective(c, a, d, b, none, none);
}

} // verus!
