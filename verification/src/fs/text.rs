//! Numbers in text, and text in bytes.
use vstd::prelude::*;
use vstd::string::{StrSliceExecFns, StringExecFns};

verus! {

use vstd::utf8::{encode_utf8, encode_utf8_decode_utf8};

/// The bytes of a text.
pub open spec fn bytes_of(text: Seq<char>) -> Seq<u8> {
    encode_utf8(text)
}

/// One digit, in any base up to sixteen, lower case.
pub open spec fn digit(value: int) -> char {
    if value < 10 {
        (48 + value) as char
    } else {
        (87 + value) as char
    }
}

/// A number in some base, without leading zeros.
pub open spec fn in_base(value: nat, base: nat) -> Seq<char>
    decreases value,
{
    if base < 2 || value < base {
        seq![digit(value as int)]
    } else {
        proof {
            vstd::arithmetic::div_mod::lemma_div_decreases(value as int, base as int);
        }
        in_base(value / base, base).push(digit((value % base) as int))
    }
}

/// A number in decimal.
pub open spec fn decimal(value: nat) -> Seq<char> {
    in_base(value, 10)
}

/// A signed number in decimal.
pub open spec fn signed(value: int) -> Seq<char> {
    if value < 0 {
        seq!['-'] + decimal((-value) as nat)
    } else {
        decimal(value as nat)
    }
}

/// A text with spaces before it, up to a width.
pub open spec fn right_aligned(text: Seq<char>, width: nat) -> Seq<char> {
    if text.len() >= width {
        text
    } else {
        Seq::new((width - text.len()) as nat, |i: int| ' ') + text
    }
}

/// A byte as two upper-case hexadecimal digits.
pub open spec fn hex_byte(byte: u8) -> Seq<char> {
    seq![upper_digit(byte as int / 16), upper_digit(byte as int % 16)]
}

/// One hexadecimal digit, upper case.
pub open spec fn upper_digit(value: int) -> char {
    if value < 10 {
        (48 + value) as char
    } else {
        (55 + value) as char
    }
}

/// A decimal digit.
pub open spec fn is_digit(c: char) -> bool {
    '0' <= c <= '9'
}

/// The number that a string of decimal digits spells.
pub open spec fn number(text: Seq<char>) -> nat
    decreases text.len(),
{
    if text.len() == 0 {
        0
    } else {
        number(text.drop_last()) * 10 + (text.last() as nat - 48) as nat
    }
}

/// A plain decimal: digits alone, at least one, and no leading zero.
pub open spec fn is_canonical(text: Seq<char>) -> bool {
    &&& text.len() > 0
    &&& forall|i: int| 0 <= i < text.len() ==> is_digit(#[trigger] text[i])
    &&& text.len() > 1 ==> text[0] != '0'
}

/// The number that a plain decimal spells, if it fits 64 bits.
pub open spec fn canonical_value(text: Seq<char>) -> Option<u64> {
    if is_canonical(text) && number(text) <= u64::MAX {
        Some(number(text) as u64)
    } else {
        None
    }
}

/// The process or thread number that a name spells: a positive plain decimal that fits.
pub open spec fn pid_value(text: Seq<char>) -> Option<i32> {
    match canonical_value(text) {
        Some(value) if 0 < value <= i32::MAX => Some(value as i32),
        _ => None,
    }
}

/// A number's decimal is plain and spells the number.
pub proof fn lemma_decimal_reads_back(value: nat)
    ensures
        is_canonical(decimal(value)),
        number(decimal(value)) == value,
        value > 0 ==> decimal(value)[0] != '0',
    decreases value,
{
    let text = decimal(value);
    if value < 10 {
        reveal_with_fuel(number, 2);
        assert(text.drop_last() =~= Seq::<char>::empty());
        assert(text.last() == digit(value as int));
    } else {
        let head = decimal(value / 10);
        lemma_decimal_reads_back(value / 10);
        assert(text.drop_last() =~= head);
        assert forall|i: int| 0 <= i < text.len() implies is_digit(#[trigger] text[i]) by {
            if i < head.len() {
                assert(text[i] == head[i]);
            }
        }
        assert(text[0] == head[0]);
    }
}

/// A plain decimal is the one spelling of its number.
pub proof fn lemma_one_spelling(text: Seq<char>)
    requires
        is_canonical(text),
    ensures
        decimal(number(text)) == text,
    decreases text.len(),
{
    let last = text.last();
    let head = text.drop_last();
    assert(is_digit(text[text.len() - 1]));
    if text.len() == 1 {
        reveal_with_fuel(number, 2);
        assert(head =~= Seq::<char>::empty());
        assert(number(text) == last as nat - 48);
        assert(decimal(number(text)) =~= text);
    } else {
        assert forall|i: int| 0 <= i < head.len() implies is_digit(#[trigger] head[i]) by {
            assert(head[i] == text[i]);
        }
        assert(head[0] == text[0]);
        lemma_one_spelling(head);
        lemma_leading_digit(head);
        let value = number(text);
        assert(value / 10 == number(head));
        assert(value % 10 == (last as nat - 48) as nat);
        assert(decimal(value) =~= text);
    }
}

/// A string of digits without a leading zero is not zero.
proof fn lemma_leading_digit(text: Seq<char>)
    requires
        is_canonical(text),
        text[0] != '0',
    ensures
        number(text) > 0,
    decreases text.len(),
{
    if text.len() == 1 {
        reveal_with_fuel(number, 2);
        assert(is_digit(text[0]));
    } else {
        let head = text.drop_last();
        assert forall|i: int| 0 <= i < head.len() implies is_digit(#[trigger] head[i]) by {
            assert(head[i] == text[i]);
        }
        lemma_leading_digit(head);
        assert(is_digit(text[text.len() - 1]));
    }
}

/// Reading back the name that a process number is listed under gives the number, and no other name
/// does.
pub proof fn lemma_pid_round_trip(pid: i32, name: Seq<char>)
    requires
        pid > 0,
    ensures
        pid_value(signed(pid as int)) == Some(pid),
        pid_value(name) == Some(pid) ==> name == signed(pid as int),
{
    lemma_decimal_reads_back(pid as nat);
    if pid_value(name) == Some(pid) {
        lemma_one_spelling(name);
    }
}

/// Whether two texts are the same.
pub fn is_text(a: &str, b: &str) -> (same: bool)
    ensures
        same == (a@ == b@),
{
    let (x, y) = (a.as_bytes(), b.as_bytes());
    proof {
        encode_utf8_decode_utf8(a@);
        encode_utf8_decode_utf8(b@);
    }
    let n: usize = x.len();
    if n != y.len() {
        return false;
    }
    let mut i: usize = 0;
    while i < n
        invariant
            i <= n,
            n == x@.len(),
            n == y@.len(),
            x@ == bytes_of(a@),
            y@ == bytes_of(b@),
            forall|j: int| 0 <= j < i ==> x@[j] == y@[j],
        decreases n - i,
    {
        if x[i] != y[i] {
            return false;
        }
        i += 1;
    }
    proof {
        assert(x@ =~= y@);
    }
    true
}

/// One digit.
fn digit_text(value: u64) -> (text: &'static str)
    requires
        value < 16,
    ensures
        text@ == seq![digit(value as int)],
{
    let text = match value {
        0 => "0",
        1 => "1",
        2 => "2",
        3 => "3",
        4 => "4",
        5 => "5",
        6 => "6",
        7 => "7",
        8 => "8",
        9 => "9",
        10 => "a",
        11 => "b",
        12 => "c",
        13 => "d",
        14 => "e",
        _ => "f",
    };
    proof {
        reveal_strlit("0");
        reveal_strlit("1");
        reveal_strlit("2");
        reveal_strlit("3");
        reveal_strlit("4");
        reveal_strlit("5");
        reveal_strlit("6");
        reveal_strlit("7");
        reveal_strlit("8");
        reveal_strlit("9");
        reveal_strlit("a");
        reveal_strlit("b");
        reveal_strlit("c");
        reveal_strlit("d");
        reveal_strlit("e");
        reveal_strlit("f");
        assert(text@ =~= seq![digit(value as int)]);
    }
    text
}

/// One upper-case digit.
fn upper_digit_text(value: u8) -> (text: &'static str)
    requires
        value < 16,
    ensures
        text@ == seq![upper_digit(value as int)],
{
    let text = match value {
        0 => "0",
        1 => "1",
        2 => "2",
        3 => "3",
        4 => "4",
        5 => "5",
        6 => "6",
        7 => "7",
        8 => "8",
        9 => "9",
        10 => "A",
        11 => "B",
        12 => "C",
        13 => "D",
        14 => "E",
        _ => "F",
    };
    proof {
        reveal_strlit("0");
        reveal_strlit("1");
        reveal_strlit("2");
        reveal_strlit("3");
        reveal_strlit("4");
        reveal_strlit("5");
        reveal_strlit("6");
        reveal_strlit("7");
        reveal_strlit("8");
        reveal_strlit("9");
        reveal_strlit("A");
        reveal_strlit("B");
        reveal_strlit("C");
        reveal_strlit("D");
        reveal_strlit("E");
        reveal_strlit("F");
        assert(text@ =~= seq![upper_digit(value as int)]);
    }
    text
}

/// Adds a number in some base.
pub fn put_in_base(out: &mut String, value: u64, base: u64)
    requires
        2 <= base <= 16,
    ensures
        final(out)@ == old(out)@ + in_base(value as nat, base as nat),
    decreases value,
{
    if value >= base {
        proof {
            vstd::arithmetic::div_mod::lemma_div_decreases(value as int, base as int);
        }
        put_in_base(out, value / base, base);
    }
    proof {
        if value < base {
            vstd::arithmetic::div_mod::lemma_small_mod(value as nat, base as nat);
        }
    }
    out.append(digit_text(value % base));
    proof {
        assert(out@ =~= old(out)@ + in_base(value as nat, base as nat));
    }
}

/// Adds a number in decimal.
pub fn put_decimal(out: &mut String, value: u64)
    ensures
        final(out)@ == old(out)@ + decimal(value as nat),
{
    put_in_base(out, value, 10);
}

/// Adds a signed number in decimal.
pub fn put_signed(out: &mut String, value: i32)
    ensures
        final(out)@ == old(out)@ + signed(value as int),
{
    if value < 0 {
        out.append("-");
        proof {
            reveal_strlit("-");
            assert("-"@ =~= seq!['-']);
        }
        put_decimal(out, (0 - (value as i64)) as u64);
        proof {
            assert(out@ =~= old(out)@ + signed(value as int));
        }
    } else {
        put_decimal(out, value as u64);
    }
}

/// The number of digits of a number.
fn digits(value: u64) -> (count: usize)
    ensures
        count == decimal(value as nat).len(),
        0 < count <= 20,
{
    let mut rest: u64 = value;
    let mut count: usize = 1;
    proof {
        lemma_few_digits(value as nat, 20);
    }
    while rest >= 10
        invariant
            0 < count,
            count - 1 + decimal(rest as nat).len() == decimal(value as nat).len(),
            0 < decimal(value as nat).len() <= 20,
        decreases rest,
    {
        proof {
            assert(decimal(rest as nat).len() == decimal((rest / 10) as nat).len() + 1);
            lemma_decimal_reads_back((rest / 10) as nat);
        }
        rest = rest / 10;
        count += 1;
    }
    count
}

/// Ten to some power.
spec fn ten_to(power: nat) -> nat
    decreases power,
{
    if power == 0 {
        1
    } else {
        10 * ten_to((power - 1) as nat)
    }
}

/// A number below a power of ten has no more digits than the power.
proof fn lemma_fits_digits(value: nat, width: nat)
    requires
        width > 0,
        value < ten_to(width),
    ensures
        0 < decimal(value).len() <= width,
    decreases width,
{
    if value >= 10 {
        if width == 1 {
            reveal_with_fuel(ten_to, 2);
        } else {
            lemma_fits_digits(value / 10, (width - 1) as nat);
        }
    }
}

proof fn lemma_few_digits(value: nat, width: nat)
    requires
        value <= u64::MAX,
        width == 20,
    ensures
        0 < decimal(value).len() <= width,
{
    reveal_with_fuel(ten_to, 21);
    lemma_fits_digits(value, 20);
}

/// Adds a number in decimal with spaces before it, up to a width.
pub fn put_right_aligned(out: &mut String, value: u64, width: usize)
    ensures
        final(out)@ == old(out)@ + right_aligned(decimal(value as nat), width as nat),
{
    let count = digits(value);
    let mut spaces: usize = 0;
    let ghost text = decimal(value as nat);
    let ghost start = out@;
    proof {
        assert(Seq::new(0, |i: int| ' ') =~= Seq::<char>::empty());
        assert(out@ =~= start + Seq::new(0, |i: int| ' '));
        reveal_strlit(" ");
        assert(" "@ =~= seq![' ']);
    }
    while count < width && spaces < width - count
        invariant
            " "@ == seq![' '],
            count == text.len(),
            spaces == 0 || spaces <= width - count,
            out@ == start + Seq::new(spaces as nat, |i: int| ' '),
        decreases width - spaces,
    {
        let ghost before = out@;
        out.append(" ");
        spaces += 1;
        proof {
            assert(out@ =~= start + Seq::new(spaces as nat, |i: int| ' '));
        }
    }
    put_decimal(out, value);
    proof {
        assert(out@ =~= start + right_aligned(text, width as nat));
    }
}

/// Adds a byte as two upper-case hexadecimal digits.
pub fn put_hex_byte(out: &mut String, byte: u8)
    ensures
        final(out)@ == old(out)@ + hex_byte(byte),
{
    out.append(upper_digit_text(byte / 16));
    out.append(upper_digit_text(byte % 16));
    proof {
        assert(out@ =~= old(out)@ + hex_byte(byte));
    }
}

/// A number's decimal.
pub fn decimal_text(value: u64) -> (text: String)
    ensures
        text@ == decimal(value as nat),
{
    let mut out = String::new();
    put_decimal(&mut out, value);
    proof {
        assert(out@ =~= decimal(value as nat));
    }
    out
}

/// A signed number's decimal.
pub fn signed_text(value: i32) -> (text: String)
    ensures
        text@ == signed(value as int),
{
    let mut out = String::new();
    put_signed(&mut out, value);
    proof {
        assert(out@ =~= signed(value as int));
    }
    out
}

/// The bytes of a text.
pub fn into_bytes(text: String) -> (bytes: Vec<u8>)
    ensures
        bytes@ == bytes_of(text@),
{
    text.as_str().as_bytes_vec()
}

/// A name spelled as a plain decimal, with no sign or leading zero: its number.
pub fn parse_canonical_decimal(name: &str) -> (value: Option<u64>)
    ensures
        value == canonical_value(name@),
{
    let n: usize = name.unicode_len();
    if n == 0 {
        return None;
    }
    if !name.is_ascii() {
        proof {
            let i = choose|i: int| 0 <= i < name@.len() && !('\0' <= #[trigger] name@[i] <= '\u{7f}');
            assert(!is_digit(name@[i]));
        }
        return None;
    }
    if n > 1 && name.get_ascii(0) == 48 {
        return None;
    }
    let mut value: Option<u64> = Some(0);
    let mut i: usize = 0;
    proof {
        assert(name@.take(0) =~= Seq::<char>::empty());
    }
    while i < n
        invariant
            i <= n,
            n == name@.len(),
            name.is_ascii(),
            forall|j: int| 0 <= j < i ==> is_digit(#[trigger] name@[j]),
            value == (if number(name@.take(i as int)) <= u64::MAX {
                Some(number(name@.take(i as int)) as u64)
            } else {
                None
            }),
        decreases n - i,
    {
        let byte = name.get_ascii(i);
        if byte < 48 || byte > 57 {
            proof {
                assert(!is_digit(name@[i as int]));
            }
            return None;
        }
        proof {
            let next = name@.take(i + 1);
            assert(next.drop_last() =~= name@.take(i as int));
            assert(next.last() == name@[i as int]);
        }
        value = match value {
            Some(value) => match value.checked_mul(10) {
                Some(tens) => tens.checked_add((byte - 48) as u64),
                None => None,
            },
            None => None,
        };
        i += 1;
    }
    proof {
        assert(name@.take(n as int) =~= name@);
    }
    value
}

/// A process or thread number: a plain positive decimal that fits.
pub fn parse_pid(name: &str) -> (pid: Option<i32>)
    ensures
        pid == pid_value(name@),
{
    match parse_canonical_decimal(name) {
        Some(value) => if 0 < value && value <= i32::MAX as u64 {
            Some(value as i32)
        } else {
            None
        },
        None => None,
    }
}

} // verus!
