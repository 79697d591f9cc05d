//! What the numbers in the computed files say when they are read back.
use vstd::prelude::*;

verus! {

use crate::fs::proc::render::address_text;
use crate::fs::text::{
    canonical_value, decimal, hex_byte, in_base, is_canonical, is_digit, number, pid_value,
    right_aligned, signed,
};

/// The value of a digit as a reader takes it, in either case; -1 for what is no digit.
pub open spec fn digit_value(c: char) -> int {
    if '0' <= c <= '9' {
        c as int - '0' as int
    } else if 'A' <= c <= 'F' {
        c as int - 'A' as int + 10
    } else if 'a' <= c <= 'f' {
        c as int - 'a' as int + 10
    } else {
        -1
    }
}

/// The number that a reader takes a string of digits for: the leading digit weighs most.
pub open spec fn spelled(text: Seq<char>, base: int) -> int
    decreases text.len(),
{
    if text.len() == 0 {
        0
    } else {
        spelled(text.drop_last(), base) * base + digit_value(text.last())
    }
}

/// Digits of a base and nothing else, at least one, and no upper-case one.
pub open spec fn is_lower_numeral(text: Seq<char>, base: int) -> bool {
    &&& text.len() > 0
    &&& forall|i: int|
        0 <= i < text.len() ==> 0 <= digit_value(#[trigger] text[i]) < base && !('A' <= text[i]
            <= 'F')
}

/// Hexadecimal digits and nothing else, and no lower-case one.
pub open spec fn is_upper_numeral(text: Seq<char>) -> bool {
    forall|i: int|
        0 <= i < text.len() ==> 0 <= digit_value(#[trigger] text[i]) < 16 && !('a' <= text[i]
            <= 'f')
}

/// The digits of two strings after each other: the first one's weigh more.
proof fn lemma_spelled_in_two(a: Seq<char>, b: Seq<char>)
    requires
        b.len() == 2,
    ensures
        spelled(a + b, 16) == spelled(a, 16) * 256 + digit_value(b[0]) * 16 + digit_value(b[1]),
{
    let text = a + b;
    let head = text.drop_last();
    assert(text.last() == b[1]);
    assert(head.last() == b[0]);
    assert(head.drop_last() =~= a);
    assert(spelled(text, 16) == spelled(head, 16) * 16 + digit_value(b[1]));
    assert(spelled(head, 16) == spelled(a, 16) * 16 + digit_value(b[0]));
}

/// A byte is printed as two upper-case hexadecimal digits that spell it.
pub proof fn lemma_byte_reads_back(byte: u8)
    ensures
        hex_byte(byte).len() == 2,
        spelled(hex_byte(byte), 16) == byte,
        is_upper_numeral(hex_byte(byte)),
{
    let text = hex_byte(byte);
    lemma_spelled_in_two(Seq::empty(), text);
    assert(Seq::<char>::empty() + text =~= text);
    assert(digit_value(text[0]) == byte as int / 16);
    assert(digit_value(text[1]) == byte as int % 16);
}

/// An address is printed as eight upper-case hexadecimal digits, and what they spell is the
/// address as a little-endian number: its first octet weighs least.
pub proof fn lemma_address_reads_little_endian(a: u8, b: u8, c: u8, d: u8)
    ensures
        address_text(seq![a, b, c, d]).len() == 8,
        spelled(address_text(seq![a, b, c, d]), 16) == a + 256 * b + 65536 * c + 16777216 * d,
        is_upper_numeral(address_text(seq![a, b, c, d])),
{
    let octets = seq![a, b, c, d];
    let (one, two, three) = (hex_byte(d), hex_byte(d) + hex_byte(c), hex_byte(d) + hex_byte(c)
        + hex_byte(b));
    lemma_byte_reads_back(a);
    lemma_byte_reads_back(b);
    lemma_byte_reads_back(c);
    lemma_byte_reads_back(d);
    lemma_two_digits(a);
    lemma_two_digits(b);
    lemma_two_digits(c);
    lemma_spelled_in_two(one, hex_byte(c));
    lemma_spelled_in_two(two, hex_byte(b));
    lemma_spelled_in_two(three, hex_byte(a));
    assert(address_text(octets) =~= three + hex_byte(a));
    let text = address_text(octets);
    assert forall|i: int| 0 <= i < text.len() implies 0 <= digit_value(#[trigger] text[i]) < 16
        && !('a' <= text[i] <= 'f') by {
        assert(text[0] == hex_byte(d)[0] && text[1] == hex_byte(d)[1]);
        assert(text[2] == hex_byte(c)[0] && text[3] == hex_byte(c)[1]);
        assert(text[4] == hex_byte(b)[0] && text[5] == hex_byte(b)[1]);
        assert(text[6] == hex_byte(a)[0] && text[7] == hex_byte(a)[1]);
    }
}

/// The two digits of a byte, one by one.
proof fn lemma_two_digits(byte: u8)
    ensures
        digit_value(hex_byte(byte)[0]) * 16 + digit_value(hex_byte(byte)[1]) == byte,
{
    assert(digit_value(hex_byte(byte)[0]) == byte as int / 16);
    assert(digit_value(hex_byte(byte)[1]) == byte as int % 16);
}

/// A number is printed in lower-case digits of its base that spell it, without a leading zero.
pub proof fn lemma_number_reads_back(value: nat, base: nat)
    requires
        2 <= base <= 16,
    ensures
        is_lower_numeral(in_base(value, base), base as int),
        spelled(in_base(value, base), base as int) == value,
        value > 0 ==> in_base(value, base)[0] != '0',
        value == 0 ==> in_base(value, base).len() == 1,
    decreases value,
{
    let text = in_base(value, base);
    if value < base {
        reveal_with_fuel(spelled, 2);
        assert(text.drop_last() =~= Seq::<char>::empty());
        assert(digit_value(text.last()) == value);
    } else {
        vstd::arithmetic::div_mod::lemma_div_decreases(value as int, base as int);
        vstd::arithmetic::div_mod::lemma_fundamental_div_mod(value as int, base as int);
        vstd::arithmetic::div_mod::lemma_mod_bound(value as int, base as int);
        let head = in_base(value / base, base);
        lemma_number_reads_back(value / base, base);
        assert(value / base > 0) by (nonlinear_arith)
            requires
                value >= base >= 2,
        ;
        assert(text.drop_last() =~= head);
        assert(digit_value(text.last()) == value % base);
        vstd::arithmetic::mul::lemma_mul_is_commutative((value / base) as int, base as int);
        assert forall|i: int| 0 <= i < text.len() implies 0 <= digit_value(#[trigger] text[i])
            < base && !('A' <= text[i] <= 'F') by {
            if i < head.len() {
                assert(text[i] == head[i]);
            }
        }
        assert(text[0] == head[0]);
    }
}

/// A signed number is printed in decimal, a negative one behind a minus sign, and reads back.
pub proof fn lemma_signed_reads_back(value: int)
    ensures
        value >= 0 ==> is_lower_numeral(signed(value), 10) && spelled(signed(value), 10) == value,
        value < 0 ==> signed(value)[0] == '-' && is_lower_numeral(signed(value).skip(1), 10)
            && spelled(signed(value).skip(1), 10) == -value,
{
    if value >= 0 {
        lemma_number_reads_back(value as nat, 10);
    } else {
        lemma_number_reads_back((-value) as nat, 10);
        assert(signed(value).skip(1) =~= decimal((-value) as nat));
    }
}

/// A number aligned to the right keeps its digits at the end, spaces fill the rest, and the width
/// is met wherever the digits leave room for it.
pub proof fn lemma_alignment_fills_with_spaces(text: Seq<char>, width: nat)
    ensures
        right_aligned(text, width).len() >= width,
        right_aligned(text, width).len() >= text.len(),
        right_aligned(text, width).len() == width || right_aligned(text, width).len() == text.len(),
        right_aligned(text, width).skip(right_aligned(text, width).len() - text.len()) == text,
        forall|i: int|
            0 <= i < right_aligned(text, width).len() - text.len() ==> #[trigger] right_aligned(
                text,
                width,
            )[i] == ' ',
{
    assert(right_aligned(text, width).skip(right_aligned(text, width).len() - text.len()) =~= text);
}

/// Reading digit by digit gives the number that the digits spell.
proof fn lemma_number_is_spelled(text: Seq<char>)
    requires
        forall|i: int| 0 <= i < text.len() ==> is_digit(#[trigger] text[i]),
    ensures
        number(text) == spelled(text, 10),
    decreases text.len(),
{
    if text.len() > 0 {
        let head = text.drop_last();
        assert forall|i: int| 0 <= i < head.len() implies is_digit(#[trigger] head[i]) by {
            assert(head[i] == text[i]);
        }
        lemma_number_is_spelled(head);
        assert(is_digit(text[text.len() - 1]));
    }
}

/// A name is a process number exactly if it is made of decimal digits alone, does not start with a
/// zero, and spells a positive number of 31 bits: that number. Signs, spaces and an empty name are
/// refused.
pub proof fn lemma_process_number_is_plain(name: Seq<char>)
    ensures
        pid_value(name) matches Some(pid) ==> spelled(name, 10) == pid && pid > 0,
        pid_value(name) is Some <==> (name.len() > 0 && name[0] != '0' && (forall|i: int|
            0 <= i < name.len() ==> '0' <= #[trigger] name[i] <= '9') && spelled(name, 10)
            <= 0x7fff_ffff),
{
    if forall|i: int| 0 <= i < name.len() ==> '0' <= #[trigger] name[i] <= '9' {
        assert forall|i: int| 0 <= i < name.len() implies is_digit(#[trigger] name[i]) by {
            assert('0' <= name[i] <= '9');
        }
        lemma_number_is_spelled(name);
        if name.len() > 0 && name[0] != '0' {
            lemma_leading_digit_counts(name);
        } else if name.len() == 1 {
            reveal_with_fuel(spelled, 2);
            assert(name.drop_last() =~= Seq::<char>::empty());
        }
    } else if is_canonical(name) {
        let i = choose|i: int| 0 <= i < name.len() && !('0' <= #[trigger] name[i] <= '9');
        assert(is_digit(name[i]));
    }
}

/// Digits that do not start with a zero spell no zero.
proof fn lemma_leading_digit_counts(text: Seq<char>)
    requires
        text.len() > 0,
        text[0] != '0',
        forall|i: int| 0 <= i < text.len() ==> is_digit(#[trigger] text[i]),
    ensures
        spelled(text, 10) > 0,
    decreases text.len(),
{
    assert(is_digit(text[text.len() - 1]));
    if text.len() == 1 {
        reveal_with_fuel(spelled, 2);
        assert(text.drop_last() =~= Seq::<char>::empty());
    } else {
        let head = text.drop_last();
        assert forall|i: int| 0 <= i < head.len() implies is_digit(#[trigger] head[i]) by {
            assert(head[i] == text[i]);
        }
        assert(head[0] == text[0]);
        lemma_leading_digit_counts(head);
    }
}

/// A name is a number exactly if it is made of decimal digits alone, has no zero before another
/// digit, and spells a number of 64 bits: that number.
pub proof fn lemma_number_is_plain(name: Seq<char>)
    ensures
        canonical_value(name) matches Some(value) ==> spelled(name, 10) == value,
        canonical_value(name) is Some <==> (name.len() > 0 && (name.len() == 1 || name[0] != '0')
            && (forall|i: int| 0 <= i < name.len() ==> '0' <= #[trigger] name[i] <= '9') && spelled(
            name,
            10,
        ) <= 0xffff_ffff_ffff_ffff),
{
    if forall|i: int| 0 <= i < name.len() ==> '0' <= #[trigger] name[i] <= '9' {
        assert forall|i: int| 0 <= i < name.len() implies is_digit(#[trigger] name[i]) by {
            assert('0' <= name[i] <= '9');
        }
        lemma_number_is_spelled(name);
    } else if is_canonical(name) {
        let i = choose|i: int| 0 <= i < name.len() && !('0' <= #[trigger] name[i] <= '9');
        assert(is_digit(name[i]));
    }
}

} // verus!
