//! What numbers, digits and names mean: how bytes spell numbers, how two values of each kind
//! compare, and which words name which kinds and methods.

use vstd::arithmetic::power2::{lemma2_to64, lemma_pow2_pos, lemma_pow2_unfold, pow2};
use vstd::prelude::*;

use crate::bytes::{byte_range, law_le_round_trip, le_bytes, le_value, lemma_byte_ranges};
use crate::hexcode::{hex_decoded, hex_digit, hex_encoded, hex_value, is_hex};
use crate::relation::{byte_relation, filter_method, int_relation, FilterMethod, Relation};
use crate::scan::{find_type, FindType};
use crate::text::{decimal, decimal_digits};
use crate::values::{data_type, DataType};

verus! {

/// As many numbers fit in some bytes as there are ways to fill eight times as many bits.
pub proof fn law_byte_range(n: nat)
    ensures
        byte_range(n) == pow2(8 * n),
    decreases n,
{
    lemma2_to64();
    if n > 0 {
        law_byte_range((n - 1) as nat);
        vstd::arithmetic::power2::lemma_pow2_adds(8, (8 * (n - 1)) as nat);
    }
}

/// A byte holds itself, and bytes behind others count as many times more as there are numbers that
/// fit in those before them.
pub proof fn law_le_value(byte: u8, a: Seq<u8>, b: Seq<u8>)
    ensures
        le_value(Seq::<u8>::empty()) == 0,
        le_value(seq![byte]) == byte,
        le_value(a + b) == le_value(a) + pow2(8 * a.len()) * le_value(b),
    decreases a.len(),
{
    reveal_with_fuel(le_value, 2);
    assert(seq![byte].drop_first() =~= Seq::empty());
    law_byte_range(a.len());
    if a.len() == 0 {
        assert(a + b =~= b);
    } else {
        let rest = a.drop_first();
        law_le_value(byte, rest, b);
        law_byte_range(rest.len());
        assert((a + b).drop_first() =~= rest + b);
        let range = byte_range(rest.len()) as int;
        let high = le_value(b) as int;
        assert(256 * (range * high) == (256 * range) * high) by (nonlinear_arith);
    }
}

/// The bytes of a number read from bytes are those bytes.
pub proof fn law_le_bytes_back(bytes: Seq<u8>)
    ensures
        le_bytes(le_value(bytes), bytes.len()) == bytes,
    decreases bytes.len(),
{
    if bytes.len() == 0 {
        assert(le_bytes(le_value(bytes), 0) =~= bytes);
    } else {
        let rest = bytes.drop_first();
        law_le_bytes_back(rest);
        let v = le_value(bytes);
        assert(v % 256 == bytes[0] && v / 256 == le_value(rest));
        assert(le_bytes(v, bytes.len()) =~= seq![bytes[0]] + rest);
        assert(seq![bytes[0]] + rest =~= bytes);
    }
}

/// The digit of each value below sixteen, and the value of each digit in either case.
pub proof fn law_hex_digits(v: int, c: char)
    requires
        0 <= v < 16,
    ensures
        hex_digit(v) == "0123456789abcdef"@[v],
        hex_value("0123456789abcdef"@[v]) == Some(v),
        hex_value("0123456789ABCDEF"@[v]) == Some(v),
        hex_value(c) is Some <==> "0123456789abcdef"@.contains(c) || "0123456789ABCDEF"@.contains(
            c,
        ),
{
    reveal_strlit("0123456789abcdef");
    reveal_strlit("0123456789ABCDEF");
    let lower = "0123456789abcdef"@;
    let upper = "0123456789ABCDEF"@;
    if '0' <= c <= '9' {
        assert(lower[c as int - '0' as int] == c);
    } else if 'a' <= c <= 'f' {
        assert(lower[c as int - 'a' as int + 10] == c);
    } else if 'A' <= c <= 'F' {
        assert(upper[c as int - 'A' as int + 10] == c);
    }
}

/// Text is read as hexadecimal exactly where it consists of an even number of digits; two digits
/// spell a byte, the first counting sixteen times; and bytes are spelled two lower-case digits
/// each.
pub proof fn law_hex_text(text: Seq<char>, bytes: Seq<u8>)
    ensures
        hex_decoded(text) is Some <==> text.len() % 2 == 0 && (forall|i: int|
            0 <= i < text.len() ==> "0123456789abcdef"@.contains(#[trigger] text[i])
                || "0123456789ABCDEF"@.contains(text[i])),
        hex_decoded(text) matches Some(spelled) ==> spelled.len() * 2 == text.len() && forall|
            i: int,
        |
            0 <= i < spelled.len() ==> (#[trigger] spelled[i]) as int == 16 * hex_value(
                text[2 * i],
            )->0 + hex_value(text[2 * i + 1])->0,
        hex_encoded(bytes).len() == 2 * bytes.len(),
        forall|i: int|
            0 <= i < hex_encoded(bytes).len() ==> "0123456789abcdef"@.contains(
                #[trigger] hex_encoded(bytes)[i],
            ),
        hex_decoded(hex_encoded(bytes)) == Some(bytes),
{
    crate::hexcode::law_hex_round_trip(bytes);
    reveal_strlit("0123456789abcdef");
    reveal_strlit("0123456789ABCDEF");
    let lower = "0123456789abcdef"@;
    assert forall|c: char| #[trigger] hex_value(c) is Some <==> lower.contains(c)
        || "0123456789ABCDEF"@.contains(c) by {
        law_hex_digits(0, c);
    }
    if is_hex(text) {
        assert forall|i: int| 0 <= i < text.len() implies lower.contains(#[trigger] text[i])
            || "0123456789ABCDEF"@.contains(text[i]) by {
            assert(hex_value(text[i]) is Some);
        }
        let spelled = hex_decoded(text)->0;
        assert forall|i: int| 0 <= i < spelled.len() implies (#[trigger] spelled[i]) as int == 16
            * hex_value(text[2 * i])->0 + hex_value(text[2 * i + 1])->0 by {
            assert(hex_value(text[2 * i]) is Some && hex_value(text[2 * i + 1]) is Some);
        }
    }
    assert forall|i: int| 0 <= i < hex_encoded(bytes).len() implies lower.contains(
        #[trigger] hex_encoded(bytes)[i],
    ) by {
        let half = if i % 2 == 0 {
            bytes[i / 2] as int / 16
        } else {
            bytes[i / 2] as int % 16
        };
        assert(0 <= half < 16);
        law_hex_digits(half, 'x');
        assert(lower[half] == hex_encoded(bytes)[i]);
    }
}

/// The number that decimal digits spell.
pub open spec fn spelled_number(digits: Seq<char>) -> int
    decreases digits.len(),
{
    if digits.len() == 0 {
        0
    } else {
        10 * spelled_number(digits.drop_last()) + (digits.last() as int - '0' as int)
    }
}

/// A number is written in decimal digits that spell it, without needless zeros in front.
pub proof fn law_decimal_digits(n: nat)
    ensures
        decimal_digits(n).len() > 0,
        spelled_number(decimal_digits(n)) == n,
        forall|i: int|
            0 <= i < decimal_digits(n).len() ==> '0' <= #[trigger] decimal_digits(n)[i] <= '9',
        decimal_digits(n).len() > 1 ==> decimal_digits(n)[0] != '0',
    decreases n,
{
    reveal_with_fuel(spelled_number, 2);
    let all = decimal_digits(n);
    if n < 10 {
        assert(all.drop_last() =~= Seq::empty());
    } else {
        law_decimal_digits(n / 10);
        let front = decimal_digits(n / 10);
        assert(all.drop_last() =~= front);
        assert forall|i: int| 0 <= i < all.len() implies '0' <= #[trigger] all[i] <= '9' by {
            if i < front.len() {
                assert(all[i] == front[i]);
            }
        }
        if front.len() == 1 {
            assert(spelled_number(front.drop_last()) == 0) by {
                assert(front.drop_last() =~= Seq::empty());
            }
            assert(front[0] as int - '0' as int == n / 10);
        }
        assert(all[0] == front[0]);
    }
}

/// A negative number is written as a minus sign and its magnitude.
pub proof fn law_decimal(n: int)
    ensures
        n >= 0 ==> spelled_number(decimal(n)) == n && decimal(n)[0] != '-',
        n < 0 ==> decimal(n).len() > 0 && decimal(n)[0] == '-' && spelled_number(
            decimal(n).drop_first(),
        ) == -n,
{
    if n < 0 {
        law_decimal_digits((-n) as nat);
        assert(decimal(n).drop_first() =~= decimal_digits((-n) as nat));
    } else {
        law_decimal_digits(n as nat);
        assert('0' <= decimal_digits(n as nat)[0]);
    }
}

/// Two byte strings stand to each other as the bytes do, as unsigned numbers, at the first place
/// where they differ.
pub proof fn law_first_difference(a: Seq<u8>, b: Seq<u8>, k: int)
    requires
        0 <= k < a.len(),
        k < b.len(),
        forall|i: int| 0 <= i < k ==> a[i] == b[i],
        a[k] != b[k],
    ensures
        byte_relation(a, b) == Relation::Less <==> (a[k] as int) < (b[k] as int),
        byte_relation(a, b) == Relation::Greater <==> (a[k] as int) > (b[k] as int),
    decreases k,
{
    if k > 0 {
        assert(a[0] == b[0]);
        let (x, y) = (a.drop_first(), b.drop_first());
        assert forall|i: int| 0 <= i < k - 1 implies x[i] == y[i] by {
            assert(a[i + 1] == b[i + 1]);
        }
        law_first_difference(x, y, k - 1);
    }
}

/// A byte string comes before every longer one that it begins.
pub proof fn law_prefix_comes_first(a: Seq<u8>, b: Seq<u8>)
    requires
        a.len() < b.len(),
        forall|i: int| 0 <= i < a.len() ==> a[i] == b[i],
    ensures
        byte_relation(a, b) == Relation::Less,
        byte_relation(b, a) == Relation::Greater,
        byte_relation(a, a) == Relation::Equal,
    decreases a.len(),
{
    crate::relation::law_byte_relation_equal(a, a);
    if a.len() > 0 {
        assert(a[0] == b[0]);
        let (x, y) = (a.drop_first(), b.drop_first());
        assert forall|i: int| 0 <= i < x.len() implies x[i] == y[i] by {
            assert(a[i + 1] == b[i + 1]);
        }
        law_prefix_comes_first(x, y);
    }
}

/// What the methods ask of two whole numbers.
pub proof fn law_methods_of_numbers(new: int, old: int)
    ensures
        FilterMethod::Changed.passes(int_relation(new, old)) <==> new != old,
        FilterMethod::Unchanged.passes(int_relation(new, old)) <==> new == old,
        FilterMethod::Increased.passes(int_relation(new, old)) <==> new > old,
        FilterMethod::Decreased.passes(int_relation(new, old)) <==> new < old,
        !FilterMethod::Exact.passes(int_relation(new, old)),
        !FilterMethod::Other.passes(int_relation(new, old)),
{
}

/// The words that name the methods, and no others.
pub proof fn law_methods_named(name: Seq<char>)
    ensures
        filter_method(name) == FilterMethod::Exact <==> name == "exact"@,
        filter_method(name) == FilterMethod::Changed <==> name == "changed"@,
        filter_method(name) == FilterMethod::Unchanged <==> name == "unchanged"@,
        filter_method(name) == FilterMethod::Increased <==> name == "increased"@,
        filter_method(name) == FilterMethod::Decreased <==> name == "decreased"@,
{
    reveal_strlit("exact");
    reveal_strlit("changed");
    reveal_strlit("unchanged");
    reveal_strlit("increased");
    reveal_strlit("decreased");
    assert("exact"@.len() == 5 && "changed"@.len() == 7 && "unchanged"@.len() == 9);
    assert("increased"@.len() == 9 && "decreased"@.len() == 9);
    assert("unchanged"@[0] != "increased"@[0]);
    assert("unchanged"@[0] != "decreased"@[0]);
    assert("increased"@[0] != "decreased"@[0]);
}

/// The words that name what a scan looks for, and no others.
pub proof fn law_find_types_named(name: Seq<char>)
    ensures
        find_type(name) == FindType::Exact <==> name == "exact"@,
        find_type(name) == FindType::Unknown <==> name == "unknown"@,
{
    reveal_strlit("exact");
    reveal_strlit("unknown");
    assert("exact"@.len() != "unknown"@.len());
}

/// The words that name the kinds of values, and no others.
pub proof fn law_data_types_named(name: Seq<char>)
    ensures
        data_type(name) == DataType::Int8 <==> name == "int8"@,
        data_type(name) == DataType::Uint8 <==> name == "uint8"@,
        data_type(name) == DataType::Int16 <==> name == "int16"@,
        data_type(name) == DataType::Uint16 <==> name == "uint16"@,
        data_type(name) == DataType::Int32 <==> name == "int32"@,
        data_type(name) == DataType::Uint32 <==> name == "uint32"@,
        data_type(name) == DataType::Int64 <==> name == "int64"@,
        data_type(name) == DataType::Uint64 <==> name == "uint64"@,
        data_type(name) == DataType::Float <==> name == "float"@,
        data_type(name) == DataType::Double <==> name == "double"@,
        data_type(name) == DataType::Utf8 <==> name == "utf-8"@,
        data_type(name) == DataType::Utf16 <==> name == "utf-16"@,
        data_type(name) == DataType::Aob <==> name == "aob"@,
        data_type(name) == DataType::Regex <==> name == "regex"@,
{
    reveal_strlit("int8");
    reveal_strlit("uint8");
    reveal_strlit("int16");
    reveal_strlit("uint16");
    reveal_strlit("int32");
    reveal_strlit("uint32");
    reveal_strlit("int64");
    reveal_strlit("uint64");
    reveal_strlit("float");
    reveal_strlit("double");
    reveal_strlit("utf-8");
    reveal_strlit("utf-16");
    reveal_strlit("aob");
    reveal_strlit("regex");
    assert("int8"@.len() == 4 && "aob"@.len() == 3);
    assert("uint8"@.len() == 5 && "int16"@.len() == 5 && "int32"@.len() == 5);
    assert("int64"@.len() == 5 && "float"@.len() == 5 && "utf-8"@.len() == 5);
    assert("regex"@.len() == 5 && "uint16"@.len() == 6 && "uint32"@.len() == 6);
    assert("uint64"@.len() == 6 && "double"@.len() == 6 && "utf-16"@.len() == 6);
    // Texts of five characters.
    assert("uint8"@[0] == 'u' && "uint8"@[1] == 'i' && "utf-8"@[1] == 't');
    assert("int16"@[0] == 'i' && "int16"@[3] == '1');
    assert("int32"@[0] == 'i' && "int32"@[3] == '3');
    assert("int64"@[0] == 'i' && "int64"@[3] == '6');
    assert("float"@[0] == 'f' && "utf-8"@[0] == 'u' && "regex"@[0] == 'r');
    // Texts of six characters.
    assert("uint16"@[1] == 'i' && "uint16"@[4] == '1');
    assert("uint32"@[1] == 'i' && "uint32"@[4] == '3');
    assert("uint64"@[1] == 'i' && "uint64"@[4] == '6');
    assert("double"@[0] == 'd' && "uint16"@[0] == 'u' && "uint32"@[0] == 'u' && "uint64"@[0]
        == 'u');
    assert("utf-16"@[0] == 'u' && "utf-16"@[1] == 't');
}

/// How many bytes the named kinds take in a remembered chunk.
pub proof fn law_sizes_named(name: Seq<char>)
    ensures
        data_type(name).spec_size() == (if name == "int16"@ || name == "uint16"@ {
            2
        } else if name == "int32"@ || name == "uint32"@ || name == "float"@ {
            4
        } else if name == "int64"@ || name == "uint64"@ || name == "double"@ {
            8
        } else {
            1int
        }),
{
    law_data_types_named(name);
}

/// The width in bytes of the whole numbers that a word names, and whether they can be negative.
pub open spec fn whole_kind(name: Seq<char>) -> Option<(nat, bool)> {
    if name == "int8"@ {
        Some((1, true))
    } else if name == "uint8"@ {
        Some((1, false))
    } else if name == "int16"@ {
        Some((2, true))
    } else if name == "uint16"@ {
        Some((2, false))
    } else if name == "int32"@ {
        Some((4, true))
    } else if name == "uint32"@ {
        Some((4, false))
    } else if name == "int64"@ {
        Some((8, true))
    } else if name == "uint64"@ {
        Some((8, false))
    } else {
        None
    }
}

/// Whether a whole number can be written in `width` bytes.
pub open spec fn can_be_written(v: int, width: nat, signed: bool) -> bool {
    if signed {
        2 * v >= -pow2(8 * width) && 2 * v < pow2(8 * width)
    } else {
        0 <= v < pow2(8 * width)
    }
}

/// A whole number in `width` little-endian bytes, negative ones in two's complement.
pub open spec fn written(v: int, width: nat) -> Seq<u8> {
    le_bytes(
        (if v < 0 {
            v + pow2(8 * width)
        } else {
            v
        }) as nat,
        width,
    )
}

/// A whole number of every kind is read back from its bytes.
pub proof fn law_whole_number_read(name: Seq<char>, width: nat, signed: bool, v: int)
    requires
        whole_kind(name) == Some((width, signed)),
        can_be_written(v, width, signed),
    ensures
        written(v, width).len() == width,
        data_type(name).reads(written(v, width)),
        data_type(name).is_integer(),
        data_type(name).integer(written(v, width)) == v,
{
    law_data_types_named(name);
    law_byte_range(width);
    let raw = (if v < 0 {
        v + pow2(8 * width)
    } else {
        v
    }) as nat;
    law_le_round_trip(raw, width);
}

/// Only bytes of exactly the width are read as a whole number.
pub proof fn law_whole_number_width(name: Seq<char>, width: nat, signed: bool, bytes: Seq<u8>)
    requires
        whole_kind(name) == Some((width, signed)),
    ensures
        data_type(name).reads(bytes) <==> bytes.len() == width,
{
    law_data_types_named(name);
}

/// Two whole numbers of any kind, each given by its bytes, satisfy a method exactly as the numbers
/// do, and are unchanged exactly where their bytes are the same.
pub proof fn law_whole_numbers_compare(
    name: Seq<char>,
    width: nat,
    signed: bool,
    new: int,
    old: int,
)
    requires
        whole_kind(name) == Some((width, signed)),
        can_be_written(new, width, signed),
        can_be_written(old, width, signed),
    ensures
        ({
            let kind = data_type(name);
            let (now, before) = (written(new, width), written(old, width));
            &&& kind.satisfied(FilterMethod::Changed, now, before) <==> new != old
            &&& kind.satisfied(FilterMethod::Unchanged, now, before) <==> new == old
            &&& kind.satisfied(FilterMethod::Increased, now, before) <==> new > old
            &&& kind.satisfied(FilterMethod::Decreased, now, before) <==> new < old
            &&& !kind.satisfied(FilterMethod::Other, now, before)
            &&& new == old <==> now == before
        }),
{
    law_whole_number_read(name, width, signed, new);
    law_whole_number_read(name, width, signed, old);
    law_methods_of_numbers(new, old);
}

/// Whether an IEEE 754 number with `fraction` fraction bits and `exponent` exponent bits is not a
/// number: its exponent is all ones and its fraction is not zero.
pub open spec fn not_a_number(bits: nat, fraction: nat, exponent: nat) -> bool {
    &&& (bits / pow2(fraction)) % pow2(exponent) == pow2(exponent) - 1
    &&& bits % pow2(fraction) != 0
}

/// The magnitude of an IEEE 754 number in units of the smallest one, infinity standing where the
/// next number would.
pub open spec fn magnitude_in_units(magnitude: nat, fraction: nat) -> nat {
    let exponent = magnitude / pow2(fraction);
    let rest = magnitude % pow2(fraction);
    if exponent == 0 {
        rest
    } else {
        (pow2(fraction) + rest) * pow2((exponent - 1) as nat)
    }
}

/// An IEEE 754 number in units of the smallest one.
pub open spec fn in_units(bits: nat, fraction: nat, exponent: nat) -> int {
    let sign = pow2(fraction + exponent);
    if bits >= sign {
        -(magnitude_in_units((bits - sign) as nat, fraction) as int)
    } else {
        magnitude_in_units(bits, fraction) as int
    }
}

proof fn lemma_units_step(magnitude: nat, fraction: nat)
    ensures
        magnitude_in_units(magnitude, fraction) < magnitude_in_units(magnitude + 1, fraction),
{
    let unit = pow2(fraction) as int;
    lemma_pow2_pos(fraction);
    let m = magnitude as int;
    let e = m / unit;
    let f = m % unit;
    vstd::arithmetic::div_mod::lemma_fundamental_div_mod(m, unit);
    vstd::arithmetic::div_mod::lemma_mod_bound(m, unit);
    assert(e >= 0) by {
        vstd::arithmetic::div_mod::lemma_div_pos_is_pos(m, unit);
    }
    if f + 1 < unit {
        assert((m + 1) / unit == e && (m + 1) % unit == f + 1) by {
            assert(m + 1 == e * unit + (f + 1)) by (nonlinear_arith)
                requires
                    m == unit * e + f,
            ;
            vstd::arithmetic::div_mod::lemma_fundamental_div_mod_converse(m + 1, unit, e, f + 1);
        }
        if e > 0 {
            let p = pow2((e - 1) as nat) as int;
            lemma_pow2_pos((e - 1) as nat);
            assert((unit + f) * p < (unit + f + 1) * p) by (nonlinear_arith)
                requires
                    p > 0,
            ;
        }
    } else {
        assert((m + 1) / unit == e + 1 && (m + 1) % unit == 0) by {
            assert(m + 1 == (e + 1) * unit + 0) by (nonlinear_arith)
                requires
                    m == unit * e + f,
                    f + 1 == unit,
            ;
            vstd::arithmetic::div_mod::lemma_fundamental_div_mod_converse(m + 1, unit, e + 1, 0);
        }
        let q = pow2(e as nat) as int;
        lemma_pow2_pos(e as nat);
        if e == 0 {
            lemma2_to64();
            assert(unit * q == unit) by (nonlinear_arith)
                requires
                    q == 1,
            ;
        } else {
            lemma_pow2_unfold(e as nat);
            let p = pow2((e - 1) as nat) as int;
            lemma_pow2_pos((e - 1) as nat);
            assert((unit + f) * p < unit * q) by (nonlinear_arith)
                requires
                    q == 2 * p,
                    p > 0,
                    f < unit,
            ;
        }
    }
}

proof fn lemma_units_rise(a: nat, b: nat, fraction: nat)
    requires
        a < b,
    ensures
        magnitude_in_units(a, fraction) < magnitude_in_units(b, fraction),
    decreases b - a,
{
    lemma_units_step((b - 1) as nat, fraction);
    if a < b - 1 {
        lemma_units_rise(a, (b - 1) as nat, fraction);
    }
}

proof fn lemma_units_zero(fraction: nat)
    ensures
        magnitude_in_units(0, fraction) == 0,
{
    lemma_pow2_pos(fraction);
    let unit = pow2(fraction) as int;
    vstd::arithmetic::div_mod::lemma_fundamental_div_mod_converse(0, unit, 0, 0);
}

/// How the ranks of two numbers relate is how the numbers do.
proof fn lemma_rank_is_order(a: nat, b: nat, fraction: nat, exponent: nat, sign: nat, infinity: nat)
    requires
        sign == pow2(fraction + exponent),
        infinity == (pow2(exponent) - 1) * pow2(fraction),
        a < 2 * sign,
        b < 2 * sign,
    ensures
        ({
            let (x, y) = (
                crate::values::float_rank(a, sign, infinity),
                crate::values::float_rank(b, sign, infinity),
            );
            let (u, v) = (in_units(a, fraction, exponent), in_units(b, fraction, exponent));
            &&& (x is None) == not_a_number(a, fraction, exponent)
            &&& (y is None) == not_a_number(b, fraction, exponent)
            &&& x is Some && y is Some ==> {
                &&& x->0 < y->0 <==> u < v
                &&& x->0 == y->0 <==> u == v
            }
        }),
{
    lemma_not_a_number(a, fraction, exponent, sign, infinity);
    lemma_not_a_number(b, fraction, exponent, sign, infinity);
    let p = (if a >= sign {
        a - sign
    } else {
        a as int
    }) as nat;
    let q = (if b >= sign {
        b - sign
    } else {
        b as int
    }) as nat;
    assert(a % sign == p) by {
        vstd::arithmetic::div_mod::lemma_fundamental_div_mod_converse(
            a as int,
            sign as int,
            if a >= sign {
                1
            } else {
                0
            },
            p as int,
        );
    }
    assert(b % sign == q) by {
        vstd::arithmetic::div_mod::lemma_fundamental_div_mod_converse(
            b as int,
            sign as int,
            if b >= sign {
                1
            } else {
                0
            },
            q as int,
        );
    }
    lemma_units_zero(fraction);
    if p < q {
        lemma_units_rise(p, q, fraction);
    }
    if q < p {
        lemma_units_rise(q, p, fraction);
    }
    if p > 0 {
        lemma_units_rise(0, p, fraction);
    }
    if q > 0 {
        lemma_units_rise(0, q, fraction);
    }
}

proof fn lemma_not_a_number(bits: nat, fraction: nat, exponent: nat, sign: nat, infinity: nat)
    requires
        sign == pow2(fraction + exponent),
        infinity == (pow2(exponent) - 1) * pow2(fraction),
        bits < 2 * sign,
    ensures
        bits % sign > infinity <==> not_a_number(bits, fraction, exponent),
{
    let unit = pow2(fraction) as int;
    let tops = pow2(exponent) as int;
    lemma_pow2_pos(fraction);
    lemma_pow2_pos(exponent);
    vstd::arithmetic::power2::lemma_pow2_adds(fraction, exponent);
    let n = bits as int;
    let s = sign as int;
    assert(s == unit * tops);
    let high: int = if n >= s {
        1
    } else {
        0
    };
    let m = n - high * s;
    vstd::arithmetic::div_mod::lemma_fundamental_div_mod_converse(n, s, high, m);
    let e = m / unit;
    let f = m % unit;
    vstd::arithmetic::div_mod::lemma_fundamental_div_mod(m, unit);
    vstd::arithmetic::div_mod::lemma_mod_bound(m, unit);
    vstd::arithmetic::div_mod::lemma_div_pos_is_pos(m, unit);
    assert(e < tops) by (nonlinear_arith)
        requires
            m == unit * e + f,
            m < unit * tops,
            f >= 0,
            unit > 0,
    ;
    assert(n == (e + high * tops) * unit + f) by (nonlinear_arith)
        requires
            n == m + high * s,
            m == unit * e + f,
            s == unit * tops,
    ;
    vstd::arithmetic::div_mod::lemma_fundamental_div_mod_converse(n, unit, e + high * tops, f);
    vstd::arithmetic::div_mod::lemma_fundamental_div_mod_converse(e + high * tops, tops, high, e);
    let top = infinity as int;
    assert(top == (tops - 1) * unit);
    assert(m > top <==> e == tops - 1 && f != 0) by (nonlinear_arith)
        requires
            m == unit * e + f,
            0 <= f < unit,
            0 <= e < tops,
            top == (tops - 1) * unit,
    ;
}

/// How the fraction and exponent bits of a named kind of floating-point number are counted.
pub open spec fn float_kind(name: Seq<char>) -> Option<(nat, nat)> {
    if name == "float"@ {
        Some((23, 8))
    } else if name == "double"@ {
        Some((52, 11))
    } else {
        None
    }
}

/// Two floating-point numbers, each given by the bytes of its bits, satisfy a method exactly as the
/// numbers do. What is not a number has always changed and nothing else.
pub proof fn law_floats_compare(name: Seq<char>, fraction: nat, exponent: nat, new: nat, old: nat)
    requires
        float_kind(name) == Some((fraction, exponent)),
        new < pow2(1 + fraction + exponent),
        old < pow2(1 + fraction + exponent),
    ensures
        ({
            let kind = data_type(name);
            let width = ((1 + fraction + exponent) / 8) as nat;
            let (now, before) = (le_bytes(new, width), le_bytes(old, width));
            let odd = not_a_number(new, fraction, exponent) || not_a_number(
                old,
                fraction,
                exponent,
            );
            let (u, v) = (in_units(new, fraction, exponent), in_units(old, fraction, exponent));
            &&& kind.reads(now) && kind.reads(before)
            &&& kind.satisfied(FilterMethod::Changed, now, before) <==> odd || u != v
            &&& kind.satisfied(FilterMethod::Unchanged, now, before) <==> !odd && u == v
            &&& kind.satisfied(FilterMethod::Increased, now, before) <==> !odd && u > v
            &&& kind.satisfied(FilterMethod::Decreased, now, before) <==> !odd && u < v
            &&& !kind.satisfied(FilterMethod::Other, now, before)
        }),
{
    reveal_strlit("float");
    reveal_strlit("double");
    law_data_types_named(name);
    lemma2_to64();
    vstd::arithmetic::power2::lemma2_to64_rest();
    lemma_byte_ranges();
    if name == "float"@ {
        law_le_round_trip(new, 4);
        law_le_round_trip(old, 4);
        assert(le_bytes(new, 4).take(4) =~= le_bytes(new, 4));
        assert(le_bytes(old, 4).take(4) =~= le_bytes(old, 4));
        lemma_rank_is_order(new, old, 23, 8, 0x8000_0000, 0x7f80_0000);
        lemma_rank_is_order(old, new, 23, 8, 0x8000_0000, 0x7f80_0000);
    } else {
        law_le_round_trip(new, 8);
        law_le_round_trip(old, 8);
        assert(le_bytes(new, 8).take(8) =~= le_bytes(new, 8));
        assert(le_bytes(old, 8).take(8) =~= le_bytes(old, 8));
        lemma_rank_is_order(new, old, 52, 11, 0x8000_0000_0000_0000, 0x7ff0_0000_0000_0000);
        lemma_rank_is_order(old, new, 52, 11, 0x8000_0000_0000_0000, 0x7ff0_0000_0000_0000);
    }
}

/// A floating-point number is read from its first bytes, whatever stands behind them, and from no
/// fewer.
pub proof fn law_float_bytes(
    name: Seq<char>,
    fraction: nat,
    exponent: nat,
    method: FilterMethod,
    new: Seq<u8>,
    old: Seq<u8>,
)
    requires
        float_kind(name) == Some((fraction, exponent)),
    ensures
        ({
            let kind = data_type(name);
            let width = (1 + fraction + exponent) / 8;
            &&& kind.reads(new) <==> new.len() >= width
            &&& new.len() >= width && old.len() >= width ==> kind.satisfied(method, new, old)
                == kind.satisfied(method, new.take(width as int), old.take(width as int))
        }),
{
    reveal_strlit("float");
    reveal_strlit("double");
    law_data_types_named(name);
    let width = ((1 + fraction + exponent) / 8) as int;
    if new.len() >= width && old.len() >= width {
        assert(new.take(width).take(width) =~= new.take(width));
        assert(old.take(width).take(width) =~= old.take(width));
    }
}

/// Texts, given by their UTF-8 bytes, are told apart and not ordered, and bytes that are not UTF-8
/// count as the empty text.
pub proof fn law_texts_compare(new: Seq<char>, old: Seq<char>, odd: Seq<u8>)
    requires
        !vstd::utf8::valid_utf8(odd),
    ensures
        ({
            let kind = data_type("utf-8"@);
            let (now, before) = (vstd::utf8::encode_utf8(new), vstd::utf8::encode_utf8(old));
            &&& kind.satisfied(FilterMethod::Changed, now, before) <==> new != old
            &&& kind.satisfied(FilterMethod::Unchanged, now, before) <==> new == old
            &&& !kind.satisfied(FilterMethod::Increased, now, before)
            &&& !kind.satisfied(FilterMethod::Decreased, now, before)
            &&& !kind.satisfied(FilterMethod::Other, now, before)
            &&& kind.satisfied(FilterMethod::Unchanged, odd, before) <==> old.len() == 0
            &&& kind.satisfied(FilterMethod::Changed, now, odd) <==> new.len() > 0
            &&& kind.reads(now) && kind.reads(odd)
        }),
{
    broadcast use vstd::utf8::encode_utf8_valid_utf8, vstd::utf8::encode_utf8_decode_utf8;

    law_data_types_named("utf-8"@);
    if old.len() == 0 {
        assert(old =~= Seq::empty());
    }
    if new.len() == 0 {
        assert(new =~= Seq::empty());
    }
}

/// UTF-16 text is told apart by its bytes, except that a last byte without its other half does not
/// count.
pub proof fn law_utf16_compare(new: Seq<u8>, old: Seq<u8>, last: u8)
    requires
        new.len() % 2 == 0,
        old.len() % 2 == 0,
    ensures
        ({
            let kind = data_type("utf-16"@);
            &&& kind.satisfied(FilterMethod::Changed, new, old) <==> new != old
            &&& kind.satisfied(FilterMethod::Unchanged, new, old) <==> new == old
            &&& !kind.satisfied(FilterMethod::Increased, new, old)
            &&& !kind.satisfied(FilterMethod::Decreased, new, old)
            &&& !kind.satisfied(FilterMethod::Other, new, old)
            &&& kind.satisfied(FilterMethod::Changed, new.push(last), old) <==> new != old
            &&& kind.satisfied(FilterMethod::Unchanged, new, old.push(last)) <==> new == old
            &&& kind.reads(new)
        }),
{
    law_data_types_named("utf-16"@);
    let (a, b) = (crate::values::utf16_units(new), crate::values::utf16_units(old));
    if a == b {
        assert(a.len() == b.len());
        assert forall|k: int| 0 <= k < new.len() implies new[k] == old[k] by {
            let i = k / 2;
            assert(a[i] == b[i]);
            assert(k == 2 * i || k == 2 * i + 1);
        }
        assert(new =~= old);
    }
    assert(crate::values::utf16_units(new.push(last)) =~= a);
    assert(crate::values::utf16_units(old.push(last)) =~= b);
}

/// Plain bytes are told apart and not ordered, and values of a kind that is not known, or that are
/// only searched for, satisfy nothing.
pub proof fn law_bytes_compare(name: Seq<char>, new: Seq<u8>, old: Seq<u8>, method: FilterMethod)
    ensures
        data_type("aob"@).satisfied(FilterMethod::Changed, new, old) <==> new != old,
        data_type("aob"@).satisfied(FilterMethod::Unchanged, new, old) <==> new == old,
        !data_type("aob"@).satisfied(FilterMethod::Increased, new, old),
        !data_type("aob"@).satisfied(FilterMethod::Decreased, new, old),
        !data_type("aob"@).satisfied(FilterMethod::Other, new, old),
        data_type("aob"@).reads(new),
        whole_kind(name) is None && float_kind(name) is None && name != "utf-8"@ && name
            != "utf-16"@ && name != "aob"@ ==> data_type(name).reads(new) && !data_type(
            name,
        ).satisfied(method, new, old),
{
    law_data_types_named("aob"@);
    law_data_types_named(name);
}

} // verus!
