//! The kinds of values a request can ask for, and how two values of a kind relate.

use byteorder::{ByteOrder, LittleEndian};
use vstd::prelude::*;
use vstd::utf8::{decode_utf8, valid_utf8};

use crate::bytes::{byte_range, le_value, lemma_byte_ranges, lemma_le_value_bound, read_le};
use crate::relation::{int_relation, FilterMethod, Relation};
use crate::text::{spells, utf8_str};

verus! {

/// A kind of value.
#[derive(Clone, Copy, Debug, PartialEq, Eq, Structural)]
pub enum DataType {
    Int8,
    Uint8,
    Int16,
    Uint16,
    Int32,
    Uint32,
    Int64,
    Uint64,
    Float,
    Double,
    Utf8,
    Utf16,
    Aob,
    Regex,
    Other,
}

/// The kind of value that a request names.
pub open spec fn data_type(name: Seq<char>) -> DataType {
    if name == "int8"@ {
        DataType::Int8
    } else if name == "uint8"@ {
        DataType::Uint8
    } else if name == "int16"@ {
        DataType::Int16
    } else if name == "uint16"@ {
        DataType::Uint16
    } else if name == "int32"@ {
        DataType::Int32
    } else if name == "uint32"@ {
        DataType::Uint32
    } else if name == "int64"@ {
        DataType::Int64
    } else if name == "uint64"@ {
        DataType::Uint64
    } else if name == "float"@ {
        DataType::Float
    } else if name == "double"@ {
        DataType::Double
    } else if name == "utf-8"@ {
        DataType::Utf8
    } else if name == "utf-16"@ {
        DataType::Utf16
    } else if name == "aob"@ {
        DataType::Aob
    } else if name == "regex"@ {
        DataType::Regex
    } else {
        DataType::Other
    }
}

/// The number that little-endian `bytes` hold in two's complement.
pub open spec fn signed_value(bytes: Seq<u8>) -> int {
    if 2 * le_value(bytes) < byte_range(bytes.len()) {
        le_value(bytes) as int
    } else {
        le_value(bytes) - byte_range(bytes.len())
    }
}

/// Where the bits of an IEEE 754 number stand among all numbers: the order of the magnitudes,
/// mirrored below zero, with one place for both zeros. What is not a number stands nowhere.
/// `sign` is the sign bit and `infinity` the bits of positive infinity.
pub open spec fn float_rank(bits: nat, sign: nat, infinity: nat) -> Option<int> {
    let magnitude = bits % sign;
    if magnitude > infinity {
        None
    } else if bits >= sign {
        Some(-magnitude)
    } else {
        Some(magnitude as int)
    }
}

/// How two ranked numbers relate.
pub open spec fn rank_relation(a: Option<int>, b: Option<int>) -> Relation {
    if a is Some && b is Some {
        int_relation(a->0, b->0)
    } else {
        Relation::Unordered
    }
}

/// The rank of the single-precision number in the first four bytes.
pub open spec fn float_at(bytes: Seq<u8>) -> Option<int> {
    float_rank(le_value(bytes.take(4)), 0x8000_0000, 0x7f80_0000)
}

/// The rank of the double-precision number in the first eight bytes.
pub open spec fn double_at(bytes: Seq<u8>) -> Option<int> {
    float_rank(le_value(bytes.take(8)), 0x8000_0000_0000_0000, 0x7ff0_0000_0000_0000)
}

/// The text of `bytes`, empty where they are not valid UTF-8.
pub open spec fn utf8_or_empty(bytes: Seq<u8>) -> Seq<char> {
    if valid_utf8(bytes) {
        decode_utf8(bytes)
    } else {
        Seq::empty()
    }
}

/// The whole two-byte units of `bytes`. In either byte order two units are equal exactly where
/// their bytes are.
pub open spec fn utf16_units(bytes: Seq<u8>) -> Seq<(u8, u8)> {
    Seq::new(bytes.len() / 2, |i: int| (bytes[2 * i], bytes[2 * i + 1]))
}

/// Whether values that are only told apart, not ordered, satisfy a method.
pub open spec fn passes_identity(method: FilterMethod, same: bool) -> bool {
    match method {
        FilterMethod::Changed => !same,
        FilterMethod::Unchanged => same,
        _ => false,
    }
}

impl DataType {
    /// The kind of value that a request names.
    pub fn parse(name: &String) -> (r: DataType)
        ensures
            r == data_type(name@),
    {
        if spells(name, "int8") {
            DataType::Int8
        } else if spells(name, "uint8") {
            DataType::Uint8
        } else if spells(name, "int16") {
            DataType::Int16
        } else if spells(name, "uint16") {
            DataType::Uint16
        } else if spells(name, "int32") {
            DataType::Int32
        } else if spells(name, "uint32") {
            DataType::Uint32
        } else if spells(name, "int64") {
            DataType::Int64
        } else if spells(name, "uint64") {
            DataType::Uint64
        } else if spells(name, "float") {
            DataType::Float
        } else if spells(name, "double") {
            DataType::Double
        } else if spells(name, "utf-8") {
            DataType::Utf8
        } else if spells(name, "utf-16") {
            DataType::Utf16
        } else if spells(name, "aob") {
            DataType::Aob
        } else if spells(name, "regex") {
            DataType::Regex
        } else {
            DataType::Other
        }
    }

    /// How many bytes a value takes in a remembered chunk.
    pub open spec fn spec_size(self) -> usize {
        match self {
            DataType::Int16 | DataType::Uint16 => 2,
            DataType::Int32 | DataType::Uint32 | DataType::Float => 4,
            DataType::Int64 | DataType::Uint64 | DataType::Double => 8,
            _ => 1,
        }
    }

    /// How many bytes a value takes in a remembered chunk.
    pub fn size(self) -> (r: usize)
        ensures
            r == self.spec_size(),
    {
        match self {
            DataType::Int16 | DataType::Uint16 => 2,
            DataType::Int32 | DataType::Uint32 | DataType::Float => 4,
            DataType::Int64 | DataType::Uint64 | DataType::Double => 8,
            _ => 1,
        }
    }

    /// Whether this is a kind of whole number.
    pub open spec fn is_integer(self) -> bool {
        match self {
            DataType::Int8 | DataType::Uint8 | DataType::Int16 | DataType::Uint16
            | DataType::Int32 | DataType::Uint32 | DataType::Int64 | DataType::Uint64 => true,
            _ => false,
        }
    }

    /// Whether this is a kind of whole number that can be negative.
    pub open spec fn is_signed(self) -> bool {
        match self {
            DataType::Int8 | DataType::Int16 | DataType::Int32 | DataType::Int64 => true,
            _ => false,
        }
    }

    /// Whether `bytes` can be read as a value of this kind: a whole number takes exactly its
    /// bytes, a floating-point number at least its bytes, and everything else any number of them.
    pub open spec fn reads(self, bytes: Seq<u8>) -> bool {
        if self.is_integer() {
            bytes.len() == self.spec_size()
        } else if self == DataType::Float || self == DataType::Double {
            bytes.len() >= self.spec_size()
        } else {
            true
        }
    }

    /// The whole number that `bytes` hold.
    pub open spec fn integer(self, bytes: Seq<u8>) -> int {
        if self.is_signed() {
            signed_value(bytes)
        } else {
            le_value(bytes) as int
        }
    }

    /// Whether a value that was `old` and is now `new` satisfies a method.
    pub open spec fn satisfied(self, method: FilterMethod, new: Seq<u8>, old: Seq<u8>) -> bool {
        if self.is_integer() {
            method.passes(int_relation(self.integer(new), self.integer(old)))
        } else {
            match self {
                DataType::Float => method.passes(rank_relation(float_at(new), float_at(old))),
                DataType::Double => method.passes(rank_relation(double_at(new), double_at(old))),
                DataType::Utf8 => passes_identity(
                    method,
                    utf8_or_empty(new) == utf8_or_empty(old),
                ),
                DataType::Utf16 => passes_identity(method, utf16_units(new) == utf16_units(old)),
                DataType::Aob => passes_identity(method, new == old),
                _ => false,
            }
        }
    }
}

/// `byteorder::LittleEndian::read_u32`: the number in the first four bytes.
#[verifier::external_body]
fn read_u32(bytes: &[u8]) -> (r: u32)
    requires
        bytes@.len() >= 4,
    ensures
        r == le_value(bytes@.take(4)),
{
    LittleEndian::read_u32(bytes)
}

/// `byteorder::LittleEndian::read_u64`: the number in the first eight bytes.
#[verifier::external_body]
fn read_u64(bytes: &[u8]) -> (r: u64)
    requires
        bytes@.len() >= 8,
    ensures
        r == le_value(bytes@.take(8)),
{
    LittleEndian::read_u64(bytes)
}

/// The rank of an IEEE 754 number.
fn rank(bits: u64, sign: u64, infinity: u64) -> (r: Option<i128>)
    requires
        sign > 0,
    ensures
        (match r {
            Some(rank) => Some(rank as int),
            None => None,
        }) == float_rank(bits as nat, sign as nat, infinity as nat),
{
    let magnitude: u64 = bits % sign;
    if magnitude > infinity {
        None
    } else if bits >= sign {
        Some(-(magnitude as i128))
    } else {
        Some(magnitude as i128)
    }
}

/// How two whole numbers relate.
fn relate(a: i128, b: i128) -> (r: Relation)
    ensures
        r == int_relation(a as int, b as int),
{
    if a < b {
        Relation::Less
    } else if a > b {
        Relation::Greater
    } else {
        Relation::Equal
    }
}

/// How two ranked numbers relate.
fn relate_ranks(a: Option<i128>, b: Option<i128>) -> (r: Relation)
    ensures
        r == rank_relation(
            match a {
                Some(rank) => Some(rank as int),
                None => None,
            },
            match b {
                Some(rank) => Some(rank as int),
                None => None,
            },
        ),
{
    match (a, b) {
        (Some(a), Some(b)) => relate(a, b),
        _ => Relation::Unordered,
    }
}

/// Whether two values that are only told apart satisfy a method.
fn accepts_identity(method: FilterMethod, same: bool) -> (r: bool)
    ensures
        r == passes_identity(method, same),
{
    match method {
        FilterMethod::Changed => !same,
        FilterMethod::Unchanged => same,
        _ => false,
    }
}

/// Whether two byte strings agree in their first `n` bytes.
fn same_prefix(a: &[u8], b: &[u8], n: usize) -> (r: bool)
    requires
        n <= a.len(),
        n <= b.len(),
    ensures
        r == (a@.take(n as int) == b@.take(n as int)),
{
    let mut i: usize = 0;
    while i < n
        invariant
            i <= n,
            n <= a.len(),
            n <= b.len(),
            forall|k: int| 0 <= k < i ==> a@[k] == b@[k],
        decreases n - i,
    {
        if a[i] != b[i] {
            assert(a@.take(n as int)[i as int] != b@.take(n as int)[i as int]);
            return false;
        }
        i = i + 1;
    }
    assert(a@.take(n as int) =~= b@.take(n as int));
    true
}

/// Whether two byte strings are the same.
pub fn same_bytes(a: &[u8], b: &[u8]) -> (r: bool)
    ensures
        r == (a@ == b@),
{
    if a.len() != b.len() {
        return false;
    }
    let r: bool = same_prefix(a, b, a.len());
    assert(a@.take(a.len() as int) =~= a@);
    assert(b@.take(b.len() as int) =~= b@);
    r
}

/// Whether two byte strings hold the same two-byte units.
fn same_units(a: &[u8], b: &[u8]) -> (r: bool)
    ensures
        r == (utf16_units(a@) == utf16_units(b@)),
{
    let n: usize = a.len() / 2;
    if n != b.len() / 2 {
        assert(utf16_units(a@).len() != utf16_units(b@).len());
        return false;
    }
    let r: bool = same_prefix(a, b, 2 * n);
    proof {
        let left = a@.take(2 * n);
        let right = b@.take(2 * n);
        if r {
            assert forall|i: int| 0 <= i < n implies #[trigger] utf16_units(a@)[i] == utf16_units(
                b@,
            )[i] by {
                assert(left[2 * i] == right[2 * i]);
                assert(left[2 * i + 1] == right[2 * i + 1]);
            }
            assert(utf16_units(a@) =~= utf16_units(b@));
        } else if utf16_units(a@) == utf16_units(b@) {
            assert forall|k: int| 0 <= k < 2 * n implies left[k] == right[k] by {
                let i = k / 2;
                assert(utf16_units(a@)[i] == utf16_units(b@)[i]);
                assert(k == 2 * i || k == 2 * i + 1);
            }
            assert(left =~= right);
        }
    }
    r
}

/// Whether two byte strings hold the same text, what is not valid UTF-8 counting as empty.
fn same_text(a: &[u8], b: &[u8]) -> (r: bool)
    ensures
        r == (utf8_or_empty(a@) == utf8_or_empty(b@)),
{
    let left: String = match utf8_str(a) {
        Some(text) => text.to_owned(),
        None => String::new(),
    };
    let right: String = match utf8_str(b) {
        Some(text) => text.to_owned(),
        None => String::new(),
    };
    left == right
}

impl DataType {
    /// The whole number that `bytes` hold.
    fn read_integer(self, bytes: &[u8]) -> (r: i128)
        requires
            self.is_integer(),
            bytes@.len() == self.spec_size(),
        ensures
            r == self.integer(bytes@),
    {
        let width: usize = self.size();
        let raw: u64 = read_le(bytes, 0, width);
        let range: i128 = match width {
            1 => 0x100,
            2 => 0x1_0000,
            4 => 0x1_0000_0000,
            _ => 0x1_0000_0000_0000_0000,
        };
        proof {
            assert(bytes@.subrange(0, width as int) =~= bytes@);
            lemma_byte_ranges();
            lemma_le_value_bound(bytes@);
        }
        let signed: bool = match self {
            DataType::Int8 | DataType::Int16 | DataType::Int32 | DataType::Int64 => true,
            _ => false,
        };
        let value: i128 = raw as i128;
        if signed && 2 * value >= range {
            value - range
        } else {
            value
        }
    }

    /// Whether a value that was `old` and is now `new` satisfies a method. There is no answer
    /// where one of them cannot be read as a value of this kind.
    pub fn check(self, method: FilterMethod, new: &[u8], old: &[u8]) -> (r: Option<bool>)
        ensures
            r == (if self.reads(new@) && self.reads(old@) {
                Some(self.satisfied(method, new@, old@))
            } else {
                None
            }),
    {
        match self {
            DataType::Float => {
                if new.len() < 4 || old.len() < 4 {
                    return None;
                }
                let now: Option<i128> = rank(read_u32(new) as u64, 0x8000_0000, 0x7f80_0000);
                let before: Option<i128> = rank(read_u32(old) as u64, 0x8000_0000, 0x7f80_0000);
                Some(method.accepts(relate_ranks(now, before)))
            },
            DataType::Double => {
                if new.len() < 8 || old.len() < 8 {
                    return None;
                }
                let now: Option<i128> = rank(
                    read_u64(new),
                    0x8000_0000_0000_0000,
                    0x7ff0_0000_0000_0000,
                );
                let before: Option<i128> = rank(
                    read_u64(old),
                    0x8000_0000_0000_0000,
                    0x7ff0_0000_0000_0000,
                );
                Some(method.accepts(relate_ranks(now, before)))
            },
            DataType::Utf8 => Some(accepts_identity(method, same_text(new, old))),
            DataType::Utf16 => Some(accepts_identity(method, same_units(new, old))),
            DataType::Aob => Some(accepts_identity(method, same_bytes(new, old))),
            DataType::Regex | DataType::Other => Some(false),
            _ => {
                let width: usize = self.size();
                if new.len() != width || old.len() != width {
                    return None;
                }
                Some(method.accepts(relate(self.read_integer(new), self.read_integer(old))))
            },
        }
    }
}

/// What is not a number has changed whatever it was or becomes, and has not risen, fallen or
/// stayed the same; the two zeros are the same number; and of two numbers one is above the other
/// exactly where the other is below it.
pub proof fn law_float_order(a: nat, b: nat, sign: nat, infinity: nat)
    requires
        0 < sign,
    ensures
        a % sign > infinity || b % sign > infinity <==> rank_relation(
            float_rank(a, sign, infinity),
            float_rank(b, sign, infinity),
        ) == Relation::Unordered,
        FilterMethod::Changed.passes(Relation::Unordered),
        !FilterMethod::Unchanged.passes(Relation::Unordered),
        !FilterMethod::Increased.passes(Relation::Unordered),
        !FilterMethod::Decreased.passes(Relation::Unordered),
        rank_relation(float_rank(0, sign, infinity), float_rank(sign, sign, infinity))
            == Relation::Equal,
        rank_relation(float_rank(a, sign, infinity), float_rank(b, sign, infinity))
            == Relation::Less <==> rank_relation(
            float_rank(b, sign, infinity),
            float_rank(a, sign, infinity),
        ) == Relation::Greater,
{
    assert(sign % sign == 0) by (nonlinear_arith)
        requires
            0 < sign,
    ;
    assert(0nat % sign == 0) by (nonlinear_arith)
        requires
            0 < sign,
    ;
}

/// Every value of a kind that can be told apart has either changed or stayed the same. What rose or
/// fell has changed, and nothing does both. A whole number that has changed rose or fell, and so
/// did a floating-point number unless one of the two values is not a number.
pub proof fn law_value_methods(kind: DataType, new: Seq<u8>, old: Seq<u8>)
    requires
        kind != DataType::Regex,
        kind != DataType::Other,
    ensures
        kind.satisfied(FilterMethod::Changed, new, old) != kind.satisfied(
            FilterMethod::Unchanged,
            new,
            old,
        ),
        kind.satisfied(FilterMethod::Increased, new, old) ==> kind.satisfied(
            FilterMethod::Changed,
            new,
            old,
        ),
        kind.satisfied(FilterMethod::Decreased, new, old) ==> kind.satisfied(
            FilterMethod::Changed,
            new,
            old,
        ),
        kind.satisfied(FilterMethod::Increased, new, old) <==> kind.satisfied(
            FilterMethod::Decreased,
            old,
            new,
        ),
        !(kind.satisfied(FilterMethod::Increased, new, old) && kind.satisfied(
            FilterMethod::Decreased,
            new,
            old,
        )),
        kind.is_integer() || (kind == DataType::Float && float_at(new) is Some && float_at(old)
            is Some) || (kind == DataType::Double && double_at(new) is Some && double_at(old)
            is Some) ==> (kind.satisfied(FilterMethod::Changed, new, old) <==> kind.satisfied(
            FilterMethod::Increased,
            new,
            old,
        ) || kind.satisfied(FilterMethod::Decreased, new, old)),
{
}

/// A value that is still the same has not changed, unless it is not a number.
pub proof fn law_value_unchanged(kind: DataType, bytes: Seq<u8>)
    requires
        kind != DataType::Regex,
        kind != DataType::Other,
    ensures
        kind.satisfied(FilterMethod::Unchanged, bytes, bytes) <==> {
            &&& kind == DataType::Float ==> float_at(bytes) is Some
            &&& kind == DataType::Double ==> double_at(bytes) is Some
        },
{
}

} // verus!
