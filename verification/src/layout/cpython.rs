//! The object layout of the game's embedded runtime, CPython before 3.12, on 64-bit Windows,
//! read from outside.
//!
//! Every offset here is CPython's public object layout for those versions. What is learnt from
//! the game is only which layout it uses, and that is checked at attach: the `type` object must
//! point at itself, each builtin type must be found exactly once in loaded images with the
//! instance sizes this layout gives it, and the dict key table's header must be one of the two
//! known shapes. Every value that fails a check is reported as unread with the reason.

use vstd::prelude::*;

use super::bytes::{le_nat, le_u64, le_uint, le_word, signed};
use super::limits::{
    MAX_DEPTH, MAX_DICT_ENTRIES, MAX_TYPE_NAME, MAX_ITEMS, MAX_REFCOUNT, MAX_TEXT_CHARS, MIN_POINTER, POINTER_END,
};
use super::scan::{scan, scan_spans, spans_hits, Chunk, Needle, Pick, Watch};
use crate::probe::{opt_text, RawEntry, RawValue, RawView, SequenceKind, UnreadReason};
use crate::text::{char_from_u32, decimal, is_scalar, push_char, push_decimal, push_text};
use std::collections::HashMap;
use super::memory::{spec_u32, spec_u64, Memory, Unreadable};

verus! {

// The object header, and the fields of a type object this reader uses.
pub const OB_REFCNT: u64 = 0;
pub const OB_TYPE: u64 = 8;
pub const OB_SIZE: u64 = 16;
pub const TP_NAME: u64 = 24;
pub const TP_BASICSIZE: u64 = 32;
pub const TP_ITEMSIZE: u64 = 40;
pub const TP_DICT: u64 = 264;

// Instances.
pub const FLOAT_VALUE: u64 = 16;
pub const INT_DIGITS: u64 = 24;
pub const LIST_ITEMS: u64 = 24;
pub const TUPLE_ITEMS: u64 = 24;
pub const DICT_USED: u64 = 16;
pub const DICT_KEYS: u64 = 32;
pub const DICT_VALUES: u64 = 40;
pub const STR_LENGTH: u64 = 16;
pub const STR_STATE: u64 = 32;
pub const STR_ASCII_DATA: u64 = 48;
pub const STR_COMPACT_DATA: u64 = 72;
pub const STR_DATA_POINTER: u64 = 72;

/// The builtin types the value decoder knows.
#[derive(Debug, Clone, Copy, PartialEq, Eq, Structural)]
pub enum Builtin {
    Dict,
    List,
    Tuple,
    Str,
    Int,
    Float,
    Bool,
    NoneType,
}

/// Every builtin, in the order discovery checks them.
pub open spec fn all_builtins() -> Seq<Builtin> {
    seq![
        Builtin::Dict,
        Builtin::List,
        Builtin::Tuple,
        Builtin::Str,
        Builtin::Int,
        Builtin::Float,
        Builtin::Bool,
        Builtin::NoneType,
    ]
}

/// The type's `tp_name`.
pub open spec fn builtin_name(b: Builtin) -> Seq<char> {
    match b {
        Builtin::Dict => "dict"@,
        Builtin::List => "list"@,
        Builtin::Tuple => "tuple"@,
        Builtin::Str => "str"@,
        Builtin::Int => "int"@,
        Builtin::Float => "float"@,
        Builtin::Bool => "bool"@,
        Builtin::NoneType => "NoneType"@,
    }
}

/// The instance size (`tp_basicsize`, `tp_itemsize`) this layout gives the type, for the
/// types whose size the layout check reads. A str of 80 bytes is the representation with a
/// `wstr` field, which 3.12 removed.
pub open spec fn builtin_size(b: Builtin) -> Option<(u64, u64)> {
    match b {
        Builtin::Str => Some((80, 0)),
        Builtin::Dict => Some((48, 0)),
        Builtin::Float => Some((24, 0)),
        Builtin::List => Some((40, 0)),
        Builtin::Tuple => Some((24, 8)),
        Builtin::Int => Some((24, 4)),
        Builtin::Bool | Builtin::NoneType => None,
    }
}

impl Builtin {
    /// Every builtin, in the order discovery checks them.
    pub fn all() -> (r: Vec<Builtin>)
        ensures
            r@ == all_builtins(),
    {
        let r = vec![
            Builtin::Dict,
            Builtin::List,
            Builtin::Tuple,
            Builtin::Str,
            Builtin::Int,
            Builtin::Float,
            Builtin::Bool,
            Builtin::NoneType,
        ];
        assert(r@ =~= all_builtins());
        r
    }

    /// The type's `tp_name`.
    pub fn name(self) -> (r: &'static str)
        ensures
            r@ == builtin_name(self),
    {
        match self {
            Builtin::Dict => "dict",
            Builtin::List => "list",
            Builtin::Tuple => "tuple",
            Builtin::Str => "str",
            Builtin::Int => "int",
            Builtin::Float => "float",
            Builtin::Bool => "bool",
            Builtin::NoneType => "NoneType",
        }
    }

    /// The instance size this layout gives the type, where the layout check reads it.
    pub fn size(self) -> (r: Option<(u64, u64)>)
        ensures
            r == builtin_size(self),
    {
        match self {
            Builtin::Str => Some((80, 0)),
            Builtin::Dict => Some((48, 0)),
            Builtin::Float => Some((24, 0)),
            Builtin::List => Some((40, 0)),
            Builtin::Tuple => Some((24, 8)),
            Builtin::Int => Some((24, 4)),
            Builtin::Bool | Builtin::NoneType => None,
        }
    }
}

/// The two shapes of the dict key table in the versions this layout covers.
#[derive(Debug, Clone, Copy, PartialEq, Eq, Structural)]
pub enum DictKeys {
    /// 3.6 to 3.10: a `Py_ssize_t` size, a lookup function, then the index table.
    Sized,
    /// 3.11: byte-wide log sizes and a kind, then the index table.
    Logged,
}

/// The addresses of the builtin types, and the key table shape: everything needed to decode.
#[derive(Debug, Clone, Copy, PartialEq, Eq, Structural)]
pub struct Runtime {
    pub type_type: u64,
    pub dict: u64,
    pub list: u64,
    pub tuple: u64,
    pub str_: u64,
    pub int: u64,
    pub float: u64,
    pub bool_: u64,
    pub none_type: u64,
    pub keys: DictKeys,
}

/// The engine name the reader reports for a key table shape.
pub open spec fn engine_name(keys: DictKeys) -> Seq<char> {
    match keys {
        DictKeys::Sized => "cpython-3.6-3.10"@,
        DictKeys::Logged => "cpython-3.11"@,
    }
}

impl Runtime {
    pub open spec fn spec_address(&self, b: Builtin) -> u64 {
        match b {
            Builtin::Dict => self.dict,
            Builtin::List => self.list,
            Builtin::Tuple => self.tuple,
            Builtin::Str => self.str_,
            Builtin::Int => self.int,
            Builtin::Float => self.float,
            Builtin::Bool => self.bool_,
            Builtin::NoneType => self.none_type,
        }
    }

    /// The first builtin, in [`all_builtins`]' order, whose type is at `t`.
    pub open spec fn spec_builtin(&self, t: u64) -> Option<Builtin> {
        if self.dict == t {
            Some(Builtin::Dict)
        } else if self.list == t {
            Some(Builtin::List)
        } else if self.tuple == t {
            Some(Builtin::Tuple)
        } else if self.str_ == t {
            Some(Builtin::Str)
        } else if self.int == t {
            Some(Builtin::Int)
        } else if self.float == t {
            Some(Builtin::Float)
        } else if self.bool_ == t {
            Some(Builtin::Bool)
        } else if self.none_type == t {
            Some(Builtin::NoneType)
        } else {
            None
        }
    }

    /// The engine name the reader reports for this runtime.
    pub fn engine(&self) -> (r: &'static str)
        ensures
            r@ == engine_name(self.keys),
    {
        match self.keys {
            DictKeys::Sized => "cpython-3.6-3.10",
            DictKeys::Logged => "cpython-3.11",
        }
    }

    /// The address of a builtin type.
    pub fn address(&self, b: Builtin) -> (r: u64)
        ensures
            r == self.spec_address(b),
    {
        match b {
            Builtin::Dict => self.dict,
            Builtin::List => self.list,
            Builtin::Tuple => self.tuple,
            Builtin::Str => self.str_,
            Builtin::Int => self.int,
            Builtin::Float => self.float,
            Builtin::Bool => self.bool_,
            Builtin::NoneType => self.none_type,
        }
    }

    /// Which builtin type a type address is, if any: the first that matches.
    pub fn builtin(&self, t: u64) -> (r: Option<Builtin>)
        ensures
            r == self.spec_builtin(t),
            r matches Some(b) ==> self.spec_address(b) == t,
            r is None ==> forall|b: Builtin| self.spec_address(b) != t,
    {
        let all = Builtin::all();
        let mut i: usize = 0;
        while i < all.len()
            invariant
                all@ == all_builtins(),
                i <= all@.len(),
                forall|j: int| 0 <= j < i ==> self.spec_address(#[trigger] all@[j]) != t,
            decreases all@.len() - i,
        {
            if self.address(all[i]) == t {
                return Some(all[i]);
            }
            i += 1;
        }
        assert(forall|b: Builtin| all_builtins().contains(b)) by {
            assert forall|b: Builtin| all_builtins().contains(b) by {
                match b {
                    Builtin::Dict => assert(all_builtins()[0] == b),
                    Builtin::List => assert(all_builtins()[1] == b),
                    Builtin::Tuple => assert(all_builtins()[2] == b),
                    Builtin::Str => assert(all_builtins()[3] == b),
                    Builtin::Int => assert(all_builtins()[4] == b),
                    Builtin::Float => assert(all_builtins()[5] == b),
                    Builtin::Bool => assert(all_builtins()[6] == b),
                    Builtin::NoneType => assert(all_builtins()[7] == b),
                }
            }
        }
        None
    }
}

/// Whether a value looks like a user-space pointer.
pub open spec fn spec_plausible(p: u64) -> bool {
    MIN_POINTER <= p < POINTER_END && p % 8 == 0
}

/// Whether a value looks like a user-space pointer.
pub fn plausible_pointer(p: u64) -> (r: bool)
    ensures
        r == spec_plausible(p),
{
    MIN_POINTER <= p && p < POINTER_END && p % 8 == 0
}

/// 3.11's `dk_log2_index_bytes` for a table of `2^log2_size` slots.
pub open spec fn spec_index_log2(log2_size: u8) -> int {
    if log2_size < 8 {
        log2_size as int
    } else if log2_size < 16 {
        log2_size + 1
    } else if log2_size < 32 {
        log2_size + 2
    } else {
        log2_size + 3
    }
}

/// 3.11's `dk_log2_index_bytes` for a table of `2^log2_size` slots, for the sizes a key table
/// may have.
pub fn index_log2(log2_size: u8) -> (r: u8)
    requires
        log2_size <= 252,
    ensures
        r == spec_index_log2(log2_size),
{
    if log2_size < 8 {
        log2_size
    } else if log2_size < 16 {
        log2_size + 1
    } else if log2_size < 32 {
        log2_size + 2
    } else {
        log2_size + 3
    }
}

/// A read stopped at the daemon's `Cancel`.
#[derive(Debug, Clone, Copy, PartialEq, Eq, Structural)]
pub struct Cancelled;

/// A value's decoding failed a check.
#[derive(Debug, Clone, Copy, PartialEq, Eq, Structural)]
pub enum Bad {
    Unreadable,
    Malformed,
    OutOfRange,
}

/// The word at `base + off`; an address past the end of the address space is unreadable.
pub open spec fn field_u64<M: Memory + ?Sized>(m: &M, base: u64, off: u64) -> Result<u64, Bad> {
    if base + off > u64::MAX {
        Err(Bad::Unreadable)
    } else {
        match spec_u64(m, (base + off) as u64) {
            Some(v) => Ok(v),
            None => Err(Bad::Unreadable),
        }
    }
}

/// The signed word at `base + off`.
pub open spec fn field_i64<M: Memory + ?Sized>(m: &M, base: u64, off: u64) -> Result<i64, Bad> {
    match field_u64(m, base, off) {
        Ok(v) => Ok(signed(v)),
        Err(e) => Err(e),
    }
}

/// The 32-bit word at `base + off`.
pub open spec fn field_u32<M: Memory + ?Sized>(m: &M, base: u64, off: u64) -> Result<u32, Bad> {
    if base + off > u64::MAX {
        Err(Bad::Unreadable)
    } else {
        match spec_u32(m, (base + off) as u64) {
            Some(v) => Ok(v),
            None => Err(Bad::Unreadable),
        }
    }
}

/// The `len` bytes at `base + off`.
pub open spec fn field_bytes<M: Memory + ?Sized>(m: &M, base: u64, off: u64, len: nat) -> Result<
    Seq<u8>,
    Bad,
> {
    if base + off > u64::MAX {
        Err(Bad::Unreadable)
    } else {
        match m.spec_read((base + off) as u64, len) {
            Some(b) => Ok(b),
            None => Err(Bad::Unreadable),
        }
    }
}

pub fn read_field_u64<M: Memory + ?Sized>(m: &M, base: u64, off: u64) -> (r: Result<u64, Bad>)
    ensures
        r == field_u64(m, base, off),
{
    if base > u64::MAX - off {
        return Err(Bad::Unreadable);
    }
    match m.read_u64(base + off) {
        Ok(v) => Ok(v),
        Err(_) => Err(Bad::Unreadable),
    }
}

pub fn read_field_i64<M: Memory + ?Sized>(m: &M, base: u64, off: u64) -> (r: Result<i64, Bad>)
    ensures
        r == field_i64(m, base, off),
{
    if base > u64::MAX - off {
        return Err(Bad::Unreadable);
    }
    match m.read_i64(base + off) {
        Ok(v) => Ok(v),
        Err(_) => Err(Bad::Unreadable),
    }
}

pub fn read_field_u32<M: Memory + ?Sized>(m: &M, base: u64, off: u64) -> (r: Result<u32, Bad>)
    ensures
        r == field_u32(m, base, off),
{
    if base > u64::MAX - off {
        return Err(Bad::Unreadable);
    }
    match m.read_u32(base + off) {
        Ok(v) => Ok(v),
        Err(_) => Err(Bad::Unreadable),
    }
}

pub fn read_field_bytes<M: Memory + ?Sized>(m: &M, base: u64, off: u64, len: usize) -> (r: Result<
    Vec<u8>,
    Bad,
>)
    ensures
        match field_bytes(m, base, off, len as nat) {
            Ok(b) => r matches Ok(v) && v@ == b && v@.len() == len,
            Err(e) => r == Err::<Vec<u8>, Bad>(e),
        },
{
    if base > u64::MAX - off {
        return Err(Bad::Unreadable);
    }
    match m.read_vec(base + off, len) {
        Ok(v) => Ok(v),
        Err(_) => Err(Bad::Unreadable),
    }
}

/// An object's type, if its header is plausible: a plausible address, a reference count in
/// range, and a plausible type pointer.
pub open spec fn spec_type_of<M: Memory + ?Sized>(m: &M, object: u64) -> Result<u64, Bad> {
    if !spec_plausible(object) {
        Err(Bad::Malformed)
    } else {
        match field_i64(m, object, OB_REFCNT) {
            Err(e) => Err(e),
            Ok(refcnt) => if !(1 <= refcnt <= MAX_REFCOUNT) {
                Err(Bad::Malformed)
            } else {
                match field_u64(m, object, OB_TYPE) {
                    Err(e) => Err(e),
                    Ok(t) => if spec_plausible(t) {
                        Ok(t)
                    } else {
                        Err(Bad::Malformed)
                    },
                }
            },
        }
    }
}

/// An object's type, if its header is plausible.
fn type_of<M: Memory + ?Sized>(m: &M, object: u64) -> (r: Result<u64, Bad>)
    ensures
        r == spec_type_of(m, object),
{
    if !plausible_pointer(object) {
        return Err(Bad::Malformed);
    }
    let refcnt = match read_field_i64(m, object, OB_REFCNT) {
        Ok(v) => v,
        Err(e) => return Err(e),
    };
    if !(1 <= refcnt && refcnt <= MAX_REFCOUNT) {
        return Err(Bad::Malformed);
    }
    let t = match read_field_u64(m, object, OB_TYPE) {
        Ok(v) => v,
        Err(e) => return Err(e),
    };
    if plausible_pointer(t) {
        Ok(t)
    } else {
        Err(Bad::Malformed)
    }
}

} // verus!

verus! {

/// `2^(30 i)`, the weight of an int object's `i`-th digit.
pub open spec fn digit_weight(i: nat) -> nat
    decreases i,
{
    if i == 0 {
        1
    } else {
        0x4000_0000 * digit_weight((i - 1) as nat)
    }
}

/// The `i`-th 30-bit digit of an int object, as stored.
pub open spec fn digit_at(raw: Seq<u8>, i: int) -> nat {
    le_nat(raw.subrange(4 * i, 4 * i + 4))
}

/// Whether one of the first `n` digits holds more than 30 bits.
pub open spec fn has_wide_digit(raw: Seq<u8>, n: int) -> bool {
    exists|i: int| 0 <= i < n && #[trigger] digit_at(raw, i) >= 0x4000_0000
}

/// The magnitude the first `n` digits give.
pub open spec fn magnitude(raw: Seq<u8>, n: nat) -> nat
    decreases n,
{
    if n == 0 {
        0
    } else {
        magnitude(raw, (n - 1) as nat) + digit_at(raw, n - 1) * digit_weight((n - 1) as nat)
    }
}

/// An int object's value, if it fits 64 bits: `ob_size` gives the digit count and the sign,
/// and each digit holds 30 bits.
pub open spec fn spec_integer<M: Memory + ?Sized>(m: &M, object: u64) -> Result<i64, Bad> {
    match field_i64(m, object, OB_SIZE) {
        Err(e) => Err(e),
        Ok(size) => {
            let digits: int = if size < 0 {
                0 - size
            } else {
                size as int
            };
            if digits > 3 {
                Err(Bad::OutOfRange)
            } else {
                match field_bytes(m, object, INT_DIGITS, (4 * digits) as nat) {
                    Err(e) => Err(e),
                    Ok(raw) => if has_wide_digit(raw, digits) {
                        Err(Bad::Malformed)
                    } else {
                        let mag = magnitude(raw, digits as nat);
                        let v: int = if size < 0 {
                            -mag
                        } else {
                            mag as int
                        };
                        if i64::MIN <= v <= i64::MAX {
                            Ok(v as i64)
                        } else {
                            Err(Bad::OutOfRange)
                        }
                    },
                }
            }
        },
    }
}

proof fn lemma_digit_weight_mono(a: nat, b: nat)
    requires
        a <= b,
    ensures
        digit_weight(a) <= digit_weight(b),
    decreases b,
{
    if a < b {
        lemma_digit_weight_mono(a, (b - 1) as nat);
    }
}

proof fn lemma_magnitude_bound(raw: Seq<u8>, n: nat)
    requires
        forall|i: int| 0 <= i < n ==> #[trigger] digit_at(raw, i) < 0x4000_0000,
    ensures
        magnitude(raw, n) < digit_weight(n),
    decreases n,
{
    if n > 0 {
        lemma_magnitude_bound(raw, (n - 1) as nat);
        let w = digit_weight((n - 1) as nat);
        let d = digit_at(raw, n - 1);
        assert(magnitude(raw, (n - 1) as nat) + d * w < 0x4000_0000 * w) by (nonlinear_arith)
            requires
                magnitude(raw, (n - 1) as nat) < w,
                d < 0x4000_0000,
                d >= 0,
        ;
    }
}

/// An int object's value, if it fits 64 bits.
fn integer_of<M: Memory + ?Sized>(m: &M, object: u64) -> (r: Result<i64, Bad>)
    ensures
        r == spec_integer(m, object),
{
    let size = match read_field_i64(m, object, OB_SIZE) {
        Ok(v) => v,
        Err(e) => return Err(e),
    };
    if size < -3 || size > 3 {
        return Err(Bad::OutOfRange);
    }
    let digits: usize = if size < 0 {
        (-size) as usize
    } else {
        size as usize
    };
    let raw = match read_field_bytes(m, object, INT_DIGITS, 4 * digits) {
        Ok(v) => v,
        Err(e) => return Err(e),
    };
    let mut magnitude_: u128 = 0;
    let mut weight: u128 = 1;
    let mut i: usize = 0;
    proof {
        reveal_with_fuel(digit_weight, 4);
    }
    while i < digits
        invariant
            digits <= 3,
            raw@.len() == 4 * digits,
            field_i64(m, object, OB_SIZE) == Ok::<i64, Bad>(size),
            -3 <= size <= 3,
            digits == (if size < 0 { 0 - size } else { size as int }),
            field_bytes(m, object, INT_DIGITS, (4 * digits) as nat) == Ok::<Seq<u8>, Bad>(raw@),
            i <= digits,
            weight == digit_weight(i as nat),
            digit_weight(3) == 0x400_0000_0000_0000_0000_0000,
            magnitude_ == magnitude(raw@, i as nat),
            forall|j: int| 0 <= j < i ==> #[trigger] digit_at(raw@, j) < 0x4000_0000,
        decreases digits - i,
    {
        let d = le_uint(&raw, 4 * i, 4);
        if d >= 0x4000_0000 {
            assert(digit_at(raw@, i as int) >= 0x4000_0000);
            assert(has_wide_digit(raw@, digits as int));
            return Err(Bad::Malformed);
        }
        proof {
            lemma_magnitude_bound(raw@, i as nat);
            reveal_with_fuel(digit_weight, 4);
            assert(weight <= 0x1000_0000_0000_0000);
            assert(magnitude_ + d * weight < 0x400_0000_0000_0000_0000_0000) by (nonlinear_arith)
                requires
                    magnitude_ < weight,
                    d < 0x4000_0000,
                    weight <= 0x1000_0000_0000_0000,
            ;
        }
        magnitude_ = magnitude_ + (d as u128) * weight;
        weight = weight * 0x4000_0000;
        i += 1;
        proof {
            reveal_with_fuel(digit_weight, 4);
        }
    }
    proof {
        lemma_magnitude_bound(raw@, digits as nat);
        reveal_with_fuel(digit_weight, 4);
        lemma_digit_weight_mono(digits as nat, 3);
    }
    let value: i128 = if size < 0 {
        0i128 - magnitude_ as i128
    } else {
        magnitude_ as i128
    };
    if value < i64::MIN as i128 || value > i64::MAX as i128 {
        Err(Bad::OutOfRange)
    } else {
        Ok(value as i64)
    }
}

} // verus!

verus! {

/// The character kind a str's state word gives: 1, 2 or 4 bytes a character.
pub open spec fn str_kind(state: u32) -> u32 {
    (state >> 2) & 7
}

/// One bit of a str's state word.
pub open spec fn str_flag(state: u32, bit: u32) -> bool {
    (state >> bit) & 1 == 1
}

/// The `i`-th code unit of a text of `kind` bytes a character.
pub open spec fn unit_at(bytes: Seq<u8>, kind: int, i: int) -> u32 {
    le_nat(bytes.subrange(i * kind, i * kind + kind)) as u32
}

/// Whether one of the first `len` units is no character, or, in an ASCII text, not ASCII.
pub open spec fn has_bad_unit(bytes: Seq<u8>, kind: int, len: int, ascii: bool) -> bool {
    exists|i: int|
        0 <= i < len && ((ascii && #[trigger] unit_at(bytes, kind, i) > 0x7f) || !is_scalar(
            unit_at(bytes, kind, i),
        ))
}

/// The characters the first `len` units hold.
pub open spec fn text_chars(bytes: Seq<u8>, kind: int, len: int) -> Seq<char> {
    Seq::new(len as nat, |i: int| unit_at(bytes, kind, i) as char)
}

/// Where a str object's characters are: inline after an ASCII header, inline after a compact
/// header, or behind a pointer.
pub open spec fn str_data<M: Memory + ?Sized>(m: &M, object: u64, compact: bool, ascii: bool) -> Result<
    u64,
    Bad,
> {
    if compact && ascii {
        Ok((object + STR_ASCII_DATA) as u64)
    } else if compact {
        Ok((object + STR_COMPACT_DATA) as u64)
    } else {
        field_u64(m, object, STR_DATA_POINTER)
    }
}

/// The text the units at `data` hold, once the header has been checked.
pub open spec fn str_body<M: Memory + ?Sized>(
    m: &M,
    data: u64,
    length: int,
    kind: int,
    ascii: bool,
) -> Result<Seq<char>, Bad> {
    match m.spec_read(data, (length * kind) as nat) {
        None => Err(Bad::Unreadable),
        Some(bytes) => if has_bad_unit(bytes, kind, length, ascii) {
            Err(Bad::Malformed)
        } else {
            Ok(text_chars(bytes, kind, length))
        },
    }
}

/// A str object's text, once its type and length are known.
pub open spec fn str_contents<M: Memory + ?Sized>(m: &M, object: u64, length: int) -> Result<
    Seq<char>,
    Bad,
> {
    match field_u32(m, object, STR_STATE) {
        Err(e) => Err(e),
        Ok(state) => {
            let kind = str_kind(state);
            let (compact, ascii, ready) = (
                str_flag(state, 5),
                str_flag(state, 6),
                str_flag(state, 7),
            );
            if !ready || !(kind == 1 || kind == 2 || kind == 4) || (ascii && kind != 1) {
                Err(Bad::Malformed)
            } else {
                match str_data(m, object, compact, ascii) {
                    Err(e) => Err(e),
                    Ok(data) => str_body(m, data, length, kind as int, ascii),
                }
            }
        },
    }
}

/// A str object's text: its type must be `str`, its length in range, its state word one of a
/// ready string, and every unit a character.
pub open spec fn spec_text<M: Memory + ?Sized>(m: &M, rt: Runtime, object: u64) -> Result<
    Seq<char>,
    Bad,
> {
    match spec_type_of(m, object) {
        Err(e) => Err(e),
        Ok(t) => if t != rt.str_ {
            Err(Bad::Malformed)
        } else {
            match field_i64(m, object, STR_LENGTH) {
                Err(e) => Err(e),
                Ok(length) => if length < 0 || length > usize::MAX {
                    Err(Bad::Malformed)
                } else if length > MAX_TEXT_CHARS {
                    Err(Bad::OutOfRange)
                } else {
                    str_contents(m, object, length as int)
                },
            }
        },
    }
}

/// A str object's text.
fn text_of<M: Memory + ?Sized>(m: &M, rt: &Runtime, object: u64) -> (r: Result<String, Bad>)
    ensures
        match spec_text(m, *rt, object) {
            Ok(s) => r matches Ok(t) && t@ == s,
            Err(e) => r matches Err(f) && f == e,
        },
{
    let t = match type_of(m, object) {
        Ok(t) => t,
        Err(e) => return Err(e),
    };
    if t != rt.str_ {
        return Err(Bad::Malformed);
    }
    let length = match read_field_i64(m, object, STR_LENGTH) {
        Ok(v) => v,
        Err(e) => return Err(e),
    };
    if length < 0 || length as u64 > usize::MAX as u64 {
        return Err(Bad::Malformed);
    }
    if length as u64 > MAX_TEXT_CHARS as u64 {
        return Err(Bad::OutOfRange);
    }
    let length = length as usize;
    let state = match read_field_u32(m, object, STR_STATE) {
        Ok(v) => v,
        Err(e) => return Err(e),
    };
    let kind = (state >> 2) & 7;
    let compact = state >> 5 & 1 == 1;
    let ascii = state >> 6 & 1 == 1;
    let ready = state >> 7 & 1 == 1;
    assert(kind == str_kind(state) && compact == str_flag(state, 5) && ascii == str_flag(state, 6)
        && ready == str_flag(state, 7));
    if !ready || !(kind == 1 || kind == 2 || kind == 4) || (ascii && kind != 1) {
        return Err(Bad::Malformed);
    }
    let data = if compact && ascii {
        object + STR_ASCII_DATA
    } else if compact {
        object + STR_COMPACT_DATA
    } else {
        match read_field_u64(m, object, STR_DATA_POINTER) {
            Ok(v) => v,
            Err(e) => return Err(e),
        }
    };
    assert(str_data(m, object, compact, ascii) == Ok::<u64, Bad>(data));
    let k = kind as usize;
    assert(length * k <= 16384) by (nonlinear_arith)
        requires
            k <= 4,
            length <= 4096,
    ;
    let bytes = match m.read_vec(data, length * k) {
        Ok(v) => v,
        Err(_) => return Err(Bad::Unreadable),
    };
    assert(spec_text(m, *rt, object) == str_body(m, data, length as int, k as int, ascii));
    assert(m.spec_read(data, (length * k) as nat) == Some(bytes@));
    let mut out = String::new();
    let mut i: usize = 0;
    while i < length
        invariant
            bytes@.len() == length * k,
            spec_text(m, *rt, object) == str_body(m, data, length as int, k as int, ascii),
            m.spec_read(data, (length * k) as nat) == Some(bytes@),
            k == 1 || k == 2 || k == 4,
            length <= MAX_TEXT_CHARS,
            i <= length,
            out@ == text_chars(bytes@, k as int, length as int).subrange(0, i as int),
            forall|j: int|
                0 <= j < i ==> !((ascii && #[trigger] unit_at(bytes@, k as int, j) > 0x7f)
                    || !is_scalar(unit_at(bytes@, k as int, j))),
        decreases length - i,
    {
        proof {
            assert(i * k + k <= length * k) by (nonlinear_arith)
                requires
                    i < length,
                    k >= 1,
            ;
        }
        let u = le_uint(&bytes, i * k, k);
        proof {
            super::bytes::lemma_le_nat_bound(bytes@.subrange(i * k, i * k + k));
            super::bytes::lemma_pow256_8();
            super::bytes::lemma_pow256_mono(k as nat, 4);
        }
        let u = u as u32;
        assert(u == unit_at(bytes@, k as int, i as int));
        if ascii && u > 0x7f {
            assert(has_bad_unit(bytes@, k as int, length as int, ascii));
            return Err(Bad::Malformed);
        }
        let c = match char_from_u32(u) {
            Some(c) => c,
            None => {
                assert(has_bad_unit(bytes@, k as int, length as int, ascii));
                return Err(Bad::Malformed);
            },
        };
        push_char(&mut out, c);
        assert(c == (u as char));
        i += 1;
        assert(out@ =~= text_chars(bytes@, k as int, length as int).subrange(0, i as int));
    }
    assert(out@ =~= text_chars(bytes@, k as int, length as int));
    Ok(out)
}

} // verus!

verus! {

/// How scanning one copied chunk of a name ends.
pub enum NameScan {
    /// The terminator was found: the name so far.
    Done(Seq<u8>),
    /// A byte that no type name holds.
    Bad,
    /// No terminator yet: the name so far.
    More(Seq<u8>),
}

/// A byte a type name may hold: printable ASCII.
pub open spec fn printable(c: u8) -> bool {
    0x20 <= c < 0x7f
}

/// Scan `b` from `j`, adding its bytes to `out`.
pub open spec fn scan_name_chunk(b: Seq<u8>, j: int, out: Seq<u8>) -> NameScan
    decreases b.len() - j,
{
    if j >= b.len() || j < 0 {
        NameScan::More(out)
    } else if b[j] == 0 {
        NameScan::Done(out)
    } else if !printable(b[j]) {
        NameScan::Bad
    } else {
        scan_name_chunk(b, j + 1, out.push(b[j]))
    }
}

/// The NUL-terminated name at `p`, read 16 bytes at a time from the `k`-th chunk on, `out`
/// holding the bytes already read; at most `max` bytes are read before giving up.
pub open spec fn name_from<M: Memory + ?Sized>(m: &M, p: u64, max: nat, k: nat, out: Seq<u8>) -> Option<
    Seq<u8>,
>
    decreases max + 16 - 16 * k,
{
    if 16 * k >= max || p + 16 * k + 16 > u64::MAX + 1 {
        None
    } else {
        match m.spec_read((p + 16 * k) as u64, 16) {
            None => None,
            Some(b) => match scan_name_chunk(b, 0, out) {
                NameScan::Done(s) => Some(s),
                NameScan::Bad => None,
                NameScan::More(s) => name_from(m, p, max, k + 1, s),
            },
        }
    }
}

/// What follows the scan of the `k`-th chunk.
pub open spec fn name_after_chunk<M: Memory + ?Sized>(m: &M, p: u64, max: nat, k: nat, scan: NameScan) -> Option<Seq<u8>> {
    match scan {
        NameScan::Done(s) => Some(s),
        NameScan::Bad => None,
        NameScan::More(s) => name_from(m, p, max, k + 1, s),
    }
}

/// A NUL-terminated string of printable bytes at `p`, of at most `max` bytes.
pub open spec fn spec_c_string<M: Memory + ?Sized>(m: &M, p: u64, max: nat) -> Option<Seq<char>> {
    match name_from(m, p, max, 0, Seq::empty()) {
        Some(b) => if b.len() <= max {
            Some(b.map_values(|c: u8| c as char))
        } else {
            None
        },
        None => None,
    }
}

/// A scan only adds to the name so far.
proof fn lemma_scan_grows(b: Seq<u8>, j: int, out: Seq<u8>)
    ensures
        scan_name_chunk(b, j, out) matches NameScan::Done(s) ==> s.len() >= out.len(),
        scan_name_chunk(b, j, out) matches NameScan::More(s) ==> s.len() >= out.len(),
    decreases b.len() - j,
{
    if 0 <= j < b.len() && b[j] != 0 && printable(b[j]) {
        lemma_scan_grows(b, j + 1, out.push(b[j]));
    }
}

/// A name read on from the name so far is at least as long.
proof fn lemma_name_grows<M: Memory + ?Sized>(m: &M, p: u64, max: nat, k: nat, out: Seq<u8>)
    ensures
        name_from(m, p, max, k, out) matches Some(s) ==> s.len() >= out.len(),
    decreases max + 16 - 16 * k,
{
    if !(16 * k >= max || p + 16 * k + 16 > u64::MAX + 1) {
        match m.spec_read((p + 16 * k) as u64, 16) {
            None => {},
            Some(b) => {
                lemma_scan_grows(b, 0, out);
                match scan_name_chunk(b, 0, out) {
                    NameScan::More(s) => lemma_name_grows(m, p, max, k + 1, s),
                    _ => {},
                }
            },
        }
    }
}

proof fn lemma_scan_name_chunk(b: Seq<u8>, j: int, out: Seq<u8>)
    requires
        0 <= j <= b.len(),
    ensures
        scan_name_chunk(b, j, out) matches NameScan::More(s) ==> s == out + b.subrange(j, b.len() as int),
    decreases b.len() - j,
{
    if j < b.len() && b[j] != 0 && printable(b[j]) {
        lemma_scan_name_chunk(b, j + 1, out.push(b[j]));
        assert(out.push(b[j]) + b.subrange(j + 1, b.len() as int) =~= out + b.subrange(j, b.len() as int));
    } else if j == b.len() {
        assert(b.subrange(j, b.len() as int) =~= Seq::<u8>::empty());
        assert(out + b.subrange(j, b.len() as int) =~= out);
    }
}

/// A NUL-terminated string of printable bytes of at most `max` bytes, read 16 bytes at a time
/// so a name near the end of a region is still read.
pub fn c_string<M: Memory + ?Sized>(m: &M, p: u64, max: usize) -> (r: Option<String>)
    ensures
        match spec_c_string(m, p, max as nat) {
            Some(s) => r matches Some(t) && t@ == s,
            None => r is None,
        },
        r matches Some(t) ==> t@.len() <= max,
{
    let mut out: Vec<u8> = Vec::new();
    let mut at = p;
    let mut k: usize = 0;
    while out.len() < max
        invariant
            out@.len() == 16 * k,
            out@.len() <= max,
            at == p + 16 * k,
            name_from(m, p, max as nat, 0, Seq::empty()) == name_from(m, p, max as nat, k as nat, out@),
            forall|i: int| 0 <= i < out@.len() ==> printable(#[trigger] out@[i]),
        decreases max + 16 - out@.len(),
    {
        if at > u64::MAX - 15 {
            return None;
        }
        let b = match m.read_vec(at, 16) {
            Ok(b) => b,
            Err(_) => return None,
        };
        let ghost before = out@;
        let ghost whole = name_from(m, p, max as nat, 0, Seq::empty());
        assert(whole == name_after_chunk(m, p, max as nat, k as nat, scan_name_chunk(b@, 0, before)));
        let mut j: usize = 0;
        while j < 16
            invariant
                b@.len() == 16,
                j <= 16,
                out@ == before + b@.subrange(0, j as int),
                out@.len() <= max,
                scan_name_chunk(b@, 0, before) == scan_name_chunk(b@, j as int, out@),
                whole == name_from(m, p, max as nat, 0, Seq::empty()),
                whole == name_after_chunk(m, p, max as nat, k as nat, scan_name_chunk(b@, 0, before)),
                forall|i: int| 0 <= i < out@.len() ==> printable(#[trigger] out@[i]),
            decreases 16 - j,
        {
            let c = b[j];
            if c == 0 {
                let mut s = String::new();
                let mut i: usize = 0;
                while i < out.len()
                    invariant
                        i <= out@.len(),
                        s@ == out@.subrange(0, i as int).map_values(|c: u8| c as char),
                    decreases out@.len() - i,
                {
                    push_char(&mut s, out[i] as char);
                    i += 1;
                    assert(s@ =~= out@.subrange(0, i as int).map_values(|c: u8| c as char));
                }
                assert(out@.subrange(0, i as int) =~= out@);
                return Some(s);
            }
            if !(0x20 <= c && c < 0x7f) {
                return None;
            }
            if out.len() >= max {
                proof {
                    let next = out@.push(c);
                    lemma_scan_grows(b@, j + 1, next);
                    match scan_name_chunk(b@, j + 1, next) {
                        NameScan::More(s) => lemma_name_grows(m, p, max as nat, (k + 1) as nat, s),
                        _ => {},
                    }
                }
                return None;
            }
            out.push(c);
            j += 1;
            assert(out@ =~= before + b@.subrange(0, j as int));
        }
        assert(b@.subrange(0, 16) =~= b@);
        proof {
            lemma_scan_name_chunk(b@, 16, out@);
        }
        k += 1;
        if at > u64::MAX - 16 {
            return None;
        }
        at = at + 16;
    }
    None
}

} // verus!

verus! {

/// The 64-bit words that bytes hold, one after another.
pub open spec fn words(raw: Seq<u8>, n: int) -> Seq<u64> {
    Seq::new(n as nat, |i: int| le_u64(raw.subrange(8 * i, 8 * i + 8)))
}

/// A list's or a tuple's item pointers, at most [`MAX_ITEMS`] of them, and its true length.
/// A tuple holds its items inline; a list points at them.
pub open spec fn spec_sequence<M: Memory + ?Sized>(m: &M, object: u64, tuple: bool) -> Result<
    (Seq<u64>, u64),
    Bad,
> {
    match field_i64(m, object, OB_SIZE) {
        Err(e) => Err(e),
        Ok(n) => if n < 0 {
            Err(Bad::Malformed)
        } else {
            let shown: int = if n < MAX_ITEMS {
                n as int
            } else {
                MAX_ITEMS as int
            };
            let items = if tuple {
                Ok((object + TUPLE_ITEMS) as u64)
            } else {
                field_u64(m, object, LIST_ITEMS)
            };
            match items {
                Err(e) => Err(e),
                Ok(items) => if shown > 0 && !spec_plausible(items) {
                    Err(Bad::Malformed)
                } else {
                    match m.spec_read(items, (8 * shown) as nat) {
                        None => Err(Bad::Unreadable),
                        Some(raw) => Ok((words(raw, shown), n as u64)),
                    }
                },
            }
        },
    }
}

/// The first `n` words of `raw`.
pub fn read_words(raw: &Vec<u8>, n: usize) -> (r: Vec<u64>)
    requires
        8 * n <= raw@.len(),
    ensures
        r@ == words(raw@, n as int),
{
    let mut out: Vec<u64> = Vec::new();
    let mut i: usize = 0;
    let len = raw.len();
    while i < n
        invariant
            8 * n <= raw@.len(),
            len == raw@.len(),
            i <= n,
            out@ == words(raw@, n as int).subrange(0, i as int),
        decreases n - i,
    {
        out.push(le_word(raw, 8 * i));
        i += 1;
        assert(out@ =~= words(raw@, n as int).subrange(0, i as int));
    }
    assert(out@ =~= words(raw@, n as int));
    out
}

/// A list's or a tuple's item pointers and its true length.
fn sequence_of<M: Memory + ?Sized>(m: &M, object: u64, tuple: bool) -> (r: Result<(Vec<u64>, u64), Bad>)
    requires
        spec_plausible(object),
    ensures
        match spec_sequence(m, object, tuple) {
            Ok((items, n)) => r matches Ok((v, k)) && v@ == items && k == n,
            Err(e) => r matches Err(f) && f == e,
        },
{
    let n = match read_field_i64(m, object, OB_SIZE) {
        Ok(v) => v,
        Err(e) => return Err(e),
    };
    if n < 0 {
        return Err(Bad::Malformed);
    }
    let shown: usize = if n < MAX_ITEMS as i64 {
        n as usize
    } else {
        MAX_ITEMS
    };
    let items = if tuple {
        object + TUPLE_ITEMS
    } else {
        match read_field_u64(m, object, LIST_ITEMS) {
            Ok(v) => v,
            Err(e) => return Err(e),
        }
    };
    if shown > 0 && !plausible_pointer(items) {
        return Err(Bad::Malformed);
    }
    let raw = match m.read_vec(items, 8 * shown) {
        Ok(v) => v,
        Err(_) => return Err(Bad::Unreadable),
    };
    Ok((read_words(&raw, shown), n as u64))
}

/// Whether a number has exactly one bit set.
pub open spec fn is_power_of_two(x: u64) -> bool {
    x != 0 && x & ((x - 1) as u64) == 0
}

/// `2^k`.
pub open spec fn pow2(k: nat) -> nat
    decreases k,
{
    if k == 0 {
        1
    } else {
        2 * pow2((k - 1) as nat)
    }
}

pub fn pow2_u64(k: u8) -> (r: u64)
    requires
        k < 64,
    ensures
        r == pow2(k as nat),
{
    let mut r: u64 = 1;
    let mut i: u8 = 0;
    proof {
        lemma_pow2_mono(0, 63);
    }
    while i < k
        invariant
            i <= k < 64,
            r == pow2(i as nat),
            pow2(i as nat) <= pow2(63),
        decreases k - i,
    {
        proof {
            lemma_pow2_mono((i + 1) as nat, 63);
            lemma_pow2_values();
        }
        r = r * 2;
        i += 1;
    }
    r
}

/// The powers of two that bound a key table and a 64-bit word.
pub proof fn lemma_pow2_values()
    ensures
        pow2(30) == 0x4000_0000,
        pow2(33) == 0x2_0000_0000,
        pow2(63) == 0x8000_0000_0000_0000,
{
    reveal_with_fuel(pow2, 64);
}

/// A larger exponent gives a larger power of two.
pub proof fn lemma_pow2_mono(a: nat, b: nat)
    requires
        a <= b,
    ensures
        pow2(a) <= pow2(b),
    decreases b,
{
    if a < b {
        lemma_pow2_mono(a, (b - 1) as nat);
    }
}

/// The width of a 3.6-3.10 index table slot, for a table of `size` slots.
pub open spec fn index_width(size: u64) -> u64 {
    if size <= 0xff {
        1
    } else if size <= 0xffff {
        2
    } else if size <= 0xffff_ffff {
        4
    } else {
        8
    }
}

/// A key table's geometry: how many slots, how many entries written, where the entries start,
/// and how many bytes each takes.
pub struct KeyTable {
    pub size: u64,
    pub nentries: i64,
    pub first: u64,
    pub stride: u64,
}

/// The key table at `keys`, read in the runtime's shape.
pub open spec fn spec_key_table<M: Memory + ?Sized>(m: &M, keys: u64, shape: DictKeys) -> Result<
    KeyTable,
    Bad,
> {
    match shape {
        DictKeys::Sized => match field_u64(m, keys, 8) {
            Err(e) => Err(e),
            Ok(size) => match field_i64(m, keys, 32) {
                Err(e) => Err(e),
                Ok(nentries) => if !is_power_of_two(size) || !(8 <= size <= 0x4000_0000) {
                    Err(Bad::Malformed)
                } else {
                    Ok(
                        KeyTable {
                            size,
                            nentries,
                            first: (keys + 40 + size * index_width(size)) as u64,
                            stride: 24,
                        },
                    )
                },
            },
        },
        DictKeys::Logged => match field_bytes(m, keys, 8, 3) {
            Err(e) => Err(e),
            Ok(h) => {
                let (log2_size, log2_index, kind) = (h[0], h[1], h[2]);
                if !(3 <= log2_size <= 30) || log2_index != spec_index_log2(log2_size) || kind > 2 {
                    Err(Bad::Malformed)
                } else {
                    match field_i64(m, keys, 24) {
                        Err(e) => Err(e),
                        Ok(nentries) => Ok(
                            KeyTable {
                                size: pow2(log2_size as nat) as u64,
                                nentries,
                                first: (keys + 32 + pow2(log2_index as nat)) as u64,
                                stride: if kind == 0 {
                                    24
                                } else {
                                    16
                                },
                            },
                        ),
                    }
                }
            },
        },
    }
}

fn key_table<M: Memory + ?Sized>(m: &M, keys: u64, shape: DictKeys) -> (r: Result<KeyTable, Bad>)
    requires
        spec_plausible(keys),
    ensures
        match spec_key_table(m, keys, shape) {
            Ok(t) => r matches Ok(u) && u == t,
            Err(e) => r matches Err(f) && f == e,
        },
        r matches Ok(t) ==> t.size <= 0x4000_0000 && t.first <= keys + 40 + 0x2_0000_0000 && (
        t.stride == 24 || t.stride == 16),
{
    match shape {
        DictKeys::Sized => sized_key_table(m, keys),
        DictKeys::Logged => logged_key_table(m, keys),
    }
}

fn sized_key_table<M: Memory + ?Sized>(m: &M, keys: u64) -> (r: Result<KeyTable, Bad>)
    requires
        spec_plausible(keys),
    ensures
        match spec_key_table(m, keys, DictKeys::Sized) {
            Ok(t) => r matches Ok(u) && u == t,
            Err(e) => r matches Err(f) && f == e,
        },
        r matches Ok(t) ==> t.size <= 0x4000_0000 && t.first <= keys + 40 + 0x2_0000_0000 && (
        t.stride == 24 || t.stride == 16),
{
    let size = match read_field_u64(m, keys, 8) {
        Ok(v) => v,
        Err(e) => return Err(e),
    };
    let nentries = match read_field_i64(m, keys, 32) {
        Ok(v) => v,
        Err(e) => return Err(e),
    };
    if size == 0 || size & (size - 1) != 0 || !(8 <= size && size <= 0x4000_0000) {
        return Err(Bad::Malformed);
    }
    let width: u64 = if size <= 0xff {
        1
    } else if size <= 0xffff {
        2
    } else if size <= 0xffff_ffff {
        4
    } else {
        8
    };
    assert(size * width <= 0x1_0000_0000) by (nonlinear_arith)
        requires
            size <= 0x4000_0000,
            width <= 4,
    ;
    Ok(KeyTable { size, nentries, first: keys + 40 + size * width, stride: 24 })
}

fn logged_key_table<M: Memory + ?Sized>(m: &M, keys: u64) -> (r: Result<KeyTable, Bad>)
    requires
        spec_plausible(keys),
    ensures
        match spec_key_table(m, keys, DictKeys::Logged) {
            Ok(t) => r matches Ok(u) && u == t,
            Err(e) => r matches Err(f) && f == e,
        },
        r matches Ok(t) ==> t.size <= 0x4000_0000 && t.first <= keys + 40 + 0x2_0000_0000 && (
        t.stride == 24 || t.stride == 16),
{
    let h = match read_field_bytes(m, keys, 8, 3) {
        Ok(v) => v,
        Err(e) => return Err(e),
    };
    let (log2_size, log2_index, kind) = (h[0], h[1], h[2]);
    if !(3 <= log2_size && log2_size <= 30) || log2_index != index_log2(log2_size) || kind > 2 {
        return Err(Bad::Malformed);
    }
    let nentries = match read_field_i64(m, keys, 24) {
        Ok(v) => v,
        Err(e) => return Err(e),
    };
    let stride: u64 = if kind == 0 {
        24
    } else {
        16
    };
    proof {
        lemma_pow2_mono(log2_size as nat, 30);
        lemma_pow2_mono(log2_index as nat, 33);
        lemma_pow2_values();
    }
    let size = pow2_u64(log2_size);
    let first = keys + 32 + pow2_u64(log2_index);
    Ok(KeyTable { size, nentries, first, stride })
}

} // verus!

verus! {

/// Where the `i`-th entry's key is: a general entry is (hash, key, value), a unicode or split
/// one is (key, value).
pub open spec fn key_offset(stride: u64, i: int) -> int {
    i * stride + if stride == 24 {
        8int
    } else {
        0int
    }
}

/// The `i`-th entry of a key table: its key, and its value, from the table or, in a split
/// dict, from the values array.
pub open spec fn entry_at(table: Seq<u8>, split: Option<Seq<u8>>, stride: u64, i: int) -> (u64, u64) {
    let k = key_offset(stride, i);
    let key = le_u64(table.subrange(k, k + 8));
    let value = match split {
        Some(v) => le_u64(v.subrange(8 * i, 8 * i + 8)),
        None => le_u64(table.subrange(k + 8, k + 16)),
    };
    (key, value)
}

/// The live entries among the first `n`, in insertion order: those whose key and value are
/// both set. A deleted entry has no key.
pub open spec fn live_entries(table: Seq<u8>, split: Option<Seq<u8>>, stride: u64, n: nat) -> Seq<
    (u64, u64),
>
    decreases n,
{
    if n == 0 {
        Seq::empty()
    } else {
        let rest = live_entries(table, split, stride, (n - 1) as nat);
        let e = entry_at(table, split, stride, n - 1);
        if e.0 != 0 && e.1 != 0 {
            rest.push(e)
        } else {
            rest
        }
    }
}

/// The entries of a dict once its key table is known: `used` must count the live ones.
pub open spec fn dict_entries<M: Memory + ?Sized>(
    m: &M,
    used: u64,
    values: u64,
    t: KeyTable,
) -> Result<(Seq<(u64, u64)>, u64), Bad> {
    if t.nentries < 0 {
        Err(Bad::Malformed)
    } else {
        let n = t.nentries as u64;
        if n > t.size || used > n || n > MAX_DICT_ENTRIES {
            Err(Bad::Malformed)
        } else {
            match m.spec_read(t.first, (n * t.stride) as nat) {
                None => Err(Bad::Unreadable),
                Some(table) => {
                    let split = if values != 0 {
                        m.spec_read(values, (8 * n) as nat)
                    } else {
                        Some(Seq::empty())
                    };
                    match split {
                        None => Err(Bad::Unreadable),
                        Some(v) => {
                            let split = if values != 0 {
                                Some(v)
                            } else {
                                None
                            };
                            let items = live_entries(table, split, t.stride, n as nat);
                            if items.len() != used {
                                Err(Bad::Malformed)
                            } else {
                                Ok((items, used))
                            }
                        },
                    }
                },
            }
        }
    }
}

/// The live `(key, value)` pairs of a dict, in insertion order, and its `ma_used`.
pub open spec fn spec_dict_items<M: Memory + ?Sized>(m: &M, rt: Runtime, object: u64) -> Result<
    (Seq<(u64, u64)>, u64),
    Bad,
> {
    match field_i64(m, object, DICT_USED) {
        Err(e) => Err(e),
        Ok(used) => if used < 0 {
            Err(Bad::Malformed)
        } else {
            match field_u64(m, object, DICT_KEYS) {
                Err(e) => Err(e),
                Ok(keys) => match field_u64(m, object, DICT_VALUES) {
                    Err(e) => Err(e),
                    Ok(values) => if !spec_plausible(keys) || (values != 0 && !spec_plausible(
                        values,
                    )) {
                        Err(Bad::Malformed)
                    } else {
                        match spec_key_table(m, keys, rt.keys) {
                            Err(e) => Err(e),
                            Ok(t) => dict_entries(m, used as u64, values, t),
                        }
                    },
                },
            }
        },
    }
}

/// The live `(key, value)` pairs of a dict, in insertion order, and its `ma_used`.
fn dict_items_of<M: Memory + ?Sized>(m: &M, rt: &Runtime, object: u64) -> (r: Result<
    (Vec<(u64, u64)>, u64),
    Bad,
>)
    ensures
        match spec_dict_items(m, *rt, object) {
            Ok((items, used)) => r matches Ok((v, u)) && v@ == items && u == used,
            Err(e) => r matches Err(f) && f == e,
        },
{
    let used = match read_field_i64(m, object, DICT_USED) {
        Ok(v) => v,
        Err(e) => return Err(e),
    };
    if used < 0 {
        return Err(Bad::Malformed);
    }
    let used = used as u64;
    let keys = match read_field_u64(m, object, DICT_KEYS) {
        Ok(v) => v,
        Err(e) => return Err(e),
    };
    let values = match read_field_u64(m, object, DICT_VALUES) {
        Ok(v) => v,
        Err(e) => return Err(e),
    };
    if !plausible_pointer(keys) || (values != 0 && !plausible_pointer(values)) {
        return Err(Bad::Malformed);
    }
    let t = match key_table(m, keys, rt.keys) {
        Ok(t) => t,
        Err(e) => return Err(e),
    };
    entries_of(m, used, values, t)
}

fn entries_of<M: Memory + ?Sized>(m: &M, used: u64, values: u64, t: KeyTable) -> (r: Result<
    (Vec<(u64, u64)>, u64),
    Bad,
>)
    requires
        t.size <= 0x4000_0000,
        t.stride == 24 || t.stride == 16,
    ensures
        match dict_entries(m, used, values, t) {
            Ok((items, u)) => r matches Ok((v, w)) && v@ == items && w == u,
            Err(e) => r matches Err(f) && f == e,
        },
{
    if t.nentries < 0 {
        return Err(Bad::Malformed);
    }
    let n = t.nentries as u64;
    if n > t.size || used > n || n > MAX_DICT_ENTRIES {
        return Err(Bad::Malformed);
    }
    let stride = t.stride;
    let table = match m.read_vec(t.first, (n * stride) as usize) {
        Ok(v) => v,
        Err(_) => return Err(Bad::Unreadable),
    };
    let split: Option<Vec<u8>> = if values != 0 {
        match m.read_vec(values, (8 * n) as usize) {
            Ok(v) => Some(v),
            Err(_) => return Err(Bad::Unreadable),
        }
    } else {
        None
    };
    let ghost gsplit: Option<Seq<u8>> = match &split {
        Some(v) => Some(v@),
        None => None,
    };
    let n = n as usize;
    let mut items: Vec<(u64, u64)> = Vec::new();
    let mut i: usize = 0;
    while i < n
        invariant
            n <= MAX_DICT_ENTRIES,
            stride == 24 || stride == 16,
            table@.len() == n * stride,
            split matches Some(v) ==> v@.len() == 8 * n,
            gsplit == (match &split {
                Some(v) => Some(v@),
                None => None::<Seq<u8>>,
            }),
            i <= n,
            items@ == live_entries(table@, gsplit, stride, i as nat),
        decreases n - i,
    {
        let e = i * (stride as usize);
        let key_at = if stride == 24 {
            e + 8
        } else {
            e
        };
        assert(key_at + 16 <= n * stride) by (nonlinear_arith)
            requires
                e == i * stride,
                i < n,
                stride == 24 || stride == 16,
                key_at == e + (if stride == 24 { 8int } else { 0int }),
        ;
        let key = le_word(&table, key_at);
        let value = match &split {
            Some(v) => le_word(v, 8 * i),
            None => le_word(&table, key_at + 8),
        };
        assert((key, value) == entry_at(table@, gsplit, stride, i as int));
        if key != 0 && value != 0 {
            items.push((key, value));
        }
        i += 1;
    }
    if items.len() as u64 != used {
        return Err(Bad::Malformed);
    }
    Ok((items, used))
}

} // verus!

verus! {

/// A type's name: the string its `tp_name` points at.
pub open spec fn spec_type_name<M: Memory + ?Sized>(m: &M, t: u64) -> Option<Seq<char>> {
    match field_u64(m, t, TP_NAME) {
        Ok(p) => spec_c_string(m, p, MAX_TYPE_NAME as nat),
        Err(_) => None,
    }
}

/// The reason a failed check is reported with.
pub open spec fn bad_reason(b: Bad) -> UnreadReason {
    match b {
        Bad::Unreadable => UnreadReason::Unreadable,
        Bad::Malformed => UnreadReason::Malformed,
        Bad::OutOfRange => UnreadReason::OutOfRange,
    }
}

/// A value that was not read.
pub open spec fn unread_view(type_label: Option<Seq<char>>, b: Bad) -> RawView {
    RawView::Unread { type_label, reason: bad_reason(b) }
}

/// Whether a builtin holds other objects.
pub open spec fn is_container(b: Builtin) -> bool {
    b == Builtin::Dict || b == Builtin::List || b == Builtin::Tuple
}

/// The true length where fewer items were decoded than there are.
pub open spec fn cut_length(shown: int, length: u64) -> Option<u64> {
    if shown < length {
        Some(length)
    } else {
        None
    }
}

/// Any object as a raw value, `depth` levels of containers deep. A header that is not one, a
/// type that is no builtin, a container past the depth, and a value that fails a check are
/// unread, with the type's name where it is known.
pub open spec fn spec_value<M: Memory + ?Sized>(m: &M, rt: Runtime, object: u64, depth: nat) -> RawView
    decreases depth,
{
    match spec_type_of(m, object) {
        Err(b) => unread_view(None, b),
        Ok(t) => match rt.spec_builtin(t) {
            None => RawView::Unread {
                type_label: spec_type_name(m, t),
                reason: UnreadReason::UnknownKind,
            },
            Some(b) => {
                let name = Some(builtin_name(b));
                if is_container(b) && depth == 0 {
                    RawView::Unread { type_label: name, reason: UnreadReason::DepthLimit }
                } else {
                    let inner: nat = if is_container(b) {
                        (depth - 1) as nat
                    } else {
                        0
                    };
                    match b {
                        Builtin::NoneType => RawView::Null,
                        Builtin::Bool => match spec_integer(m, object) {
                            Ok(n) => RawView::Boolean(n != 0),
                            Err(e) => unread_view(name, e),
                        },
                        Builtin::Int => match spec_integer(m, object) {
                            Ok(n) => RawView::Integer(n),
                            Err(e) => unread_view(name, e),
                        },
                        Builtin::Float => match field_u64(m, object, FLOAT_VALUE) {
                            Ok(x) => RawView::Float(x),
                            Err(e) => unread_view(name, e),
                        },
                        Builtin::Str => match spec_text(m, rt, object) {
                            Ok(s) => RawView::Text(s),
                            Err(e) => unread_view(name, e),
                        },
                        Builtin::List | Builtin::Tuple => match spec_sequence(
                            m,
                            object,
                            b == Builtin::Tuple,
                        ) {
                            Ok((items, length)) => RawView::Sequence {
                                kind: if b == Builtin::Tuple {
                                    SequenceKind::Tuple
                                } else {
                                    SequenceKind::List
                                },
                                items: Seq::new(
                                    items.len(),
                                    |i: int| spec_value(m, rt, items[i], inner),
                                ),
                                full_length: cut_length(items.len() as int, length),
                            },
                            Err(e) => unread_view(name, e),
                        },
                        Builtin::Dict => match spec_dict_items(m, rt, object) {
                            Ok((items, used)) => {
                                let shown = if items.len() < MAX_ITEMS {
                                    items.len() as int
                                } else {
                                    MAX_ITEMS as int
                                };
                                RawView::Mapping {
                                    entries: Seq::new(
                                        shown as nat,
                                        |i: int|
                                            (
                                                spec_value(m, rt, items[i].0, inner),
                                                spec_value(m, rt, items[i].1, inner),
                                            ),
                                    ),
                                    full_length: cut_length(shown, used),
                                }
                            },
                            Err(e) => unread_view(name, e),
                        },
                    }
                }
            },
        },
    }
}

/// Decodes objects of one runtime. Type names are cached by type address, a name that could
/// not be read as such.
pub struct Decoder<'m, M: Memory + ?Sized> {
    mem: &'m M,
    rt: &'m Runtime,
    names: HashMap<u64, Option<String>>,
}

impl<'m, M: Memory + ?Sized> Decoder<'m, M> {
    /// The memory decoded.
    pub closed spec fn spec_mem(&self) -> &'m M {
        self.mem
    }

    /// The runtime decoded.
    pub closed spec fn spec_rt(&self) -> Runtime {
        *self.rt
    }

    /// The memory decoded.
    pub fn memory(&self) -> (r: &'m M)
        ensures
            r == self.spec_mem(),
    {
        self.mem
    }

    /// The runtime decoded.
    pub fn runtime(&self) -> (r: &'m Runtime)
        ensures
            *r == self.spec_rt(),
    {
        self.rt
    }

    /// Every cached name is the type's name.
    pub closed spec fn wf(&self) -> bool {
        forall|t: u64| #[trigger]
            self.names@.contains_key(t) ==> opt_text(self.names@[t]) == spec_type_name(
                self.mem,
                t,
            )
    }

    pub fn new(mem: &'m M, rt: &'m Runtime) -> (d: Decoder<'m, M>)
        ensures
            d.wf(),
            d.spec_mem() == mem,
            d.spec_rt() == *rt,
    {
        Decoder { mem, rt, names: HashMap::new() }
    }

    /// An object's type, if its header is plausible.
    pub fn type_of(&self, object: u64) -> (r: Result<u64, Bad>)
        ensures
            r == spec_type_of(self.spec_mem(), object),
    {
        type_of(self.mem, object)
    }

    /// A type's name, or `None` if it cannot be read.
    pub fn name_of_type(&mut self, t: u64) -> (r: Option<String>)
        requires
            old(self).wf(),
        ensures
            final(self).wf(),
            final(self).spec_mem() == old(self).spec_mem(),
            final(self).spec_rt() == old(self).spec_rt(),
            opt_text(r) == spec_type_name(old(self).spec_mem(), t),
    {
        match self.names.get(&t) {
            Some(Some(n)) => return Some(n.clone()),
            Some(None) => return None,
            None => {},
        }
        let n = match read_field_u64(self.mem, t, TP_NAME) {
            Ok(p) => c_string(self.mem, p, MAX_TYPE_NAME),
            Err(_) => None,
        };
        let kept = match &n {
            Some(s) => Some(s.clone()),
            None => None,
        };
        self.names.insert(t, kept);
        n
    }
}

} // verus!

verus! {

fn unread(type_label: Option<String>, b: Bad) -> (r: RawValue)
    ensures
        r.view() == unread_view(opt_text(type_label), b),
{
    let reason = match b {
        Bad::Unreadable => UnreadReason::Unreadable,
        Bad::Malformed => UnreadReason::Malformed,
        Bad::OutOfRange => UnreadReason::OutOfRange,
    };
    RawValue::Unread { type_label, reason }
}

fn name_text(b: Builtin) -> (r: Option<String>)
    ensures
        opt_text(r) == Some(builtin_name(b)),
{
    Some(b.name().to_owned())
}

impl<'m, M: Memory + ?Sized> Decoder<'m, M> {
    /// A str object's text.
    pub fn text(&self, object: u64) -> (r: Result<String, Bad>)
        ensures
            match spec_text(self.spec_mem(), self.spec_rt(), object) {
                Ok(s) => r matches Ok(t) && t@ == s,
                Err(e) => r matches Err(f) && f == e,
            },
    {
        text_of(self.mem, self.rt, object)
    }

    /// An int object's value, if it fits 64 bits.
    pub fn integer(&self, object: u64) -> (r: Result<i64, Bad>)
        ensures
            r == spec_integer(self.spec_mem(), object),
    {
        integer_of(self.mem, object)
    }

    /// The live `(key, value)` pairs of a dict, in insertion order, and its `ma_used`.
    pub fn dict_items(&self, object: u64) -> (r: Result<(Vec<(u64, u64)>, u64), Bad>)
        ensures
            match spec_dict_items(self.spec_mem(), self.spec_rt(), object) {
                Ok((items, used)) => r matches Ok((v, u)) && v@ == items && u == used,
                Err(e) => r matches Err(f) && f == e,
            },
    {
        dict_items_of(self.mem, self.rt, object)
    }

    /// Any object as a raw value, `depth` levels of containers deep.
    pub fn value(&mut self, object: u64, depth: usize) -> (r: RawValue)
        requires
            old(self).wf(),
        ensures
            final(self).wf(),
            final(self).spec_mem() == old(self).spec_mem(),
            final(self).spec_rt() == old(self).spec_rt(),
            r.view() == spec_value(old(self).spec_mem(), old(self).spec_rt(), object, depth as nat),
        decreases depth,
    {
        let ghost m = self.spec_mem();
        let ghost rt = self.spec_rt();
        let t = match type_of(self.mem, object) {
            Ok(t) => t,
            Err(b) => return unread(None, b),
        };
        let builtin = match self.rt.builtin(t) {
            Some(b) => b,
            None => {
                let name = self.name_of_type(t);
                return RawValue::Unread { type_label: name, reason: UnreadReason::UnknownKind };
            },
        };
        let container = match builtin {
            Builtin::Dict | Builtin::List | Builtin::Tuple => true,
            _ => false,
        };
        if container && depth == 0 {
            return RawValue::Unread {
                type_label: name_text(builtin),
                reason: UnreadReason::DepthLimit,
            };
        }
        let inner: usize = if container {
            depth - 1
        } else {
            0
        };
        match builtin {
            Builtin::NoneType => RawValue::Null,
            Builtin::Bool => match integer_of(self.mem, object) {
                Ok(n) => RawValue::Boolean(n != 0),
                Err(e) => unread(name_text(builtin), e),
            },
            Builtin::Int => match integer_of(self.mem, object) {
                Ok(n) => RawValue::Integer(n),
                Err(e) => unread(name_text(builtin), e),
            },
            Builtin::Float => match read_field_u64(self.mem, object, FLOAT_VALUE) {
                Ok(x) => RawValue::Float(x),
                Err(e) => unread(name_text(builtin), e),
            },
            Builtin::Str => match text_of(self.mem, self.rt, object) {
                Ok(s) => RawValue::Text(s),
                Err(e) => unread(name_text(builtin), e),
            },
            Builtin::List | Builtin::Tuple => {
                let tuple = builtin == Builtin::Tuple;
                match sequence_of(self.mem, object, tuple) {
                    Ok((pointers, length)) => {
                        let mut items: Vec<RawValue> = Vec::new();
                        let mut i: usize = 0;
                        while i < pointers.len()
                            invariant
                                self.wf(),
                                self.spec_mem() == m,
                                self.spec_rt() == rt,
                                inner < depth,
                                i <= pointers@.len(),
                                items@.len() == i,
                                forall|j: int|
                                    0 <= j < i ==> (#[trigger] items@[j]).view() == spec_value(
                                        m,
                                        rt,
                                        pointers@[j],
                                        inner as nat,
                                    ),
                            decreases pointers@.len() - i,
                        {
                            let v = self.value(pointers[i], inner);
                            items.push(v);
                            i += 1;
                        }
                        let kind = if tuple {
                            SequenceKind::Tuple
                        } else {
                            SequenceKind::List
                        };
                        let full_length = if (pointers.len() as u64) < length {
                            Some(length)
                        } else {
                            None
                        };
                        let ghost iv = items@;
                        let r = RawValue::Sequence { kind, items, full_length };
                        proof {
                            let ws = Seq::new(
                                pointers@.len(),
                                |j: int| spec_value(m, rt, pointers@[j], inner as nat),
                            );
                            let vs = Seq::new(
                                iv.len(),
                                |j: int|
                                    if 0 <= j < iv.len() {
                                        iv[j].view()
                                    } else {
                                        RawView::Null
                                    },
                            );
                            assert(vs =~= ws);
                            assert(r.view() matches RawView::Sequence { kind: k, items: x, full_length: f } && x =~= vs && k == kind && f == full_length);
                            assert(spec_value(m, rt, object, depth as nat) matches RawView::Sequence {
                                kind: k,
                                items: y,
                                full_length: g,
                            } && y =~= ws && k == kind && g == full_length);
                        }
                        r
                    },
                    Err(e) => unread(name_text(builtin), e),
                }
            },
            Builtin::Dict => match dict_items_of(self.mem, self.rt, object) {
                Ok((pairs, used)) => {
                    let shown: usize = if pairs.len() < MAX_ITEMS {
                        pairs.len()
                    } else {
                        MAX_ITEMS
                    };
                    let mut entries: Vec<RawEntry> = Vec::new();
                    let mut i: usize = 0;
                    while i < shown
                        invariant
                            self.wf(),
                            self.spec_mem() == m,
                            self.spec_rt() == rt,
                            inner < depth,
                            shown <= pairs@.len(),
                            i <= shown,
                            entries@.len() == i,
                            forall|j: int|
                                0 <= j < i ==> (#[trigger] entries@[j]).key.view() == spec_value(
                                    m,
                                    rt,
                                    pairs@[j].0,
                                    inner as nat,
                                ) && entries@[j].value.view() == spec_value(
                                    m,
                                    rt,
                                    pairs@[j].1,
                                    inner as nat,
                                ),
                        decreases shown - i,
                    {
                        let (k, v) = pairs[i];
                        let key = self.value(k, inner);
                        let value = self.value(v, inner);
                        entries.push(RawEntry { key, value });
                        i += 1;
                    }
                    let full_length = if (shown as u64) < used {
                        Some(used)
                    } else {
                        None
                    };
                    let ghost ev = entries@;
                    let r = RawValue::Mapping { entries, full_length };
                    proof {
                        let ws = Seq::new(
                            shown as nat,
                            |j: int|
                                (
                                    spec_value(m, rt, pairs@[j].0, inner as nat),
                                    spec_value(m, rt, pairs@[j].1, inner as nat),
                                ),
                        );
                        let vs = Seq::new(
                            ev.len(),
                            |j: int|
                                if 0 <= j < ev.len() {
                                    (ev[j].key.view(), ev[j].value.view())
                                } else {
                                    (RawView::Null, RawView::Null)
                                },
                        );
                        assert(vs =~= ws);
                        assert(spec_type_of(m, object) == Ok::<u64, Bad>(t));
                        assert(rt.spec_builtin(t) == Some(Builtin::Dict));
                        assert(spec_dict_items(m, rt, object) == Ok::<(Seq<(u64, u64)>, u64), Bad>((pairs@, used)));
                        assert(r.view() matches RawView::Mapping { entries: x, full_length: f } && x =~= vs && f == full_length);
                        assert(spec_value(m, rt, object, depth as nat) matches RawView::Mapping {
                            entries: y,
                            full_length: g,
                        } && y =~= ws && g == full_length);
                    }
                    r
                },
                Err(e) => unread(name_text(builtin), e),
            },
        }
    }

    /// A value [`MAX_DEPTH`] deep: what a record's entries are read as.
    pub fn entry_value(&mut self, object: u64) -> (r: RawValue)
        requires
            old(self).wf(),
        ensures
            final(self).wf(),
            final(self).spec_mem() == old(self).spec_mem(),
            final(self).spec_rt() == old(self).spec_rt(),
            r.view() == spec_value(old(self).spec_mem(), old(self).spec_rt(), object, MAX_DEPTH as nat),
    {
        self.value(object, MAX_DEPTH)
    }
}

} // verus!

verus! {

/// Why the target's memory is not a runtime this reader can read.
#[derive(Debug, Clone, Copy, PartialEq, Eq, Structural)]
pub enum LayoutError {
    /// No object in a loaded image is its own type named `type`, or more than one is.
    TypeObject { found: usize },
    /// A builtin type is not found exactly once in loaded images.
    Builtin { builtin: Builtin, found: usize },
    /// A builtin type's instance size is not this layout's.
    Size { builtin: Builtin, basic: u64, item: u64 },
    /// A builtin type's instance size could not be read.
    SizeUnreadable { builtin: Builtin },
    /// The dict key table header matches neither known shape.
    DictKeys,
}

/// A builtin's name as the reader's messages write it: its variant's name.
pub open spec fn builtin_label_text(b: Builtin) -> Seq<char> {
    match b {
        Builtin::Dict => "Dict"@,
        Builtin::List => "List"@,
        Builtin::Tuple => "Tuple"@,
        Builtin::Str => "Str"@,
        Builtin::Int => "Int"@,
        Builtin::Float => "Float"@,
        Builtin::Bool => "Bool"@,
        Builtin::NoneType => "NoneType"@,
    }
}

/// The text of a layout error: its variant's name and its fields, as Rust's debug format
/// writes them.
pub open spec fn layout_text(e: LayoutError) -> Seq<char> {
    match e {
        LayoutError::TypeObject { found } => "TypeObject { found: "@ + decimal(found as nat)
            + " }"@,
        LayoutError::Builtin { builtin, found } => "Builtin { builtin: "@ + builtin_label_text(
            builtin,
        ) + ", found: "@ + decimal(found as nat) + " }"@,
        LayoutError::Size { builtin, basic, item } => "Size { builtin: "@ + builtin_label_text(
            builtin,
        ) + ", basic: "@ + decimal(basic as nat) + ", item: "@ + decimal(item as nat) + " }"@,
        LayoutError::SizeUnreadable { builtin } => "SizeUnreadable { builtin: "@
            + builtin_label_text(builtin) + " }"@,
        LayoutError::DictKeys => "DictKeys"@,
    }
}

fn push_builtin(s: &mut String, b: Builtin)
    ensures
        final(s)@ == old(s)@ + builtin_label_text(b),
{
    match b {
        Builtin::Dict => push_text(s, "Dict"),
        Builtin::List => push_text(s, "List"),
        Builtin::Tuple => push_text(s, "Tuple"),
        Builtin::Str => push_text(s, "Str"),
        Builtin::Int => push_text(s, "Int"),
        Builtin::Float => push_text(s, "Float"),
        Builtin::Bool => push_text(s, "Bool"),
        Builtin::NoneType => push_text(s, "NoneType"),
    }
}

impl LayoutError {
    /// What the reader says of the error.
    pub fn text(&self) -> (r: String)
        ensures
            r@ == layout_text(*self),
    {
        let mut s = String::new();
        match self {
            LayoutError::TypeObject { found } => {
                push_text(&mut s, "TypeObject { found: ");
                push_decimal(&mut s, *found as u64);
                push_text(&mut s, " }");
            },
            LayoutError::Builtin { builtin, found } => {
                push_text(&mut s, "Builtin { builtin: ");
                push_builtin(&mut s, *builtin);
                push_text(&mut s, ", found: ");
                push_decimal(&mut s, *found as u64);
                push_text(&mut s, " }");
            },
            LayoutError::Size { builtin, basic, item } => {
                push_text(&mut s, "Size { builtin: ");
                push_builtin(&mut s, *builtin);
                push_text(&mut s, ", basic: ");
                push_decimal(&mut s, *basic);
                push_text(&mut s, ", item: ");
                push_decimal(&mut s, *item);
                push_text(&mut s, " }");
            },
            LayoutError::SizeUnreadable { builtin } => {
                push_text(&mut s, "SizeUnreadable { builtin: ");
                push_builtin(&mut s, *builtin);
                push_text(&mut s, " }");
            },
            LayoutError::DictKeys => {
                push_text(&mut s, "DictKeys");
            },
        }
        s
    }
}

/// A watcher that lets a scan run to its end.
pub struct Quiet {
    heard: Ghost<Seq<Chunk>>,
}

impl Quiet {
    pub fn new() -> (q: Quiet)
        ensures
            Watch::<()>::patient(&q),
            Watch::<()>::heard(&q) == Seq::<Chunk>::empty(),
    {
        Quiet { heard: Ghost(Seq::empty()) }
    }
}

impl<S> Watch<S> for Quiet {
    type Origin = ();

    open spec fn origin(&self) -> () {
        ()
    }

    closed spec fn heard(&self) -> Seq<Chunk> {
        self.heard@
    }

    open spec fn inv(&self, sink: &S) -> bool {
        true
    }

    open spec fn patient(&self) -> bool {
        true
    }

    open spec fn stopped(&self) -> bool {
        false
    }

    open spec fn refusing(&self) -> bool {
        false
    }

    fn proceed(&mut self, sink: &mut S) -> (go: bool) {
        true
    }

    fn chunk(&mut self, c: Chunk, sink: &mut S) {
        self.heard = Ghost(self.heard@.push(c));
    }
}

/// The addresses the scan of `pick` reports for `needle`, run to its end.
pub open spec fn scan_hits<M: Memory + ?Sized>(m: &M, pick: Pick, needle: Needle) -> Seq<u64> {
    spans_hits(m, scan_spans(m, pick), needle)
}

/// A scan run to its end.
fn scan_whole<M: Memory + ?Sized>(mem: &M, pick: Pick, needle: Needle) -> (r: Vec<u64>)
    ensures
        r@ == scan_hits(mem, pick, needle),
{
    let mut q = Quiet::new();
    let mut sink = ();
    match scan(mem, pick, needle, &mut q, &mut sink) {
        Ok(h) => h,
        Err(_) => Vec::new(),
    }
}

/// The name of a type object in a loaded image: its `tp_name`, which must point into user
/// space.
pub open spec fn spec_name_of<M: Memory + ?Sized>(m: &M, object: u64) -> Option<Seq<char>> {
    match field_u64(m, object, TP_NAME) {
        Ok(p) => if MIN_POINTER <= p < POINTER_END {
            spec_c_string(m, p, MAX_TYPE_NAME as nat)
        } else {
            None
        },
        Err(_) => None,
    }
}

fn name_of<M: Memory + ?Sized>(m: &M, object: u64) -> (r: Option<String>)
    ensures
        opt_text(r) == spec_name_of(m, object),
{
    match read_field_u64(m, object, TP_NAME) {
        Ok(p) => if MIN_POINTER <= p && p < POINTER_END {
            c_string(m, p, MAX_TYPE_NAME)
        } else {
            None
        },
        Err(_) => None,
    }
}

/// Whether two texts are the same.
pub fn same_text(a: &str, b: &str) -> (r: bool)
    ensures
        r == (a@ == b@),
{
    let n = a.unicode_len();
    if n != b.unicode_len() {
        return false;
    }
    let mut i: usize = 0;
    while i < n
        invariant
            n == a@.len(),
            n == b@.len(),
            i <= n,
            forall|j: int| 0 <= j < i ==> a@[j] == b@[j],
        decreases n - i,
    {
        if a.get_char(i) != b.get_char(i) {
            return false;
        }
        i += 1;
    }
    assert(a@ =~= b@);
    true
}

/// The objects, among those the hits are the type fields of, that are named `name`, in order.
pub open spec fn named<M: Memory + ?Sized>(m: &M, hits: Seq<u64>, name: Seq<char>) -> Seq<u64>
    decreases hits.len(),
{
    if hits.len() == 0 {
        Seq::empty()
    } else {
        let rest = named(m, hits.drop_last(), name);
        let object = (hits.last() - OB_TYPE) as u64;
        if hits.last() >= OB_TYPE && spec_name_of(m, object) == Some(name) {
            rest.push(object)
        } else {
            rest
        }
    }
}

} // verus!

verus! {

/// The names of the objects the hits are the type fields of.
fn names_of<M: Memory + ?Sized>(m: &M, hits: &Vec<u64>) -> (r: Vec<Option<String>>)
    ensures
        r@.len() == hits@.len(),
        forall|i: int|
            0 <= i < hits@.len() ==> hits@[i] >= OB_TYPE ==> opt_text(#[trigger] r@[i])
                == spec_name_of(m, (hits@[i] - OB_TYPE) as u64),
{
    let mut out: Vec<Option<String>> = Vec::new();
    let mut i: usize = 0;
    while i < hits.len()
        invariant
            i <= hits@.len(),
            out@.len() == i,
            forall|j: int|
                0 <= j < i ==> hits@[j] >= OB_TYPE ==> opt_text(#[trigger] out@[j])
                    == spec_name_of(m, (hits@[j] - OB_TYPE) as u64),
        decreases hits@.len() - i,
    {
        let a = hits[i];
        if a >= OB_TYPE {
            out.push(name_of(m, a - OB_TYPE));
        } else {
            out.push(None);
        }
        i += 1;
    }
    out
}

/// The objects among the hits' whose names are `name`, in order.
fn select_named<M: Memory + ?Sized>(
    m: &M,
    hits: &Vec<u64>,
    names: &Vec<Option<String>>,
    name: &str,
) -> (r: Vec<u64>)
    requires
        names@.len() == hits@.len(),
        forall|i: int|
            0 <= i < hits@.len() ==> hits@[i] >= OB_TYPE ==> opt_text(#[trigger] names@[i])
                == spec_name_of(m, (hits@[i] - OB_TYPE) as u64),
    ensures
        r@ == named(m, hits@, name@),
{
    let mut out: Vec<u64> = Vec::new();
    let mut i: usize = 0;
    while i < hits.len()
        invariant
            names@.len() == hits@.len(),
            forall|j: int|
                0 <= j < hits@.len() ==> hits@[j] >= OB_TYPE ==> opt_text(#[trigger] names@[j])
                    == spec_name_of(m, (hits@[j] - OB_TYPE) as u64),
            i <= hits@.len(),
            out@ == named(m, hits@.subrange(0, i as int), name@),
        decreases hits@.len() - i,
    {
        let a = hits[i];
        let ghost prefix = hits@.subrange(0, i + 1);
        assert(prefix.drop_last() =~= hits@.subrange(0, i as int));
        assert(prefix.last() == a);
        let matched = match &names[i] {
            Some(n) => a >= OB_TYPE && same_text(n.as_str(), name),
            None => false,
        };
        if matched {
            out.push(a - OB_TYPE);
        }
        i += 1;
    }
    assert(hits@.subrange(0, hits@.len() as int) =~= hits@);
    out
}

/// The key table shape, read from the attribute dict of the `dict` type itself: a 3.6-3.10
/// header is a power-of-two size, a 3.11 one byte-wide log sizes and a kind.
pub open spec fn spec_key_shape<M: Memory + ?Sized>(m: &M, dict: u64) -> Option<DictKeys> {
    match field_u64(m, dict, TP_DICT) {
        Err(_) => None,
        Ok(d) => match field_u64(m, d, OB_TYPE) {
            Err(_) => None,
            Ok(t) => if t != dict {
                None
            } else {
                match field_u64(m, d, DICT_KEYS) {
                    Err(_) => None,
                    Ok(keys) => match field_bytes(m, keys, 8, 8) {
                        Err(_) => None,
                        Ok(header) => {
                            let sized = le_u64(header);
                            if is_power_of_two(sized) && 8 <= sized <= 0x4000_0000 {
                                Some(DictKeys::Sized)
                            } else if 3 <= header[0] <= 30 && header[1] == spec_index_log2(
                                header[0],
                            ) && header[2] <= 2 {
                                Some(DictKeys::Logged)
                            } else {
                                None
                            }
                        },
                    },
                }
            },
        },
    }
}

/// A 3.11 key table header, of any of the three key kinds (general, unicode or split), never
/// reads as a 3.6-3.10 size: its first byte, the table's log size, is not zero and the next one
/// is not either.
proof fn lemma_logged_header_is_no_size(header: Seq<u8>)
    requires
        header.len() == 8,
        3 <= header[0] <= 30,
        header[1] == spec_index_log2(header[0]),
    ensures
        !is_power_of_two(le_u64(header)),
{
    let rest = header.drop_first();
    super::bytes::lemma_le_nat_bound(header);
    super::bytes::lemma_pow256_8();
    assert(rest[0] == header[1]);
    assert(le_nat(rest) >= 3);
    let v: u64 = le_nat(header) as u64;
    assert(v == header[0] + 256 * le_nat(rest));
    assert(v >= 256);
    assert(v % 256 == header[0]);
    let low: u64 = header[0] as u64;
    assert(v & 0xff == v % 256) by (bit_vector);
    assert(v & ((v - 1) as u64) != 0) by (bit_vector)
        requires
            v & 0xff == low,
            3 <= low <= 30,
            v >= 256,
    ;
}

/// Discovery takes the dict type's attribute dict, whose type is the dict type, with a 3.11 key
/// table header, to mean the 3.11 shape, whichever of the three key kinds the table has: a
/// header of a log size from 3 to 30, the index size 3.11 gives that log size, and a kind of
/// 0, 1 or 2.
pub proof fn lemma_logged_shape_of_every_kind<M: Memory + ?Sized>(
    m: &M,
    dict: u64,
    d: u64,
    keys: u64,
    header: Seq<u8>,
)
    requires
        field_u64(m, dict, TP_DICT) == Ok::<u64, Bad>(d),
        field_u64(m, d, OB_TYPE) == Ok::<u64, Bad>(dict),
        field_u64(m, d, DICT_KEYS) == Ok::<u64, Bad>(keys),
        field_bytes(m, keys, 8, 8) == Ok::<Seq<u8>, Bad>(header),
        header.len() == 8,
        3 <= header[0] <= 30,
        header[1] == spec_index_log2(header[0]),
        header[2] <= 2,
    ensures
        spec_key_shape(m, dict) == Some(DictKeys::Logged),
{
    lemma_logged_header_is_no_size(header);
}

fn key_shape<M: Memory + ?Sized>(m: &M, dict: u64) -> (r: Option<DictKeys>)
    ensures
        r == spec_key_shape(m, dict),
{
    let d = match read_field_u64(m, dict, TP_DICT) {
        Ok(v) => v,
        Err(_) => return None,
    };
    let t = match read_field_u64(m, d, OB_TYPE) {
        Ok(v) => v,
        Err(_) => return None,
    };
    if t != dict {
        return None;
    }
    let keys = match read_field_u64(m, d, DICT_KEYS) {
        Ok(v) => v,
        Err(_) => return None,
    };
    let header = match read_field_bytes(m, keys, 8, 8) {
        Ok(v) => v,
        Err(_) => return None,
    };
    assert(header@.subrange(0, 8) =~= header@);
    let sized = le_word(&header, 0);
    if sized != 0 && sized & (sized - 1) == 0 && 8 <= sized && sized <= 0x4000_0000 {
        return Some(DictKeys::Sized);
    }
    let (log2_size, log2_index, kind) = (header[0], header[1], header[2]);
    if 3 <= log2_size && log2_size <= 30 && log2_index == index_log2(log2_size) && kind <= 2 {
        Some(DictKeys::Logged)
    } else {
        None
    }
}

/// Whether a type's instance size is this layout's.
pub open spec fn size_check<M: Memory + ?Sized>(m: &M, b: Builtin, t: u64) -> Result<(), LayoutError> {
    match builtin_size(b) {
        None => Ok(()),
        Some((basic, item)) => match (field_u64(m, t, TP_BASICSIZE), field_u64(m, t, TP_ITEMSIZE)) {
            (Ok(bs), Ok(is)) => if bs == basic && is == item {
                Ok(())
            } else {
                Err(LayoutError::Size { builtin: b, basic: bs, item: is })
            },
            _ => Err(LayoutError::SizeUnreadable { builtin: b }),
        },
    }
}

/// Each builtin from the `i`-th on, in order, must be found exactly once among the instances
/// of `type`, with this layout's size.
pub open spec fn builtins_check<M: Memory + ?Sized>(m: &M, hits: Seq<u64>, i: nat) -> Result<
    (),
    LayoutError,
>
    decreases 8 - i,
{
    if i >= 8 {
        Ok(())
    } else {
        let b = all_builtins()[i as int];
        let objects = named(m, hits, builtin_name(b));
        if objects.len() != 1 {
            Err(LayoutError::Builtin { builtin: b, found: objects.len() as usize })
        } else {
            match size_check(m, b, objects[0]) {
                Err(e) => Err(e),
                Ok(()) => builtins_check(m, hits, i + 1),
            }
        }
    }
}

/// The one object of each builtin type among the instances of `type`.
pub open spec fn the_builtin<M: Memory + ?Sized>(m: &M, hits: Seq<u64>, b: Builtin) -> u64 {
    named(m, hits, builtin_name(b))[0]
}

/// The runtime's types in the target's loaded images: the one object that is its own type and
/// is named `type`, each builtin type found exactly once among its instances with this
/// layout's size, and the key table shape of the `dict` type's own attribute dict.
pub open spec fn spec_discover<M: Memory + ?Sized>(m: &M) -> Result<Runtime, LayoutError> {
    let candidates = named(m, scan_hits(m, Pick::Images, Needle::OwnType), "type"@);
    if candidates.len() != 1 {
        Err(LayoutError::TypeObject { found: candidates.len() as usize })
    } else {
        let tt = candidates[0];
        let hits = scan_hits(m, Pick::Images, Needle::Word(tt));
        match builtins_check(m, hits, 0) {
            Err(e) => Err(e),
            Ok(()) => match spec_key_shape(m, the_builtin(m, hits, Builtin::Dict)) {
                None => Err(LayoutError::DictKeys),
                Some(keys) => Ok(
                    Runtime {
                        type_type: tt,
                        dict: the_builtin(m, hits, Builtin::Dict),
                        list: the_builtin(m, hits, Builtin::List),
                        tuple: the_builtin(m, hits, Builtin::Tuple),
                        str_: the_builtin(m, hits, Builtin::Str),
                        int: the_builtin(m, hits, Builtin::Int),
                        float: the_builtin(m, hits, Builtin::Float),
                        bool_: the_builtin(m, hits, Builtin::Bool),
                        none_type: the_builtin(m, hits, Builtin::NoneType),
                        keys,
                    },
                ),
            },
        }
    }
}

/// Find the runtime's types in the target's loaded images.
pub fn discover<M: Memory + ?Sized>(mem: &M) -> (r: Result<Runtime, LayoutError>)
    ensures
        r == spec_discover(mem),
{
    let own = scan_whole(mem, Pick::Images, Needle::OwnType);
    let own_names = names_of(mem, &own);
    let candidates = select_named(mem, &own, &own_names, "type");
    proof {
        reveal_strlit("type");
    }
    if candidates.len() != 1 {
        return Err(LayoutError::TypeObject { found: candidates.len() });
    }
    let tt = candidates[0];
    let instances = scan_whole(mem, Pick::Images, Needle::Word(tt));
    let names = names_of(mem, &instances);
    let ghost hits = instances@;
    let all = Builtin::all();
    let mut found: Vec<u64> = Vec::new();
    let mut i: usize = 0;
    while i < 8
        invariant
            all@ == all_builtins(),
            hits == instances@,
            candidates@ == named(mem, scan_hits(mem, Pick::Images, Needle::OwnType), "type"@),
            candidates@.len() == 1,
            tt == candidates@[0],
            hits == scan_hits(mem, Pick::Images, Needle::Word(tt)),
            names@.len() == instances@.len(),
            forall|j: int|
                0 <= j < instances@.len() ==> instances@[j] >= OB_TYPE ==> opt_text(
                    #[trigger] names@[j],
                ) == spec_name_of(mem, (instances@[j] - OB_TYPE) as u64),
            i <= 8,
            found@.len() == i,
            forall|j: int| 0 <= j < i ==> #[trigger] found@[j] == the_builtin(mem, hits, all_builtins()[j]),
            builtins_check(mem, hits, 0) == builtins_check(mem, hits, i as nat),
        decreases 8 - i,
    {
        let b = all[i];
        let objects = select_named(mem, &instances, &names, b.name());
        if objects.len() != 1 {
            return Err(LayoutError::Builtin { builtin: b, found: objects.len() });
        }
        let t = objects[0];
        match b.size() {
            None => {},
            Some((basic, item)) => {
                let bs = read_field_u64(mem, t, TP_BASICSIZE);
                let is = read_field_u64(mem, t, TP_ITEMSIZE);
                match (bs, is) {
                    (Ok(bs), Ok(is)) => {
                        if bs != basic || is != item {
                            return Err(LayoutError::Size { builtin: b, basic: bs, item: is });
                        }
                    },
                    _ => return Err(LayoutError::SizeUnreadable { builtin: b }),
                }
            },
        }
        found.push(t);
        i += 1;
    }
    let dict = found[0];
    let keys = match key_shape(mem, dict) {
        Some(k) => k,
        None => return Err(LayoutError::DictKeys),
    };
    Ok(
        Runtime {
            type_type: tt,
            dict,
            list: found[1],
            tuple: found[2],
            str_: found[3],
            int: found[4],
            float: found[5],
            bool_: found[6],
            none_type: found[7],
            keys,
        },
    )
}

} // verus!
