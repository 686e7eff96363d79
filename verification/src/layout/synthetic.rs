//! A synthetic runtime: objects laid out in an [`Image`] exactly as [`super::cpython`] reads
//! them, built here from values, with no game involved. The tests and the public fixtures read
//! these, so every path of the parsers runs without the game, and a fixture carries no one's
//! account.
//!
//! The builder writes only what the reader reads. The index table of a dict is left zeroed,
//! because the reader walks entries in insertion order and never looks a key up.
//!
//! The proof functions at the end state, for each kind of object the builder lays out, what
//! the decoder reads back from memory that holds it: the value it was built from.

use vstd::prelude::*;

use super::bytes::{le_nat, le_u64, lemma_pow256_8, lemma_pow256_mono, pow256, signed};
use super::cpython::{
    cut_length, digit_at, digit_weight, entry_at, field_bytes, field_i64, field_u64, has_bad_unit,
    has_wide_digit, index_width, is_power_of_two, key_offset, lemma_pow2_mono, lemma_pow2_values,
    live_entries, pow2, same_text, spec_dict_items, spec_index_log2, spec_integer, spec_key_table,
    spec_plausible, spec_text, spec_type_of, spec_value, str_flag, str_kind, text_chars, unit_at,
    words, Bad, Builtin, DictKeys, KeyTable, Runtime, DICT_KEYS, DICT_USED, DICT_VALUES,
};
use super::limits::{MAX_DICT_ENTRIES, MAX_ITEMS, MAX_TEXT_CHARS, POINTER_END};
use super::memory::{
    image_shape, insertion_point, lemma_image_reads, regions_wf, spec_u64, Image, Memory, Overlap,
    Region, RegionKind,
};
use crate::probe::{RawView, SequenceKind};
use crate::text::is_scalar;
use vstd::string::StringSliceAdditionalSpecFns;

verus! {

/// Where the synthetic image and heap start: ordinary 64-bit user-space addresses.
pub const IMAGE_BASE: u64 = 0x1_4000_0000;

pub const HEAP_BASE: u64 = 0x2_0000_0000;

/// The most bytes the builder lays out in the image, all the room below the heap, so that the
/// image ends at most where the heap begins; the heap is given as much.
pub const ROOM: usize = 0xC000_0000;

/// `n` zero bytes.
pub open spec fn zeros(n: nat) -> Seq<u8> {
    Seq::new(n, |i: int| 0u8)
}

/// `n` rounded up to a multiple of 16, as every allocation is.
pub open spec fn pad16(n: nat) -> nat {
    ((n + 15) / 16 * 16) as nat
}

/// `s` with `b` written over it from `at` on.
pub open spec fn write(s: Seq<u8>, at: int, b: Seq<u8>) -> Seq<u8> {
    s.subrange(0, at) + b + s.subrange(at + b.len(), s.len() as int)
}

/// The low `n` bytes of `v`, least significant first.
pub open spec fn le(v: nat, n: nat) -> Seq<u8>
    decreases n,
{
    if n == 0 {
        Seq::empty()
    } else {
        seq![(v % 256) as u8] + le(v / 256, (n - 1) as nat)
    }
}

/// A 64-bit word's bytes.
pub open spec fn word(v: u64) -> Seq<u8> {
    le(v as nat, 8)
}

/// A signed 64-bit word's bytes, in two's complement.
pub open spec fn signed_word(v: i64) -> Seq<u8> {
    if v >= 0 {
        le(v as nat, 8)
    } else {
        le((v + 0x1_0000_0000_0000_0000int) as nat, 8)
    }
}

/// The low `n` bytes of `v`, least significant first.
pub fn le_bytes(v: u64, n: usize) -> (r: Vec<u8>)
    requires
        n <= 8,
    ensures
        r@ == le(v as nat, n as nat),
{
    let mut r: Vec<u8> = Vec::new();
    let mut x: u64 = v;
    let mut i: usize = 0;
    while i < n
        invariant
            i <= n,
            r@ + le(x as nat, (n - i) as nat) == le(v as nat, n as nat),
        decreases n - i,
    {
        let ghost before = r@;
        r.push((x % 256) as u8);
        assert(le(x as nat, (n - i) as nat) == seq![(x % 256) as u8] + le(
            (x / 256) as nat,
            (n - i - 1) as nat,
        ));
        assert(r@ + le((x / 256) as nat, (n - i - 1) as nat) =~= before + le(
            x as nat,
            (n - i) as nat,
        ));
        x = x / 256;
        i += 1;
    }
    assert(r@ + le(x as nat, 0) =~= r@);
    r
}

/// A signed 64-bit word's bytes.
pub fn signed_bytes(v: i64) -> (r: Vec<u8>)
    ensures
        r@ == signed_word(v),
{
    if v >= 0 {
        le_bytes(v as u64, 8)
    } else {
        let below: u64 = (-(v + 1)) as u64;
        le_bytes(u64::MAX - below, 8)
    }
}

proof fn lemma_le_len(v: nat, n: nat)
    ensures
        le(v, n).len() == n,
    decreases n,
{
    if n > 0 {
        lemma_le_len(v / 256, (n - 1) as nat);
    }
}

proof fn lemma_write_append(a: Seq<u8>, b: Seq<u8>, k: int, c: Seq<u8>)
    requires
        0 <= k,
        k + c.len() <= b.len(),
    ensures
        write(a + b, a.len() + k, c) == a + write(b, k, c),
{
    assert(write(a + b, a.len() + k, c) =~= a + write(b, k, c));
}

proof fn lemma_pad16(n: nat)
    ensures
        n <= pad16(n) < n + 16,
        pad16(n) % 16 == 0,
{
    assert(n <= (n + 15) / 16 * 16 < n + 16) by (nonlinear_arith);
    assert(((n + 15) / 16 * 16) % 16 == 0) by (nonlinear_arith);
}

proof fn lemma_pad16_mono(a: nat, b: nat)
    requires
        a <= b,
    ensures
        pad16(a) <= pad16(b),
{
    assert((a + 15) / 16 * 16 <= (b + 15) / 16 * 16) by (nonlinear_arith)
        requires
            a <= b,
    ;
}

/// The sizes of the small allocations the builder makes, rounded up to 16.
pub proof fn lemma_pad16_small()
    ensures
        pad16(16) == 16,
        pad16(24) == 32,
        pad16(40) == 48,
        pad16(48) == 48,
        pad16(400) == 400,
{
}

/// `b` written over `s` at `at`, then `c` right after it: `b` and `c` written together.
proof fn lemma_write_seq(s: Seq<u8>, at: int, b: Seq<u8>, c: Seq<u8>)
    requires
        0 <= at,
        at + b.len() + c.len() <= s.len(),
    ensures
        write(write(s, at, b), at + b.len(), c) == write(s, at, b + c),
{
    assert(write(write(s, at, b), at + b.len(), c) =~= write(s, at, b + c));
}

/// A write into the middle part of three is a write into that part.
proof fn lemma_write_mid(a: Seq<u8>, x: Seq<u8>, c: Seq<u8>, k: int, b: Seq<u8>)
    requires
        0 <= k,
        k + b.len() <= x.len(),
    ensures
        write(a + x + c, a.len() + k, b) == a + write(x, k, b) + c,
{
    assert(write(a + x + c, a.len() + k, b) =~= a + write(x, k, b) + c);
}

/// Words, `n` bytes each, least significant byte first, one after another.
pub open spec fn cat_le(vs: Seq<u64>, n: nat) -> Seq<u8>
    decreases vs.len(),
{
    if vs.len() == 0 {
        Seq::empty()
    } else {
        cat_le(vs.drop_last(), n) + le(vs.last() as nat, n)
    }
}

proof fn lemma_cat_le_len(vs: Seq<u64>, n: nat)
    ensures
        cat_le(vs, n).len() == vs.len() * n,
    decreases vs.len(),
{
    if vs.len() > 0 {
        lemma_cat_le_len(vs.drop_last(), n);
        lemma_le_len(vs.last() as nat, n);
        assert((vs.len() - 1) * n + n == vs.len() * n) by (nonlinear_arith);
    }
}

/// An object's bytes: `size` bytes rounded up to 16, zeroed but for its header, a reference
/// count of 1 and its type.
pub open spec fn object_bytes(size: nat, ty: u64) -> Seq<u8> {
    write(write(zeros(pad16(size)), 0, word(1)), 8, word(ty))
}

/// A float object: its value's IEEE 754 bits at 16.
pub open spec fn float_bytes(bits: u64, ty: u64) -> Seq<u8> {
    write(object_bytes(24, ty), 16, word(bits))
}

/// An int object with these 30-bit digits: its signed digit count at 16, the digits from 24.
pub open spec fn digits_bytes(digits: Seq<u64>, size: i64, room: nat, ty: u64) -> Seq<u8> {
    write(write(object_bytes(24 + 4 * room, ty), 16, signed_word(size)), 24, cat_le(digits, 4))
}

/// The 30-bit digits of a magnitude, least significant first; none for 0.
pub open spec fn digits30(m: nat) -> Seq<u64>
    decreases m,
{
    if m == 0 {
        Seq::empty()
    } else {
        seq![(m % 0x4000_0000) as u64] + digits30(m / 0x4000_0000)
    }
}

/// `|n|`.
pub open spec fn magnitude(n: i64) -> nat {
    if n >= 0 {
        n as nat
    } else {
        (-n) as nat
    }
}

/// An int, or a bool, of value `n`: as many digits as its magnitude needs, room for one at
/// least, and a digit count signed as `n` is.
pub open spec fn long_bytes(n: i64, ty: u64) -> Seq<u8> {
    let ds = digits30(magnitude(n));
    let count = ds.len() as int;
    let size = if n > 0 {
        count
    } else if n < 0 {
        -count
    } else {
        0
    };
    digits_bytes(ds, size as i64, if count > 0 { count as nat } else { 1 }, ty)
}

/// A tuple of these items: its length at 16, the item pointers from 24.
pub open spec fn tuple_bytes(items: Seq<u64>, ty: u64) -> Seq<u8> {
    write(
        write(object_bytes(24 + 8 * items.len(), ty), 16, signed_word(items.len() as i64)),
        24,
        cat_le(items, 8),
    )
}

proof fn lemma_digits30(m: nat)
    requires
        m <= u64::MAX,
    ensures
        digits30(m).len() <= 3,
        forall|i: int| 0 <= i < digits30(m).len() ==> #[trigger] digits30(m)[i] < 0x4000_0000,
{
    let m1 = m / 0x4000_0000;
    let m2 = m1 / 0x4000_0000;
    let m3 = m2 / 0x4000_0000;
    assert(m3 == 0);
    assert(digits30(m3) =~= Seq::<u64>::empty());
    reveal_with_fuel(digits30, 4);
}

/// A list object of these items, at `at`: its length at 16 and 32, and at 24 the address of
/// its item array, which follows it.
pub open spec fn list_object(items: Seq<u64>, at: u64, ty: u64) -> Seq<u8> {
    write(
        write(
            write(object_bytes(40, ty), 16, signed_word(items.len() as i64)),
            24,
            word((at + pad16(40)) as u64),
        ),
        32,
        signed_word(items.len() as i64),
    )
}

/// A list's item array: the item pointers, room for one at least.
pub open spec fn list_array(items: Seq<u64>) -> Seq<u8> {
    write(zeros(pad16(8 * if items.len() > 0 { items.len() } else { 1 })), 0, cat_le(items, 8))
}

/// The largest code point among `cs`, 0 for none.
pub open spec fn max_code(cs: Seq<char>) -> nat
    decreases cs.len(),
{
    if cs.len() == 0 {
        0
    } else {
        let rest = max_code(cs.drop_last());
        if cs.last() as nat > rest {
            cs.last() as nat
        } else {
            rest
        }
    }
}

/// The width in bytes of a str whose largest code point is `m`, and whether it is ASCII.
pub open spec fn str_width(m: nat) -> (nat, bool) {
    if m <= 0x7f {
        (1, true)
    } else if m <= 0xff {
        (1, false)
    } else if m <= 0xffff {
        (2, false)
    } else {
        (4, false)
    }
}

/// A str object of these characters, in the most compact representation they allow: its
/// length at 16, its state word at 32 (its width, compact, whether ASCII, ready), and its
/// code units from 48 (ASCII) or 72, with a terminating zero unit.
pub open spec fn str_bytes(cs: Seq<char>, ty: u64) -> Seq<u8> {
    let (kind, ascii) = str_width(max_code(cs));
    let data: nat = if ascii { 48 } else { 72 };
    let state: nat = kind * 4 + 32 + (if ascii { 64nat } else { 0nat }) + 128;
    write(
        write(
            write(object_bytes(data + cs.len() * kind + kind, ty), 16, word(cs.len() as u64)),
            32,
            le(state, 4),
        ),
        data as int,
        cat_le(cs.map_values(|c: char| c as u64), kind),
    )
}

/// The slots of a dict's key table for `n` entries, and their log2: from `size`, doubled
/// until two thirds of the slots hold the entries.
pub open spec fn table_for(size: nat, log2: nat, n: nat) -> (nat, nat)
    decreases (if size <= 4 * n + 16 {
        4 * n + 16 - size
    } else {
        0
    }),
{
    if 0 < size && size * 2 / 3 < n {
        proof {
            assert(size * 2 <= 4 * n + 16);
        }
        table_for(size * 2, log2 + 1, n)
    } else {
        (size, log2)
    }
}

/// A dict's entries as the words its key table holds: a zero hash, the key, and the value, or
/// zero for a deleted slot.
pub open spec fn entry_words(entries: Seq<(u64, u64)>) -> Seq<u64>
    decreases entries.len(),
{
    if entries.len() == 0 {
        Seq::empty()
    } else {
        let (k, v) = entries.last();
        entry_words(entries.drop_last()) + seq![0, k, if k == 0 { 0 } else { v }]
    }
}

/// How many entries are live: have a key.
pub open spec fn live_count(entries: Seq<(u64, u64)>) -> nat
    decreases entries.len(),
{
    if entries.len() == 0 {
        0
    } else {
        live_count(entries.drop_last()) + if entries.last().0 != 0 {
            1nat
        } else {
            0nat
        }
    }
}

/// A dict's key table in the runtime's shape: its header, then its index table zeroed, then
/// its entries.
pub open spec fn keys_table(entries: Seq<(u64, u64)>, shape: DictKeys) -> Seq<u8> {
    let n = entries.len();
    let (size, log2) = table_for(8, 3, n);
    let usable = (size * 2 / 3 - n) as u64;
    let words = cat_le(entry_words(entries), 8);
    match shape {
        DictKeys::Sized => {
            let first = 40 + size;
            write(
                write(
                    write(
                        write(write(zeros(pad16(first + 24 * n)), 0, word(1)), 8, word(size as u64)),
                        24,
                        word(usable),
                    ),
                    32,
                    word(n as u64),
                ),
                first as int,
                words,
            )
        },
        DictKeys::Logged => {
            let first = 32 + size;
            write(
                write(
                    write(
                        write(
                            write(zeros(pad16(first + 24 * n)), 0, word(1)),
                            8,
                            seq![log2 as u8, log2 as u8, 0u8],
                        ),
                        16,
                        word(usable),
                    ),
                    24,
                    word(n as u64),
                ),
                first as int,
                words,
            )
        },
    }
}

/// A dict object: its live entry count at 16, its key table's address at 32.
pub open spec fn dict_object(entries: Seq<(u64, u64)>, keys: u64, ty: u64) -> Seq<u8> {
    write(
        write(object_bytes(48, ty), 16, signed_word(live_count(entries) as i64)),
        32,
        word(keys),
    )
}

proof fn lemma_entry_words_len(entries: Seq<(u64, u64)>)
    ensures
        entry_words(entries).len() == 3 * entries.len(),
    decreases entries.len(),
{
    if entries.len() > 0 {
        lemma_entry_words_len(entries.drop_last());
    }
}

/// A type object in the image: its reference count, and at 24 its name, which follows it as
/// a zero-terminated string; then its instance sizes. Its type is written once `type` exists.
pub open spec fn image_type_bytes(name: Seq<u8>, at: u64, basic: u64, item: u64) -> Seq<u8> {
    write(
        write(
            write(write(zeros(400), 0, word(1000)), 24, word((at + 400) as u64)),
            32,
            word(basic),
        ),
        40,
        word(item),
    ) + write(zeros(pad16(name.len() + 1)), 0, name)
}

/// A type object in the heap, for instances of a type the decoder does not know: its
/// reference count, its type `type`, and at 24 its name, which follows it.
pub open spec fn heap_type_bytes(name: Seq<u8>, at: u64, type_type: u64) -> Seq<u8> {
    write(
        write(write(zeros(400), 0, word(3)), 8, word(type_type)),
        24,
        word((at + 400) as u64),
    ) + write(zeros(pad16(name.len() + 1)), 0, name)
}

/// The first type made for instances named `name`.
pub open spec fn known_type(types: Seq<(Seq<char>, u64)>, name: Seq<char>) -> Option<u64>
    decreases types.len(),
{
    if types.len() == 0 {
        None
    } else {
        match known_type(types.drop_last(), name) {
            Some(t) => Some(t),
            None => if types.last().0 == name {
                Some(types.last().1)
            } else {
                None
            },
        }
    }
}

/// The instance size this builder gives each builtin type, and `type`'s.
pub open spec fn spec_size(b: Builtin) -> (u64, u64) {
    match b {
        Builtin::Dict => (48, 0),
        Builtin::List => (40, 0),
        Builtin::Tuple => (24, 8),
        Builtin::Str => (80, 0),
        Builtin::Int => (24, 4),
        Builtin::Float => (24, 0),
        Builtin::Bool => (32, 4),
        Builtin::NoneType => (16, 0),
    }
}

/// The instance size of `type` itself.
pub const TYPE_SIZE: (u64, u64) = (880, 40);

/// Where each builtin's type object goes among the builder's types: in [`Builtin::all`]'s
/// order.
pub open spec fn type_slot(b: Builtin) -> int {
    match b {
        Builtin::Dict => 0,
        Builtin::List => 1,
        Builtin::Tuple => 2,
        Builtin::Str => 3,
        Builtin::Int => 4,
        Builtin::Float => 5,
        Builtin::Bool => 6,
        Builtin::NoneType => 7,
    }
}

fn slot(b: Builtin) -> (r: usize)
    ensures
        r == type_slot(b),
{
    match b {
        Builtin::Dict => 0,
        Builtin::List => 1,
        Builtin::Tuple => 2,
        Builtin::Str => 3,
        Builtin::Int => 4,
        Builtin::Float => 5,
        Builtin::Bool => 6,
        Builtin::NoneType => 7,
    }
}

/// `size` zero bytes appended.
fn grow(v: &mut Vec<u8>, size: usize)
    ensures
        final(v)@ == old(v)@ + zeros(size as nat),
{
    let ghost start = v@;
    let mut i: usize = 0;
    while i < size
        invariant
            i <= size,
            v@ == start + zeros(i as nat),
        decreases size - i,
    {
        v.push(0);
        i += 1;
        assert(v@ =~= start + zeros(i as nat));
    }
}

/// `bytes` written over `v` from `i` on.
fn overwrite(v: &mut Vec<u8>, i: usize, bytes: &[u8])
    requires
        i + bytes@.len() <= old(v)@.len(),
    ensures
        final(v)@ == write(old(v)@, i as int, bytes@),
{
    let ghost start = v@;
    let n = bytes.len();
    let len = v.len();
    let mut k: usize = 0;
    while k < n
        invariant
            n == bytes@.len(),
            len == start.len(),
            i + n <= start.len(),
            v@.len() == start.len(),
            k <= n,
            v@ == write(start, i as int, bytes@.subrange(0, k as int)),
        decreases n - k,
    {
        v.set(i + k, bytes[k]);
        k += 1;
        assert(v@ =~= write(start, i as int, bytes@.subrange(0, k as int)));
    }
    assert(bytes@.subrange(0, n as int) =~= bytes@);
}

/// The code points of a text, and the largest of them.
fn char_codes(s: &str) -> (r: (Vec<u64>, u64))
    ensures
        r.0@ == s@.map_values(|c: char| c as u64),
        r.1 == max_code(s@),
{
    let n = s.unicode_len();
    let mut codes: Vec<u64> = Vec::new();
    let mut max: u64 = 0;
    let mut i: usize = 0;
    while i < n
        invariant
            n == s@.len(),
            i <= n,
            codes@ == s@.take(i as int).map_values(|c: char| c as u64),
            max == max_code(s@.take(i as int)),
        decreases n - i,
    {
        let c = s.get_char(i) as u32 as u64;
        assert(s@.take(i + 1).drop_last() =~= s@.take(i as int));
        if c > max {
            max = c;
        }
        codes.push(c);
        i += 1;
        assert(codes@ =~= s@.take(i as int).map_values(|c: char| c as u64));
    }
    assert(s@.take(n as int) =~= s@);
    (codes, max)
}

/// The slots of a key table for `n` entries, and their log2.
fn table_geometry(n: usize) -> (r: (u64, u8))
    requires
        n <= ROOM,
    ensures
        (r.0 as nat, r.1 as nat) == table_for(8, 3, n as nat),
        8 <= r.0 <= 4 * n + 16,
        r.0 * 2 / 3 >= n,
{
    let mut size: u64 = 8;
    let mut log2: u8 = 3;
    proof {
        reveal_with_fuel(pow2, 4);
        lemma_pow2_values();
    }
    while size * 2 / 3 < n as u64
        invariant
            n <= ROOM,
            8 <= size <= 4 * n + 16,
            size == pow2(log2 as nat),
            log2 <= 33,
            pow2(33) == 0x2_0000_0000,
            table_for(size as nat, log2 as nat, n as nat) == table_for(8, 3, n as nat),
        decreases 4 * n + 16 - size,
    {
        if log2 >= 33 {
            proof {
                lemma_pow2_mono(33, log2 as nat);
            }
        }
        size = size * 2;
        log2 = log2 + 1;
    }
    (size, log2)
}

/// The words a key table holds for these entries.
fn entry_words_of(entries: &[(u64, u64)]) -> (r: Vec<u64>)
    ensures
        r@ == entry_words(entries@),
{
    let n = entries.len();
    let mut words: Vec<u64> = Vec::new();
    let mut i: usize = 0;
    while i < n
        invariant
            n == entries@.len(),
            i <= n,
            words@ == entry_words(entries@.take(i as int)),
        decreases n - i,
    {
        let (k, v) = entries[i];
        assert(entries@.take(i + 1).drop_last() =~= entries@.take(i as int));
        words.push(0);
        words.push(k);
        words.push(
            if k == 0 {
                0
            } else {
                v
            },
        );
        i += 1;
        assert(words@ =~= entry_words(entries@.take(i as int)));
    }
    assert(entries@.take(n as int) =~= entries@);
    words
}

/// The instance size of each builtin type.
fn size(b: Builtin) -> (r: (u64, u64))
    ensures
        r == spec_size(b),
{
    match b {
        Builtin::Dict => (48, 0),
        Builtin::List => (40, 0),
        Builtin::Tuple => (24, 8),
        Builtin::Str => (80, 0),
        Builtin::Int => (24, 4),
        Builtin::Float => (24, 0),
        Builtin::Bool => (32, 4),
        Builtin::NoneType => (16, 0),
    }
}

/// A builtin type's name, which is ASCII.
fn builtin_label(b: Builtin) -> (r: &'static str)
    ensures
        r@ == super::cpython::builtin_name(b),
        r.spec_bytes().len() <= 8,
{
    let r = b.name();
    proof {
        reveal_strlit("dict");
        reveal_strlit("list");
        reveal_strlit("tuple");
        reveal_strlit("str");
        reveal_strlit("int");
        reveal_strlit("float");
        reveal_strlit("bool");
        reveal_strlit("NoneType");
        assert(vstd::string::is_ascii(r));
    }
    r
}

/// Where `type`'s type object is.
pub open spec fn type_type_address() -> u64 {
    (IMAGE_BASE + 4096) as u64
}

/// Where the `j`-th builtin's type object is, in [`super::cpython::all_builtins`]' order.
pub open spec fn type_address(j: int) -> u64 {
    (IMAGE_BASE + 4096 + 416 * (j + 1)) as u64
}

/// The builtins' type objects, in [`super::cpython::all_builtins`]' order.
pub open spec fn type_addresses() -> Seq<u64> {
    Seq::new(8, |j: int| type_address(j))
}

/// The image of the type objects before their types are linked: a zeroed page, `type`'s
/// object and name, then the first `n` builtins', each after the one before.
pub open spec fn types_image(n: nat) -> Seq<u8>
    decreases n,
{
    if n == 0 {
        zeros(4096) + image_type_bytes(
            vstd::utf8::encode_utf8("type"@),
            type_type_address(),
            TYPE_SIZE.0,
            TYPE_SIZE.1,
        )
    } else {
        let b = super::cpython::all_builtins()[n - 1];
        types_image((n - 1) as nat) + image_type_bytes(
            vstd::utf8::encode_utf8(super::cpython::builtin_name(b)),
            type_address(n - 1),
            spec_size(b).0,
            spec_size(b).1,
        )
    }
}

/// Where the `None` object is: right after the type objects.
pub open spec fn none_address() -> u64 {
    (IMAGE_BASE + 4096 + 416 * 9) as u64
}

/// The entries of the `dict` type's attribute dict: `__doc__`, whose str is the heap's first
/// object, to `None`.
pub open spec fn type_attrs() -> Seq<(u64, u64)> {
    seq![((HEAP_BASE + 64) as u64, none_address())]
}

/// The heap a new builder holds: a zeroed start, the str `__doc__`, then the `dict` type's
/// attribute dict, its key table first.
#[verifier::opaque]
pub open spec fn initial_heap(keys: DictKeys) -> Seq<u8> {
    let h = zeros(64) + str_bytes("__doc__"@, type_address(3));
    h + keys_table(type_attrs(), keys) + dict_object(
        type_attrs(),
        (HEAP_BASE + h.len()) as u64,
        type_address(0),
    )
}

/// The image a new builder holds: the type objects with their types linked to `type`, the
/// `None` object after them, and the `dict` type's `tp_dict` pointing at its attribute dict.
#[verifier::opaque]
pub open spec fn initial_image(keys: DictKeys) -> Seq<u8> {
    let linked = typed(
        types_image(8),
        seq![type_type_address()] + type_addresses(),
        type_type_address(),
    );
    let at = none_address() - IMAGE_BASE;
    let with_none = write(write(linked + zeros(16), at, word(5000)), at + 8, word(type_address(7)));
    let h = zeros(64) + str_bytes("__doc__"@, type_address(3));
    let attrs = (HEAP_BASE + h.len() + keys_table(type_attrs(), keys).len()) as u64;
    write(with_none, type_address(0) + 264 - IMAGE_BASE, word(attrs))
}

/// `image` with the type field of each of `objects`, image addresses, set to `ty`, one object
/// after another.
pub open spec fn typed(image: Seq<u8>, objects: Seq<u64>, ty: u64) -> Seq<u8>
    decreases objects.len(),
{
    if objects.len() == 0 {
        image
    } else {
        write(typed(image, objects.drop_last(), ty), objects.last() - IMAGE_BASE + 8, word(ty))
    }
}

/// Builds a synthetic runtime: its type objects in an image region, its objects in a heap.
pub struct Builder {
    keys: DictKeys,
    image: Vec<u8>,
    heap: Vec<u8>,
    type_type: u64,
    types: Vec<u64>,
    none: u64,
    heap_types: Vec<(String, u64)>,
}

impl Builder {
    pub closed spec fn spec_keys(&self) -> DictKeys {
        self.keys
    }

    /// The image region's bytes, from [`IMAGE_BASE`] on.
    pub closed spec fn spec_image(&self) -> Seq<u8> {
        self.image@
    }

    /// The heap region's bytes, from [`HEAP_BASE`] on.
    pub closed spec fn spec_heap(&self) -> Seq<u8> {
        self.heap@
    }

    pub closed spec fn spec_type_type(&self) -> u64 {
        self.type_type
    }

    /// The builtin types' objects, in [`Builtin::all`]'s order.
    pub closed spec fn spec_types(&self) -> Seq<u64> {
        self.types@
    }

    pub open spec fn spec_ty(&self, b: Builtin) -> u64 {
        self.spec_types()[type_slot(b)]
    }

    pub closed spec fn spec_none(&self) -> u64 {
        self.none
    }

    /// The types made for [`Builder::foreign`] instances, by name.
    pub closed spec fn spec_heap_types(&self) -> Seq<(Seq<char>, u64)> {
        self.heap_types@.map_values(|t: (String, u64)| (t.0@, t.1))
    }

    /// Both regions within [`ROOM`], and a type object for each builtin.
    pub closed spec fn wf(&self) -> bool {
        &&& self.types@.len() == 8
        &&& self.image@.len() <= ROOM
        &&& self.heap@.len() <= ROOM
    }

    /// The same builder but for its image region.
    pub open spec fn same_but_image(&self, other: &Builder) -> bool {
        &&& self.spec_keys() == other.spec_keys()
        &&& self.spec_heap() == other.spec_heap()
        &&& self.spec_type_type() == other.spec_type_type()
        &&& self.spec_types() == other.spec_types()
        &&& self.spec_none() == other.spec_none()
        &&& self.spec_heap_types() == other.spec_heap_types()
    }

    /// The same builder but for its heap region.
    pub open spec fn same_but_heap(&self, other: &Builder) -> bool {
        &&& self.spec_keys() == other.spec_keys()
        &&& self.spec_image() == other.spec_image()
        &&& self.spec_type_type() == other.spec_type_type()
        &&& self.spec_types() == other.spec_types()
        &&& self.spec_none() == other.spec_none()
        &&& self.spec_heap_types() == other.spec_heap_types()
    }

    /// The `type` type object.
    pub fn type_type(&self) -> (r: u64)
        ensures
            r == self.spec_type_type(),
    {
        self.type_type
    }

    /// A builtin's type object.
    pub fn ty(&self, b: Builtin) -> (r: u64)
        requires
            self.wf(),
        ensures
            r == self.spec_ty(b),
    {
        self.types[slot(b)]
    }

    /// The `None` object.
    pub fn none(&self) -> (r: u64)
        ensures
            r == self.spec_none(),
    {
        self.none
    }

    /// `n` bytes at the end of the image, rounded up to 16, zeroed.
    fn alloc_image(&mut self, n: usize) -> (r: u64)
        requires
            old(self).wf(),
            old(self).spec_image().len() + pad16(n as nat) <= ROOM,
        ensures
            final(self).wf(),
            final(self).same_but_image(old(self)),
            r == IMAGE_BASE + old(self).spec_image().len(),
            final(self).spec_image() == old(self).spec_image() + zeros(pad16(n as nat)),
    {
        proof {
            lemma_pad16(n as nat);
        }
        let at = IMAGE_BASE + self.image.len() as u64;
        let size = (n + 15) / 16 * 16;
        grow(&mut self.image, size);
        at
    }

    /// `n` bytes at the end of the heap, rounded up to 16, zeroed.
    fn alloc_heap(&mut self, n: usize) -> (r: u64)
        requires
            old(self).wf(),
            old(self).spec_heap().len() + pad16(n as nat) <= ROOM,
        ensures
            final(self).wf(),
            final(self).same_but_heap(old(self)),
            r == HEAP_BASE + old(self).spec_heap().len(),
            final(self).spec_heap() == old(self).spec_heap() + zeros(pad16(n as nat)),
    {
        proof {
            lemma_pad16(n as nat);
        }
        let at = HEAP_BASE + self.heap.len() as u64;
        let size = (n + 15) / 16 * 16;
        grow(&mut self.heap, size);
        at
    }

    /// Write bytes into the image.
    fn put_image(&mut self, at: u64, bytes: &[u8])
        requires
            old(self).wf(),
            IMAGE_BASE <= at,
            at - IMAGE_BASE + bytes@.len() <= old(self).spec_image().len(),
        ensures
            final(self).wf(),
            final(self).same_but_image(old(self)),
            final(self).spec_image() == write(
                old(self).spec_image(),
                at - IMAGE_BASE,
                bytes@,
            ),
    {
        overwrite(&mut self.image, (at - IMAGE_BASE) as usize, bytes);
    }

    /// A heap object's header: reference count 1 and its type.
    fn object(&mut self, size: usize, ty: u64) -> (r: u64)
        requires
            old(self).wf(),
            size >= 16,
            old(self).spec_heap().len() + pad16(size as nat) <= ROOM,
        ensures
            final(self).wf(),
            final(self).same_but_heap(old(self)),
            r == HEAP_BASE + old(self).spec_heap().len(),
            final(self).spec_heap() == old(self).spec_heap() + object_bytes(size as nat, ty),
            final(self).spec_heap().len() == old(self).spec_heap().len() + pad16(size as nat),
    {
        proof {
            lemma_pad16(size as nat);
            lemma_le_len(1, 8);
            lemma_le_len(ty as nat, 8);
        }
        let ghost start = self.heap@;
        let at = self.alloc_heap(size);
        let ghost z = zeros(pad16(size as nat));
        self.put_u64(at, 1);
        proof {
            lemma_write_append(start, z, 0, word(1));
        }
        self.put_u64(at + 8, ty);
        proof {
            lemma_write_append(start, write(z, 0, word(1)), 8, word(ty));
        }
        at
    }

    /// A float whose IEEE 754 double has these bits.
    pub fn float_bits(&mut self, bits: u64) -> (r: u64)
        requires
            old(self).wf(),
            old(self).spec_heap().len() + 32 <= ROOM,
        ensures
            final(self).wf(),
            final(self).same_but_heap(old(self)),
            r == HEAP_BASE + old(self).spec_heap().len(),
            final(self).spec_heap() == old(self).spec_heap() + float_bytes(
                bits,
                old(self).spec_ty(Builtin::Float),
            ),
            final(self).spec_heap().len() == old(self).spec_heap().len() + 32,
    {
        let ghost start = self.heap@;
        let ty = self.ty(Builtin::Float);
        proof {
            lemma_le_len(bits as nat, 8);
            assert(pad16(24) == 32);
        }
        let at = self.object(24, ty);
        self.put_u64(at + 16, bits);
        proof {
            lemma_write_append(start, object_bytes(24, ty), 16, word(bits));
        }
        at
    }

    /// Words written one after another from `at` on: `n` bytes of each item.
    fn put_words(&mut self, at: u64, items: &[u64], n: usize)
        requires
            old(self).wf(),
            1 <= n <= 8,
            HEAP_BASE <= at,
            at - HEAP_BASE + items@.len() * n <= old(self).spec_heap().len(),
        ensures
            final(self).wf(),
            final(self).same_but_heap(old(self)),
            final(self).spec_heap() == write(
                old(self).spec_heap(),
                at - HEAP_BASE,
                cat_le(items@, n as nat),
            ),
    {
        let ghost start = self.heap@;
        let ghost off = at - HEAP_BASE;
        let len = items.len();
        let mut i: usize = 0;
        assert(items@.take(0) =~= Seq::<u64>::empty());
        assert(write(start, off, Seq::<u8>::empty()) =~= start);
        while i < len
            invariant
                self.wf(),
                self.same_but_heap(old(self)),
                1 <= n <= 8,
                len == items@.len(),
                i <= len,
                HEAP_BASE <= at,
                off == at - HEAP_BASE,
                off + len * n <= start.len(),
                start.len() <= ROOM,
                self.spec_heap() == write(start, off, cat_le(items@.take(i as int), n as nat)),
            decreases len - i,
        {
            proof {
                lemma_cat_le_len(items@.take(i as int), n as nat);
                lemma_le_len(items@[i as int] as nat, n as nat);
                assert(i * n + n <= len * n) by (nonlinear_arith)
                    requires
                        i < len,
                ;
            }
            let b = le_bytes(items[i], n);
            let ghost before = self.spec_heap();
            self.put(at + (i * n) as u64, b.as_slice());
            proof {
                let c = cat_le(items@.take(i as int), n as nat);
                lemma_write_seq(start, off, c, b@);
                assert(items@.take(i + 1).drop_last() =~= items@.take(i as int));
            }
            i += 1;
        }
        assert(items@.take(len as int) =~= items@);
    }

    /// A tuple of these items.
    pub fn tuple(&mut self, items: &[u64]) -> (r: u64)
        requires
            old(self).wf(),
            old(self).spec_heap().len() + pad16(24 + 8 * items@.len()) <= ROOM,
        ensures
            final(self).wf(),
            final(self).same_but_heap(old(self)),
            r == HEAP_BASE + old(self).spec_heap().len(),
            final(self).spec_heap() == old(self).spec_heap() + tuple_bytes(
                items@,
                old(self).spec_ty(Builtin::Tuple),
            ),
            final(self).spec_heap().len() == old(self).spec_heap().len() + pad16(
                24 + 8 * items@.len(),
            ),
    {
        let ghost start = self.heap@;
        let ty = self.ty(Builtin::Tuple);
        let len = items.len();
        proof {
            lemma_pad16((24 + 8 * len) as nat);
        }
        let at = self.object(24 + 8 * len, ty);
        let size = signed_bytes(len as i64);
        let ghost ob = object_bytes((24 + 8 * len) as nat, ty);
        proof {
            lemma_le_len(len as nat, 8);
            lemma_cat_le_len(items@, 8);
        }
        self.put(at + 16, size.as_slice());
        proof {
            lemma_write_append(start, ob, 16, signed_word(len as i64));
        }
        let ghost x = write(ob, 16, signed_word(len as i64));
        self.put_words(at + 24, items, 8);
        proof {
            lemma_write_append(start, x, 24, cat_le(items@, 8));
        }
        at
    }

    /// An int object of `room` digits' size with these digits and this signed digit count.
    fn digits_object(&mut self, digits: &Vec<u64>, size: i64, room: usize, ty: u64) -> (r: u64)
        requires
            old(self).wf(),
            digits@.len() <= room,
            old(self).spec_heap().len() + pad16(24 + 4 * room as nat) <= ROOM,
        ensures
            final(self).wf(),
            final(self).same_but_heap(old(self)),
            r == HEAP_BASE + old(self).spec_heap().len(),
            final(self).spec_heap() == old(self).spec_heap() + digits_bytes(
                digits@,
                size,
                room as nat,
                ty,
            ),
            final(self).spec_heap().len() == old(self).spec_heap().len() + pad16(
                24 + 4 * room as nat,
            ),
    {
        let ghost start = self.heap@;
        proof {
            lemma_pad16((24 + 4 * room) as nat);
            lemma_le_len(size as nat, 8);
            lemma_cat_le_len(digits@, 4);
        }
        let at = self.object(24 + 4 * room, ty);
        let ghost ob = object_bytes((24 + 4 * room) as nat, ty);
        let sb = signed_bytes(size);
        proof {
            if size >= 0 {
                lemma_le_len(size as nat, 8);
            } else {
                lemma_le_len((size + 0x1_0000_0000_0000_0000int) as nat, 8);
            }
        }
        self.put(at + 16, sb.as_slice());
        proof {
            lemma_write_append(start, ob, 16, signed_word(size));
        }
        let ghost x = write(ob, 16, signed_word(size));
        self.put_words(at + 24, digits.as_slice(), 4);
        proof {
            lemma_write_append(start, x, 24, cat_le(digits@, 4));
        }
        at
    }

    /// An int, or a bool, of value `n`.
    fn long(&mut self, n: i64, ty: Builtin) -> (r: u64)
        requires
            old(self).wf(),
            old(self).spec_heap().len() + 48 <= ROOM,
        ensures
            final(self).wf(),
            final(self).same_but_heap(old(self)),
            r == HEAP_BASE + old(self).spec_heap().len(),
            final(self).spec_heap() == old(self).spec_heap() + long_bytes(n, old(self).spec_ty(ty)),
            final(self).spec_heap().len() <= old(self).spec_heap().len() + 48,
    {
        let mut mag: u64 = if n >= 0 {
            n as u64
        } else {
            ((-(n + 1)) as u64) + 1
        };
        assert(mag == magnitude(n));
        proof {
            lemma_digits30(mag as nat);
        }
        let mut digits: Vec<u64> = Vec::new();
        while mag > 0
            invariant
                digits@ + digits30(mag as nat) == digits30(magnitude(n)),
                digits30(magnitude(n)).len() <= 3,
            decreases mag,
        {
            let ghost before = digits@;
            digits.push(mag % 0x4000_0000);
            assert(digits30(mag as nat) == seq![(mag % 0x4000_0000) as u64] + digits30(
                (mag / 0x4000_0000) as nat,
            ));
            assert(digits@ + digits30((mag / 0x4000_0000) as nat) =~= before + digits30(
                mag as nat,
            ));
            mag = mag / 0x4000_0000;
        }
        assert(digits@ + digits30(0) =~= digits@);
        let count = digits.len();
        let room: usize = if count > 0 {
            count
        } else {
            1
        };
        let size: i64 = if n > 0 {
            count as i64
        } else if n < 0 {
            -(count as i64)
        } else {
            0
        };
        let tyaddr = self.ty(ty);
        proof {
            assert(pad16((24 + 4 * room) as nat) <= 48);
        }
        self.digits_object(&digits, size, room, tyaddr)
    }

    /// An int object.
    pub fn integer(&mut self, n: i64) -> (r: u64)
        requires
            old(self).wf(),
            old(self).spec_heap().len() + 48 <= ROOM,
        ensures
            final(self).wf(),
            final(self).same_but_heap(old(self)),
            r == HEAP_BASE + old(self).spec_heap().len(),
            final(self).spec_heap() == old(self).spec_heap() + long_bytes(
                n,
                old(self).spec_ty(Builtin::Int),
            ),
            final(self).spec_heap().len() <= old(self).spec_heap().len() + 48,
    {
        self.long(n, Builtin::Int)
    }

    /// A bool: an int of value 0 or 1 whose type is `bool`.
    pub fn boolean(&mut self, b: bool) -> (r: u64)
        requires
            old(self).wf(),
            old(self).spec_heap().len() + 48 <= ROOM,
        ensures
            final(self).wf(),
            final(self).same_but_heap(old(self)),
            r == HEAP_BASE + old(self).spec_heap().len(),
            final(self).spec_heap() == old(self).spec_heap() + long_bytes(
                if b {
                    1
                } else {
                    0
                },
                old(self).spec_ty(Builtin::Bool),
            ),
            final(self).spec_heap().len() <= old(self).spec_heap().len() + 48,
    {
        self.long(
            if b {
                1
            } else {
                0
            },
            Builtin::Bool,
        )
    }

    /// An int with these raw 30-bit digits and sign, for values beyond 64 bits.
    pub fn int_digits(&mut self, digits: &[u32], negative: bool) -> (r: u64)
        requires
            old(self).wf(),
            old(self).spec_heap().len() + pad16(24 + 4 * digits@.len()) <= ROOM,
        ensures
            final(self).wf(),
            final(self).same_but_heap(old(self)),
            r == HEAP_BASE + old(self).spec_heap().len(),
            final(self).spec_heap() == old(self).spec_heap() + digits_bytes(
                digits@.map_values(|d: u32| d as u64),
                if negative {
                    -(digits@.len() as int)
                } else {
                    digits@.len() as int
                } as i64,
                digits@.len(),
                old(self).spec_ty(Builtin::Int),
            ),
    {
        let mut wide: Vec<u64> = Vec::new();
        let len = digits.len();
        let mut i: usize = 0;
        while i < len
            invariant
                len == digits@.len(),
                i <= len,
                wide@ == digits@.take(i as int).map_values(|d: u32| d as u64),
            decreases len - i,
        {
            wide.push(digits[i] as u64);
            i += 1;
            assert(wide@ =~= digits@.take(i as int).map_values(|d: u32| d as u64));
        }
        assert(digits@.take(len as int) =~= digits@);
        let size: i64 = if negative {
            -(len as i64)
        } else {
            len as i64
        };
        let ty = self.ty(Builtin::Int);
        self.digits_object(&wide, size, len, ty)
    }

    /// A list of these items.
    pub fn list(&mut self, items: &[u64]) -> (r: u64)
        requires
            old(self).wf(),
            old(self).spec_heap().len() + 48 + pad16(8 * items@.len() + 8) <= ROOM,
        ensures
            final(self).wf(),
            final(self).same_but_heap(old(self)),
            r == HEAP_BASE + old(self).spec_heap().len(),
            final(self).spec_heap() == old(self).spec_heap() + list_object(
                items@,
                r,
                old(self).spec_ty(Builtin::List),
            ) + list_array(items@),
            final(self).spec_heap().len() <= old(self).spec_heap().len() + 48 + pad16(
                8 * items@.len() + 8,
            ),
    {
        let ghost start = self.heap@;
        let ty = self.ty(Builtin::List);
        let len = items.len();
        let room: usize = if len > 0 {
            len
        } else {
            1
        };
        proof {
            lemma_pad16_small();
            lemma_pad16_mono((8 * room) as nat, (8 * len + 8) as nat);
            lemma_pad16(40);
            lemma_pad16((8 * room) as nat);
            lemma_pad16((8 * len + 8) as nat);
            lemma_cat_le_len(items@, 8);
            lemma_le_len(len as nat, 8);
        }
        let at = self.object(40, ty);
        let ghost ob = object_bytes(40, ty);
        let array = self.alloc_heap(8 * room);
        let ghost z = zeros(pad16((8 * room) as nat));
        assert(array == at + pad16(40));
        self.put_words(array, items, 8);
        proof {
            lemma_write_append(start + ob, z, 0, cat_le(items@, 8));
        }
        let ghost arr = write(z, 0, cat_le(items@, 8));
        let sb = signed_bytes(len as i64);
        self.put(at + 16, sb.as_slice());
        proof {
            lemma_write_mid(start, ob, arr, 16, signed_word(len as i64));
        }
        let ghost o1 = write(ob, 16, signed_word(len as i64));
        proof {
            lemma_le_len(array as nat, 8);
        }
        self.put_u64(at + 24, array);
        proof {
            lemma_write_mid(start, o1, arr, 24, word(array));
        }
        let ghost o2 = write(o1, 24, word(array));
        let sb2 = signed_bytes(len as i64);
        self.put(at + 32, sb2.as_slice());
        proof {
            lemma_write_mid(start, o2, arr, 32, signed_word(len as i64));
        }
        at
    }

    /// A str, in the most compact representation its characters allow.
    #[verifier::rlimit(30)]
    pub fn str(&mut self, s: &str) -> (r: u64)
        requires
            old(self).wf(),
            old(self).spec_heap().len() + 4 * s@.len() + 96 <= ROOM,
        ensures
            final(self).wf(),
            final(self).same_but_heap(old(self)),
            r == HEAP_BASE + old(self).spec_heap().len(),
            final(self).spec_heap() == old(self).spec_heap() + str_bytes(
                s@,
                old(self).spec_ty(Builtin::Str),
            ),
            final(self).spec_heap().len() <= old(self).spec_heap().len() + 4 * s@.len() + 96,
    {
        let ghost start = self.heap@;
        let (codes, max) = char_codes(s);
        let n = codes.len();
        let (kind, ascii): (usize, bool) = if max <= 0x7f {
            (1, true)
        } else if max <= 0xff {
            (1, false)
        } else if max <= 0xffff {
            (2, false)
        } else {
            (4, false)
        };
        let data: usize = if ascii {
            48
        } else {
            72
        };
        let ty = self.ty(Builtin::Str);
        assert(n * kind <= 4 * n) by (nonlinear_arith)
            requires
                kind <= 4,
        ;
        let size = data + n * kind + kind;
        proof {
            lemma_pad16(size as nat);
            lemma_le_len(n as nat, 8);
            lemma_cat_le_len(codes@, kind as nat);
        }
        let at = self.object(size, ty);
        let ghost ob = object_bytes(size as nat, ty);
        self.put_u64(at + 16, n as u64);
        proof {
            lemma_write_append(start, ob, 16, word(n as u64));
        }
        let ghost o1 = write(ob, 16, word(n as u64));
        let state: u64 = (kind as u64) * 4 + 32 + (if ascii {
            64
        } else {
            0
        }) + 128;
        let sb = le_bytes(state, 4);
        proof {
            lemma_le_len(state as nat, 4);
        }
        self.put(at + 32, sb.as_slice());
        proof {
            lemma_write_append(start, o1, 32, le(state as nat, 4));
        }
        let ghost o2 = write(o1, 32, le(state as nat, 4));
        self.put_words(at + data as u64, codes.as_slice(), kind);
        proof {
            lemma_write_append(start, o2, data as int, cat_le(codes@, kind as nat));
        }
        at
    }

    /// A dict's key table for these entries, in the runtime's shape.
    #[verifier::rlimit(80)]
    fn keys_table(&mut self, entries: &[(u64, u64)]) -> (r: u64)
        requires
            old(self).wf(),
            old(self).spec_heap().len() + 32 * entries@.len() + 160 <= ROOM,
        ensures
            final(self).wf(),
            final(self).same_but_heap(old(self)),
            r == HEAP_BASE + old(self).spec_heap().len(),
            final(self).spec_heap() == old(self).spec_heap() + keys_table(
                entries@,
                old(self).spec_keys(),
            ),
            final(self).spec_heap().len() <= old(self).spec_heap().len() + 28 * entries@.len()
                + 72,
    {
        let ghost start = self.heap@;
        let n = entries.len();
        let (size, log2) = table_geometry(n);
        let usable: u64 = size * 2 / 3 - n as u64;
        let words = entry_words_of(entries);
        proof {
            lemma_cat_le_len(words@, 8);
            lemma_entry_words_len(entries@);
            lemma_le_len(1, 8);
            lemma_le_len(size as nat, 8);
            lemma_le_len(usable as nat, 8);
            lemma_le_len(n as nat, 8);
        }
        let first: u64 = match self.keys {
            DictKeys::Sized => 40 + size,
            DictKeys::Logged => 32 + size,
        };
        let total = first as usize + 24 * n;
        proof {
            lemma_pad16(total as nat);
        }
        let at = self.alloc_heap(total);
        let ghost z = zeros(pad16(total as nat));
        self.put_u64(at, 1);
        proof {
            lemma_write_append(start, z, 0, word(1));
        }
        let ghost t1 = write(z, 0, word(1));
        let ghost t4;
        match self.keys {
            DictKeys::Sized => {
                self.put_u64(at + 8, size);
                proof {
                    lemma_write_append(start, t1, 8, word(size));
                }
                let ghost t2 = write(t1, 8, word(size));
                self.put_u64(at + 24, usable);
                proof {
                    lemma_write_append(start, t2, 24, word(usable));
                }
                let ghost t3 = write(t2, 24, word(usable));
                self.put_u64(at + 32, n as u64);
                proof {
                    lemma_write_append(start, t3, 32, word(n as u64));
                    t4 = write(t3, 32, word(n as u64));
                }
            },
            DictKeys::Logged => {
                let header: Vec<u8> = vec![log2, log2, 0];
                assert(header@ == seq![log2 as u8, log2 as u8, 0u8]);
                self.put(at + 8, header.as_slice());
                proof {
                    lemma_write_append(start, t1, 8, header@);
                }
                let ghost t2 = write(t1, 8, header@);
                self.put_u64(at + 16, usable);
                proof {
                    lemma_write_append(start, t2, 16, word(usable));
                }
                let ghost t3 = write(t2, 16, word(usable));
                self.put_u64(at + 24, n as u64);
                proof {
                    lemma_write_append(start, t3, 24, word(n as u64));
                    t4 = write(t3, 24, word(n as u64));
                }
            },
        }
        self.put_words(at + first, words.as_slice(), 8);
        proof {
            lemma_write_append(start, t4, first as int, cat_le(words@, 8));
        }
        at
    }

    /// A dict of these entries, in this order. An entry with a zero key is a deleted slot.
    pub fn dict(&mut self, entries: &[(u64, u64)]) -> (r: u64)
        requires
            old(self).wf(),
            old(self).spec_heap().len() + 32 * entries@.len() + 208 <= ROOM,
        ensures
            final(self).wf(),
            final(self).same_but_heap(old(self)),
            r == HEAP_BASE + old(self).spec_heap().len() + keys_table(
                entries@,
                old(self).spec_keys(),
            ).len(),
            final(self).spec_heap() == old(self).spec_heap() + keys_table(
                entries@,
                old(self).spec_keys(),
            ) + dict_object(
                entries@,
                (HEAP_BASE + old(self).spec_heap().len()) as u64,
                old(self).spec_ty(Builtin::Dict),
            ),
            final(self).spec_heap().len() <= old(self).spec_heap().len() + 28 * entries@.len()
                + 120,
    {
        let n = entries.len();
        let mut live: usize = 0;
        let mut i: usize = 0;
        while i < n
            invariant
                n == entries@.len(),
                i <= n,
                live == live_count(entries@.take(i as int)),
                live <= i,
            decreases n - i,
        {
            assert(entries@.take(i + 1).drop_last() =~= entries@.take(i as int));
            if entries[i].0 != 0 {
                live += 1;
            }
            i += 1;
        }
        assert(entries@.take(n as int) =~= entries@);
        let ty = self.ty(Builtin::Dict);
        let keys = self.keys_table(entries);
        let ghost start = self.heap@;
        proof {
            lemma_pad16_small();
            lemma_le_len(keys as nat, 8);
            lemma_le_len(live as nat, 8);
        }
        let at = self.object(48, ty);
        let ghost ob = object_bytes(48, ty);
        let sb = signed_bytes(live as i64);
        self.put(at + 16, sb.as_slice());
        proof {
            lemma_write_append(start, ob, 16, signed_word(live as i64));
        }
        let ghost o1 = write(ob, 16, signed_word(live as i64));
        self.put_u64(at + 32, keys);
        proof {
            lemma_write_append(start, o1, 32, word(keys));
        }
        at
    }

    /// A type object in the image; its type is written once `type` exists.
    fn type_object(&mut self, name: &str, sizes: (u64, u64)) -> (r: u64)
        requires
            old(self).wf(),
            name.spec_bytes().len() <= 8,
            old(self).spec_image().len() + 416 <= ROOM,
        ensures
            final(self).wf(),
            final(self).same_but_image(old(self)),
            r == IMAGE_BASE + old(self).spec_image().len(),
            final(self).spec_image() == old(self).spec_image() + image_type_bytes(
                name.spec_bytes(),
                r,
                sizes.0,
                sizes.1,
            ),
            final(self).spec_image().len() == old(self).spec_image().len() + 416,
    {
        let (basic, item) = sizes;
        let ghost start = self.image@;
        let bytes = name.as_bytes();
        let len = name.len();
        proof {
            lemma_pad16_small();
            lemma_pad16((len + 1) as nat);
            lemma_pad16_mono((len + 1) as nat, 16);
            lemma_le_len(1000, 8);
            lemma_le_len(basic as nat, 8);
            lemma_le_len(item as nat, 8);
        }
        let at = self.alloc_image(400);
        let name_at = self.alloc_image(len + 1);
        let ghost z = zeros(400);
        let ghost zn = zeros(pad16((len + 1) as nat));
        proof {
            lemma_le_len(name_at as nat, 8);
        }
        self.put_image(name_at, bytes);
        proof {
            lemma_write_append(start + z, zn, 0, bytes@);
        }
        let ghost nb = write(zn, 0, bytes@);
        self.put_u64(at, 1000);
        proof {
            lemma_write_mid(start, z, nb, 0, word(1000));
        }
        let ghost t1 = write(z, 0, word(1000));
        self.put_u64(at + 24, name_at);
        proof {
            lemma_write_mid(start, t1, nb, 24, word(name_at));
        }
        let ghost t2 = write(t1, 24, word(name_at));
        self.put_u64(at + 32, basic);
        proof {
            lemma_write_mid(start, t2, nb, 32, word(basic));
        }
        let ghost t3 = write(t2, 32, word(basic));
        self.put_u64(at + 40, item);
        proof {
            lemma_write_mid(start, t3, nb, 40, word(item));
        }
        at
    }

    /// An instance of a type the decoder does not know, named `name`. The type is made once
    /// per name, in the heap, before the first instance.
    pub fn foreign(&mut self, name: &str) -> (r: u64)
        requires
            old(self).wf(),
            old(self).spec_heap().len() + name.spec_bytes().len() + 448 <= ROOM,
        ensures
            final(self).wf(),
            final(self).spec_keys() == old(self).spec_keys(),
            final(self).spec_image() == old(self).spec_image(),
            final(self).spec_type_type() == old(self).spec_type_type(),
            final(self).spec_types() == old(self).spec_types(),
            final(self).spec_none() == old(self).spec_none(),
            match known_type(old(self).spec_heap_types(), name@) {
                Some(t) => {
                    &&& final(self).spec_heap() == old(self).spec_heap() + object_bytes(16, t)
                    &&& final(self).spec_heap_types() == old(self).spec_heap_types()
                    &&& r == HEAP_BASE + old(self).spec_heap().len()
                },
                None => {
                    let t = (HEAP_BASE + old(self).spec_heap().len()) as u64;
                    let made = heap_type_bytes(name.spec_bytes(), t, old(self).spec_type_type());
                    &&& final(self).spec_heap() == old(self).spec_heap() + made + object_bytes(
                        16,
                        t,
                    )
                    &&& final(self).spec_heap_types() == old(self).spec_heap_types().push(
                        (name@, t),
                    )
                    &&& r == t + made.len()
                },
            },
    {
        let n = self.heap_types.len();
        let mut found: Option<u64> = None;
        let mut i: usize = 0;
        while i < n
            invariant
                n == self.heap_types@.len(),
                i <= n,
                found == known_type(self.spec_heap_types().take(i as int), name@),
            decreases n - i,
        {
            assert(self.spec_heap_types().take(i + 1).drop_last() =~= self.spec_heap_types().take(
                i as int,
            ));
            if found.is_none() && same_text(self.heap_types[i].0.as_str(), name) {
                found = Some(self.heap_types[i].1);
            }
            i += 1;
        }
        assert(self.spec_heap_types().take(n as int) =~= self.spec_heap_types());
        proof {
            lemma_pad16_small();
        }
        let ty = match found {
            Some(t) => t,
            None => {
                let ghost start = self.heap@;
                let ghost types = self.spec_heap_types();
                let bytes = name.as_bytes();
                let len = name.len();
                proof {
                    lemma_pad16((len + 1) as nat);
                    lemma_le_len(3, 8);
                    lemma_le_len(self.type_type as nat, 8);
                }
                let t = self.alloc_heap(400);
                let nm = self.alloc_heap(len + 1);
                let ghost z = zeros(400);
                let ghost zn = zeros(pad16((len + 1) as nat));
                proof {
                    lemma_le_len(nm as nat, 8);
                }
                self.put(nm, bytes);
                proof {
                    lemma_write_append(start + z, zn, 0, bytes@);
                }
                let ghost nb = write(zn, 0, bytes@);
                self.put_u64(t, 3);
                proof {
                    lemma_write_mid(start, z, nb, 0, word(3));
                }
                let ghost t1 = write(z, 0, word(3));
                let tt = self.type_type;
                self.put_u64(t + 8, tt);
                proof {
                    lemma_write_mid(start, t1, nb, 8, word(tt));
                }
                let ghost t2 = write(t1, 8, word(tt));
                self.put_u64(t + 24, nm);
                proof {
                    lemma_write_mid(start, t2, nb, 24, word(nm));
                }
                self.heap_types.push((name.to_owned(), t));
                assert(self.spec_heap_types() =~= types.push((name@, t)));
                t
            },
        };
        self.object(16, ty)
    }

    /// The type objects: `type`'s, then each builtin's, in [`Builtin::all`]'s order.
    fn with_types(keys: DictKeys) -> (b: Builder)
        ensures
            b.wf(),
            b.spec_keys() == keys,
            b.spec_heap_types() == Seq::<(Seq<char>, u64)>::empty(),
            b.spec_heap().len() == 64,
            b.spec_heap() == zeros(64),
            b.spec_image().len() == 4096 + 416 * 9,
            b.spec_image() == types_image(8),
            b.spec_type_type() == IMAGE_BASE + 4096,
            b.spec_types() == type_addresses(),
            forall|j: int|
                0 <= j < 8 ==> IMAGE_BASE <= #[trigger] b.spec_types()[j] && b.spec_types()[j]
                    - IMAGE_BASE + 416 <= b.spec_image().len(),
    {
        let mut b = Builder {
            keys,
            image: vec![0u8; 4096],
            heap: vec![0u8; 64],
            type_type: 0,
            types: vec![0u64; 8],
            none: 0,
            heap_types: Vec::new(),
        };
        assert(b.spec_heap_types() =~= Seq::<(Seq<char>, u64)>::empty());
        proof {
            reveal_strlit("type");
            assert(vstd::string::is_ascii("type"));
        }
        let type_type = b.type_object("type", TYPE_SIZE);
        b.type_type = type_type;
        assert(b.spec_image() =~= types_image(0));
        let all = Builtin::all();
        let mut i: usize = 0;
        while i < 8
            invariant
                b.wf(),
                b.spec_keys() == keys,
                b.spec_heap_types() == Seq::<(Seq<char>, u64)>::empty(),
                b.spec_heap().len() == 64,
                b.spec_heap() == zeros(64),
                b.spec_image().len() == 4096 + 416 + 416 * i,
                b.spec_image() == types_image(i as nat),
                b.spec_types().len() == 8,
                forall|j: int| 0 <= j < i ==> #[trigger] b.spec_types()[j] == type_address(j),
                b.spec_type_type() == type_type,
                type_type == IMAGE_BASE + 4096,
                all@ == super::cpython::all_builtins(),
                i <= 8,
                forall|j: int|
                    0 <= j < i ==> IMAGE_BASE <= #[trigger] b.spec_types()[j] && b.spec_types()[j]
                        - IMAGE_BASE + 416 <= b.spec_image().len(),
            decreases 8 - i,
        {
            let builtin = all[i];
            assert(type_slot(builtin) == i);
            let t = b.type_object(builtin_label(builtin), size(builtin));
            b.types.set(slot(builtin), t);
            i += 1;
        }
        assert(b.spec_types() =~= type_addresses());
        b
    }

    /// Every type object's type: `type`.
    fn link_types(&mut self)
        requires
            old(self).wf(),
            old(self).spec_type_type() == IMAGE_BASE + 4096,
            old(self).spec_image().len() == 4096 + 416 * 9,
            forall|j: int|
                0 <= j < 8 ==> IMAGE_BASE <= #[trigger] old(self).spec_types()[j] && old(
                    self,
                ).spec_types()[j] - IMAGE_BASE + 416 <= old(self).spec_image().len(),
        ensures
            final(self).wf(),
            final(self).same_but_image(old(self)),
            final(self).spec_image().len() == old(self).spec_image().len(),
            final(self).spec_image() == typed(
                old(self).spec_image(),
                seq![old(self).spec_type_type()] + old(self).spec_types(),
                old(self).spec_type_type(),
            ),
    {
        let type_type = self.type_type;
        let ghost len = self.image@.len();
        let ghost objects = seq![type_type] + self.spec_types();
        let ghost start = self.spec_image();
        proof {
            lemma_le_len(type_type as nat, 8);
        }
        let mut k: usize = 0;
        while k < 9
            invariant
                self.wf(),
                self.same_but_image(old(self)),
                self.spec_image().len() == len,
                len == 4096 + 416 * 9,
                type_type == IMAGE_BASE + 4096,
                word(type_type).len() == 8,
                k <= 9,
                forall|j: int|
                    0 <= j < 8 ==> IMAGE_BASE <= #[trigger] self.spec_types()[j]
                        && self.spec_types()[j] - IMAGE_BASE + 416 <= len,
                objects == seq![type_type] + self.spec_types(),
                start == old(self).spec_image(),
                self.spec_image() == typed(start, objects.take(k as int), type_type),
            decreases 9 - k,
        {
            let t = if k == 0 {
                type_type
            } else {
                let t = self.types[k - 1];
                assert(IMAGE_BASE <= self.spec_types()[k - 1]);
                t
            };
            assert(t == objects[k as int]);
            self.put_u64(t + 8, type_type);
            assert(objects.take(k + 1).drop_last() =~= objects.take(k as int));
            k += 1;
        }
        assert(objects.take(9) =~= objects);
    }

    /// A runtime with the builtin types, `None`, and the `dict` type's attribute dict, whose
    /// key table tells the reader which shape `keys` is.
    #[verifier::rlimit(40)]
    pub fn new(keys: DictKeys) -> (r: Builder)
        ensures
            r.wf(),
            r.spec_keys() == keys,
            r.spec_heap_types() == Seq::<(Seq<char>, u64)>::empty(),
            r.spec_image().len() <= 8192,
            r.spec_heap().len() <= 512,
            r.spec_image() == initial_image(keys),
            r.spec_heap() == initial_heap(keys),
            r.spec_type_type() == type_type_address(),
            r.spec_types() == type_addresses(),
            r.spec_none() == none_address(),
    {
        let mut b = Builder::with_types(keys);
        b.link_types();
        let ghost linked = b.spec_image();
        assert(linked == typed(
            types_image(8),
            seq![type_type_address()] + type_addresses(),
            type_type_address(),
        ));
        proof {
            lemma_pad16_small();
        }
        let none = b.alloc_image(16);
        proof {
            lemma_le_len(5000, 8);
        }
        b.put_u64(none, 5_000);
        let nt = b.ty(Builtin::NoneType);
        proof {
            lemma_le_len(nt as nat, 8);
        }
        b.put_u64(none + 8, nt);
        b.none = none;
        proof {
            reveal_strlit("__doc__");
        }
        let ghost with_none = b.spec_image();
        assert(with_none == write(
            write(linked + zeros(16), none_address() - IMAGE_BASE, word(5000)),
            none_address() - IMAGE_BASE + 8,
            word(type_address(7)),
        ));
        let doc = b.str("__doc__");
        let ghost h = b.spec_heap();
        assert(h == zeros(64) + str_bytes("__doc__"@, type_address(3)));
        let entries = vec![(doc, none)];
        assert(entries@ == type_attrs());
        let attrs = b.dict(entries.as_slice());
        assert(b.spec_heap() == initial_heap(keys)) by {
            reveal(initial_heap);
        }
        let dt = b.ty(Builtin::Dict);
        assert(b.spec_types()[0] == dt);
        proof {
            lemma_le_len(attrs as nat, 8);
        }
        b.put_u64(dt + 264, attrs);
        assert(b.spec_image() == initial_image(keys)) by {
            reveal(initial_image);
        }
        b
    }

    /// The image: the type objects' region and the heap.
    pub fn finish(self) -> (r: Result<Image, Overlap>)
        requires
            self.wf(),
        ensures
            r matches Ok(m) && m.spec_region_list() == seq![
                Region {
                    base: IMAGE_BASE,
                    size: self.spec_image().len() as u64,
                    kind: RegionKind::Image,
                    writable: true,
                },
                Region {
                    base: HEAP_BASE,
                    size: self.spec_heap().len() as u64,
                    kind: RegionKind::Private,
                    writable: true,
                },
            ] && m.spec_bytes() == seq![self.spec_image(), self.spec_heap()] && image_shape(
                m.spec_region_list(),
                m.spec_bytes(),
            ),
    {
        let ghost image = self.image@;
        let ghost heap = self.heap@;
        let mut m = Image::new();
        let ghost first = Region {
            base: IMAGE_BASE,
            size: image.len() as u64,
            kind: RegionKind::Image,
            writable: true,
        };
        let ghost second = Region {
            base: HEAP_BASE,
            size: heap.len() as u64,
            kind: RegionKind::Private,
            writable: true,
        };
        assert(Seq::<Region>::empty().insert(0, first) =~= seq![first]);
        match m.add(IMAGE_BASE, RegionKind::Image, true, self.image) {
            Ok(()) => {},
            Err(e) => return Err(e),
        }
        assert(insertion_point(seq![first], HEAP_BASE) == 1) by {
            assert(seq![first].drop_first() =~= Seq::<Region>::empty());
            reveal_with_fuel(insertion_point, 2);
        }
        assert(seq![first].insert(1, second) =~= seq![first, second]);
        assert(regions_wf(seq![first, second]));
        match m.add(HEAP_BASE, RegionKind::Private, true, self.heap) {
            Ok(()) => {},
            Err(e) => return Err(e),
        }
        assert(m.spec_bytes() =~= seq![image, heap]);
        Ok(m)
    }

    /// Write bytes at an address in either region.
    pub fn put(&mut self, at: u64, bytes: &[u8])
        requires
            old(self).wf(),
            at >= HEAP_BASE ==> at - HEAP_BASE + bytes@.len() <= old(self).spec_heap().len(),
            at < HEAP_BASE ==> IMAGE_BASE <= at && at - IMAGE_BASE + bytes@.len() <= old(
                self,
            ).spec_image().len(),
        ensures
            final(self).wf(),
            at >= HEAP_BASE ==> final(self).same_but_heap(old(self)) && final(self).spec_heap()
                == write(old(self).spec_heap(), at - HEAP_BASE, bytes@),
            at < HEAP_BASE ==> final(self).same_but_image(old(self)) && final(self).spec_image()
                == write(old(self).spec_image(), at - IMAGE_BASE, bytes@),
    {
        if at >= HEAP_BASE {
            overwrite(&mut self.heap, (at - HEAP_BASE) as usize, bytes);
        } else {
            self.put_image(at, bytes);
        }
    }

    /// Write a 64-bit word at an address in either region.
    pub fn put_u64(&mut self, at: u64, v: u64)
        requires
            old(self).wf(),
            at >= HEAP_BASE ==> at - HEAP_BASE + 8 <= old(self).spec_heap().len(),
            at < HEAP_BASE ==> IMAGE_BASE <= at && at - IMAGE_BASE + 8 <= old(
                self,
            ).spec_image().len(),
        ensures
            final(self).wf(),
            at >= HEAP_BASE ==> final(self).same_but_heap(old(self)) && final(self).spec_heap()
                == write(old(self).spec_heap(), at - HEAP_BASE, word(v)),
            at < HEAP_BASE ==> final(self).same_but_image(old(self)) && final(self).spec_image()
                == write(old(self).spec_image(), at - IMAGE_BASE, word(v)),
    {
        let b = le_bytes(v, 8);
        proof {
            lemma_le_len(v as nat, 8);
        }
        self.put(at, b.as_slice());
    }
}


/// Bytes written least significant first read back as the number, below `256^n`.
proof fn lemma_le_reads_back(v: nat, n: nat)
    ensures
        le_nat(le(v, n)) == v % pow256(n),
    decreases n,
{
    if n > 0 {
        lemma_le_reads_back(v / 256, (n - 1) as nat);
        assert(le(v, n).drop_first() =~= le(v / 256, (n - 1) as nat));
        lemma_pow256_mono(0, (n - 1) as nat);
        vstd::arithmetic::div_mod::lemma_breakdown(v as int, 256, pow256((n - 1) as nat) as int);
    }
}

/// A signed word's bytes read back as the word.
proof fn lemma_signed_word_reads_back(v: i64)
    ensures
        signed(le_u64(signed_word(v))) == v,
{
    lemma_pow256_8();
    if v >= 0 {
        lemma_le_reads_back(v as nat, 8);
        vstd::arithmetic::div_mod::lemma_small_mod(v as nat, pow256(8));
    } else {
        let x = (v + 0x1_0000_0000_0000_0000int) as nat;
        lemma_le_reads_back(x, 8);
        vstd::arithmetic::div_mod::lemma_small_mod(x, pow256(8));
    }
}

/// Words written one after another, a first one before the rest.
proof fn lemma_cat_le_first(a: u64, rest: Seq<u64>, n: nat)
    ensures
        cat_le(seq![a] + rest, n) == le(a as nat, n) + cat_le(rest, n),
    decreases rest.len(),
{
    let x = seq![a] + rest;
    if rest.len() == 0 {
        assert(x.drop_last() =~= Seq::<u64>::empty());
        assert(cat_le(Seq::<u64>::empty(), n) =~= Seq::<u8>::empty());
        assert(cat_le(x, n) == cat_le(x.drop_last(), n) + le(x.last() as nat, n));
        assert(cat_le(x, n) =~= le(a as nat, n) + cat_le(rest, n));
    } else {
        lemma_cat_le_first(a, rest.drop_last(), n);
        assert(x.drop_last() =~= seq![a] + rest.drop_last());
        assert(x.last() == rest.last());
        assert(cat_le(x, n) == cat_le(x.drop_last(), n) + le(x.last() as nat, n));
        assert(cat_le(rest, n) == cat_le(rest.drop_last(), n) + le(rest.last() as nat, n));
        assert(cat_le(x, n) =~= le(a as nat, n) + cat_le(rest, n));
    }
}

/// An int's digits weigh the first digit once and the rest `2^30` times more.
proof fn lemma_magnitude_first(raw: Seq<u8>, n: nat)
    requires
        n >= 1,
        raw.len() >= 4 * n,
    ensures
        super::cpython::magnitude(raw, n) == digit_at(raw, 0) + 0x4000_0000
            * super::cpython::magnitude(raw.subrange(4, raw.len() as int), (n - 1) as nat),
    decreases n,
{
    let sh = raw.subrange(4, raw.len() as int);
    let d0 = digit_at(raw, 0);
    if n == 1 {
        assert(digit_weight(0) == 1);
        assert(super::cpython::magnitude(raw, 0) == 0);
        assert(super::cpython::magnitude(sh, 0) == 0);
        assert(super::cpython::magnitude(raw, 1) == super::cpython::magnitude(raw, 0) + d0
            * digit_weight(0));
    } else {
        lemma_magnitude_first(raw, (n - 1) as nat);
        assert(sh.subrange(4 * (n - 2), 4 * (n - 2) + 4) =~= raw.subrange(
            4 * (n - 1),
            4 * (n - 1) + 4,
        ));
        let w = digit_weight((n - 2) as nat);
        let d = digit_at(raw, n - 1);
        assert(digit_at(sh, n - 2) == d);
        let rest = super::cpython::magnitude(sh, (n - 2) as nat);
        let whole = super::cpython::magnitude(raw, n);
        let before = super::cpython::magnitude(raw, (n - 1) as nat);
        let after = super::cpython::magnitude(sh, (n - 1) as nat);
        assert(whole == before + d * digit_weight((n - 1) as nat));
        assert(digit_weight((n - 1) as nat) == 0x4000_0000 * w);
        assert(after == rest + d * w);
        assert(before == d0 + 0x4000_0000 * rest);
        assert(whole == d0 + 0x4000_0000 * after) by (nonlinear_arith)
            requires
                whole == before + d * (0x4000_0000 * w),
                after == rest + d * w,
                before == d0 + 0x4000_0000 * rest,
        ;
    }
}

/// The digits the builder writes for a magnitude read back as it, each of 30 bits.
proof fn lemma_digits_read_back(m: nat)
    ensures
        cat_le(digits30(m), 4).len() == 4 * digits30(m).len(),
        super::cpython::magnitude(cat_le(digits30(m), 4), digits30(m).len()) == m,
        forall|i: int|
            0 <= i < digits30(m).len() ==> #[trigger] digit_at(cat_le(digits30(m), 4), i)
                < 0x4000_0000,
    decreases m,
{
    lemma_cat_le_len(digits30(m), 4);
    if m > 0 {
        let d = (m % 0x4000_0000) as u64;
        let rest = digits30(m / 0x4000_0000);
        let raw = cat_le(digits30(m), 4);
        lemma_digits_read_back(m / 0x4000_0000);
        assert(digits30(m) == seq![d] + rest);
        lemma_cat_le_first(d, rest, 4);
        lemma_le_len(d as nat, 4);
        assert(raw.subrange(0, 4) =~= le(d as nat, 4));
        assert(raw.subrange(4, raw.len() as int) =~= cat_le(rest, 4));
        lemma_le_reads_back(d as nat, 4);
        lemma_pow256_8();
        vstd::arithmetic::div_mod::lemma_small_mod(d as nat, pow256(4));
        lemma_magnitude_first(raw, digits30(m).len());
        assert(digit_at(raw, 0) == d);
        assert forall|i: int| 0 <= i < digits30(m).len() implies #[trigger] digit_at(raw, i)
            < 0x4000_0000 by {
            if i > 0 {
                assert(raw.subrange(4, raw.len() as int).subrange(4 * (i - 1), 4 * (i - 1) + 4)
                    =~= raw.subrange(4 * i, 4 * i + 4));
                assert(digit_at(raw, i) == digit_at(cat_le(rest, 4), i - 1));
            }
        }
        vstd::arithmetic::div_mod::lemma_fundamental_div_mod(m as int, 0x4000_0000);
    }
}

/// Whether reads from `at` on give `bytes`: every read inside them gives the bytes inside
/// them.
pub open spec fn holds_at<M: Memory + ?Sized>(m: &M, at: u64, bytes: Seq<u8>) -> bool {
    &&& at + bytes.len() <= u64::MAX
    &&& forall|k: int, l: nat|
        0 <= k < bytes.len() && k + l <= bytes.len() ==> #[trigger] m.spec_read(
            (at + k) as u64,
            l,
        ) == Some(bytes.subrange(k, k + l))
}

/// An image holds, from `off` bytes into its `i`-th region on, what that region's bytes hold
/// there: so a finished builder's image holds what the builder laid out.
pub proof fn lemma_region_holds(m: &Image, i: int, off: nat, bytes: Seq<u8>)
    requires
        image_shape(m.spec_region_list(), m.spec_bytes()),
        0 <= i < m.spec_region_list().len(),
        off + bytes.len() <= m.spec_bytes()[i].len(),
        m.spec_bytes()[i].subrange(off as int, (off + bytes.len()) as int) == bytes,
    ensures
        holds_at(m, (m.spec_region_list()[i].base + off) as u64, bytes),
{
    let rs = m.spec_region_list();
    let bs = m.spec_bytes();
    let at = (rs[i].base + off) as u64;
    assert(rs[i].base + rs[i].size <= u64::MAX);
    assert forall|k: int, l: nat| 0 <= k < bytes.len() && k + l <= bytes.len() implies #[trigger] m.spec_read(
        (at + k) as u64,
        l,
    ) == Some(bytes.subrange(k, k + l)) by {
        lemma_image_reads(m, i, (off + k) as nat, l);
        assert(bs[i].subrange(off + k, off + k + l) =~= bytes.subrange(k, k + l));
    }
}

/// A word written into a region reads back from there: what [`Builder::put_u64`] wrote, a
/// finished builder's image reads.
pub proof fn lemma_written_word_reads_back(m: &Image, i: int, s: Seq<u8>, off: nat, v: u64)
    requires
        image_shape(m.spec_region_list(), m.spec_bytes()),
        0 <= i < m.spec_region_list().len(),
        off + 8 <= s.len(),
        m.spec_bytes()[i] == write(s, off as int, word(v)),
    ensures
        spec_u64(m, (m.spec_region_list()[i].base + off) as u64) == Some(v),
{
    lemma_le_len(v as nat, 8);
    let bs = m.spec_bytes()[i];
    assert(bs.subrange(off as int, (off + 8) as int) =~= word(v));
    lemma_image_reads(m, i, off, 8);
    lemma_le_reads_back(v as nat, 8);
    lemma_pow256_8();
    vstd::arithmetic::div_mod::lemma_small_mod(v as nat, pow256(8));
}

/// An object header as the builder writes it, a reference count of 1 and the type, reads
/// back as the type.
proof fn lemma_header_reads_back<M: Memory + ?Sized>(m: &M, object: u64, ty: u64, b: Seq<u8>)
    requires
        spec_plausible(object),
        spec_plausible(ty),
        holds_at(m, object, b),
        b.len() >= 16,
        b.subrange(0, 8) == word(1),
        b.subrange(8, 16) == word(ty),
    ensures
        spec_type_of(m, object) == Ok::<u64, Bad>(ty),
{
    lemma_pow256_8();
    lemma_le_reads_back(1, 8);
    lemma_le_reads_back(ty as nat, 8);
    vstd::arithmetic::div_mod::lemma_small_mod(1, pow256(8));
    vstd::arithmetic::div_mod::lemma_small_mod(ty as nat, pow256(8));
    assert(m.spec_read(object, 8) == Some(b.subrange(0, 8))) by {
        assert(m.spec_read((object + 0) as u64, 8) == Some(b.subrange(0int, 8int)));
    }
    assert(m.spec_read((object + 8) as u64, 8) == Some(b.subrange(8, 16)));
}

/// An int object laid out as the builder lays it out decodes to its value.
proof fn lemma_int_reads_back<M: Memory + ?Sized>(m: &M, object: u64, n: i64, ty: u64)
    requires
        holds_at(m, object, long_bytes(n, ty)),
    ensures
        spec_integer(m, object) == Ok::<i64, Bad>(n),
{
    let mag = magnitude(n);
    let ds = digits30(mag);
    let count = ds.len() as int;
    let size: int = if n > 0 {
        count
    } else if n < 0 {
        -count
    } else {
        0
    };
    let room: nat = if count > 0 {
        count as nat
    } else {
        1
    };
    lemma_digits30(mag);
    lemma_digits_read_back(mag);
    let ob = object_bytes(24 + 4 * room, ty);
    let sw = signed_word(size as i64);
    let cl = cat_le(ds, 4);
    lemma_pad16(24 + 4 * room);
    lemma_le_len(1, 8);
    lemma_le_len(ty as nat, 8);
    assert(sw.len() == 8) by {
        lemma_le_len(size as nat, 8);
        lemma_le_len((size + 0x1_0000_0000_0000_0000int) as nat, 8);
    }
    let b = long_bytes(n, ty);
    assert(b == write(write(ob, 16, sw), 24, cl));
    assert(b.len() == ob.len());
    assert(b.subrange(16, 24) =~= sw);
    assert(b.subrange(24, 24 + 4 * count) =~= cl);
    assert(m.spec_read((object + 16) as u64, 8) == Some(b.subrange(16, 24)));
    assert(m.spec_read((object + 24) as u64, (4 * count) as nat) == Some(
        b.subrange(24, 24 + 4 * count),
    ));
    lemma_signed_word_reads_back(size as i64);
    assert(!has_wide_digit(cl, count));
}


/// What a write leaves: the bytes written where it wrote, the others as they were.
proof fn lemma_write_window(s: Seq<u8>, at: int, b: Seq<u8>)
    requires
        0 <= at,
        at + b.len() <= s.len(),
    ensures
        write(s, at, b).len() == s.len(),
        write(s, at, b).subrange(at, at + b.len()) == b,
        forall|i: int, j: int|
            0 <= i <= j <= s.len() && (j <= at || at + b.len() <= i) ==> #[trigger] write(
                s,
                at,
                b,
            ).subrange(i, j) == s.subrange(i, j),
{
    assert(write(s, at, b).subrange(at, at + b.len()) =~= b);
    assert forall|i: int, j: int|
        0 <= i <= j <= s.len() && (j <= at || at + b.len() <= i) implies #[trigger] write(
            s,
            at,
            b,
        ).subrange(i, j) == s.subrange(i, j) by {
        assert(write(s, at, b).subrange(i, j) =~= s.subrange(i, j));
    }
}

/// The `i`-th of words written one after another.
proof fn lemma_cat_le_at(vs: Seq<u64>, n: nat, i: int)
    requires
        0 <= i < vs.len(),
    ensures
        cat_le(vs, n).subrange(i * n, i * n + n) == le(vs[i] as nat, n),
    decreases vs.len(),
{
    let rest = vs.drop_last();
    lemma_cat_le_len(rest, n);
    lemma_le_len(vs.last() as nat, n);
    assert(i * n + n <= rest.len() * n + n) by (nonlinear_arith)
        requires
            i < vs.len(),
            rest.len() == vs.len() - 1,
    ;
    if i < rest.len() {
        lemma_cat_le_at(rest, n, i);
        lemma_cat_le_len(rest, n);
        assert(i * n + n <= rest.len() * n) by (nonlinear_arith)
            requires
                i < rest.len(),
        ;
        assert(cat_le(vs, n).subrange(i * n, i * n + n) =~= cat_le(rest, n).subrange(
            i * n,
            i * n + n,
        ));
    } else {
        assert(i * n == rest.len() * n);
        assert(cat_le(vs, n).subrange(i * n, i * n + n) =~= le(vs.last() as nat, n));
    }
}

/// A character's code point, however it is cast.
proof fn lemma_code_point(c: char)
    ensures
        c as nat <= 0x10FFFF,
        c as nat == (c as u32) as nat,
        c as u64 == (c as u32) as u64,
{
}

/// No code point is above the largest.
proof fn lemma_max_code(cs: Seq<char>, i: int)
    requires
        0 <= i < cs.len(),
    ensures
        cs[i] as nat <= max_code(cs),
    decreases cs.len(),
{
    if i < cs.len() - 1 {
        lemma_max_code(cs.drop_last(), i);
    }
}

/// A str object laid out as the builder lays it out decodes to its characters: its type is the
/// runtime's `str`, and the text is within the decoder's bound.
#[verifier::spinoff_prover]
#[verifier::rlimit(30)]
proof fn lemma_text_reads_back<M: Memory + ?Sized>(m: &M, rt: Runtime, object: u64, cs: Seq<char>)
    requires
        spec_plausible(object),
        spec_plausible(rt.str_),
        cs.len() <= MAX_TEXT_CHARS,
        holds_at(m, object, str_bytes(cs, rt.str_)),
    ensures
        spec_text(m, rt, object) == Ok::<Seq<char>, Bad>(cs),
{
    let ty = rt.str_;
    let (kind, ascii) = str_width(max_code(cs));
    let data: nat = if ascii {
        48
    } else {
        72
    };
    let state: nat = kind * 4 + 32 + (if ascii {
        64nat
    } else {
        0nat
    }) + 128;
    let len = cs.len();
    let codes = cs.map_values(|c: char| c as u64);
    let size = data + len * kind + kind;
    let zs = zeros(pad16(size));
    let o1 = write(zs, 0, word(1));
    let o2 = write(o1, 8, word(ty));
    let o3 = write(o2, 16, word(len as u64));
    let o4 = write(o3, 32, le(state, 4));
    let b = write(o4, data as int, cat_le(codes, kind));
    assert(b == str_bytes(cs, ty));
    lemma_pad16(size);
    lemma_le_len(1, 8);
    lemma_le_len(ty as nat, 8);
    lemma_le_len(len, 8);
    lemma_le_len(state, 4);
    lemma_cat_le_len(codes, kind);
    assert(len * kind + kind == (len + 1) * kind) by (nonlinear_arith);
    lemma_write_window(zs, 0, word(1));
    lemma_write_window(o1, 8, word(ty));
    lemma_write_window(o2, 16, word(len as u64));
    lemma_write_window(o3, 32, le(state, 4));
    lemma_write_window(o4, data as int, cat_le(codes, kind));
    assert(b.subrange(0, 8) == word(1)) by {
        assert(b.subrange(0, 8) == o4.subrange(0, 8));
        assert(o4.subrange(0, 8) == o3.subrange(0, 8));
        assert(o3.subrange(0, 8) == o2.subrange(0, 8));
        assert(o2.subrange(0, 8) == o1.subrange(0, 8));
    }
    assert(b.subrange(8, 16) == word(ty)) by {
        assert(b.subrange(8, 16) == o4.subrange(8, 16));
        assert(o4.subrange(8, 16) == o3.subrange(8, 16));
        assert(o3.subrange(8, 16) == o2.subrange(8, 16));
    }
    assert(b.subrange(16, 24) == word(len as u64)) by {
        assert(b.subrange(16, 24) == o4.subrange(16, 24));
        assert(o4.subrange(16, 24) == o3.subrange(16, 24));
    }
    assert(b.subrange(32, 36) == le(state, 4)) by {
        assert(b.subrange(32, 36) == o4.subrange(32, 36));
    }
    let units = b.subrange(data as int, (data + len * kind) as int);
    assert(units == cat_le(codes, kind));
    lemma_header_reads_back(m, object, ty, b);
    lemma_pow256_8();
    lemma_le_reads_back(len, 8);
    lemma_le_reads_back(state, 4);
    vstd::arithmetic::div_mod::lemma_small_mod(len, pow256(8));
    assert(m.spec_read((object + 16) as u64, 8) == Some(b.subrange(16, 24)));
    assert(m.spec_read((object + 32) as u64, 4) == Some(b.subrange(32, 36)));
    assert(m.spec_read((object + data) as u64, len * kind) == Some(units));
    // The state word: its width, compact, whether ASCII, and ready.
    assert(state < pow256(4));
    vstd::arithmetic::div_mod::lemma_small_mod(state, pow256(4));
    let st = state as u32;
    if ascii {
        assert(st == 228);
        assert(str_kind(228) == 1 && str_flag(228, 5) && str_flag(228, 6) && str_flag(228, 7))
            by (bit_vector);
    } else if kind == 1 {
        assert(st == 164);
        assert(str_kind(164) == 1 && str_flag(164, 5) && !str_flag(164, 6) && str_flag(164, 7))
            by (bit_vector);
    } else if kind == 2 {
        assert(st == 168);
        assert(str_kind(168) == 2 && str_flag(168, 5) && !str_flag(168, 6) && str_flag(168, 7))
            by (bit_vector);
    } else {
        assert(st == 176);
        assert(str_kind(176) == 4 && str_flag(176, 5) && !str_flag(176, 6) && str_flag(176, 7))
            by (bit_vector);
    }
    // The units: each a character's code point, within its width.
    assert forall|i: int| 0 <= i < len implies #[trigger] unit_at(units, kind as int, i)
        == cs[i] as u32 by {
        lemma_cat_le_at(codes, kind, i);
        lemma_max_code(cs, i);
        assert(codes[i] == cs[i] as u64);
        vstd::utf8::char_is_scalar(cs[i]);
        assert(units.subrange(i * kind, i * kind + kind) == cat_le(codes, kind).subrange(
            i * kind,
            i * kind + kind,
        ));
        lemma_le_reads_back(codes[i] as nat, kind);
        lemma_code_point(cs[i]);
        assert((codes[i] as nat) < pow256(kind));
        vstd::arithmetic::div_mod::lemma_small_mod(codes[i] as nat, pow256(kind));
    }
    assert(!has_bad_unit(units, kind as int, len as int, ascii)) by {
        assert forall|i: int| 0 <= i < len implies !((ascii && #[trigger] unit_at(
            units,
            kind as int,
            i,
        ) > 0x7f) || !is_scalar(unit_at(units, kind as int, i))) by {
            lemma_max_code(cs, i);
            lemma_code_point(cs[i]);
            vstd::utf8::char_is_scalar(cs[i]);
            assert(unit_at(units, kind as int, i) == cs[i] as u32);
        }
    }
    assert forall|i: int| 0 <= i < len implies #[trigger] text_chars(
        units,
        kind as int,
        len as int,
    )[i] == cs[i] by {
        vstd::utf8::char_u32_cast(cs[i], cs[i] as u32);
    }
    assert(text_chars(units, kind as int, len as int) =~= cs);
}


/// An int, or a bool, laid out as the builder lays it out decodes as a value to its value, at
/// any depth.
#[verifier::spinoff_prover]
#[verifier::rlimit(30)]
pub proof fn lemma_int_value_reads_back<M: Memory + ?Sized>(
    m: &M,
    rt: Runtime,
    object: u64,
    n: i64,
    ty: u64,
    depth: nat,
)
    requires
        spec_plausible(object),
        spec_plausible(ty),
        holds_at(m, object, long_bytes(n, ty)),
    ensures
        rt.spec_builtin(ty) == Some(Builtin::Int) ==> spec_value(m, rt, object, depth)
            == RawView::Integer(n),
        rt.spec_builtin(ty) == Some(Builtin::Bool) ==> spec_value(m, rt, object, depth)
            == RawView::Boolean(n != 0),
{
    let mag = magnitude(n);
    let ds = digits30(mag);
    let count = ds.len() as int;
    let size: int = if n > 0 {
        count
    } else if n < 0 {
        -count
    } else {
        0
    };
    let room: nat = if count > 0 {
        count as nat
    } else {
        1
    };
    lemma_digits30(mag);
    lemma_cat_le_len(ds, 4);
    let zs = zeros(pad16(24 + 4 * room));
    let o1 = write(zs, 0, word(1));
    let ob = write(o1, 8, word(ty));
    let o3 = write(ob, 16, signed_word(size as i64));
    let b = write(o3, 24, cat_le(ds, 4));
    assert(b == long_bytes(n, ty));
    lemma_pad16(24 + 4 * room);
    lemma_le_len(1, 8);
    lemma_le_len(ty as nat, 8);
    assert(signed_word(size as i64).len() == 8) by {
        lemma_le_len(size as nat, 8);
        lemma_le_len((size + 0x1_0000_0000_0000_0000int) as nat, 8);
    }
    lemma_write_window(zs, 0, word(1));
    lemma_write_window(o1, 8, word(ty));
    lemma_write_window(ob, 16, signed_word(size as i64));
    lemma_write_window(o3, 24, cat_le(ds, 4));
    assert(b.subrange(0, 8) == o1.subrange(0, 8));
    assert(b.subrange(8, 16) == ob.subrange(8, 16));
    lemma_header_reads_back(m, object, ty, b);
    lemma_int_reads_back(m, object, n, ty);
}

/// A float laid out as the builder lays it out decodes as a value to its bits, at any depth.
pub proof fn lemma_float_value_reads_back<M: Memory + ?Sized>(
    m: &M,
    rt: Runtime,
    object: u64,
    bits: u64,
    ty: u64,
    depth: nat,
)
    requires
        spec_plausible(object),
        spec_plausible(ty),
        holds_at(m, object, float_bytes(bits, ty)),
        rt.spec_builtin(ty) == Some(Builtin::Float),
    ensures
        spec_value(m, rt, object, depth) == RawView::Float(bits),
{
    let zs = zeros(pad16(24));
    let o1 = write(zs, 0, word(1));
    let ob = write(o1, 8, word(ty));
    let b = write(ob, 16, word(bits));
    assert(b == float_bytes(bits, ty));
    lemma_pad16_small();
    lemma_le_len(1, 8);
    lemma_le_len(ty as nat, 8);
    lemma_le_len(bits as nat, 8);
    lemma_write_window(zs, 0, word(1));
    lemma_write_window(o1, 8, word(ty));
    lemma_write_window(ob, 16, word(bits));
    assert(b.subrange(0, 8) == o1.subrange(0, 8));
    assert(b.subrange(8, 16) == ob.subrange(8, 16));
    lemma_header_reads_back(m, object, ty, b);
    lemma_pow256_8();
    lemma_le_reads_back(bits as nat, 8);
    vstd::arithmetic::div_mod::lemma_small_mod(bits as nat, pow256(8));
    assert(m.spec_read((object + 16) as u64, 8) == Some(b.subrange(16, 24)));
}

/// A str laid out as the builder lays it out decodes as a value to its characters, at any
/// depth, when its type is the runtime's `str` and the text is within the decoder's bound.
pub proof fn lemma_text_value_reads_back<M: Memory + ?Sized>(
    m: &M,
    rt: Runtime,
    object: u64,
    cs: Seq<char>,
    depth: nat,
)
    requires
        spec_plausible(object),
        spec_plausible(rt.str_),
        cs.len() <= MAX_TEXT_CHARS,
        holds_at(m, object, str_bytes(cs, rt.str_)),
        rt.spec_builtin(rt.str_) == Some(Builtin::Str),
    ensures
        spec_value(m, rt, object, depth) == RawView::Text(cs),
{
    lemma_text_reads_back(m, rt, object, cs);
}


/// Item pointers written one after another read back as the items, as many as are read.
proof fn lemma_words_read_back(items: Seq<u64>, k: int)
    requires
        0 <= k <= items.len(),
    ensures
        words(cat_le(items, 8).subrange(0, 8 * k), k) == items.take(k),
{
    let raw = cat_le(items, 8).subrange(0, 8 * k);
    lemma_cat_le_len(items, 8);
    lemma_pow256_8();
    assert forall|i: int| 0 <= i < k implies #[trigger] words(raw, k)[i] == items[i] by {
        lemma_cat_le_at(items, 8, i);
        assert(raw.subrange(8 * i, 8 * i + 8) =~= cat_le(items, 8).subrange(8 * i, 8 * i + 8));
        lemma_le_reads_back(items[i] as nat, 8);
        vstd::arithmetic::div_mod::lemma_small_mod(items[i] as nat, pow256(8));
    }
    assert(words(raw, k) =~= items.take(k));
}

/// How many of `n` items the decoder reads.
pub open spec fn shown(n: nat) -> nat {
    if n < MAX_ITEMS {
        n
    } else {
        MAX_ITEMS as nat
    }
}

/// The value the decoder gives a sequence of these items, one level less deep than it.
pub open spec fn sequence_view<M: Memory + ?Sized>(
    m: &M,
    rt: Runtime,
    kind: SequenceKind,
    items: Seq<u64>,
    depth: nat,
) -> RawView {
    RawView::Sequence {
        kind,
        items: Seq::new(shown(items.len()), |i: int| spec_value(m, rt, items[i], depth)),
        full_length: cut_length(shown(items.len()) as int, items.len() as u64),
    }
}

/// A tuple laid out as the builder lays it out decodes as a value, one level deeper than its
/// items, to a tuple of their values: the first [`MAX_ITEMS`], and its length where there are
/// more.
#[verifier::spinoff_prover]
#[verifier::rlimit(30)]
pub proof fn lemma_tuple_value_reads_back<M: Memory + ?Sized>(
    m: &M,
    rt: Runtime,
    object: u64,
    items: Seq<u64>,
    ty: u64,
    depth: nat,
)
    requires
        spec_plausible(object),
        spec_plausible(ty),
        object + tuple_bytes(items, ty).len() <= POINTER_END,
        holds_at(m, object, tuple_bytes(items, ty)),
        rt.spec_builtin(ty) == Some(Builtin::Tuple),
    ensures
        spec_value(m, rt, object, depth + 1) == sequence_view(
            m,
            rt,
            SequenceKind::Tuple,
            items,
            depth,
        ),
{
    let len = items.len();
    let zs = zeros(pad16(24 + 8 * len));
    let o1 = write(zs, 0, word(1));
    let ob = write(o1, 8, word(ty));
    let o3 = write(ob, 16, signed_word(len as i64));
    let b = write(o3, 24, cat_le(items, 8));
    assert(b == tuple_bytes(items, ty));
    lemma_pad16(24 + 8 * len);
    lemma_le_len(1, 8);
    lemma_le_len(ty as nat, 8);
    lemma_le_len(len, 8);
    lemma_cat_le_len(items, 8);
    lemma_write_window(zs, 0, word(1));
    lemma_write_window(o1, 8, word(ty));
    lemma_write_window(ob, 16, signed_word(len as i64));
    lemma_write_window(o3, 24, cat_le(items, 8));
    assert(b.subrange(0, 8) == o1.subrange(0, 8));
    assert(b.subrange(8, 16) == ob.subrange(8, 16));
    assert(b.subrange(16, 24) == o3.subrange(16, 24));
    lemma_header_reads_back(m, object, ty, b);
    lemma_signed_word_reads_back(len as i64);
    assert(m.spec_read((object + 16) as u64, 8) == Some(b.subrange(16, 24)));
    let k = shown(len) as int;
    assert(b.subrange(24, 24 + 8 * k) =~= cat_le(items, 8).subrange(0, 8 * k));
    assert(m.spec_read((object + 24) as u64, (8 * k) as nat) == Some(b.subrange(24, 24 + 8 * k)));
    lemma_words_read_back(items, k);
    let view = spec_value(m, rt, object, depth + 1);
    assert(view matches RawView::Sequence { items: vs, .. } && vs =~= Seq::new(
        shown(len),
        |i: int| spec_value(m, rt, items[i], depth),
    ));
}

/// A list laid out as the builder lays it out, its item array right after it, decodes as a
/// value, one level deeper than its items, to a list of their values: the first
/// [`MAX_ITEMS`], and its length where there are more.
#[verifier::spinoff_prover]
#[verifier::rlimit(30)]
pub proof fn lemma_list_value_reads_back<M: Memory + ?Sized>(
    m: &M,
    rt: Runtime,
    object: u64,
    items: Seq<u64>,
    ty: u64,
    depth: nat,
)
    requires
        spec_plausible(object),
        spec_plausible(ty),
        object + (list_object(items, object, ty) + list_array(items)).len() <= POINTER_END,
        holds_at(m, object, list_object(items, object, ty) + list_array(items)),
        rt.spec_builtin(ty) == Some(Builtin::List),
    ensures
        spec_value(m, rt, object, depth + 1) == sequence_view(
            m,
            rt,
            SequenceKind::List,
            items,
            depth,
        ),
{
    let len = items.len();
    let room: nat = if len > 0 {
        len
    } else {
        1
    };
    let zs = zeros(pad16(40));
    let o1 = write(zs, 0, word(1));
    let ob = write(o1, 8, word(ty));
    let o3 = write(ob, 16, signed_word(len as i64));
    let o4 = write(o3, 24, word((object + pad16(40)) as u64));
    let head = write(o4, 32, signed_word(len as i64));
    assert(head == list_object(items, object, ty));
    let az = zeros(pad16(8 * room));
    let arr = write(az, 0, cat_le(items, 8));
    assert(arr == list_array(items));
    let b = head + arr;
    lemma_pad16_small();
    lemma_pad16(8 * room);
    lemma_le_len(1, 8);
    lemma_le_len(ty as nat, 8);
    lemma_le_len(len, 8);
    lemma_le_len((object + 48) as nat, 8);
    lemma_cat_le_len(items, 8);
    lemma_write_window(zs, 0, word(1));
    lemma_write_window(o1, 8, word(ty));
    lemma_write_window(ob, 16, signed_word(len as i64));
    lemma_write_window(o3, 24, word((object + 48) as u64));
    lemma_write_window(o4, 32, signed_word(len as i64));
    lemma_write_window(az, 0, cat_le(items, 8));
    assert(b.subrange(0, 8) == o1.subrange(0, 8)) by {
        assert(b.subrange(0, 8) =~= head.subrange(0, 8));
    }
    assert(b.subrange(8, 16) == ob.subrange(8, 16)) by {
        assert(b.subrange(8, 16) =~= head.subrange(8, 16));
    }
    assert(b.subrange(16, 24) == o3.subrange(16, 24)) by {
        assert(b.subrange(16, 24) =~= head.subrange(16, 24));
    }
    assert(b.subrange(24, 32) == o4.subrange(24, 32)) by {
        assert(b.subrange(24, 32) =~= head.subrange(24, 32));
    }
    lemma_header_reads_back(m, object, ty, b);
    lemma_signed_word_reads_back(len as i64);
    lemma_pow256_8();
    lemma_le_reads_back((object + 48) as nat, 8);
    vstd::arithmetic::div_mod::lemma_small_mod((object + 48) as nat, pow256(8));
    assert(m.spec_read((object + 16) as u64, 8) == Some(b.subrange(16, 24)));
    assert(m.spec_read((object + 24) as u64, 8) == Some(b.subrange(24, 32)));
    let k = shown(len) as int;
    assert(b.subrange(48, 48 + 8 * k) =~= cat_le(items, 8).subrange(0, 8 * k));
    assert(m.spec_read((object + 48) as u64, (8 * k) as nat) == Some(b.subrange(48, 48 + 8 * k)));
    lemma_words_read_back(items, k);
    let view = spec_value(m, rt, object, depth + 1);
    assert(view matches RawView::Sequence { items: vs, .. } && vs =~= Seq::new(
        shown(len),
        |i: int| spec_value(m, rt, items[i], depth),
    ));
}


/// The live entries, in order: those with a key.
pub open spec fn live_of(entries: Seq<(u64, u64)>) -> Seq<(u64, u64)>
    decreases entries.len(),
{
    if entries.len() == 0 {
        Seq::empty()
    } else {
        let rest = live_of(entries.drop_last());
        if entries.last().0 != 0 {
            rest.push(entries.last())
        } else {
            rest
        }
    }
}

proof fn lemma_live_of_len(entries: Seq<(u64, u64)>)
    ensures
        live_of(entries).len() == live_count(entries),
        live_count(entries) <= entries.len(),
    decreases entries.len(),
{
    if entries.len() > 0 {
        lemma_live_of_len(entries.drop_last());
    }
}

/// The key table of few enough entries: at most 128 slots, a power of two, with room for
/// them all.
proof fn lemma_small_table(n: nat)
    requires
        n <= 85,
    ensures
        ({
            let (size, log2) = table_for(8, 3, n);
            &&& 3 <= log2 <= 7
            &&& size == pow2(log2)
            &&& n <= size * 2 / 3
            &&& 8 <= size <= 128
        }),
{
    reveal_with_fuel(table_for, 6);
    reveal_with_fuel(pow2, 8);
}

/// The `i`-th entry's key and value among the words a key table holds.
proof fn lemma_entry_words_at(entries: Seq<(u64, u64)>, i: int)
    requires
        0 <= i < entries.len(),
    ensures
        entry_words(entries)[3 * i + 1] == entries[i].0,
        entry_words(entries)[3 * i + 2] == if entries[i].0 == 0 {
            0
        } else {
            entries[i].1
        },
    decreases entries.len(),
{
    lemma_entry_words_len(entries.drop_last());
    if i < entries.len() - 1 {
        lemma_entry_words_at(entries.drop_last(), i);
    }
}

/// The entries the decoder finds in a key table the builder wrote: the live ones, in order.
proof fn lemma_live_entries(entries: Seq<(u64, u64)>, j: nat)
    requires
        j <= entries.len(),
        forall|i: int| 0 <= i < entries.len() && (#[trigger] entries[i]).0 != 0 ==> entries[i].1 != 0,
    ensures
        live_entries(cat_le(entry_words(entries), 8), None, 24, j) == live_of(entries.take(j as int)),
    decreases j,
{
    let table = cat_le(entry_words(entries), 8);
    if j > 0 {
        let i = j - 1;
        lemma_live_entries(entries, (j - 1) as nat);
        assert(entries.take(j as int).drop_last() =~= entries.take(i));
        assert(entries.take(j as int).last() == entries[i]);
        lemma_entry_words_len(entries);
        lemma_entry_words_at(entries, i);
        lemma_cat_le_at(entry_words(entries), 8, 3 * i + 1);
        lemma_cat_le_at(entry_words(entries), 8, 3 * i + 2);
        lemma_pow256_8();
        let ws = entry_words(entries);
        lemma_le_reads_back(ws[3 * i + 1] as nat, 8);
        lemma_le_reads_back(ws[3 * i + 2] as nat, 8);
        vstd::arithmetic::div_mod::lemma_small_mod(ws[3 * i + 1] as nat, pow256(8));
        vstd::arithmetic::div_mod::lemma_small_mod(ws[3 * i + 2] as nat, pow256(8));
        assert(key_offset(24, i) == 24 * i + 8);
        assert(entry_at(table, None, 24, i) == (ws[3 * i + 1], ws[3 * i + 2]));
    }
}

/// The words of a 3.11 unicode or split key table's entries: each a key and its value; a
/// deleted entry has neither.
pub open spec fn pair_words(entries: Seq<(u64, u64)>) -> Seq<u64>
    decreases entries.len(),
{
    if entries.len() == 0 {
        Seq::empty()
    } else {
        let (k, v) = entries.last();
        pair_words(entries.drop_last()) + seq![k, if k == 0 { 0 } else { v }]
    }
}

proof fn lemma_pair_words_len(entries: Seq<(u64, u64)>)
    ensures
        pair_words(entries).len() == 2 * entries.len(),
    decreases entries.len(),
{
    if entries.len() > 0 {
        lemma_pair_words_len(entries.drop_last());
    }
}

/// The `i`-th entry's key and value among the words of a unicode key table.
proof fn lemma_pair_words_at(entries: Seq<(u64, u64)>, i: int)
    requires
        0 <= i < entries.len(),
    ensures
        pair_words(entries)[2 * i] == entries[i].0,
        pair_words(entries)[2 * i + 1] == if entries[i].0 == 0 {
            0
        } else {
            entries[i].1
        },
    decreases entries.len(),
{
    lemma_pair_words_len(entries.drop_last());
    if i < entries.len() - 1 {
        lemma_pair_words_at(entries.drop_last(), i);
    }
}

/// The entries the decoder finds in a unicode key table: the live ones, in order.
proof fn lemma_live_pairs(entries: Seq<(u64, u64)>, j: nat)
    requires
        j <= entries.len(),
        forall|i: int| 0 <= i < entries.len() && (#[trigger] entries[i]).0 != 0 ==> entries[i].1 != 0,
    ensures
        live_entries(cat_le(pair_words(entries), 8), None, 16, j) == live_of(entries.take(j as int)),
    decreases j,
{
    let table = cat_le(pair_words(entries), 8);
    if j > 0 {
        let i = j - 1;
        lemma_live_pairs(entries, (j - 1) as nat);
        assert(entries.take(j as int).drop_last() =~= entries.take(i));
        assert(entries.take(j as int).last() == entries[i]);
        lemma_pair_words_len(entries);
        lemma_pair_words_at(entries, i);
        lemma_cat_le_at(pair_words(entries), 8, 2 * i);
        lemma_cat_le_at(pair_words(entries), 8, 2 * i + 1);
        lemma_pow256_8();
        let ws = pair_words(entries);
        lemma_le_reads_back(ws[2 * i] as nat, 8);
        lemma_le_reads_back(ws[2 * i + 1] as nat, 8);
        vstd::arithmetic::div_mod::lemma_small_mod(ws[2 * i] as nat, pow256(8));
        vstd::arithmetic::div_mod::lemma_small_mod(ws[2 * i + 1] as nat, pow256(8));
        assert(key_offset(16, i) == 16 * i);
        assert(entry_at(table, None, 16, i) == (ws[2 * i], ws[2 * i + 1]));
    }
}

/// In a 3.11 key table of the unicode or split kind (kind 1 or 2), the entries are (key, value)
/// pairs of 16 bytes right after the index table. A dict whose key table is laid out that way,
/// with its values in the table, gives its live entries in order and their count.
#[verifier::spinoff_prover]
pub proof fn lemma_unicode_dict_reads_back<M: Memory + ?Sized>(
    m: &M,
    rt: Runtime,
    object: u64,
    keys: u64,
    header: Seq<u8>,
    entries: Seq<(u64, u64)>,
)
    requires
        rt.keys == DictKeys::Logged,
        spec_plausible(keys),
        field_i64(m, object, DICT_USED) == Ok::<i64, Bad>(live_count(entries) as i64),
        field_u64(m, object, DICT_KEYS) == Ok::<u64, Bad>(keys),
        field_u64(m, object, DICT_VALUES) == Ok::<u64, Bad>(0),
        field_bytes(m, keys, 8, 3) == Ok::<Seq<u8>, Bad>(header),
        3 <= header[0] <= 30,
        header[1] == spec_index_log2(header[0]),
        header[2] == 1 || header[2] == 2,
        field_i64(m, keys, 24) == Ok::<i64, Bad>(entries.len() as i64),
        entries.len() <= pow2(header[0] as nat),
        entries.len() <= MAX_DICT_ENTRIES,
        forall|i: int| 0 <= i < entries.len() && (#[trigger] entries[i]).0 != 0 ==> entries[i].1 != 0,
        m.spec_read((keys + 32 + pow2(header[1] as nat)) as u64, 16 * entries.len()) == Some(
            cat_le(pair_words(entries), 8),
        ),
    ensures
        spec_dict_items(m, rt, object) == Ok::<(Seq<(u64, u64)>, u64), Bad>(
            (live_of(entries), live_count(entries) as u64),
        ),
{
    let n = entries.len();
    lemma_pow2_mono(header[0] as nat, 30);
    lemma_pow2_mono(header[1] as nat, 33);
    lemma_pow2_values();
    lemma_live_of_len(entries);
    lemma_live_pairs(entries, n);
    assert(entries.take(n as int) =~= entries);
    let t = KeyTable {
        size: pow2(header[0] as nat) as u64,
        nentries: n as i64,
        first: (keys + 32 + pow2(header[1] as nat)) as u64,
        stride: 16,
    };
    assert(spec_key_table(m, keys, DictKeys::Logged) == Ok::<KeyTable, Bad>(t));
    assert((n as i64) as u64 == n);
    assert(live_entries(cat_le(pair_words(entries), 8), None, 16, n) == live_of(entries));
}

/// A 3.6-3.10 key table of `size` slots keeps an index table of `size` slots, each as wide as
/// the fewest of 1, 2, 4 and 8 bytes whose values reach past `size`, and its (hash, key, value)
/// entries of 24 bytes right after it. A dict whose key table is laid out that way, with its
/// values in the table, gives its live entries in order and their count, however many.
#[verifier::spinoff_prover]
pub proof fn lemma_sized_dict_reads_back<M: Memory + ?Sized>(
    m: &M,
    rt: Runtime,
    object: u64,
    keys: u64,
    size: u64,
    width: nat,
    entries: Seq<(u64, u64)>,
)
    requires
        rt.keys == DictKeys::Sized,
        spec_plausible(keys),
        field_i64(m, object, DICT_USED) == Ok::<i64, Bad>(live_count(entries) as i64),
        field_u64(m, object, DICT_KEYS) == Ok::<u64, Bad>(keys),
        field_u64(m, object, DICT_VALUES) == Ok::<u64, Bad>(0),
        field_u64(m, keys, 8) == Ok::<u64, Bad>(size),
        is_power_of_two(size),
        8 <= size <= 0x4000_0000,
        width == 1 || width == 2 || width == 4 || width == 8,
        size < pow256(width),
        width > 1 ==> size >= pow256(width / 2),
        field_i64(m, keys, 32) == Ok::<i64, Bad>(entries.len() as i64),
        entries.len() <= size,
        entries.len() <= MAX_DICT_ENTRIES,
        forall|i: int| 0 <= i < entries.len() && (#[trigger] entries[i]).0 != 0 ==> entries[i].1 != 0,
        m.spec_read((keys + 40 + size * width) as u64, 24 * entries.len()) == Some(
            cat_le(entry_words(entries), 8),
        ),
    ensures
        spec_dict_items(m, rt, object) == Ok::<(Seq<(u64, u64)>, u64), Bad>(
            (live_of(entries), live_count(entries) as u64),
        ),
{
    let n = entries.len();
    lemma_pow256_8();
    assert(index_width(size) == width);
    lemma_live_of_len(entries);
    lemma_live_entries(entries, n);
    assert(entries.take(n as int) =~= entries);
    let t = KeyTable {
        size,
        nentries: n as i64,
        first: (keys + 40 + size * width) as u64,
        stride: 24,
    };
    assert(spec_key_table(m, keys, DictKeys::Sized) == Ok::<KeyTable, Bad>(t));
    assert((n as i64) as u64 == n);
}

/// Reads from `at` on that give bytes give, from where the first part ends, the second part.
proof fn lemma_holds_after<M: Memory + ?Sized>(m: &M, at: u64, a: Seq<u8>, b: Seq<u8>)
    requires
        holds_at(m, at, a + b),
    ensures
        holds_at(m, (at + a.len()) as u64, b),
{
    let after = (at + a.len()) as u64;
    assert forall|k: int, l: nat| 0 <= k < b.len() && k + l <= b.len() implies #[trigger] m.spec_read(
        (after + k) as u64,
        l,
    ) == Some(b.subrange(k, k + l)) by {
        assert((after + k) as u64 == (at + (a.len() + k)) as u64);
        assert(m.spec_read((at + (a.len() + k)) as u64, l) == Some(
            (a + b).subrange(a.len() + k, a.len() + k + l),
        ));
        assert((a + b).subrange(a.len() + k, a.len() + k + l) =~= b.subrange(k, k + l));
    }
}

/// A dict laid out as the builder lays it out, its key table at `keys` and the dict right
/// after it, gives its live entries in order and their count. This holds for at most 85
/// entries, whose key table has at most 128 slots and so an index table of one byte a slot,
/// as the builder writes it; and a live entry needs a value.
#[verifier::spinoff_prover]
#[verifier::rlimit(60)]
pub proof fn lemma_dict_items_read_back<M: Memory + ?Sized>(
    m: &M,
    rt: Runtime,
    object: u64,
    keys: u64,
    entries: Seq<(u64, u64)>,
    ty: u64,
)
    requires
        spec_plausible(keys),
        entries.len() <= 85,
        forall|i: int| 0 <= i < entries.len() && (#[trigger] entries[i]).0 != 0 ==> entries[i].1 != 0,
        object == keys + keys_table(entries, rt.keys).len(),
        holds_at(m, keys, keys_table(entries, rt.keys) + dict_object(entries, keys, ty)),
    ensures
        spec_dict_items(m, rt, object) == Ok::<(Seq<(u64, u64)>, u64), Bad>(
            (live_of(entries), live_count(entries) as u64),
        ),
{
    let n = entries.len();
    let (size, log2) = table_for(8, 3, n);
    lemma_small_table(n);
    reveal_with_fuel(pow2, 8);
    let whole = keys_table(entries, rt.keys) + dict_object(entries, keys, ty);
    lemma_holds_after(m, keys, keys_table(entries, rt.keys), dict_object(entries, keys, ty));
    let usable = (size * 2 / 3 - n) as u64;
    let ws = entry_words(entries);
    lemma_entry_words_len(entries);
    lemma_cat_le_len(ws, 8);
    let table = cat_le(ws, 8);
    let live = live_count(entries);
    lemma_live_of_len(entries);
    lemma_le_len(1, 8);
    lemma_le_len(size as nat, 8);
    lemma_le_len(usable as nat, 8);
    lemma_le_len(n, 8);
    lemma_le_len(keys as nat, 8);
    lemma_le_len(ty as nat, 8);
    lemma_le_len(live, 8);
    lemma_pow256_8();
    lemma_le_reads_back(n, 8);
    vstd::arithmetic::div_mod::lemma_small_mod(n, pow256(8));
    // The key table.
    let first: nat = match rt.keys {
        DictKeys::Sized => 40 + size,
        DictKeys::Logged => 32 + size,
    };
    let t0 = zeros(pad16(first + 24 * n));
    lemma_pad16(first + 24 * n);
    let t1 = write(t0, 0, word(1));
    lemma_write_window(t0, 0, word(1));
    match rt.keys {
        DictKeys::Sized => {
            let t2 = write(t1, 8, word(size as u64));
            let t3 = write(t2, 24, word(usable));
            let t4 = write(t3, 32, word(n as u64));
            let kt = write(t4, first as int, table);
            assert(kt == keys_table(entries, rt.keys));
            lemma_write_window(t1, 8, word(size as u64));
            lemma_write_window(t2, 24, word(usable));
            lemma_write_window(t3, 32, word(n as u64));
            lemma_write_window(t4, first as int, table);
            assert(kt.subrange(8, 16) == t2.subrange(8, 16));
            assert(kt.subrange(32, 40) == t4.subrange(32, 40));
            assert(m.spec_read((keys + 8) as u64, 8) == Some(whole.subrange(8, 16)));
            assert(m.spec_read((keys + 32) as u64, 8) == Some(whole.subrange(32, 40)));
            assert(m.spec_read((keys + first) as u64, 24 * n) == Some(
                whole.subrange(first as int, (first + 24 * n) as int),
            ));
            assert(whole.subrange(8, 16) =~= kt.subrange(8, 16));
            assert(whole.subrange(32, 40) =~= kt.subrange(32, 40));
            assert(whole.subrange(first as int, (first + 24 * n) as int) =~= kt.subrange(
                first as int,
                (first + 24 * n) as int,
            ));
            lemma_le_reads_back(size as nat, 8);
            vstd::arithmetic::div_mod::lemma_small_mod(size as nat, pow256(8));
            let sz = size as u64;
            if log2 == 3 {
                assert(sz == 8);
                assert(8u64 & 7u64 == 0) by (bit_vector);
            } else if log2 == 4 {
                assert(sz == 16);
                assert(16u64 & 15u64 == 0) by (bit_vector);
            } else if log2 == 5 {
                assert(sz == 32);
                assert(32u64 & 31u64 == 0) by (bit_vector);
            } else if log2 == 6 {
                assert(sz == 64);
                assert(64u64 & 63u64 == 0) by (bit_vector);
            } else {
                assert(sz == 128);
                assert(128u64 & 127u64 == 0) by (bit_vector);
            }
            assert(is_power_of_two(sz));
            assert(index_width(sz) == 1);
            assert((keys + 40 + sz * index_width(sz)) as u64 == (keys + first) as u64);
            assert(spec_key_table(m, keys, rt.keys) == Ok::<KeyTable, Bad>(
                KeyTable { size: sz, nentries: n as i64, first: (keys + first) as u64, stride: 24 },
            ));
        },
        DictKeys::Logged => {
            let h = seq![log2 as u8, log2 as u8, 0u8];
            let t2 = write(t1, 8, h);
            let t3 = write(t2, 16, word(usable));
            let t4 = write(t3, 24, word(n as u64));
            let kt = write(t4, first as int, table);
            assert(kt == keys_table(entries, rt.keys));
            lemma_write_window(t1, 8, h);
            lemma_write_window(t2, 16, word(usable));
            lemma_write_window(t3, 24, word(n as u64));
            lemma_write_window(t4, first as int, table);
            assert(kt.subrange(8, 11) == t2.subrange(8, 11));
            assert(kt.subrange(24, 32) == t4.subrange(24, 32));
            assert(m.spec_read((keys + 8) as u64, 3) == Some(whole.subrange(8, 11)));
            assert(m.spec_read((keys + 24) as u64, 8) == Some(whole.subrange(24, 32)));
            assert(m.spec_read((keys + first) as u64, 24 * n) == Some(
                whole.subrange(first as int, (first + 24 * n) as int),
            ));
            assert(whole.subrange(8, 11) =~= kt.subrange(8, 11));
            assert(whole.subrange(24, 32) =~= kt.subrange(24, 32));
            assert(whole.subrange(first as int, (first + 24 * n) as int) =~= kt.subrange(
                first as int,
                (first + 24 * n) as int,
            ));
            assert(spec_index_log2(log2 as u8) == log2);
            assert((keys + 32 + pow2(log2)) as u64 == (keys + first) as u64);
            assert(spec_key_table(m, keys, rt.keys) == Ok::<KeyTable, Bad>(
                KeyTable {
                    size: size as u64,
                    nentries: n as i64,
                    first: (keys + first) as u64,
                    stride: 24,
                },
            ));
        },
    }
    let t = KeyTable {
        size: size as u64,
        nentries: n as i64,
        first: (keys + first) as u64,
        stride: 24,
    };
    assert(spec_key_table(m, keys, rt.keys) == Ok::<KeyTable, Bad>(t));
    assert(table == whole.subrange(first as int, (first + 24 * n) as int));
    assert((t.nentries as u64) == n);
    assert(t.stride == 24);
    assert(((t.nentries as u64) * t.stride) as nat == 24 * n);
    assert(m.spec_read((keys + first) as u64, 24 * n) == Some(table));
    assert(m.spec_read(t.first, ((t.nentries as u64) * t.stride) as nat) == Some(table));
    // The dict object.
    let o0 = zeros(pad16(48));
    lemma_pad16_small();
    let o1 = write(o0, 0, word(1));
    let o2 = write(o1, 8, word(ty));
    let o3 = write(o2, 16, signed_word(live as i64));
    let ob = write(o3, 32, word(keys));
    assert(ob == dict_object(entries, keys, ty));
    lemma_write_window(o0, 0, word(1));
    lemma_write_window(o1, 8, word(ty));
    lemma_write_window(o2, 16, signed_word(live as i64));
    lemma_write_window(o3, 32, word(keys));
    assert(ob.subrange(16, 24) == o3.subrange(16, 24));
    assert(ob.subrange(40, 48) == o0.subrange(40, 48));
    assert(o0.subrange(40, 48) =~= le(0, 8)) by {
        reveal_with_fuel(le, 9);
    }
    lemma_le_reads_back(0, 8);
    lemma_le_reads_back(keys as nat, 8);
    vstd::arithmetic::div_mod::lemma_small_mod(keys as nat, pow256(8));
    lemma_signed_word_reads_back(live as i64);
    assert(m.spec_read((object + 16) as u64, 8) == Some(ob.subrange(16, 24)));
    assert(m.spec_read((object + 32) as u64, 8) == Some(ob.subrange(32, 40)));
    assert(m.spec_read((object + 40) as u64, 8) == Some(ob.subrange(40, 48)));
    assert(field_i64(m, object, DICT_USED) == Ok::<i64, Bad>(live as i64));
    assert(field_u64(m, object, DICT_KEYS) == Ok::<u64, Bad>(keys));
    assert(field_u64(m, object, DICT_VALUES) == Ok::<u64, Bad>(0));
    // The entries.
    lemma_live_entries(entries, n);
    assert(entries.take(n as int) =~= entries);
    assert(live_entries(table, None, 24, n) == live_of(entries));
}

/// The value the decoder gives a mapping of these entries, one level less deep than it.
pub open spec fn mapping_view<M: Memory + ?Sized>(
    m: &M,
    rt: Runtime,
    items: Seq<(u64, u64)>,
    used: u64,
    depth: nat,
) -> RawView {
    RawView::Mapping {
        entries: Seq::new(
            shown(items.len()),
            |i: int| (spec_value(m, rt, items[i].0, depth), spec_value(m, rt, items[i].1, depth)),
        ),
        full_length: cut_length(shown(items.len()) as int, used),
    }
}

/// A dict laid out as the builder lays it out decodes as a value, one level deeper than its
/// entries, to a mapping of its live entries' keys and values: the first [`MAX_ITEMS`], and
/// their count where there are more. As [`lemma_dict_items_read_back`], for at most 85 entries
/// and with a value for each live one.
pub proof fn lemma_dict_value_reads_back<M: Memory + ?Sized>(
    m: &M,
    rt: Runtime,
    object: u64,
    keys: u64,
    entries: Seq<(u64, u64)>,
    ty: u64,
    depth: nat,
)
    requires
        spec_plausible(object),
        spec_plausible(ty),
        spec_plausible(keys),
        entries.len() <= 85,
        forall|i: int| 0 <= i < entries.len() && (#[trigger] entries[i]).0 != 0 ==> entries[i].1 != 0,
        object == keys + keys_table(entries, rt.keys).len(),
        holds_at(m, keys, keys_table(entries, rt.keys) + dict_object(entries, keys, ty)),
        rt.spec_builtin(ty) == Some(Builtin::Dict),
    ensures
        spec_value(m, rt, object, depth + 1) == mapping_view(
            m,
            rt,
            live_of(entries),
            live_count(entries) as u64,
            depth,
        ),
{
    lemma_dict_items_read_back(m, rt, object, keys, entries, ty);
    lemma_holds_after(m, keys, keys_table(entries, rt.keys), dict_object(entries, keys, ty));
    lemma_live_of_len(entries);
    let o0 = zeros(pad16(48));
    lemma_pad16_small();
    let o1 = write(o0, 0, word(1));
    let o2 = write(o1, 8, word(ty));
    let o3 = write(o2, 16, signed_word(live_count(entries) as i64));
    let ob = write(o3, 32, word(keys));
    assert(ob == dict_object(entries, keys, ty));
    lemma_le_len(1, 8);
    lemma_le_len(ty as nat, 8);
    lemma_le_len(keys as nat, 8);
    assert(signed_word(live_count(entries) as i64).len() == 8) by {
        lemma_le_len(live_count(entries), 8);
    }
    lemma_write_window(o0, 0, word(1));
    lemma_write_window(o1, 8, word(ty));
    lemma_write_window(o2, 16, signed_word(live_count(entries) as i64));
    lemma_write_window(o3, 32, word(keys));
    assert(ob.subrange(0, 8) == o1.subrange(0, 8));
    assert(ob.subrange(8, 16) == o2.subrange(8, 16));
    lemma_header_reads_back(m, object, ty, ob);
    lemma_live_of_len(entries);
    let view = spec_value(m, rt, object, depth + 1);
    let items = live_of(entries);
    assert(view matches RawView::Mapping { entries: es, .. } && es =~= Seq::new(
        shown(items.len()),
        |i: int| (spec_value(m, rt, items[i].0, depth), spec_value(m, rt, items[i].1, depth)),
    ));
}

} // verus!
