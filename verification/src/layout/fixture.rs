//! The synthetic inventory the public fixtures and tests read: made-up values, in the shape the
//! recognition rule accepts, in a synthetic runtime. Nothing here is a claim about what the game
//! stores; it exercises every path the reader has.

use vstd::prelude::*;

use super::cpython::{lemma_pow2_mono, lemma_pow2_values, pow2, pow2_u64, Builtin, DictKeys};
use super::memory::{image_shape, Image, Overlap, RegionKind};
use super::synthetic::{
    dict_object, float_bytes, initial_heap, initial_image, keys_table, list_array, list_object,
    long_bytes, none_address, str_bytes, tuple_bytes, type_addresses, type_slot, Builder,
    HEAP_BASE, IMAGE_BASE, ROOM,
};

verus! {

/// Container keys of the three souls the inventory holds, in its order.
pub const IDS: [&'static str; 3] = [
    "000000000000000000000001",
    "000000000000000000000002",
    "000000000000000000000003",
];

/// The bits of the IEEE 754 double of `n / 2^scale`, for `0 < n < 2^53`: a biased exponent
/// from the position of `n`'s top bit, and the bits below the top bit as the fraction.
pub open spec fn dyadic_bits(n: nat, scale: nat) -> nat {
    let top = choose|t: nat| #[trigger] pow2(t) <= n < pow2(t + 1);
    ((1023 + top - scale) * pow2(52) + (n - pow2(top)) * pow2((52 - top) as nat)) as nat
}

proof fn lemma_top_unique(n: nat, a: nat, b: nat)
    requires
        pow2(a) <= n < pow2(a + 1),
        pow2(b) <= n < pow2(b + 1),
    ensures
        a == b,
{
    if a < b {
        lemma_pow2_mono(a + 1, b);
    } else if b < a {
        lemma_pow2_mono(b + 1, a);
    }
}

/// The bits of the IEEE 754 double of `n / 2^scale`.
#[verifier::spinoff_prover]
fn dyadic(n: u64, scale: u64) -> (r: u64)
    requires
        0 < n < 0x20_0000_0000_0000,
        scale <= 1000,
    ensures
        r == dyadic_bits(n as nat, scale as nat),
{
    let mut top: u64 = 0;
    let mut p: u64 = 1;
    proof {
        reveal_with_fuel(pow2, 2);
        lemma_pow2_values();
    }
    while p <= n / 2
        invariant
            0 < n < 0x20_0000_0000_0000,
            p == pow2(top as nat),
            1 <= p <= n,
            top <= 52,
        decreases n - p,
    {
        if top >= 52 {
            proof {
                lemma_pow2_mono(53, (top + 1) as nat);
                reveal_with_fuel(pow2, 54);
            }
        }
        p = p * 2;
        top = top + 1;
    }
    proof {
        assert(pow2((top + 1) as nat) == 2 * p);
        let t = choose|t: nat| #[trigger] pow2(t) <= n < pow2(t + 1);
        assert(pow2(top as nat) <= n < pow2((top + 1) as nat));
        lemma_top_unique(n as nat, t, top as nat);
    }
    let frac_scale = pow2_u64((52 - top) as u8);
    proof {
        reveal_with_fuel(pow2, 53);
        lemma_pow2_sum(top as nat, (52 - top) as nat);
        assert(pow2(52) == 0x10_0000_0000_0000);
        assert((n - p) * frac_scale < 0x10_0000_0000_0000) by (nonlinear_arith)
            requires
                n - p < p,
                p * frac_scale == 0x10_0000_0000_0000,
        ;
        lemma_pow2_sum(top as nat, (52 - top) as nat);
    }
    (1023 + top - scale) * 0x10_0000_0000_0000 + (n - p) * frac_scale
}

proof fn lemma_pow2_sum(a: nat, b: nat)
    ensures
        pow2(a) * pow2(b) == pow2(a + b),
    decreases a,
{
    if a > 0 {
        lemma_pow2_sum((a - 1) as nat, b);
        assert(pow2(a + b) == 2 * pow2((a - 1 + b) as nat));
        assert(pow2(a) * pow2(b) == 2 * (pow2((a - 1) as nat) * pow2(b))) by (nonlinear_arith)
            requires
                pow2(a) == 2 * pow2((a - 1) as nat),
        ;
    } else {
        assert(pow2(0) == 1);
        assert(a + b == b);
    }
}

} // verus!

verus! {

/// `after` is `before` with `piece` laid out at its end.
#[verifier::opaque]
pub open spec fn grows(before: Seq<u8>, after: Seq<u8>, piece: Seq<u8>) -> bool {
    after == before + piece
}

/// The type object of builtin `b` among a builder's `types`.
pub open spec fn ty_in(types: Seq<u64>, b: Builtin) -> u64 {
    types[type_slot(b)]
}

/// The `i`-th attribute pair of a soul laid out `at` bytes into the heap: the int `i + 1`, the
/// float `i / 2`, and the tuple of the two.
pub open spec fn pair_bytes(types: Seq<u64>, i: nat, at: nat) -> Seq<u8> {
    let code = long_bytes((i + 1) as i64, ty_in(types, Builtin::Int));
    let value = float_bytes(
        if i == 0 {
            0u64
        } else {
            dyadic_bits(i, 1) as u64
        },
        ty_in(types, Builtin::Float),
    );
    code + value + tuple_bytes(
        seq![(HEAP_BASE + at) as u64, (HEAP_BASE + at + code.len()) as u64],
        ty_in(types, Builtin::Tuple),
    )
}

/// Where the tuple of the `i`-th attribute pair is, the pair laid out `at` bytes into the heap.
pub open spec fn pair_address(types: Seq<u64>, i: nat, at: nat) -> u64 {
    (HEAP_BASE + at + long_bytes((i + 1) as i64, ty_in(types, Builtin::Int)).len() + 32) as u64
}

/// The first `k` attribute pairs of a soul, one after another from `at` bytes into the heap.
pub open spec fn pairs_bytes(types: Seq<u64>, k: nat, at: nat) -> Seq<u8>
    decreases k,
{
    if k == 0 {
        Seq::empty()
    } else {
        let p = pairs_bytes(types, (k - 1) as nat, at);
        p + pair_bytes(types, (k - 1) as nat, at + p.len())
    }
}

/// Where the tuples of the first `k` attribute pairs are.
pub open spec fn pairs_addresses(types: Seq<u64>, k: nat, at: nat) -> Seq<u64>
    decreases k,
{
    if k == 0 {
        Seq::empty()
    } else {
        pairs_addresses(types, (k - 1) as nat, at).push(
            pair_address(types, (k - 1) as nat, at + pairs_bytes(types, (k - 1) as nat, at).len()),
        )
    }
}

/// A dict of `entries`, laid out `at` bytes into the heap: its key table, then the dict.
pub open spec fn table_bytes(dk: DictKeys, types: Seq<u64>, at: nat, entries: Seq<(u64, u64)>) -> Seq<
    u8,
> {
    keys_table(entries, dk) + dict_object(
        entries,
        (HEAP_BASE + at) as u64,
        ty_in(types, Builtin::Dict),
    )
}

/// A soul laid out `at` bytes into the heap, and where its dict is: the values of its six
/// checked keys `keys`, one after another (its `n` attribute pairs and their list, `n`, the
/// innate attribute unless it is `None`, the large int, the label, the number), then the dict.
#[verifier::opaque]
pub open spec fn soul_layout(
    dk: DictKeys,
    types: Seq<u64>,
    none: u64,
    at: nat,
    keys: Seq<u64>,
    n: i64,
    innate: Option<i64>,
    label: Seq<char>,
) -> (Seq<u8>, u64) {
    let t_int = ty_in(types, Builtin::Int);
    let p = pairs_bytes(types, n as nat, at);
    let a0 = at + p.len();
    let b0 = long_bytes(n, t_int);
    let a1 = a0 + b0.len();
    let items = pairs_addresses(types, n as nat, at);
    let b1 = list_object(items, (HEAP_BASE + a1) as u64, ty_in(types, Builtin::List)) + list_array(
        items,
    );
    let a2 = a1 + b1.len();
    let v2 = match innate {
        Some(_) => (HEAP_BASE + a2) as u64,
        None => none,
    };
    let b2 = match innate {
        Some(v) => long_bytes(v, t_int),
        None => Seq::empty(),
    };
    let a3 = a2 + b2.len();
    let b3 = long_bytes((0x100_0000_0000 + n) as i64, t_int);
    let a4 = a3 + b3.len();
    let b4 = str_bytes(label, ty_in(types, Builtin::Str));
    let a5 = a4 + b4.len();
    let b5 = float_bytes(dyadic_bits((10 * n) as nat, 0) as u64, ty_in(types, Builtin::Float));
    let a6 = a5 + b5.len();
    let es = seq![
        (keys[0], (HEAP_BASE + a0) as u64),
        (keys[1], (HEAP_BASE + a1) as u64),
        (keys[2], v2),
        (keys[3], (HEAP_BASE + a3) as u64),
        (keys[4], (HEAP_BASE + a4) as u64),
        (keys[5], (HEAP_BASE + a5) as u64),
    ];
    (
        p + b0 + b1 + b2 + b3 + b4 + b5 + table_bytes(dk, types, a6, es),
        (HEAP_BASE + a6 + keys_table(es, dk).len()) as u64,
    )
}

/// Eight byte strings, one after another, however they are grouped.
proof fn lemma_cat_seven(
    h: Seq<u8>,
    a: Seq<u8>,
    b: Seq<u8>,
    c: Seq<u8>,
    d: Seq<u8>,
    e: Seq<u8>,
    f: Seq<u8>,
    g: Seq<u8>,
)
    ensures
        h + a + b + c + d + e + f + g == h + (a + b + c + d + e + f + g),
{
    assert(h + a + b + c + d + e + f + g =~= h + (a + b + c + d + e + f + g));
}

/// The bytes of a soul, one after another, however they are grouped.
proof fn lemma_cat_soul(
    h: Seq<u8>,
    p: Seq<u8>,
    b0: Seq<u8>,
    lo: Seq<u8>,
    la: Seq<u8>,
    b2: Seq<u8>,
    b3: Seq<u8>,
    b4: Seq<u8>,
    b5: Seq<u8>,
    kt: Seq<u8>,
    dob: Seq<u8>,
)
    ensures
        h + p + b0 + lo + la + b2 + b3 + b4 + b5 + kt + dob == h + (p + b0 + (lo + la) + b2 + b3
            + b4 + b5 + (kt + dob)),
{
    assert(h + p + b0 + lo + la + b2 + b3 + b4 + b5 + kt + dob =~= h + (p + b0 + (lo + la) + b2
        + b3 + b4 + b5 + (kt + dob)));
}

/// Nothing laid out after a heap leaves it as it was.
proof fn lemma_cat_empty(h: Seq<u8>)
    ensures
        h + Seq::<u8>::empty() == h,
{
    assert(h + Seq::<u8>::empty() =~= h);
}

/// The `i`-th attribute pair of a soul, laid out at the end of the heap; where its tuple is.
fn attribute_pair(b: &mut Builder, i: i64) -> (r: u64)
    requires
        old(b).wf(),
        0 <= i < 4,
        old(b).spec_heap().len() + 128 <= ROOM,
    ensures
        final(b).wf(),
        final(b).spec_keys() == old(b).spec_keys(),
        final(b).same_but_heap(old(b)),
        final(b).spec_heap() == old(b).spec_heap() + pair_bytes(
            old(b).spec_types(),
            i as nat,
            old(b).spec_heap().len(),
        ),
        r == pair_address(old(b).spec_types(), i as nat, old(b).spec_heap().len()),
        final(b).spec_heap().len() <= old(b).spec_heap().len() + 128,
{
    let ghost h = b.spec_heap();
    let ghost types = b.spec_types();
    proof {
        super::synthetic::lemma_pad16_small();
    }
    let code = b.integer(i + 1);
    let bits = if i == 0 {
        0
    } else {
        dyadic(i as u64, 1)
    };
    let value = b.float_bits(bits);
    let pair = vec![code, value];
    let t = b.tuple(pair.as_slice());
    proof {
        let at = h.len();
        let c = long_bytes((i + 1) as i64, ty_in(types, Builtin::Int));
        assert(pair@ =~= seq![(HEAP_BASE + at) as u64, (HEAP_BASE + at + c.len()) as u64]);
        let v = float_bytes(
            if i == 0 {
                0u64
            } else {
                dyadic_bits(i as nat, 1) as u64
            },
            ty_in(types, Builtin::Float),
        );
        let tb = tuple_bytes(
            seq![(HEAP_BASE + at) as u64, (HEAP_BASE + at + c.len()) as u64],
            ty_in(types, Builtin::Tuple),
        );
        lemma_cat_four(h, c, v, tb);
    }
    t
}

/// Four byte strings, one after another, however they are grouped.
proof fn lemma_cat_four(h: Seq<u8>, c: Seq<u8>, v: Seq<u8>, t: Seq<u8>)
    ensures
        h + c + v + t == h + (c + v + t),
{
    assert(h + c + v + t =~= h + (c + v + t));
}

/// Three byte strings, one after another, however they are grouped.
proof fn lemma_cat_three(h: Seq<u8>, p: Seq<u8>, q: Seq<u8>)
    ensures
        h + p + q == h + (p + q),
{
    assert(h + p + q =~= h + (p + q));
}

/// A soul's `n` attribute pairs, laid out at the end of the heap; where their tuples are.
fn attribute_pairs(b: &mut Builder, n: i64) -> (r: Vec<u64>)
    requires
        old(b).wf(),
        1 <= n <= 4,
        old(b).spec_heap().len() + 2048 <= ROOM,
    ensures
        final(b).wf(),
        final(b).spec_keys() == old(b).spec_keys(),
        final(b).same_but_heap(old(b)),
        final(b).spec_heap() == old(b).spec_heap() + pairs_bytes(
            old(b).spec_types(),
            n as nat,
            old(b).spec_heap().len(),
        ),
        r@ == pairs_addresses(old(b).spec_types(), n as nat, old(b).spec_heap().len()),
        r@.len() == n,
        final(b).spec_heap().len() <= old(b).spec_heap().len() + 128 * n,
{
    let ghost b0 = *b;
    let ghost h0 = b.spec_heap();
    let ghost start = b.spec_heap().len();
    let ghost types = b.spec_types();
    let mut pairs: Vec<u64> = Vec::new();
    let mut i: i64 = 0;
    while i < n
        invariant
            b.wf(),
            b.spec_keys() == old(b).spec_keys(),
            b.same_but_heap(&b0),
            b0 == *old(b),
            h0 == b0.spec_heap(),
            types == b0.spec_types(),
            start == h0.len(),
            b.spec_heap() == h0 + pairs_bytes(types, i as nat, start),
            pairs@ == pairs_addresses(types, i as nat, start),
            pairs@.len() == i,
            1 <= n <= 4,
            0 <= i <= n,
            b.spec_heap().len() <= start + 128 * i,
            start + 2048 <= ROOM,
        decreases n - i,
    {
        let ghost p = pairs_bytes(types, i as nat, start);
        let t = attribute_pair(b, i);
        proof {
            lemma_cat_three(h0, p, pair_bytes(types, i as nat, start + p.len()));
        }
        pairs.push(t);
        i += 1;
    }
    pairs
}

/// A soul: a dict of the six checked keys, whose values have the kinds the rule gives them.
/// `n` picks its values: `n` attribute pairs, `n` as its index, the innate attribute or None,
/// a large int holding `n`, its label, and `10 n` as its number. The values are laid out at the
/// end of the heap, then the dict, whose keys are `keys` in order.
#[verifier::spinoff_prover]
#[verifier::rlimit(100)]
fn soul(b: &mut Builder, keys: &Vec<u64>, n: i64, innate: Option<i64>, label: &str) -> (r: u64)
    requires
        old(b).wf(),
        keys@.len() == 6,
        1 <= n <= 4,
        label@.len() <= 16,
        old(b).spec_heap().len() + 2048 <= ROOM,
    ensures
        final(b).wf(),
        final(b).spec_keys() == old(b).spec_keys(),
        final(b).same_but_heap(old(b)),
        final(b).spec_heap().len() <= old(b).spec_heap().len() + 2048,
        ({
            let s = soul_layout(
                old(b).spec_keys(),
                old(b).spec_types(),
                old(b).spec_none(),
                old(b).spec_heap().len(),
                keys@,
                n,
                innate,
                label@,
            );
            grows(old(b).spec_heap(), final(b).spec_heap(), s.0) && r == s.1
        }),
{
    let ghost b0 = *b;
    let ghost h0 = b.spec_heap();
    let ghost start = b.spec_heap().len();
    let ghost types = b.spec_types();
    proof {
        super::synthetic::lemma_pad16_small();
    }
    let pairs = attribute_pairs(b, n);
    let v0 = b.integer(n);
    let v1 = b.list(pairs.as_slice());
    let v2 = match innate {
        Some(v) => b.integer(v),
        None => b.none(),
    };
    let v3 = b.integer(0x100_0000_0000 + n);
    let v4 = b.str(label);
    let v5 = b.float_bits(dyadic((10 * n) as u64, 0));
    let entries = vec![
        (keys[0], v0),
        (keys[1], v1),
        (keys[2], v2),
        (keys[3], v3),
        (keys[4], v4),
        (keys[5], v5),
    ];
    let ghost hv = b.spec_heap();
    let r = b.dict(entries.as_slice());
    proof {
        reveal(grows);
        reveal(soul_layout);
        let s = soul_layout(b0.spec_keys(), types, b0.spec_none(), start, keys@, n, innate, label@);
        let t_int = ty_in(types, Builtin::Int);
        let p = pairs_bytes(types, n as nat, start);
        let a1 = start + p.len() + long_bytes(n, t_int).len();
        let items = pairs_addresses(types, n as nat, start);
        let lo = list_object(items, (HEAP_BASE + a1) as u64, ty_in(types, Builtin::List));
        let la = list_array(items);
        let a2 = a1 + lo.len() + la.len();
        let b2 = match innate {
            Some(v) => long_bytes(v, t_int),
            None => Seq::empty(),
        };
        let a3 = a2 + b2.len();
        let b3 = long_bytes((0x100_0000_0000 + n) as i64, t_int);
        let b4 = str_bytes(label@, ty_in(types, Builtin::Str));
        let a5 = a3 + b3.len() + b4.len();
        let b5 = float_bytes(dyadic_bits((10 * n) as nat, 0) as u64, ty_in(types, Builtin::Float));
        let es = entries@;
        let kt = keys_table(es, b0.spec_keys());
        let dob = dict_object(es, (HEAP_BASE + a5 + b5.len()) as u64, ty_in(types, Builtin::Dict));
        if innate is None {
            lemma_cat_empty(h0 + p + long_bytes(n, t_int) + lo + la);
        }
        lemma_cat_soul(h0, p, long_bytes(n, t_int), lo, la, b2, b3, b4, b5, kt, dob);
        assert(b.spec_heap() == h0 + s.0);
    }
    r
}

/// A str, of a text at most 32 characters long.
fn text(b: &mut Builder, s: &str) -> (r: u64)
    requires
        old(b).wf(),
        s@.len() <= 32,
        old(b).spec_heap().len() + 224 <= ROOM,
    ensures
        final(b).wf(),
        final(b).spec_keys() == old(b).spec_keys(),
        final(b).same_but_heap(old(b)),
        grows(old(b).spec_heap(), final(b).spec_heap(), str_bytes(
            s@,
            ty_in(old(b).spec_types(), Builtin::Str),
        )),
        r == HEAP_BASE + old(b).spec_heap().len(),
        final(b).spec_heap().len() <= old(b).spec_heap().len() + 224,
{
    let r = b.str(s);
    proof {
        reveal(grows);
    }
    r
}

/// A dict of at most six entries.
fn table(b: &mut Builder, entries: &Vec<(u64, u64)>)
    requires
        old(b).wf(),
        entries@.len() <= 6,
        old(b).spec_heap().len() + 400 <= ROOM,
    ensures
        final(b).wf(),
        final(b).spec_keys() == old(b).spec_keys(),
        final(b).same_but_heap(old(b)),
        grows(old(b).spec_heap(), final(b).spec_heap(), table_bytes(
            old(b).spec_keys(),
            old(b).spec_types(),
            old(b).spec_heap().len(),
            entries@,
        )),
        final(b).spec_heap().len() <= old(b).spec_heap().len() + 400,
{
    let ghost before = *b;
    let _ = b.dict(entries.as_slice());
    proof {
        reveal(grows);
        assert(b.spec_heap() =~= before.spec_heap() + table_bytes(
            before.spec_keys(),
            before.spec_types(),
            before.spec_heap().len(),
            entries@,
        ));
    }
}

/// An int.
fn number(b: &mut Builder, n: i64) -> (r: u64)
    requires
        old(b).wf(),
        old(b).spec_heap().len() + 48 <= ROOM,
    ensures
        final(b).wf(),
        final(b).spec_keys() == old(b).spec_keys(),
        final(b).same_but_heap(old(b)),
        grows(old(b).spec_heap(), final(b).spec_heap(), long_bytes(
            n,
            ty_in(old(b).spec_types(), Builtin::Int),
        )),
        r == HEAP_BASE + old(b).spec_heap().len(),
        final(b).spec_heap().len() <= old(b).spec_heap().len() + 48,
{
    let r = b.integer(n);
    proof {
        reveal(grows);
    }
    r
}

/// The strs the inventory lays out first, of type `ty`: the keys of a soul's attributes, then
/// the note that marks a dict which is not a soul.
#[verifier::opaque]
pub open spec fn marker_strs(ty: u64) -> Seq<u8> {
    str_bytes("base_rindex"@, ty) + str_bytes("rattr"@, ty) + str_bytes("single_attr"@, ty)
        + str_bytes("others"@, ty) + str_bytes("sattr"@, ty) + str_bytes("base_r"@, ty)
        + str_bytes("synthetic_note"@, ty)
}

/// Where the strs of [`marker_strs`] are, laid out from `at` bytes into the heap.
#[verifier::opaque]
pub open spec fn marker_addresses(ty: u64, at: nat) -> Seq<u64> {
    let a1 = at + str_bytes("base_rindex"@, ty).len();
    let a2 = a1 + str_bytes("rattr"@, ty).len();
    let a3 = a2 + str_bytes("single_attr"@, ty).len();
    let a4 = a3 + str_bytes("others"@, ty).len();
    let a5 = a4 + str_bytes("sattr"@, ty).len();
    let a6 = a5 + str_bytes("base_r"@, ty).len();
    seq![
        (HEAP_BASE + at) as u64,
        (HEAP_BASE + a1) as u64,
        (HEAP_BASE + a2) as u64,
        (HEAP_BASE + a3) as u64,
        (HEAP_BASE + a4) as u64,
        (HEAP_BASE + a5) as u64,
        (HEAP_BASE + a6) as u64,
    ]
}

/// The strs of [`marker_strs`], laid out at the end of the heap, in that order.

fn markers(b: &mut Builder) -> (r: Vec<u64>)
    requires
        old(b).wf(),
        old(b).spec_heap().len() + 7 * 224 <= ROOM,
    ensures
        final(b).wf(),
        final(b).spec_keys() == old(b).spec_keys(),
        final(b).same_but_heap(old(b)),
        grows(old(b).spec_heap(), final(b).spec_heap(), marker_strs(
            ty_in(old(b).spec_types(), Builtin::Str),
        )),
        r@ == marker_addresses(ty_in(old(b).spec_types(), Builtin::Str), old(b).spec_heap().len()),
        r@.len() == 7,
        final(b).spec_heap().len() <= old(b).spec_heap().len() + 7 * 224,
{
    proof {
        reveal(grows);
        reveal(marker_strs);
        reveal(marker_addresses);
        reveal_strlit("base_rindex");
        reveal_strlit("rattr");
        reveal_strlit("single_attr");
        reveal_strlit("others");
        reveal_strlit("sattr");
        reveal_strlit("base_r");
        reveal_strlit("synthetic_note");
    }
    let ghost h = b.spec_heap();
    let ghost t = ty_in(b.spec_types(), Builtin::Str);
    let base_rindex = text(b, "base_rindex");
    let rattr = text(b, "rattr");
    let single_attr = text(b, "single_attr");
    let others = text(b, "others");
    let sattr = text(b, "sattr");
    let base_r = text(b, "base_r");
    let note = text(b, "synthetic_note");
    proof {
        lemma_cat_seven(
            h,
            str_bytes("base_rindex"@, t),
            str_bytes("rattr"@, t),
            str_bytes("single_attr"@, t),
            str_bytes("others"@, t),
            str_bytes("sattr"@, t),
            str_bytes("base_r"@, t),
            str_bytes("synthetic_note"@, t),
        );
    }
    let r = vec![base_rindex, rattr, single_attr, others, sattr, base_r, note];
    assert(r@ =~= marker_addresses(t, h.len()));
    r
}

/// The heap of the inventory: what a new builder holds, the marker strs, four souls, the three
/// container keys, the container, a second container keyed by an int, a dict with one marker
/// key and a note, and a dict with two marker keys whose values are texts.
#[verifier::opaque]
pub open spec fn inventory_heap(keys: DictKeys) -> Seq<u8> {
    let types = type_addresses();
    let none = none_address();
    let t_str = ty_in(types, Builtin::Str);
    let t_int = ty_in(types, Builtin::Int);
    let ms = marker_addresses(t_str, initial_heap(keys).len());
    let ks = ms.take(6);
    let h0 = initial_heap(keys) + marker_strs(t_str);
    let s1 = soul_layout(keys, types, none, h0.len(), ks, 1, None, "synthetic-1"@);
    let h1 = h0 + s1.0;
    let s2 = soul_layout(keys, types, none, h1.len(), ks, 2, Some(7), "synthetic-2"@);
    let h2 = h1 + s2.0;
    let s3 = soul_layout(keys, types, none, h2.len(), ks, 3, None, "synthetic-3"@);
    let h3 = h2 + s3.0;
    let s4 = soul_layout(keys, types, none, h3.len(), ks, 4, Some(9), "synthetic-4"@);
    let h4 = h3 + s4.0;
    let id0 = (HEAP_BASE + h4.len()) as u64;
    let h5 = h4 + str_bytes("000000000000000000000001"@, t_str);
    let id1 = (HEAP_BASE + h5.len()) as u64;
    let h6 = h5 + str_bytes("000000000000000000000002"@, t_str);
    let id2 = (HEAP_BASE + h6.len()) as u64;
    let h7 = h6 + str_bytes("000000000000000000000003"@, t_str);
    let h8 = h7 + table_bytes(keys, types, h7.len(), seq![(id0, s1.1), (id1, s2.1), (id2, s3.1)]);
    let slot = (HEAP_BASE + h8.len()) as u64;
    let h9 = h8 + long_bytes(2, t_int);
    let h10 = h9 + table_bytes(keys, types, h9.len(), seq![(slot, s2.1)]);
    let one = (HEAP_BASE + h10.len()) as u64;
    let h11 = h10 + long_bytes(1, t_int);
    let phrase = (HEAP_BASE + h11.len()) as u64;
    let h12 = h11 + str_bytes("not a soul"@, t_str);
    let h13 = h12 + table_bytes(keys, types, h12.len(), seq![(ms[0], one), (ms[6], phrase)]);
    h13 + table_bytes(keys, types, h13.len(), seq![(ms[0], ms[0]), (ms[1], ms[1])])
}

/// The heaps a builder holds as the inventory is laid out, step by step, end in
/// [`inventory_heap`].
proof fn lemma_inventory_heap(
    keys: DictKeys,
    g: Seq<u8>,
    g0: Seq<u8>,
    g1: Seq<u8>,
    g2: Seq<u8>,
    g3: Seq<u8>,
    g4: Seq<u8>,
    g5: Seq<u8>,
    g6: Seq<u8>,
    g7: Seq<u8>,
    g8: Seq<u8>,
    g9: Seq<u8>,
    g10: Seq<u8>,
    g11: Seq<u8>,
    g12: Seq<u8>,
    g13: Seq<u8>,
    g14: Seq<u8>,
)
    requires
        ({
            let types = type_addresses();
            let none = none_address();
            let t_str = ty_in(types, Builtin::Str);
            let t_int = ty_in(types, Builtin::Int);
            let ms = marker_addresses(t_str, initial_heap(keys).len());
            let ks = ms.take(6);
            let s1 = soul_layout(keys, types, none, g0.len(), ks, 1, None, "synthetic-1"@);
            let s2 = soul_layout(keys, types, none, g1.len(), ks, 2, Some(7), "synthetic-2"@);
            let s3 = soul_layout(keys, types, none, g2.len(), ks, 3, None, "synthetic-3"@);
            let s4 = soul_layout(keys, types, none, g3.len(), ks, 4, Some(9), "synthetic-4"@);
            let id0 = (HEAP_BASE + g4.len()) as u64;
            let id1 = (HEAP_BASE + g5.len()) as u64;
            let id2 = (HEAP_BASE + g6.len()) as u64;
            let slot = (HEAP_BASE + g8.len()) as u64;
            let one = (HEAP_BASE + g10.len()) as u64;
            let phrase = (HEAP_BASE + g11.len()) as u64;
            &&& g == initial_heap(keys)
            &&& grows(g, g0, marker_strs(t_str))
            &&& grows(g0, g1, s1.0)
            &&& grows(g1, g2, s2.0)
            &&& grows(g2, g3, s3.0)
            &&& grows(g3, g4, s4.0)
            &&& grows(g4, g5, str_bytes("000000000000000000000001"@, t_str))
            &&& grows(g5, g6, str_bytes("000000000000000000000002"@, t_str))
            &&& grows(g6, g7, str_bytes("000000000000000000000003"@, t_str))
            &&& grows(
                g7,
                g8,
                table_bytes(keys, types, g7.len(), seq![(id0, s1.1), (id1, s2.1), (id2, s3.1)]),
            )
            &&& grows(g8, g9, long_bytes(2, t_int))
            &&& grows(g9, g10, table_bytes(keys, types, g9.len(), seq![(slot, s2.1)]))
            &&& grows(g10, g11, long_bytes(1, t_int))
            &&& grows(g11, g12, str_bytes("not a soul"@, t_str))
            &&& grows(g12, g13, table_bytes(keys, types, g12.len(), seq![(ms[0], one), (ms[6], phrase)]))
            &&& grows(g13, g14, table_bytes(keys, types, g13.len(), seq![(ms[0], ms[0]), (ms[1], ms[1])]))
        }),
    ensures
        g14 == inventory_heap(keys),
{
    reveal(grows);
    reveal(inventory_heap);
}

/// Three souls in a container, a fourth outside any container, a second container holding one
/// of the three, a dict with only one marker key, which is not a soul, and a dict with two
/// marker keys whose values are texts, as in the runtime's table of interned names, which the
/// rule rejects.

pub fn inventory(keys: DictKeys) -> (r: Result<Image, Overlap>)
    ensures
        r matches Ok(m) && m.spec_region_list().len() == 2 && m.spec_region_list()[0].base
            == IMAGE_BASE && m.spec_region_list()[0].kind == RegionKind::Image
            && m.spec_region_list()[1].base == HEAP_BASE && m.spec_region_list()[1].kind
            == RegionKind::Private && m.spec_bytes()[0] == initial_image(keys)
            && m.spec_bytes()[1] == inventory_heap(keys) && image_shape(
                m.spec_region_list(),
                m.spec_bytes(),
            ),
{
    let mut b = Builder::new(keys);
    proof {
        reveal_strlit("synthetic-1");
        reveal_strlit("synthetic-2");
        reveal_strlit("synthetic-3");
        reveal_strlit("synthetic-4");
        reveal_strlit("000000000000000000000001");
        reveal_strlit("000000000000000000000002");
        reveal_strlit("000000000000000000000003");
        reveal_strlit("not a soul");
    }
    let ghost g = b.spec_heap();
    let names = markers(&mut b);
    let ghost g0 = b.spec_heap();
    let ks = vec![names[0], names[1], names[2], names[3], names[4], names[5]];
    assert(ks@ =~= names@.take(6));
    let s1 = soul(&mut b, &ks, 1, None, "synthetic-1");
    let ghost g1 = b.spec_heap();
    let s2 = soul(&mut b, &ks, 2, Some(7), "synthetic-2");
    let ghost g2 = b.spec_heap();
    let s3 = soul(&mut b, &ks, 3, None, "synthetic-3");
    let ghost g3 = b.spec_heap();
    let _stray = soul(&mut b, &ks, 4, Some(9), "synthetic-4");
    let ghost g4 = b.spec_heap();
    let id0 = text(&mut b, IDS[0]);
    let ghost g5 = b.spec_heap();
    let id1 = text(&mut b, IDS[1]);
    let ghost g6 = b.spec_heap();
    let id2 = text(&mut b, IDS[2]);
    let ghost g7 = b.spec_heap();
    let container = vec![(id0, s1), (id1, s2), (id2, s3)];
    table(&mut b, &container);
    let ghost g8 = b.spec_heap();
    let slot = number(&mut b, 2);
    let ghost g9 = b.spec_heap();
    let second = vec![(slot, s2)];
    assert(second@ =~= seq![(slot, s2)]);
    table(&mut b, &second);
    let ghost g10 = b.spec_heap();
    let one = number(&mut b, 1);
    let ghost g11 = b.spec_heap();
    let phrase = text(&mut b, "not a soul");
    let ghost g12 = b.spec_heap();
    let one_marker = vec![(names[0], one), (names[6], phrase)];
    table(&mut b, &one_marker);
    let ghost g13 = b.spec_heap();
    let texts = vec![(names[0], names[0]), (names[1], names[1])];
    table(&mut b, &texts);
    proof {
        lemma_inventory_heap(
            keys,
            g,
            g0,
            g1,
            g2,
            g3,
            g4,
            g5,
            g6,
            g7,
            g8,
            g9,
            g10,
            g11,
            g12,
            g13,
            b.spec_heap(),
        );
    }
    b.finish()
}

} // verus!
