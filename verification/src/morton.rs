//! Morton keys: bit spreading, interleaving and the split rule used to
//! partition a sorted run of keys.

use vstd::prelude::*;
use vstd::std_specs::bits::{axiom_u32_leading_zeros, u32_leading_zeros};

verus! {

/// The low ten bits of `x`, each moved from position `i` to position `3 * i`.
pub open spec fn spread(x: u32) -> u32 {
    (x & 0x001) | ((x & 0x002) << 2) | ((x & 0x004) << 4) | ((x & 0x008) << 6)
        | ((x & 0x010) << 8) | ((x & 0x020) << 10) | ((x & 0x040) << 12)
        | ((x & 0x080) << 14) | ((x & 0x100) << 16) | ((x & 0x200) << 18)
}

/// Spreads the low ten bits of `x` so that two zero bits separate each of them.
///
/// Bits 24 and 25 of `x` land where bits 8 and 9 do; every other bit above the
/// tenth is dropped.
pub fn expand_bits(x: u32) -> (r: u32)
    ensures
        r == spread(x) | (x & 0x0100_0000) | ((x & 0x0200_0000) << 2),
        x <= 0xFFFF ==> r == spread(x),
{
    let a: u32 = (x | (x << 16)) & 0b11111111000000000000000011111111;
    let b: u32 = (a | (a << 8)) & 0b00001111000000001111000000001111;
    let c: u32 = (b | (b << 4)) & 0b00110011000011000011000011000011;
    let d: u32 = (c | (c << 2)) & 0b00001001001001001001001001001001;
    assert(d == spread(x) | (x & 0x0100_0000) | ((x & 0x0200_0000) << 2)) by (bit_vector)
        requires
            a == (x | (x << 16)) & 0b11111111000000000000000011111111u32,
            b == (a | (a << 8)) & 0b00001111000000001111000000001111u32,
            c == (b | (b << 4)) & 0b00110011000011000011000011000011u32,
            d == (c | (c << 2)) & 0b00001001001001001001001001001001u32,
    ;
    assert(x <= 0xFFFF ==> (x & 0x0100_0000) == 0 && ((x & 0x0200_0000) << 2) == 0) by (bit_vector);
    assert(spread(x) | 0 | 0 == spread(x)) by (bit_vector);
    d
}

/// The key of a point whose quantised coordinates are `x`, `y` and `z`:
/// bit `i` of `x` stands at position `3 * i`, that of `y` one higher and that
/// of `z` two higher.
pub open spec fn interleaved(x: u16, y: u16, z: u16) -> u32 {
    spread(x as u32) | (spread(y as u32) << 1) | (spread(z as u32) << 2)
}

/// Interleaves the low ten bits of three quantised coordinates into one key.
pub fn interleave(values: [u16; 3]) -> (r: u32)
    ensures
        r == interleaved(values[0], values[1], values[2]),
        r < 0x4000_0000,
{
    let x: u32 = expand_bits(values[0] as u32);
    let y: u32 = expand_bits(values[1] as u32);
    let z: u32 = expand_bits(values[2] as u32);
    assert(x == x & 0x0924_9249 && y == y & 0x0924_9249 && z == z & 0x0924_9249) by {
        lemma_spread_mask(values[0] as u32);
        lemma_spread_mask(values[1] as u32);
        lemma_spread_mask(values[2] as u32);
    }
    assert((x | (y << 1) | (z << 2)) < 0x4000_0000) by (bit_vector)
        requires
            x == x & 0x0924_9249,
            y == y & 0x0924_9249,
            z == z & 0x0924_9249,
    ;
    x | (y << 1) | (z << 2)
}

/// A spread value has bits at every third position only.
pub proof fn lemma_spread_mask(x: u32)
    ensures
        spread(x) == spread(x) & 0x0924_9249,
{
    assert(spread(x) == spread(x) & 0x0924_9249) by (bit_vector);
}

/// Spreading keeps the order of ten-bit values.
pub proof fn lemma_spread_monotonic(a: u32, b: u32)
    requires
        a <= b < 1024,
    ensures
        spread(a) <= spread(b),
{
    assert(spread(a) <= spread(b)) by (bit_vector)
        requires
            a <= b,
            b < 1024,
    ;
}

/// Moving a point along one axis towards larger coordinates, with the other
/// two coordinates fixed, never makes its key smaller.
pub proof fn lemma_interleaved_monotonic(a: u16, b: u16, p: u16, q: u16)
    requires
        a <= b < 1024,
    ensures
        interleaved(a, p, q) <= interleaved(b, p, q),
        interleaved(p, a, q) <= interleaved(p, b, q),
        interleaved(p, q, a) <= interleaved(p, q, b),
{
    let sa: u32 = spread(a as u32);
    let sb: u32 = spread(b as u32);
    let sp: u32 = spread(p as u32);
    let sq: u32 = spread(q as u32);
    lemma_spread_monotonic(a as u32, b as u32);
    lemma_spread_mask(a as u32);
    lemma_spread_mask(b as u32);
    lemma_spread_mask(p as u32);
    lemma_spread_mask(q as u32);
    assert((sa | (sp << 1) | (sq << 2)) <= (sb | (sp << 1) | (sq << 2)) && (sp | (sa << 1) | (sq
        << 2)) <= (sp | (sb << 1) | (sq << 2)) && (sp | (sq << 1) | (sa << 2)) <= (sp | (sq << 1)
        | (sb << 2))) by (bit_vector)
        requires
            sa <= sb,
            sa == sa & 0x0924_9249,
            sb == sb & 0x0924_9249,
            sp == sp & 0x0924_9249,
            sq == sq & 0x0924_9249,
    ;
}

/// The number of leading bits on which `x` and `y` agree.
pub open spec fn common_prefix(x: u32, y: u32) -> u32 {
    u32_leading_zeros(x ^ y)
}

/// Counts the leading bits on which `x` and `y` agree (32 where they are equal).
pub fn common_prefix_len(x: u32, y: u32) -> (r: u32)
    ensures
        r == common_prefix(x, y),
        r <= 32,
        r == 32 <==> x == y,
{
    proof {
        axiom_u32_leading_zeros(x ^ y);
        assert((x ^ y) == 0 <==> x == y) by (bit_vector);
    }
    (x ^ y).leading_zeros()
}

/// A mask of the `len` leading bits of a key (of all 32 where `len` is larger).
pub open spec fn prefix_mask(len: u32) -> u32 {
    if len >= 32 {
        0xFFFF_FFFF
    } else {
        !(0xFFFF_FFFFu32 >> len)
    }
}

/// Whether `v` belongs to the first child of a run that starts with `first`
/// and ends with `last`: it agrees with `first` on one bit more than `first`
/// and `last` agree on.
pub open spec fn in_first_child(first: u32, last: u32, v: u32) -> bool {
    let target: u32 = (common_prefix(first, last) + 1) as u32;
    common_prefix(first & prefix_mask(target), v) >= target
}

/// The keys never decrease along the run.
pub open spec fn non_decreasing(codes: Seq<u32>) -> bool {
    forall|i: int, j: int| 0 <= i <= j < codes.len() ==> codes[i] <= codes[j]
}

/// No key of the second child stands before a key of the first child.
pub open spec fn children_in_order(codes: Seq<u32>) -> bool {
    forall|i: int, j: int|
        #![trigger codes[i], codes[j]]
        0 <= i <= j < codes.len() && in_first_child(codes[0], codes.last(), codes[j])
            ==> in_first_child(codes[0], codes.last(), codes[i])
}

/// The first `split` keys of the run, and no others, belong to the first child.
pub open spec fn splits_at(codes: Seq<u32>, split: int) -> bool {
    &&& 0 <= split <= codes.len()
    &&& forall|i: int|
        0 <= i < codes.len() ==> (i < split <==> in_first_child(
            codes[0],
            codes.last(),
            #[trigger] codes[i],
        ))
}

/// `split` is where a run of keys parts into its two children: in the middle
/// where its ends are equal, else behind the last key of the first child.
pub open spec fn is_split(codes: Seq<u32>, split: int) -> bool {
    if codes.len() == 0 {
        split == 0
    } else if codes[0] == codes.last() {
        split == codes.len() / 2
    } else {
        splits_at(codes, split)
    }
}

/// At least `len` leading zeros means that nothing is left after shifting
/// the other bits out.
proof fn lemma_leading_zeros_shift(x: u32, len: u32)
    requires
        1 <= len <= 32,
    ensures
        u32_leading_zeros(x) >= len <==> x >> ((32 - len) as u32) == 0,
{
    axiom_u32_leading_zeros(x);
    let zeros: u32 = u32_leading_zeros(x);
    let keep: u32 = (32 - len) as u32;
    if zeros >= len {
        let a: u32 = (32 - zeros) as u32;
        assert(x >> keep == 0) by (bit_vector)
            requires
                a <= keep,
                keep < 32,
                x >> a == 0,
        ;
    } else {
        let j: u32 = (31 - zeros) as u32;
        assert(x >> keep != 0) by (bit_vector)
            requires
                keep <= j,
                j < 32,
                (x >> j) & 1 != 0,
        ;
    }
}

/// Belonging to the first child is agreeing with `first` above the bit at
/// which `first` and `last` part.
proof fn lemma_in_first_child(first: u32, last: u32, v: u32)
    requires
        first != last,
    ensures
        common_prefix(first, last) < 32,
        in_first_child(first, last, v) <==> v >> ((31 - common_prefix(first, last)) as u32) == first
            >> ((31 - common_prefix(first, last)) as u32),
        in_first_child(first, last, v) <==> common_prefix(first, v) > common_prefix(first, last),
{
    axiom_u32_leading_zeros(first ^ last);
    assert((first ^ last) == 0 <==> first == last) by (bit_vector);
    let target: u32 = (common_prefix(first, last) + 1) as u32;
    let keep: u32 = (32 - target) as u32;
    let mask: u32 = prefix_mask(target);
    lemma_leading_zeros_shift((first & mask) ^ v, target);
    lemma_leading_zeros_shift(first ^ v, target);
    lemma_leading_zeros_shift(first ^ last, target);
    assert((((first & mask) ^ v) >> keep == 0) <==> (v >> keep == first >> keep)) by (bit_vector)
        requires
            keep < 32,
            target == 32 - keep,
            mask == if target >= 32 {
                0xFFFF_FFFFu32
            } else {
                !(0xFFFF_FFFFu32 >> target)
            },
    ;
    assert(((first ^ v) >> keep == 0) <==> (v >> keep == first >> keep)) by (bit_vector)
        requires
            keep < 32,
    ;
}

/// The first key of a run belongs to the first child and the last key to
/// the second, where the two differ.
proof fn lemma_ends_apart(first: u32, last: u32)
    requires
        first != last,
    ensures
        in_first_child(first, last, first),
        !in_first_child(first, last, last),
{
    lemma_in_first_child(first, last, first);
    lemma_in_first_child(first, last, last);
}

/// In a run that never decreases, the keys of the first child come first.
pub proof fn lemma_sorted_children_in_order(codes: Seq<u32>)
    requires
        codes.len() >= 1,
        non_decreasing(codes),
    ensures
        children_in_order(codes),
{
    let first: u32 = codes[0];
    let last: u32 = codes.last();
    if first != last {
        let keep: u32 = (31 - common_prefix(first, last)) as u32;
        assert forall|i: int, j: int|
            0 <= i <= j < codes.len() && in_first_child(first, last, codes[j]) implies in_first_child(
            first,
            last,
            codes[i],
        ) by {
            let a: u32 = codes[i];
            let b: u32 = codes[j];
            lemma_in_first_child(first, last, a);
            lemma_in_first_child(first, last, b);
            assert(a >> keep == first >> keep) by (bit_vector)
                requires
                    first <= a,
                    a <= b,
                    b >> keep == first >> keep,
                    keep < 32,
            ;
        }
    }
}

/// Where the ends of a non-decreasing run differ, the split leaves both
/// children non-empty, and within each child the keys agree on more leading
/// bits than the ends of the whole run do.
pub proof fn lemma_split_refines(codes: Seq<u32>, split: int)
    requires
        codes.len() >= 1,
        non_decreasing(codes),
        codes[0] != codes.last(),
        splits_at(codes, split),
    ensures
        0 < split < codes.len(),
        forall|i: int|
            0 <= i < split ==> common_prefix(codes[0], #[trigger] codes[i]) > common_prefix(
                codes[0],
                codes.last(),
            ),
        forall|i: int|
            split <= i < codes.len() ==> common_prefix(#[trigger] codes[i], codes.last())
                > common_prefix(codes[0], codes.last()),
{
    let first: u32 = codes[0];
    let last: u32 = codes.last();
    let shared: u32 = common_prefix(first, last);
    lemma_in_first_child(first, last, first);
    lemma_ends_apart(first, last);
    let keep: u32 = (31 - shared) as u32;
    assert forall|i: int| 0 <= i < split implies common_prefix(first, #[trigger] codes[i])
        > shared by {
        lemma_in_first_child(first, last, codes[i]);
    }
    axiom_u32_leading_zeros(first ^ last);
    if shared >= 1 {
        lemma_leading_zeros_shift(first ^ last, shared);
    }
    assert forall|i: int| split <= i < codes.len() implies common_prefix(
        #[trigger] codes[i],
        last,
    ) > shared by {
        let v: u32 = codes[i];
        lemma_in_first_child(first, last, v);
        assert((v ^ last) >> keep == 0) by (bit_vector)
            requires
                first <= v,
                v <= last,
                keep < 32,
                keep < 31 ==> (first ^ last) >> ((keep + 1) as u32) == 0,
                v >> keep != first >> keep,
        ;
        lemma_leading_zeros_shift(v ^ last, (shared + 1) as u32);
    }
}

/// Finds where to part a run of keys into two children: the first child
/// holds the keys that agree with the first key on one bit more than the two
/// ends of the run agree on. A run whose ends are equal is halved.
pub fn find_split(codes: &[u32]) -> (split: usize)
    requires
        codes@.len() >= 1,
    ensures
        split <= codes@.len(),
        codes@[0] == codes@.last() ==> split == codes@.len() / 2,
        codes@[0] != codes@.last() && children_in_order(codes@) ==> splits_at(codes@, split as int),
        children_in_order(codes@) ==> is_split(codes@, split as int),
        non_decreasing(codes@) ==> is_split(codes@, split as int),
        codes@[0] != codes@.last() && non_decreasing(codes@) ==> {
            &&& splits_at(codes@, split as int)
            &&& 0 < split < codes@.len()
            &&& forall|i: int|
                0 <= i < split ==> common_prefix(codes@[0], #[trigger] codes@[i]) > common_prefix(
                    codes@[0],
                    codes@.last(),
                )
            &&& forall|i: int|
                split <= i < codes@.len() ==> common_prefix(#[trigger] codes@[i], codes@.last())
                    > common_prefix(codes@[0], codes@.last())
        },
{
    let len: usize = codes.len();
    let first: u32 = codes[0];
    let last: u32 = codes[len - 1];
    if first == last {
        proof {
            if non_decreasing(codes@) {
                lemma_sorted_children_in_order(codes@);
            }
        }
        return len / 2;
    }
    let target_prefix_len: u32 = common_prefix_len(first, last) + 1;
    let prefix_mask: u32 = if target_prefix_len >= 32 {
        u32::MAX
    } else {
        !(u32::MAX >> target_prefix_len)
    };
    let prefix: u32 = first & prefix_mask;
    let mut low: usize = 0;
    let mut high: usize = len;
    while low < high
        invariant
            low <= high <= len,
            len == codes@.len(),
            first == codes@[0],
            last == codes@.last(),
            target_prefix_len == common_prefix(first, last) + 1,
            prefix == first & self::prefix_mask(target_prefix_len),
            children_in_order(codes@) ==> forall|i: int|
                0 <= i < low ==> in_first_child(first, last, #[trigger] codes@[i]),
            children_in_order(codes@) ==> forall|i: int|
                high <= i < len ==> !in_first_child(first, last, #[trigger] codes@[i]),
        decreases high - low,
    {
        let mid: usize = low + (high - low) / 2;
        if common_prefix_len(prefix, codes[mid]) >= target_prefix_len {
            low = mid + 1;
        } else {
            high = mid;
        }
    }
    proof {
        if non_decreasing(codes@) {
            lemma_sorted_children_in_order(codes@);
            lemma_split_refines(codes@, low as int);
        }
    }
    low
}

} // verus!
