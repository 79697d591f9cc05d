//! What the questions about a mapping table answer, address by address.
use crate::mm::area::{SharedFutexPosition, VmArea};
use crate::mm::vmas::VmaOp;
use vstd::prelude::*;

verus! {

use crate::mm::vmas::{flags_over, futex_key_over, granted_at, permissions_over, replayed};
use crate::range_map::{lookup, uniform};

broadcast use {crate::range_map::lemma_lookup_put, crate::range_map::lemma_lookup_cut};

/// The permissions of a range are told exactly if one mapping covers it all, and are its flags for
/// reading, writing, executing and sharing.
pub proof fn lemma_permissions_are_those_of_every_address(areas: Map<int, VmArea>, start: int, end: int, k: int)
    requires
        start <= k < end,
    ensures
        permissions_over(areas, start, end) matches Some(told) ==> (lookup(areas, k) matches Some(area)
            && told.bits & 0x1 == area.flags.bits & 0x1 && told.bits & 0x2 == area.flags.bits & 0x2
            && told.bits & 0x4 == area.flags.bits & 0x4 && told.bits & 0x8 == area.flags.bits & 0x8),
        permissions_over(areas, start, end) is None ==> lookup(areas, start) is None || exists|j: int|
            start <= j < end && #[trigger] lookup(areas, j) != lookup(areas, start),
{
    if let Some(area) = lookup(areas, start) {
        let bits: u32 = area.flags.bits;
        let told: u8 = (bits & 0xf) as u8;
        assert((told & 0x1) as u32 == bits & 0x1 && (told & 0x2) as u32 == bits & 0x2 && (told & 0x4) as u32
            == bits & 0x4 && (told & 0x8) as u32 == bits & 0x8) by (bit_vector)
            requires
                told == (bits & 0xf) as u8,
        ;
        if uniform(areas, start, end, area) {
            assert(lookup(areas, k) == Some(area));
        } else {
            let j = choose|j: int| start <= j < end && #[trigger] lookup(areas, j) != Some(area);
            assert(lookup(areas, j) != lookup(areas, start));
        }
    }
}

/// An address grants something exactly if it is mapped and its flags hold every bit that was asked
/// for.
pub proof fn lemma_grant_is_bit_by_bit(areas: Map<int, VmArea>, k: int, mask: u8)
    requires
        mask & 0xf == mask,
    ensures
        granted_at(areas, k, mask) <==> (lookup(areas, k) matches Some(area) && {
            &&& mask & 0x1 != 0 ==> area.flags.bits & 0x1 != 0
            &&& mask & 0x2 != 0 ==> area.flags.bits & 0x2 != 0
            &&& mask & 0x4 != 0 ==> area.flags.bits & 0x4 != 0
            &&& mask & 0x8 != 0 ==> area.flags.bits & 0x8 != 0
        }),
{
    if let Some(area) = lookup(areas, k) {
        let bits: u32 = area.flags.bits;
        let told: u8 = (bits & 0xf) as u8;
        assert((told & mask == mask) == ((mask & 1 == 0 || bits & 1 != 0) && (mask & 2 == 0 || bits & 2
            != 0) && (mask & 4 == 0 || bits & 4 != 0) && (mask & 8 == 0 || bits & 8 != 0)))
            by (bit_vector)
            requires
                told == (bits & 0xf) as u8,
                mask & 0xf == mask,
        ;
    }
}

/// The flags at an address are told exactly if it is mapped, and are those of its mapping.
pub proof fn lemma_flags_are_told(areas: Map<int, VmArea>, k: int)
    ensures
        flags_over(areas, k) is Some <==> lookup(areas, k) is Some,
        lookup(areas, k) matches Some(area) ==> flags_over(areas, k) == Some(area.flags),
{
}

/// A waiter's key is told exactly where a placed backing is shown. Keys of two addresses are the same
/// exactly if both show the same byte of the same backing: along a mapping the offset goes with the
/// address, and two mappings of one backing agree wherever their distance from its beginning does.
pub proof fn lemma_futex_keys_name_bytes(areas: Map<int, VmArea>, a: usize, b: usize)
    ensures
        futex_key_over(areas, a) is Some <==> (lookup(areas, a as int) matches Some(area) && (
        area.shared_futex matches Some(shared) && shared.position is Origin)),
        a <= b && futex_key_over(areas, a) is Some && uniform(
            areas,
            a as int,
            b + 1,
            areas[a as int],
        ) ==> (futex_key_over(areas, b) matches Some(later) && later.0 == (futex_key_over(areas, a)->0).0
            && later.1.wrapping_sub((futex_key_over(areas, a)->0).1) == b - a),
        lookup(areas, a as int) matches Some(one) && lookup(areas, b as int) matches Some(other) && (
        one.shared_futex matches Some(first) && other.shared_futex matches Some(second) && (
        first.position matches SharedFutexPosition::Origin(from) && second.position matches
            SharedFutexPosition::Origin(to) && (futex_key_over(areas, a) == futex_key_over(areas, b)
            <==> first.identity == second.identity && (a - from - (b - to)) % (usize::MAX + 1) == 0))) || !(
        futex_key_over(areas, a) is Some && futex_key_over(areas, b) is Some),
{
    if a <= b && lookup(areas, a as int) is Some && uniform(areas, a as int, b + 1, areas[a as int]) {
        assert(lookup(areas, b as int) == Some(areas[a as int]));
    }
    if let Some(one) = lookup(areas, a as int) {
        if let Some(other) = lookup(areas, b as int) {
            if let Some(first) = one.shared_futex {
                if let Some(second) = other.shared_futex {
                    if let SharedFutexPosition::Origin(from) = first.position {
                        if let SharedFutexPosition::Origin(to) = second.position {
                            lemma_wrapped_distance(a, from, b, to);
                        }
                    }
                }
            }
        }
    }
}

/// Two wrapped distances are the same exactly if they differ by whole turns.
proof fn lemma_wrapped_distance(a: usize, from: usize, b: usize, to: usize)
    ensures
        a.wrapping_sub(from) == b.wrapping_sub(to) <==> (a - from - (b - to)) % (usize::MAX + 1) == 0,
{
    let turn = usize::MAX + 1;
    let gap = a - from - (b - to);
    assert(-2 * turn < gap < 2 * turn);
    if gap == 0 || gap == turn || gap == -turn {
        assert(gap % turn == 0) by (nonlinear_arith)
            requires
                gap == 0 || gap == turn || gap == -turn,
                turn > 0,
        ;
    } else if gap % turn == 0 {
        vstd::arithmetic::div_mod::lemma_fundamental_div_mod(gap, turn);
        let q = gap / turn;
        assert(-2 < q < 2) by (nonlinear_arith)
            requires
                gap == turn * q,
                -2 * turn < gap < 2 * turn,
                turn > 0,
        ;
        assert(turn * q == 0 || turn * q == turn || turn * q == -turn) by (nonlinear_arith)
            requires
                -2 < q < 2,
        ;
    }
}

/// A change covers an address.
pub open spec fn touches(op: VmaOp, k: int) -> bool {
    match op {
        VmaOp::Insert(start, end, _) => start <= k < end,
        VmaOp::Remove(start, end) => start <= k < end,
    }
}

/// Replaying a log leaves each address as the last change that covers it says: mapped as an insertion
/// says, and not mapped behind a removal. An address that no change covers is as it was.
pub proof fn lemma_last_change_decides(areas: Map<int, VmArea>, ops: Seq<VmaOp>, last: int, k: int)
    requires
        -1 <= last < ops.len(),
        forall|i: int| last < i < ops.len() ==> !touches(#[trigger] ops[i], k),
        last >= 0 ==> touches(ops[last], k),
    ensures
        last < 0 ==> lookup(replayed(areas, ops), k) == lookup(areas, k),
        last >= 0 ==> match ops[last] {
            VmaOp::Insert(_, _, area) => lookup(replayed(areas, ops), k) == Some(area),
            VmaOp::Remove(_, _) => lookup(replayed(areas, ops), k) is None,
        },
    decreases ops.len(),
{
    if ops.len() > 0 {
        let less = ops.drop_last();
        if last < ops.len() - 1 {
            assert(!touches(ops[ops.len() - 1], k));
            assert forall|i: int| last < i < less.len() implies !touches(#[trigger] less[i], k) by {
                assert(less[i] == ops[i]);
            }
            lemma_last_change_decides(areas, less, last, k);
        }
    }
}

} // verus!
