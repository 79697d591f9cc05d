//! What a creation of pages asks for, and what it makes.
use crate::ids::VmViewId;
use crate::mm::area::{SharedFutexPosition, VmArea};
use crate::mm::errors::MappingError;
use crate::mm::flags::{CreatePagesFlags, MemoryRegionPermissions, VmFlags};
use crate::platform::page_mgmt::{AllocationError, FixedAddressBehavior, PageManagementProvider};
use vstd::prelude::*;

verus! {

use crate::mm::flags::{access_of, carries8, may_flags};
use crate::mm::vmem::create::{
    address_behavior, created, created_area, created_result, is_deferred, mapped, searched_size,
};
use crate::mm::vmem::laws::placing::{has_room, is_free, lemma_place_is_sound, lemma_room_is_found};
use crate::mm::vmem::laws::{lemma_insertion_is_confined, mapped_like};
use crate::mm::vmem::placement::unmapped_area;
use crate::mm::vmem::VmemModel;
use crate::range_map::lookup;

/// What the flags of a creation are as bits: each of them is one bit, which is set or is not.
pub proof fn lemma_creation_bits(bits: u8)
    ensures
        carries8(bits, CreatePagesFlags::FIXED_ADDR) <==> bits & 0x1 != 0,
        carries8(bits, CreatePagesFlags::IS_STACK) <==> bits & 0x2 != 0,
        carries8(bits, CreatePagesFlags::POPULATE_PAGES_IMMEDIATELY) <==> bits & 0x4 != 0,
        carries8(bits, CreatePagesFlags::ENSURE_SPACE_AFTER) <==> bits & 0x8 != 0,
        carries8(bits, CreatePagesFlags::MAP_FILE) <==> bits & 0x10 != 0,
        carries8(bits, CreatePagesFlags::NOREPLACE) <==> bits & 0x20 != 0,
        carries8(bits, CreatePagesFlags::SHARED) <==> bits & 0x40 != 0,
        bits & (CreatePagesFlags::FIXED_ADDR | CreatePagesFlags::POPULATE_PAGES_IMMEDIATELY
            | CreatePagesFlags::IS_STACK) == bits & 0x7,
{
    assert((bits & 0x1 == 0x1 <==> bits & 0x1 != 0) && (bits & 0x2 == 0x2 <==> bits & 0x2 != 0) && (bits & 0x4
        == 0x4 <==> bits & 0x4 != 0) && (bits & 0x8 == 0x8 <==> bits & 0x8 != 0) && (bits & 0x10 == 0x10
        <==> bits & 0x10 != 0) && (bits & 0x20 == 0x20 <==> bits & 0x20 != 0) && (bits & 0x40 == 0x40
        <==> bits & 0x40 != 0) && (0x1u8 | 0x4u8 | 0x2u8) == 0x7u8) by (bit_vector);
}

/// The area of a creation has the access that was asked for and every ceiling. It is shared, a stack
/// or a file's exactly if the flags say so, with the backing that was given. It is only reserved
/// exactly if it has no access, and is neither shared nor a file's nor a stack, and is forced nowhere
/// and populated by nobody. It carries no other mark.
pub proof fn lemma_created_area(
    flags: CreatePagesFlags,
    permissions: MemoryRegionPermissions,
    backing: Option<(usize, usize)>,
)
    ensures
        ({
            let area = created_area(flags, permissions, backing);
            let bits = area.flags.bits;
            &&& bits & 0x7 == (permissions.bits & 0x7) as u32
            &&& bits & 0x70 == 0x70
            &&& bits & 0x8 != 0 <==> flags.bits & 0x40 != 0
            &&& bits & 0x100 != 0 <==> flags.bits & 0x2 != 0
            &&& bits & 0x200 != 0 <==> permissions.bits == 0 && flags.bits & 0x57 == 0
            &&& bits & !0x37fu32 == 0
            &&& area.is_file_backed <==> flags.bits & 0x10 != 0
            &&& area.initialization is None
            &&& backing is None ==> area.shared_futex is None
            &&& backing matches Some((identity, offset)) ==> (area.shared_futex matches Some(shared)
                && shared.identity == identity && shared.position == SharedFutexPosition::PendingOffset(
                offset,
            ))
        }),
{
    let f: u8 = flags.bits;
    let p: u8 = permissions.bits;
    lemma_creation_bits(f);
    let access: u32 = access_of(permissions);
    let may: u32 = may_flags(carries8(f, CreatePagesFlags::SHARED));
    let reserved: u32 = if is_deferred(flags, permissions) {
        VmFlags::VM_DEFERRED
    } else {
        0
    };
    let stack: u32 = if carries8(f, CreatePagesFlags::IS_STACK) {
        VmFlags::VM_GROWSDOWN
    } else {
        0
    };
    let shared: bool = f & 0x40 != 0;
    assert(0x70u32 | 0x8u32 == 0x78u32 && (f & 0x57 == 0 <==> (f & 0x40 == 0 && f & 0x10 == 0 && f & 0x7 == 0))) by (bit_vector);
    let bits: u32 = access | may | reserved | stack;
    assert(bits & 0x7 == (p & 0x7) as u32 && bits & 0x70 == 0x70 && (bits & 0x8 != 0 <==> shared) && (bits
        & 0x100 != 0 <==> stack == 0x100) && (bits & 0x200 != 0 <==> reserved == 0x200) && bits & !0x37fu32
        == 0) by (bit_vector)
        requires
            bits == access | may | reserved | stack,
            access == (p & 0x7) as u32,
            may == (if shared {
                0x78u32
            } else {
                0x70u32
            }),
            reserved == 0x200 || reserved == 0,
            stack == 0x100 || stack == 0,
    ;
}

/// What a creation lets the platform do at its address: choose another one, unless the address is
/// fixed; then replace what is there, unless it must not.
pub proof fn lemma_address_behavior(flags: CreatePagesFlags)
    ensures
        flags.bits & 0x1 == 0 ==> address_behavior(flags) == FixedAddressBehavior::Hint,
        flags.bits & 0x1 != 0 && flags.bits & 0x20 != 0 ==> address_behavior(flags)
            == FixedAddressBehavior::NoReplace,
        flags.bits & 0x1 != 0 && flags.bits & 0x20 == 0 ==> address_behavior(flags)
            == FixedAddressBehavior::Replace,
{
    lemma_creation_bits(flags.bits);
}

/// What a creation of pages makes. Where it succeeds, all of the pages are mapped with the area that
/// was asked for and no other address is touched; a fixed address is the one that was given. One that
/// must not replace anything fails where anything is mapped, and changes nothing. Where it fails, no
/// address outside the range that was asked for is touched, and without a fixed address none at all.
pub proof fn lemma_creation_is_lawful<P: PageManagementProvider<ALIGN>, const ALIGN: usize>(
    platform: &P,
    before: VmemModel,
    suggested: Option<int>,
    size: int,
    flags: CreatePagesFlags,
    permissions: MemoryRegionPermissions,
    backing: Option<(usize, usize)>,
    owner: Option<VmViewId>,
    after: VmemModel,
    result: Result<usize, MappingError>,
    k: int,
)
    requires
        created(
            platform,
            before,
            suggested,
            size,
            flags,
            permissions,
            backing,
            owner,
            after,
            result,
        ),
        P::TASK_ADDR_MIN <= P::TASK_ADDR_MAX,
        0 < size,
        suggested matches Some(address) ==> 0 <= address && address % ALIGN as int == 0,
    ensures
        result matches Ok(at) ==> at <= k < at + size ==> (lookup(after.areas, k) matches Some(now) && now.flags.bits
            & 0x7 == (permissions.bits & 0x7) as u32 && (now.flags.bits & 0x8 != 0 <==> flags.bits & 0x40
            != 0) && (now.flags.bits & 0x100 != 0 <==> flags.bits & 0x2 != 0) && (now.is_file_backed <==> flags.bits
            & 0x10 != 0)),
        result matches Ok(at) ==> !(at <= k < at + size) ==> lookup(after.areas, k) == lookup(
            before.areas,
            k,
        ),
        result matches Ok(at) ==> flags.bits & 0x1 != 0 ==> (suggested matches Some(address) ==> at
            == address),
        suggested matches Some(address) ==> flags.bits & 0x1 != 0 && flags.bits & 0x20 != 0 && address <= k
            < address + size && lookup(before.areas, k) is Some ==> result is Err && after.areas
            == before.areas,
        result is Err && flags.bits & 0x1 == 0 ==> lookup(after.areas, k) == lookup(before.areas, k),
        result is Err ==> (suggested matches Some(address) ==> !(address <= k < address + size) ==> lookup(
            after.areas,
            k,
        ) == lookup(before.areas, k)),
        after.brk == before.brk,
{
    let area = created_area(flags, permissions, backing);
    lemma_created_area(flags, permissions, backing);
    lemma_creation_bits(flags.bits);
    lemma_address_behavior(flags);
    let task = (P::TASK_ADDR_MIN as int, P::TASK_ADDR_MAX as int);
    let answer = choose|answer: Result<usize, AllocationError>| #[trigger]
        mapped(platform, before, suggested, size, area, flags, owner, after, answer) && result
            == created_result(answer);
    let place = unmapped_area(
        task,
        before,
        suggested,
        searched_size(size, flags),
        flags.bits & 0x1 != 0,
        owner,
        ALIGN as int,
    );
    lemma_place_is_sound(task, before, suggested, searched_size(size, flags), owner, ALIGN as int);
    if let Some(start) = place {
        let populate = carries8(flags.bits, CreatePagesFlags::POPULATE_PAGES_IMMEDIATELY);
        let reached = lemma_insertion_is_confined(
            platform,
            before,
            (start, start + size),
            area,
            populate,
            address_behavior(flags),
            after,
            answer,
        );
        if let Ok(at) = answer {
            if at <= k < at + size {
                assert(mapped_like(after.areas, k, area));
            }
        }
        if start <= k < start + size && lookup(before.areas, k) is Some {
            assert(crate::mm::vmem::effects::occupied(before.areas, start, start + size));
            reveal(crate::mm::vmem::effects::inserted);
        }
    }
}

/// A creation that is not forced anywhere fails for want of a place only where there is none: with room
/// for what it asks for anywhere in the task range, the platform is asked.
pub proof fn lemma_creation_finds_room<P: PageManagementProvider<ALIGN>, const ALIGN: usize>(
    platform: &P,
    before: VmemModel,
    suggested: Option<int>,
    size: int,
    area: VmArea,
    flags: CreatePagesFlags,
    owner: Option<VmViewId>,
    after: VmemModel,
    result: Result<usize, AllocationError>,
    start: int,
)
    requires
        mapped(platform, before, suggested, size, area, flags, owner, after, result),
        flags.bits & 0x1 == 0,
        P::TASK_ADDR_MIN <= start,
        start + size + (if flags.bits & 0x8 != 0 {
            0x100_0000int
        } else {
            0int
        }) <= P::TASK_ADDR_MAX,
        start % ALIGN as int == 0,
        has_room(
            before,
            owner,
            start,
            size + (if flags.bits & 0x8 != 0 {
                0x100_0000int
            } else {
                0int
            }),
        ),
    ensures
        exists|place: int| #[trigger]
            crate::mm::vmem::effects::inserted(
                platform,
                before,
                (place, place + size),
                area,
                carries8(flags.bits, CreatePagesFlags::POPULATE_PAGES_IMMEDIATELY),
                FixedAddressBehavior::Hint,
                after,
                result,
            ),
{
    lemma_creation_bits(flags.bits);
    lemma_address_behavior(flags);
    let task = (P::TASK_ADDR_MIN as int, P::TASK_ADDR_MAX as int);
    lemma_room_is_found(
        task,
        before,
        suggested,
        searched_size(size, flags),
        owner,
        ALIGN as int,
        start,
    );
    let place = unmapped_area(
        task,
        before,
        suggested,
        searched_size(size, flags),
        false,
        owner,
        ALIGN as int,
    )->0;
    assert(crate::mm::vmem::effects::inserted(
        platform,
        before,
        (place, place + size),
        area,
        carries8(flags.bits, CreatePagesFlags::POPULATE_PAGES_IMMEDIATELY),
        FixedAddressBehavior::Hint,
        after,
        result,
    ));
}

} // verus!
