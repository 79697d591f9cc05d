//! What a creation of pages leaves at every address, with the caller's initialization in between.
use crate::ids::VmViewId;
use crate::mm::area::InitializationId;
use crate::mm::errors::{MappingError, VmemProtectError, VmemUnmapError};
use crate::mm::flags::{CreatePagesFlags, MemoryRegionPermissions};
use crate::mm::manager::GuestAccess;
use crate::platform::page_mgmt::{AllocationError, PageManagementProvider};
use vstd::prelude::*;

verus! {

use crate::mm::manager::create::{
    as_suggestion, creation_begun, creation_finished, creation_undone, pages_entered, steer_owner, steered,
    table_search, Creation,
};
use crate::mm::manager::ManagerModel;
use crate::mm::vmem::create::{created, created_area, created_result, mapped, searched_size};
use crate::mm::vmem::effects::inserted;
use crate::mm::vmem::initialization::{claimed, cleaned_up};
use crate::mm::vmem::laws::creating::{lemma_creation_bits, lemma_creation_is_lawful};
use crate::mm::vmem::laws::flagging::{is_allowed_at, is_offered_at, is_reprotected, lemma_protection_is_lawful};
use crate::mm::vmem::laws::owning::lemma_cleanup_is_confined;
use crate::mm::vmem::laws::placing::{has_room, is_free, is_let_go, lemma_place_is_sound, lemma_room_is_found};
use crate::mm::vmem::placement::unmapped_area;
use crate::mm::vmem::protect::protected;
use crate::mm::vmem::VmemModel;
use crate::range_map::lookup;

broadcast use {
    crate::range_map::lemma_lookup_put,
    crate::range_map::lemma_lookup_cut,
    crate::range_map::lemma_lookup_revise,
};

/// An address is mapped with exactly the access that was asked for, shared, as a stack and for a file
/// as the flags say, and nobody initializes it.
pub open spec fn is_made_at(m: VmemModel, k: int, flags: CreatePagesFlags, wanted: u8) -> bool {
    lookup(m.areas, k) matches Some(now) && {
        &&& now.flags.bits & 0x1 != 0 <==> wanted & 0x1 != 0
        &&& now.flags.bits & 0x2 != 0 <==> wanted & 0x2 != 0
        &&& now.flags.bits & 0x4 != 0 <==> wanted & 0x4 != 0
        &&& now.flags.bits & 0x8 != 0 <==> flags.bits & 0x40 != 0
        &&& now.flags.bits & 0x100 != 0 <==> flags.bits & 0x2 != 0
        &&& now.is_file_backed <==> flags.bits & 0x10 != 0
        &&& now.initialization is None
        &&& lookup(m.pending, k) is None
    }
}

/// What a creation must do. A success maps all of the pages as they were asked for, at the address that
/// was given if it is fixed, and touches no other address. A failure of one that is not fixed leaves no
/// page behind: each address is as it was or is not mapped, unless giving the pages back failed as well.
pub open spec fn is_creation(
    before: VmemModel,
    suggested: Option<int>,
    size: int,
    flags: CreatePagesFlags,
    wanted: u8,
    after: VmemModel,
    result: Result<usize, MappingError>,
) -> bool {
    match result {
        Ok(at) => {
            &&& flags.bits & 0x1 != 0 ==> (suggested matches Some(address) ==> at == address)
            &&& forall|k: int|
                at <= k < at + size ==> #[trigger] is_made_at(after, k, flags, wanted)
            &&& forall|k: int|
                !(at <= k < at + size) ==> #[trigger] lookup(after.areas, k) == lookup(before.areas, k)
        },
        Err(error) => flags.bits & 0x1 == 0 && !(error is Cleanup) ==> forall|k: int|
            (#[trigger] lookup(after.areas, k)) == lookup(before.areas, k) || lookup(after.areas, k) is None,
    }
}

/// Pages that were mapped end inside the task range.
proof fn lemma_created_ends<P: PageManagementProvider<ALIGN>, const ALIGN: usize>(
    platform: &P,
    before: VmemModel,
    suggested: Option<int>,
    size: int,
    flags: CreatePagesFlags,
    permissions: MemoryRegionPermissions,
    backing: Option<(usize, usize)>,
    access: Option<GuestAccess>,
    after: VmemModel,
    at: usize,
)
    requires
        created(
            platform,
            before,
            suggested,
            size,
            flags,
            permissions,
            backing,
            steer_owner(access),
            after,
            Ok::<usize, MappingError>(at),
        ),
        0 < size,
        suggested matches Some(address) ==> 0 <= address && address % ALIGN as int == 0,
    ensures
        at + size <= usize::MAX,
{
    let area = created_area(flags, permissions, backing);
    let task = (P::TASK_ADDR_MIN as int, P::TASK_ADDR_MAX as int);
    let owner = steer_owner(access);
    let answer = choose|answer: Result<usize, AllocationError>| #[trigger]
        mapped(platform, before, suggested, size, area, flags, owner, after, answer)
            && Ok::<usize, MappingError>(at) == created_result(answer);
    lemma_creation_bits(flags.bits);
    lemma_place_is_sound(task, before, suggested, searched_size(size, flags), owner, ALIGN as int);
    reveal(inserted);
}

/// What beginning a creation leaves.
proof fn lemma_begun<P: PageManagementProvider<ALIGN>, const ALIGN: usize>(
    platform: &P,
    before: ManagerModel,
    access: Option<GuestAccess>,
    creation: Creation,
    after: ManagerModel,
    result: Result<(usize, InitializationId), MappingError>,
    k: int,
)
    requires
        creation_begun(platform, before, access, creation, after, result),
        P::TASK_ADDR_MIN <= P::TASK_ADDR_MAX,
        0 < creation.size,
        creation.suggested matches Some(address) ==> 0 <= address && address % ALIGN as int == 0,
    ensures
        result matches Ok((at, identity)) ==> {
            &&& at + creation.size <= usize::MAX
            &&& creation.flags.bits & 0x1 != 0 ==> (creation.suggested matches Some(address) ==> at
                == address)
            &&& at <= k < at + creation.size ==> lookup(after.vmem.pending, k) == Some(identity) && (lookup(
                after.vmem.areas,
                k,
            ) matches Some(now) && (now.flags.bits & 0x8 != 0 <==> creation.flags.bits & 0x40 != 0) && (
            now.flags.bits & 0x100 != 0 <==> creation.flags.bits & 0x2 != 0) && (now.is_file_backed
                <==> creation.flags.bits & 0x10 != 0))
            &&& !(at <= k < at + creation.size) ==> lookup(after.vmem.areas, k) == lookup(
                before.vmem.areas,
                k,
            )
        },
        result is Err && creation.flags.bits & 0x1 == 0 ==> lookup(after.vmem.areas, k) == lookup(
            before.vmem.areas,
            k,
        ),
{
    lemma_creation_bits(creation.flags.bits);
    let task = (P::TASK_ADDR_MIN as int, P::TASK_ADDR_MAX as int);
    if crate::mm::manager::create::fixed_refusal(
        before.domain,
        access,
        creation.suggested,
        creation.size,
        creation.flags,
    ) is None {
        let hint = choose|hint: Option<int>| #[trigger]
            steered(
                task,
                before,
                access,
                creation.suggested,
                creation.size,
                creation.flags,
                ALIGN as int,
                hint,
            ) && pages_entered(platform, before.vmem, access, creation, hint, after.vmem, result);
        if before.vmem.next_initialization != usize::MAX {
            let ready = VmemModel {
                next_initialization: (before.vmem.next_initialization + 1) as usize,
                ..before.vmem
            };
            let identity = InitializationId { raw: before.vmem.next_initialization };
            let (made, answer) = choose|made: VmemModel, answer: Result<usize, MappingError>| #[trigger]
                created(
                    platform,
                    ready,
                    hint,
                    creation.size,
                    creation.flags,
                    creation.before,
                    creation.backing,
                    steer_owner(access),
                    made,
                    answer,
                ) && match answer {
                    Err(error) => after.vmem == made && result == Err::<
                        (usize, InitializationId),
                        MappingError,
                    >(error),
                    Ok(at) => after.vmem == claimed(made, at as int, at + creation.size, identity)
                        && result == Ok::<(usize, InitializationId), MappingError>((at, identity)),
                };
            lemma_creation_is_lawful(
                platform,
                ready,
                hint,
                creation.size,
                creation.flags,
                creation.before,
                creation.backing,
                steer_owner(access),
                made,
                answer,
                k,
            );
            if let Ok(at) = answer {
                lemma_created_ends(
                    platform,
                    ready,
                    hint,
                    creation.size,
                    creation.flags,
                    creation.before,
                    creation.backing,
                    access,
                    made,
                    at,
                );
                lemma_creation_is_lawful(
                    platform,
                    ready,
                    hint,
                    creation.size,
                    creation.flags,
                    creation.before,
                    creation.backing,
                    steer_owner(access),
                    made,
                    answer,
                    at as int,
                );
            }
        }
    }
}

/// What giving up a creation leaves.
proof fn lemma_undone<P: PageManagementProvider<ALIGN>, const ALIGN: usize>(
    platform: &P,
    before: VmemModel,
    range: (int, int),
    identity: InitializationId,
    primary: MappingError,
    after: VmemModel,
    result: Result<usize, MappingError>,
    k: int,
)
    requires
        range.0 < range.1,
        creation_undone(platform, before, range, identity, primary, after, result),
    ensures
        result matches Err(error) && (!(error is Cleanup) && range.0 <= k < range.1 && lookup(
            before.pending,
            k,
        ) == Some(identity) ==> lookup(after.areas, k) is None),
        lookup(after.areas, k) == lookup(before.areas, k) || lookup(after.areas, k) is None,
        !(range.0 <= k < range.1) ==> lookup(after.areas, k) == lookup(before.areas, k),
{
    let cleanup = choose|cleanup: Result<(), VmemUnmapError>| #[trigger]
        cleaned_up(platform, before, range, identity, after, cleanup) && result == Err::<
            usize,
            MappingError,
        >(crate::mm::manager::create::cleanup_result(primary, cleanup));
    lemma_cleanup_is_confined(platform, before, range, identity, after, cleanup, k);
}

/// Bits that a change of access keeps.
proof fn lemma_other_bits(a: u32, b: u32)
    requires
        a & !0x207u32 == b & !0x207u32,
    ensures
        a & 0x8 != 0 <==> b & 0x8 != 0,
        a & 0x100 != 0 <==> b & 0x100 != 0,
{
    assert((a & 0x8 != 0 <==> b & 0x8 != 0) && (a & 0x100 != 0 <==> b & 0x100 != 0)) by (bit_vector)
        requires
            a & !0x207u32 == b & !0x207u32,
    ;
}

/// A creation does what it must, whatever the caller's initialization answered.
#[verifier::spinoff_prover]
#[verifier::rlimit(60)]
pub proof fn lemma_pages_are_created<P: PageManagementProvider<ALIGN>, const ALIGN: usize>(
    platform: &P,
    before: ManagerModel,
    access: Option<GuestAccess>,
    creation: Creation,
    mid: ManagerModel,
    at: usize,
    identity: InitializationId,
    permissions: MemoryRegionPermissions,
    callback: Result<usize, MappingError>,
    after: ManagerModel,
    result: Result<usize, MappingError>,
)
    requires
        creation_begun(
            platform,
            before,
            access,
            creation,
            mid,
            Ok::<(usize, InitializationId), MappingError>((at, identity)),
        ),
        creation_finished(
            platform,
            mid,
            access,
            (at as int, at + creation.size),
            identity,
            permissions,
            callback,
            after,
            result,
        ),
        P::TASK_ADDR_MIN <= P::TASK_ADDR_MAX,
        0 < creation.size,
        creation.suggested matches Some(address) ==> 0 <= address && address % ALIGN as int == 0,
    ensures
        is_creation(
            before.vmem,
            creation.suggested,
            creation.size,
            creation.flags,
            permissions.bits,
            after.vmem,
            result,
        ),
        callback is Err ==> result is Err,
{
    let begun = Ok::<(usize, InitializationId), MappingError>((at, identity));
    let range = (at as int, at + creation.size);
    let wanted = permissions.bits;
    lemma_begun(platform, before, access, creation, mid, begun, at as int);
    match result {
        Ok(_) => {
            let (changed, outcome) = choose|changed: VmemModel, outcome: Result<(), VmemProtectError>| #[trigger]
                protected(platform, mid.vmem, range, permissions, changed, outcome) && match outcome {
                    Err(error) => after.domain == mid.domain && creation_undone(
                        platform,
                        changed,
                        range,
                        identity,
                        MappingError::FinalizeProtection(error),
                        after.vmem,
                        result,
                    ),
                    Ok(()) => {
                        &&& crate::mm::vmem::initialization::owns(changed, range.0, range.1, identity)
                        &&& after.vmem == crate::mm::vmem::invalidated(changed, range.0, range.1)
                        &&& after.domain == crate::mm::manager::published(
                            mid.domain,
                            access,
                            range.0,
                            range.1,
                        )
                        &&& result == Ok::<usize, MappingError>(range.0 as usize)
                    },
                };
            if let Err(error) = outcome {
                lemma_undone(
                    platform,
                    changed,
                    range,
                    identity,
                    MappingError::FinalizeProtection(error),
                    after.vmem,
                    result,
                    at as int,
                );
            }
            lemma_protection_is_lawful(platform, mid.vmem, range, permissions, changed, outcome);
            assert forall|k: int| range.0 <= k < range.1 implies #[trigger] is_made_at(
                after.vmem,
                k,
                creation.flags,
                wanted,
            ) by {
                lemma_begun(platform, before, access, creation, mid, begun, k);
                assert(is_allowed_at(mid.vmem.areas, k, wanted));
                assert(is_offered_at(changed.areas, k, wanted));
                assert(is_reprotected(mid.vmem.areas, changed.areas, range, wanted, k));
                let (old, new) = (lookup(mid.vmem.areas, k)->0, lookup(changed.areas, k)->0);
                if old != new {
                    lemma_other_bits(new.flags.bits, old.flags.bits);
                }
            }
            assert forall|k: int| !(range.0 <= k < range.1) implies #[trigger] lookup(after.vmem.areas, k)
                == lookup(before.vmem.areas, k) by {
                lemma_begun(platform, before, access, creation, mid, begun, k);
                assert(is_reprotected(mid.vmem.areas, changed.areas, range, wanted, k));
            }
        },
        Err(error) => {
            if creation.flags.bits & 0x1 == 0 && !(error is Cleanup) {
                assert forall|k: int|
                    (#[trigger] lookup(after.vmem.areas, k)) == lookup(before.vmem.areas, k) || lookup(
                        after.vmem.areas,
                        k,
                    ) is None by {
                    lemma_begun(platform, before, access, creation, mid, begun, k);
                    lemma_failed(
                        platform,
                        mid,
                        access,
                        range,
                        identity,
                        permissions,
                        callback,
                        after,
                        error,
                        k,
                    );
                }
            }
        },
    }
}

/// What a creation that failed leaves of one address.
proof fn lemma_failed<P: PageManagementProvider<ALIGN>, const ALIGN: usize>(
    platform: &P,
    mid: ManagerModel,
    access: Option<GuestAccess>,
    range: (int, int),
    identity: InitializationId,
    permissions: MemoryRegionPermissions,
    callback: Result<usize, MappingError>,
    after: ManagerModel,
    error: MappingError,
    k: int,
)
    requires
        creation_finished(
            platform,
            mid,
            access,
            range,
            identity,
            permissions,
            callback,
            after,
            Err::<usize, MappingError>(error),
        ),
        !(error is Cleanup),
        0 <= range.0 < range.1 <= usize::MAX,
        range.0 <= k < range.1 ==> lookup(mid.vmem.pending, k) == Some(identity),
    ensures
        range.0 <= k < range.1 ==> lookup(after.vmem.areas, k) is None,
        !(range.0 <= k < range.1) ==> lookup(after.vmem.areas, k) == lookup(mid.vmem.areas, k),
{
    let result = Err::<usize, MappingError>(error);
    match callback {
        Err(primary) => {
            lemma_undone(platform, mid.vmem, range, identity, primary, after.vmem, result, k);
        },
        Ok(_) => {
            if !crate::mm::vmem::initialization::owns(mid.vmem, range.0, range.1, identity) {
                lemma_undone(
                    platform,
                    mid.vmem,
                    range,
                    identity,
                    MappingError::ConcurrentlyRemoved,
                    after.vmem,
                    result,
                    k,
                );
            } else {
                let (changed, outcome) = choose|
                    changed: VmemModel,
                    outcome: Result<(), VmemProtectError>,
                | #[trigger]
                    protected(platform, mid.vmem, range, permissions, changed, outcome) && match outcome {
                        Err(refusal) => after.domain == mid.domain && creation_undone(
                            platform,
                            changed,
                            range,
                            identity,
                            MappingError::FinalizeProtection(refusal),
                            after.vmem,
                            result,
                        ),
                        Ok(()) => {
                            &&& crate::mm::vmem::initialization::owns(
                                changed,
                                range.0,
                                range.1,
                                identity,
                            )
                            &&& after.vmem == crate::mm::vmem::invalidated(changed, range.0, range.1)
                            &&& after.domain == crate::mm::manager::published(
                                mid.domain,
                                access,
                                range.0,
                                range.1,
                            )
                            &&& result == Ok::<usize, MappingError>(range.0 as usize)
                        },
                    };
                lemma_protection_is_lawful(platform, mid.vmem, range, permissions, changed, outcome);
                assert(is_reprotected(mid.vmem.areas, changed.areas, range, permissions.bits, k));
                if let Err(refusal) = outcome {
                    lemma_undone(
                        platform,
                        changed,
                        range,
                        identity,
                        MappingError::FinalizeProtection(refusal),
                        after.vmem,
                        result,
                        k,
                    );
                }
            }
        },
    }
}

/// A creation that does not come as far as the caller's initialization does what it must as well.
pub proof fn lemma_refused_creation<P: PageManagementProvider<ALIGN>, const ALIGN: usize>(
    platform: &P,
    before: ManagerModel,
    access: Option<GuestAccess>,
    creation: Creation,
    after: ManagerModel,
    error: MappingError,
    wanted: u8,
)
    requires
        creation_begun(
            platform,
            before,
            access,
            creation,
            after,
            Err::<(usize, InitializationId), MappingError>(error),
        ),
        P::TASK_ADDR_MIN <= P::TASK_ADDR_MAX,
        0 < creation.size,
        creation.suggested matches Some(address) ==> 0 <= address && address % ALIGN as int == 0,
    ensures
        is_creation(
            before.vmem,
            creation.suggested,
            creation.size,
            creation.flags,
            wanted,
            after.vmem,
            Err::<usize, MappingError>(error),
        ),
{
    if creation.flags.bits & 0x1 == 0 {
        assert forall|k: int|
            (#[trigger] lookup(after.vmem.areas, k)) == lookup(before.vmem.areas, k) || lookup(
                after.vmem.areas,
                k,
            ) is None by {
            lemma_begun(
                platform,
                before,
                access,
                creation,
                after,
                Err::<(usize, InitializationId), MappingError>(error),
                k,
            );
        }
    }
}

/// The search on which the domain bases its steering is the guest's own: what it offers is free, at a page
/// and inside the task range, and held back by no other view; and it offers something wherever there is
/// room for just the pages that were asked for.
pub proof fn lemma_guest_search_is_sound(
    task: (int, int),
    m: VmemModel,
    size: int,
    view: VmViewId,
    align: int,
    ceiling: Option<usize>,
    at: int,
)
    requires
        0 < align,
        0 <= task.0,
        0 <= size,
        task.1 <= usize::MAX,
    ensures
        table_search(task, m, size, view, align)(ceiling) matches Some(start) ==> {
            &&& task.0 <= start
            &&& start + size <= task.1
            &&& start as int % align == 0
            &&& is_free(m.areas, start as int, start + size)
            &&& is_let_go(m, Some(view), start as int, start + size)
        },
        task.0 <= at && at + size <= task.1 && at % align == 0 && has_room(m, Some(view), at, size)
            ==> table_search(task, m, size, view, align)(ceiling) is Some,
{
    lemma_place_is_sound(task, m, as_suggestion(ceiling, align), size, Some(view), align);
    if task.0 <= at && at + size <= task.1 && at % align == 0 && has_room(m, Some(view), at, size) {
        lemma_room_is_found(task, m, as_suggestion(ceiling, align), size, Some(view), align, at);
    }
}

} // verus!
