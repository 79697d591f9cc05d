//! Creating mappings: a place is searched, then the mapping is inserted there.
use crate::ids::VmViewId;
use crate::mm::addr::{NonZeroAddress, NonZeroPageSize, PageRange, DEFAULT_RESERVED_SPACE_SIZE};
use crate::mm::area::{SharedFutexBacking, VmArea};
use crate::mm::errors::MappingError;
use crate::mm::flags::{CreatePagesFlags, MemoryRegionPermissions, VmFlags};
use crate::mm::vmem::Vmem;
use crate::platform::page_mgmt::{AllocationError, FixedAddressBehavior, PageManagementProvider};
use vstd::prelude::*;

verus! {

use crate::mm::addr::lemma_aligned_sum;
use crate::mm::area::new_area;
use crate::mm::flags::{access_of, carries8, may_flags};
use crate::mm::vmem::effects::{entered, inserted};
use crate::mm::vmem::initialization::takes_backing;
use crate::mm::vmem::log::insert_logged;
use crate::mm::vmem::laws::{all_mapped_like, lemma_insertion_is_confined, same_outside};
use crate::mm::vmem::placement::{lemma_flexible_placement, suggestion, unmapped_area};
use crate::mm::vmem::VmemModel;

/// How a creation treats its address.
pub open spec fn address_behavior(flags: CreatePagesFlags) -> FixedAddressBehavior {
    if !carries8(flags.bits, CreatePagesFlags::FIXED_ADDR) {
        FixedAddressBehavior::Hint
    } else if carries8(flags.bits, CreatePagesFlags::NOREPLACE) {
        FixedAddressBehavior::NoReplace
    } else {
        FixedAddressBehavior::Replace
    }
}

/// The bytes that the search looks for: the mapping, and room after it if that was asked for.
pub open spec fn searched_size(size: int, flags: CreatePagesFlags) -> int {
    if carries8(flags.bits, CreatePagesFlags::ENSURE_SPACE_AFTER) {
        size + DEFAULT_RESERVED_SPACE_SIZE
    } else {
        size
    }
}

/// The room that a creation asks for after its mapping fits the address type and the page size.
pub open spec fn room_ok(size: int, flags: CreatePagesFlags, align: int) -> bool {
    carries8(flags.bits, CreatePagesFlags::ENSURE_SPACE_AFTER) ==> size + DEFAULT_RESERVED_SPACE_SIZE
        <= usize::MAX && (DEFAULT_RESERVED_SPACE_SIZE as int) % align == 0
}

/// What the creation of a mapping did.
pub open spec fn mapped<P: PageManagementProvider<ALIGN>, const ALIGN: usize>(
    platform: &P,
    before: VmemModel,
    suggested: Option<int>,
    size: int,
    area: VmArea,
    flags: CreatePagesFlags,
    owner: Option<VmViewId>,
    after: VmemModel,
    result: Result<usize, AllocationError>,
) -> bool {
    match unmapped_area(
        (P::TASK_ADDR_MIN as int, P::TASK_ADDR_MAX as int),
        before,
        suggested,
        searched_size(size, flags),
        carries8(flags.bits, CreatePagesFlags::FIXED_ADDR),
        owner,
        ALIGN as int,
    ) {
        None => after == before && result == Err::<usize, AllocationError>(AllocationError::OutOfMemory),
        Some(start) => inserted(
            platform,
            before,
            (start, start + size),
            area,
            carries8(flags.bits, CreatePagesFlags::POPULATE_PAGES_IMMEDIATELY),
            address_behavior(flags),
            after,
            result,
        ),
    }
}

/// What the creation of a mapping put on the log: nothing where no place was found, else what its
/// insertion did.
pub open spec fn map_logged(
    task: (int, int),
    align: int,
    before: VmemModel,
    suggested: Option<int>,
    size: int,
    area: VmArea,
    flags: CreatePagesFlags,
    owner: Option<VmViewId>,
    after: Map<int, VmArea>,
    granted: bool,
    grown: int,
) -> bool {
    match unmapped_area(
        task,
        before,
        suggested,
        searched_size(size, flags),
        carries8(flags.bits, CreatePagesFlags::FIXED_ADDR),
        owner,
        align,
    ) {
        None => grown == 0,
        Some(start) => insert_logged(
            task,
            before,
            (start, start + size),
            area,
            address_behavior(flags),
            after,
            granted,
            grown,
        ),
    }
}

/// A mapping without access, private, not of a file, and not forced anywhere is only reserved.
pub open spec fn is_deferred(flags: CreatePagesFlags, permissions: MemoryRegionPermissions) -> bool {
    permissions.bits == 0 && !carries8(flags.bits, CreatePagesFlags::SHARED) && !carries8(
        flags.bits,
        CreatePagesFlags::MAP_FILE,
    ) && flags.bits & (CreatePagesFlags::FIXED_ADDR | CreatePagesFlags::POPULATE_PAGES_IMMEDIATELY
        | CreatePagesFlags::IS_STACK) == 0
}

/// The area of a creation.
pub open spec fn created_area(
    flags: CreatePagesFlags,
    permissions: MemoryRegionPermissions,
    backing: Option<(usize, usize)>,
) -> VmArea {
    new_area(
        access_of(permissions) | may_flags(carries8(flags.bits, CreatePagesFlags::SHARED)) | (
        if is_deferred(flags, permissions) {
            VmFlags::VM_DEFERRED
        } else {
            0
        }) | (if carries8(flags.bits, CreatePagesFlags::IS_STACK) {
            VmFlags::VM_GROWSDOWN
        } else {
            0
        }),
        carries8(flags.bits, CreatePagesFlags::MAP_FILE),
        backing,
    )
}

/// A backing and offset, as plain numbers.
pub open spec fn plain_backing(backing: Option<(SharedFutexBacking, usize)>) -> Option<(usize, usize)> {
    match backing {
        Some((identity, offset)) => Some((identity.id(), offset)),
        None => None,
    }
}

/// What a creation reports for what its mapping reported.
pub open spec fn created_result(result: Result<usize, AllocationError>) -> Result<usize, MappingError> {
    match result {
        Ok(start) => Ok(start),
        Err(error) => Err(MappingError::MapError(error)),
    }
}

/// What the creation of pages did.
pub open spec fn created<P: PageManagementProvider<ALIGN>, const ALIGN: usize>(
    platform: &P,
    before: VmemModel,
    suggested: Option<int>,
    size: int,
    flags: CreatePagesFlags,
    permissions: MemoryRegionPermissions,
    backing: Option<(usize, usize)>,
    owner: Option<VmViewId>,
    after: VmemModel,
    result: Result<usize, MappingError>,
) -> bool {
    exists|answer: Result<usize, AllocationError>| #[trigger]
        mapped(
            platform,
            before,
            suggested,
            size,
            created_area(flags, permissions, backing),
            flags,
            owner,
            after,
            answer,
        ) && result == created_result(answer)
}

impl<P: PageManagementProvider<ALIGN> + 'static, const ALIGN: usize> Vmem<P, ALIGN> {
    /// Create a new mapping in the virtual address space.
    ///
    /// `suggested_address` is where to create the pages if it is fixed, a hint otherwise. Fixed
    /// alone, it replaces whatever of the range is mapped; with `NOREPLACE`, it fails if any of it is.
    /// With
    /// `steer_owner` the search steers around that owner's held-back ranges, without it around
    /// everybody's.
    pub fn create_mapping(
        &mut self,
        suggested_address: Option<NonZeroAddress<ALIGN>>,
        length: NonZeroPageSize<ALIGN>,
        area: VmArea,
        flags: CreatePagesFlags,
        steer_owner: Option<VmViewId>,
    ) -> (result: Result<usize, AllocationError>)
        requires
            old(self).wf(),
            length.wf(),
            suggested_address matches Some(address) ==> address.wf(),
            room_ok(length.size(), flags, ALIGN as int),
            takes_backing(area) ==> old(self)@.next_futex < old(self)@.futex_end,
        ensures
            final(self).follows(old(self)),
            mapped(
                final(self).platform(),
                old(self)@,
                suggestion(suggested_address),
                length.size(),
                area,
                flags,
                steer_owner,
                final(self)@,
                result,
            ),
            map_logged(
                (P::TASK_ADDR_MIN as int, P::TASK_ADDR_MAX as int),
                ALIGN as int,
                old(self)@,
                suggestion(suggested_address),
                length.size(),
                area,
                flags,
                steer_owner,
                final(self)@.areas,
                result is Ok,
                final(self).logged() - old(self).logged(),
            ),
            result matches Ok(at) ==> entered(
                P::TASK_ADDR_MAX as int,
                ALIGN as int,
                final(self)@.areas,
                at as int,
                length.size(),
            ),
            result matches Ok(at) ==> same_outside(
                old(self)@,
                final(self)@,
                at as int,
                at + length.size(),
            ) && all_mapped_like(final(self)@.areas, at as int, at + length.size(), area),
    {
        proof {
            self.lemma_wf();
            if carries8(flags.bits, CreatePagesFlags::ENSURE_SPACE_AFTER) {
                lemma_aligned_sum(length.size(), DEFAULT_RESERVED_SPACE_SIZE as int, ALIGN as int);
            }
        }
        let fixed = flags.contains(CreatePagesFlags::FIXED_ADDR);
        let total: usize = if flags.contains(CreatePagesFlags::ENSURE_SPACE_AFTER) {
            length.as_usize() + DEFAULT_RESERVED_SPACE_SIZE
        } else {
            length.as_usize()
        };
        let total_length = match NonZeroPageSize::<ALIGN>::new(total) {
            Some(total_length) => total_length,
            None => length,
        };
        let start = match self.find_unmapped_area(suggested_address, total_length, fixed, steer_owner) {
            Some(start) => start,
            None => {
                return Err(AllocationError::OutOfMemory);
            },
        };
        proof {
            lemma_flexible_placement(
                (P::TASK_ADDR_MIN as int, P::TASK_ADDR_MAX as int),
                self@,
                suggestion(suggested_address),
                total as int,
                steer_owner,
                ALIGN as int,
            );
            lemma_aligned_sum(start as int, length.size(), ALIGN as int);
        }
        let range = PageRange { start, end: start + length.as_usize() };
        let behavior = if fixed {
            if flags.contains(CreatePagesFlags::NOREPLACE) {
                FixedAddressBehavior::NoReplace
            } else {
                FixedAddressBehavior::Replace
            }
        } else {
            FixedAddressBehavior::Hint
        };
        let result = self.insert_mapping(
            range,
            area,
            flags.contains(CreatePagesFlags::POPULATE_PAGES_IMMEDIATELY),
            behavior,
        );
        proof {
            let reached = lemma_insertion_is_confined(
                self.platform(),
                old(self)@,
                (range.start as int, range.end as int),
                area,
                carries8(flags.bits, CreatePagesFlags::POPULATE_PAGES_IMMEDIATELY),
                behavior,
                self@,
                result,
            );
        }
        result
    }

    /// Create a mapping with the given flags and permissions.
    pub fn create_pages(
        &mut self,
        suggested_new_address: Option<NonZeroAddress<ALIGN>>,
        length: NonZeroPageSize<ALIGN>,
        flags: CreatePagesFlags,
        permissions: MemoryRegionPermissions,
        shared_futex_backing: Option<(SharedFutexBacking, usize)>,
        steer_owner: Option<VmViewId>,
    ) -> (result: Result<usize, MappingError>)
        requires
            old(self).wf(),
            length.wf(),
            suggested_new_address matches Some(address) ==> address.wf(),
            room_ok(length.size(), flags, ALIGN as int),
            !carries8(permissions.bits, MemoryRegionPermissions::SHARED),
            takes_backing(created_area(flags, permissions, plain_backing(shared_futex_backing)))
                ==> old(self)@.next_futex < old(self)@.futex_end,
        ensures
            final(self).follows(old(self)),
            created(
                final(self).platform(),
                old(self)@,
                suggestion(suggested_new_address),
                length.size(),
                flags,
                permissions,
                plain_backing(shared_futex_backing),
                steer_owner,
                final(self)@,
                result,
            ),
            map_logged(
                (P::TASK_ADDR_MIN as int, P::TASK_ADDR_MAX as int),
                ALIGN as int,
                old(self)@,
                suggestion(suggested_new_address),
                length.size(),
                created_area(flags, permissions, plain_backing(shared_futex_backing)),
                flags,
                steer_owner,
                final(self)@.areas,
                result is Ok,
                final(self).logged() - old(self).logged(),
            ),
            result matches Ok(at) ==> entered(
                P::TASK_ADDR_MAX as int,
                ALIGN as int,
                final(self)@.areas,
                at as int,
                length.size(),
            ),
    {
        let shared = flags.contains(CreatePagesFlags::SHARED);
        let file_backed = flags.contains(CreatePagesFlags::MAP_FILE);
        let forced: u8 = CreatePagesFlags::FIXED_ADDR | CreatePagesFlags::POPULATE_PAGES_IMMEDIATELY
            | CreatePagesFlags::IS_STACK;
        let defer = permissions.is_empty() && !shared && !file_backed && !flags.intersects(forced);
        let bits = VmFlags::from_permissions(permissions).union(
            VmFlags::may_flags_for_mapping(shared, file_backed).bits,
        ).union(
            if defer {
                VmFlags::VM_DEFERRED
            } else {
                0
            },
        ).union(
            if flags.contains(CreatePagesFlags::IS_STACK) {
                VmFlags::VM_GROWSDOWN
            } else {
                0
            },
        );
        let area = VmArea::new(bits, file_backed, shared_futex_backing);
        proof {
            assert(area == created_area(flags, permissions, plain_backing(shared_futex_backing)));
        }
        match self.create_mapping(suggested_new_address, length, area, flags, steer_owner) {
            Ok(start) => Ok(start),
            Err(error) => Err(MappingError::MapError(error)),
        }
    }
}

} // verus!
