//! Creating pages: a place both the table and the domain agree on, the caller's initialization,
//! and the final permissions.
use crate::ids::VmViewId;
use crate::mm::addr::{NonZeroAddress, NonZeroPageSize, PageRange};
use crate::mm::area::{InitializationId, SharedFutexBacking};
use crate::mm::custody::{Custody, CustodyModel};
use crate::mm::errors::{MappingError, VmemUnmapError};
use crate::mm::flags::{CreatePagesFlags, MemoryRegionPermissions};
use crate::mm::manager::{GuestAccess, PageManager};
use crate::platform::page_mgmt::{AllocationError, PageManagementProvider};
use vstd::prelude::*;

verus! {

use crate::mm::addr::{lemma_aligned_sum, multiple_of};
use crate::mm::domain::lookup::{fragment_models, fragments};
use crate::mm::domain::publish::{found_place, lemma_placed_by_function, MAX_ATTEMPTS};
use crate::mm::domain::registry::family_of;
use crate::mm::domain::DomainModel;
use crate::mm::errors::VmemProtectError;
use crate::mm::flags::carries8;
use crate::mm::manager::laws::creation::{
    is_creation, lemma_pages_are_created, lemma_refused_creation,
};
use crate::mm::manager::{published, ManagerModel};
use crate::mm::vmem::create::{created, created_area, plain_backing, room_ok};
use crate::mm::vmem::initialization::{claimed, cleaned_up, owns, takes_backing};
use crate::mm::vmem::placement::{lemma_flexible_placement, suggestion, unmapped_area};
use crate::mm::vmem::protect::protected;
use crate::mm::vmem::{invalidated, VmemModel};

/// A custody that stands in the way of a fixed mapping: any real memory or hole if nothing may be
/// replaced, else another view's real memory.
pub open spec fn blocks_fixed(custody: CustodyModel, view: VmViewId, no_replace: bool) -> bool {
    if no_replace {
        custody is Present || custody is Hole
    } else {
        custody matches CustodyModel::Present { view: holder, .. } && holder != view
    }
}

/// Some recorded custody of a range stands in the way of a fixed mapping.
pub open spec fn fixed_blocked(m: DomainModel, view: VmViewId, start: int, end: int, no_replace: bool) -> bool {
    exists|i: int|
        0 <= i < fragments(m, view, start, end).len() && blocks_fixed(
            (#[trigger] fragments(m, view, start, end)[i]).2,
            view,
            no_replace,
        )
}

/// Why the domain refuses a fixed mapping, if it does.
pub open spec fn fixed_refusal(
    m: DomainModel,
    access: Option<GuestAccess>,
    suggested: Option<int>,
    size: int,
    flags: CreatePagesFlags,
) -> Option<AllocationError> {
    let no_replace = carries8(flags.bits, CreatePagesFlags::NOREPLACE);
    match (access, suggested) {
        (Some(guest), Some(start)) => if carries8(flags.bits, CreatePagesFlags::FIXED_ADDR)
            && fixed_blocked(m, guest.view, start, start + size, no_replace) {
            if no_replace {
                Some(AllocationError::AddressInUse)
            } else {
                Some(AllocationError::AddressPartiallyInUse)
            }
        } else {
            None
        },
        _ => None,
    }
}

/// The suggestion that a bare address makes: none if it is zero or not aligned.
pub open spec fn as_suggestion(address: Option<usize>, align: int) -> Option<int> {
    match address {
        Some(a) if a != 0 && multiple_of(a as int, align) => Some(a as int),
        _ => None,
    }
}

/// What the mapping table's own search answers for a ceiling.
pub open spec fn table_search(
    task: (int, int),
    m: VmemModel,
    size: int,
    view: VmViewId,
    align: int,
) -> spec_fn(Option<usize>) -> Option<usize> {
    |ceiling: Option<usize>|
        match unmapped_area(task, m, as_suggestion(ceiling, align), size, false, Some(view), align) {
            Some(start) => Some(start as usize),
            None => None,
        }
}

/// A suggestion, as an address.
pub open spec fn as_address(suggested: Option<int>) -> Option<usize> {
    match suggested {
        Some(a) => Some(a as usize),
        None => None,
    }
}

/// `hint` is where the domain steers a flexible mapping: to a place that it found unclaimed, or
/// else wherever was suggested.
pub open spec fn steered(
    task: (int, int),
    m: ManagerModel,
    access: Option<GuestAccess>,
    suggested: Option<int>,
    size: int,
    flags: CreatePagesFlags,
    align: int,
    hint: Option<int>,
) -> bool {
    match access {
        Some(guest) if !carries8(flags.bits, CreatePagesFlags::FIXED_ADDR) => match family_of(
            m.domain,
            guest.view,
        ) {
            None => hint == suggested,
            Some(family) => exists|place| #[trigger]
                found_place(
                    m.domain,
                    family,
                    size as usize,
                    as_address(suggested),
                    MAX_ATTEMPTS as nat,
                    table_search(task, m.vmem, size, guest.view, align),
                    place,
                ) && hint == (match place {
                    Ok(range) => match as_suggestion(Some(range.start), align) {
                        Some(start) => Some(start),
                        None => suggested,
                    },
                    Err(_) => suggested,
                }),
        },
        _ => hint == suggested,
    }
}

/// The owner whose held-back ranges a mapping is steered around.
pub open spec fn steer_owner(access: Option<GuestAccess>) -> Option<VmViewId> {
    match access {
        Some(guest) => Some(guest.view),
        None => None,
    }
}

/// What is asked for when pages are created.
pub struct Creation {
    pub suggested: Option<int>,
    pub size: int,
    pub flags: CreatePagesFlags,
    pub before: MemoryRegionPermissions,
    pub backing: Option<(usize, usize)>,
}

/// The pages were entered into the table, and now belong to the caller's initialization.
pub open spec fn pages_entered<P: PageManagementProvider<ALIGN>, const ALIGN: usize>(
    platform: &P,
    before: VmemModel,
    access: Option<GuestAccess>,
    creation: Creation,
    hint: Option<int>,
    after: VmemModel,
    result: Result<(usize, InitializationId), MappingError>,
) -> bool {
    if before.next_initialization == usize::MAX {
        after == before && result == Err::<(usize, InitializationId), MappingError>(
            MappingError::InitializationIdentityExhausted,
        )
    } else {
        let identity = InitializationId { raw: before.next_initialization };
        let ready = VmemModel {
            next_initialization: (before.next_initialization + 1) as usize,
            ..before
        };
        exists|mapped: VmemModel, answer: Result<usize, MappingError>| #[trigger]
            created(
                platform,
                ready,
                hint,
                creation.size,
                creation.flags,
                creation.before,
                creation.backing,
                steer_owner(access),
                mapped,
                answer,
            ) && match answer {
                Err(error) => after == mapped && result == Err::<
                    (usize, InitializationId),
                    MappingError,
                >(error),
                Ok(at) => after == claimed(mapped, at as int, at + creation.size, identity)
                    && result == Ok::<(usize, InitializationId), MappingError>((at, identity)),
            }
    }
}

/// What the first half of a creation did, up to the caller's initialization.
pub open spec fn creation_begun<P: PageManagementProvider<ALIGN>, const ALIGN: usize>(
    platform: &P,
    before: ManagerModel,
    access: Option<GuestAccess>,
    creation: Creation,
    after: ManagerModel,
    result: Result<(usize, InitializationId), MappingError>,
) -> bool {
    after.domain == before.domain && match fixed_refusal(
        before.domain,
        access,
        creation.suggested,
        creation.size,
        creation.flags,
    ) {
        Some(error) => after == before && result == Err::<(usize, InitializationId), MappingError>(
            MappingError::MapError(error),
        ),
        None => exists|hint: Option<int>| #[trigger]
            steered(
                (P::TASK_ADDR_MIN as int, P::TASK_ADDR_MAX as int),
                before,
                access,
                creation.suggested,
                creation.size,
                creation.flags,
                ALIGN as int,
                hint,
            ) && pages_entered(platform, before.vmem, access, creation, hint, after.vmem, result),
    }
}

/// What a failed creation reports, once what it had mapped was cleaned up.
pub open spec fn cleanup_result(primary: MappingError, cleanup: Result<(), VmemUnmapError>) -> MappingError {
    match cleanup {
        Ok(()) => primary,
        Err(error) => MappingError::Cleanup { primary: Box::new(primary), cleanup: error },
    }
}

/// A creation failed: what it still owns was cleaned up.
pub open spec fn creation_undone<P: PageManagementProvider<ALIGN>, const ALIGN: usize>(
    platform: &P,
    before: VmemModel,
    range: (int, int),
    identity: InitializationId,
    primary: MappingError,
    after: VmemModel,
    result: Result<usize, MappingError>,
) -> bool {
    exists|cleanup: Result<(), VmemUnmapError>| #[trigger]
        cleaned_up(platform, before, range, identity, after, cleanup) && result == Err::<
            usize,
            MappingError,
        >(cleanup_result(primary, cleanup))
}

/// What the second half of a creation did, from the caller's initialization on. The final
/// permissions are set only if the whole range still belongs to this creation; any failure cleans
/// up what still does.
pub open spec fn creation_finished<P: PageManagementProvider<ALIGN>, const ALIGN: usize>(
    platform: &P,
    before: ManagerModel,
    access: Option<GuestAccess>,
    range: (int, int),
    identity: InitializationId,
    permissions: MemoryRegionPermissions,
    callback: Result<usize, MappingError>,
    after: ManagerModel,
    result: Result<usize, MappingError>,
) -> bool {
    match callback {
        Err(primary) => after.domain == before.domain && creation_undone(
            platform,
            before.vmem,
            range,
            identity,
            primary,
            after.vmem,
            result,
        ),
        Ok(_) => if !owns(before.vmem, range.0, range.1, identity) {
            after.domain == before.domain && creation_undone(
                platform,
                before.vmem,
                range,
                identity,
                MappingError::ConcurrentlyRemoved,
                after.vmem,
                result,
            )
        } else {
            exists|mid: VmemModel, outcome: Result<(), VmemProtectError>| #[trigger]
                protected(platform, before.vmem, range, permissions, mid, outcome) && match outcome {
                    Err(error) => after.domain == before.domain && creation_undone(
                        platform,
                        mid,
                        range,
                        identity,
                        MappingError::FinalizeProtection(error),
                        after.vmem,
                        result,
                    ),
                    Ok(()) => {
                        &&& owns(mid, range.0, range.1, identity)
                        &&& after.vmem == invalidated(mid, range.0, range.1)
                        &&& after.domain == published(before.domain, access, range.0, range.1)
                        &&& result == Ok::<usize, MappingError>(range.0 as usize)
                    },
                }
        },
    }
}

/// What a whole creation did, with the caller's initialization in between.
pub open spec fn pages_created<
    P: PageManagementProvider<ALIGN>,
    const ALIGN: usize,
    F: FnOnce(usize) -> Result<usize, MappingError>,
>(
    platform: &P,
    before: ManagerModel,
    access: Option<GuestAccess>,
    creation: Creation,
    permissions: MemoryRegionPermissions,
    op: F,
    after: ManagerModel,
    result: Result<usize, MappingError>,
) -> bool {
    exists|mid: ManagerModel, begun: Result<(usize, InitializationId), MappingError>| #[trigger]
        creation_begun(platform, before, access, creation, mid, begun) && match begun {
            Err(error) => after == mid && result == Err::<usize, MappingError>(error),
            Ok((at, identity)) => exists|callback: Result<usize, MappingError>| #[trigger]
                call_ensures(op, (at,), callback) && creation_finished(
                    platform,
                    mid,
                    access,
                    (at as int, at + creation.size),
                    identity,
                    permissions,
                    callback,
                    after,
                    result,
                ),
        }
}

/// What a caller has to see to before it creates pages.
pub open spec fn creation_ok<const ALIGN: usize>(
    m: ManagerModel,
    access: Option<GuestAccess>,
    suggested: Option<NonZeroAddress<ALIGN>>,
    length: NonZeroPageSize<ALIGN>,
    flags: CreatePagesFlags,
    before: MemoryRegionPermissions,
    backing: Option<(SharedFutexBacking, usize)>,
) -> bool {
    &&& length.wf()
    &&& suggested matches Some(address) ==> address.wf()
    &&& access is Some && carries8(flags.bits, CreatePagesFlags::FIXED_ADDR) ==> (suggested matches Some(
        address,
    ) ==> address.address() + length.size() <= usize::MAX)
    &&& room_ok(length.size(), flags, ALIGN as int)
    &&& !carries8(before.bits, MemoryRegionPermissions::SHARED)
    &&& takes_backing(created_area(flags, before, plain_backing(backing))) ==> m.vmem.next_futex
        < m.vmem.futex_end
}

impl<P: PageManagementProvider<ALIGN> + 'static, const ALIGN: usize> PageManager<P, ALIGN> {
    /// Whether recorded custody stands in the way of a fixed mapping.
    fn is_fixed_blocked(&self, view: VmViewId, start: usize, end: usize, no_replace: bool) -> (yes: bool)
        requires
            self.wf(),
        ensures
            yes == fixed_blocked(self@.domain, view, start as int, end as int, no_replace),
    {
        let spans = self.domain.custody_fragments(view, start..end);
        let ghost list = fragments(self@.domain, view, start as int, end as int);
        let mut i: usize = 0;
        while i < spans.len()
            invariant
                i <= spans@.len(),
                list == fragment_models(spans@),
                list == fragments(self@.domain, view, start as int, end as int),
                forall|j: int| 0 <= j < i ==> !blocks_fixed((#[trigger] list[j]).2, view, no_replace),
            decreases spans@.len() - i,
        {
            let blocks = match &spans[i].1 {
                Custody::Present { view: holder, .. } => no_replace || *holder != view,
                Custody::Hole { .. } => no_replace,
                _ => false,
            };
            proof {
                assert(list[i as int].2 == spans@[i as int].1@);
                assert(blocks == blocks_fixed(list[i as int].2, view, no_replace));
            }
            if blocks {
                return true;
            }
            i += 1;
        }
        false
    }

    /// Where the domain steers a flexible mapping.
    fn steer(
        &self,
        access: Option<GuestAccess>,
        suggested: Option<NonZeroAddress<ALIGN>>,
        length: NonZeroPageSize<ALIGN>,
        flags: CreatePagesFlags,
    ) -> (hint: Option<NonZeroAddress<ALIGN>>)
        requires
            self.wf(),
            length.wf(),
            suggested matches Some(address) ==> address.wf(),
        ensures
            hint matches Some(address) ==> address.wf(),
            steered(
                (P::TASK_ADDR_MIN as int, P::TASK_ADDR_MAX as int),
                self@,
                access,
                suggestion(suggested),
                length.size(),
                flags,
                ALIGN as int,
                suggestion(hint),
            ),
    {
        let guest = match access {
            Some(guest) => guest,
            None => {
                return suggested;
            },
        };
        if flags.contains(CreatePagesFlags::FIXED_ADDR) {
            return suggested;
        }
        let view = guest.view;
        let vmem = &self.vmem;
        let hinted: Option<usize> = match suggested {
            Some(address) => Some(address.as_usize()),
            None => None,
        };
        let ghost task = (P::TASK_ADDR_MIN as int, P::TASK_ADDR_MAX as int);
        let ghost function = table_search(task, self@.vmem, length.size(), view, ALIGN as int);
        let search = |ceiling: Option<usize>| -> (found: Option<usize>)
            requires
                vmem.wf(),
                length.wf(),
            ensures
                found == table_search(
                    (P::TASK_ADDR_MIN as int, P::TASK_ADDR_MAX as int),
                    vmem@,
                    length.size(),
                    view,
                    ALIGN as int,
                )(ceiling),
            {
                let below = match ceiling {
                    Some(address) => NonZeroAddress::new(address),
                    None => None,
                };
                vmem.find_unmapped_area(below, length, false, Some(view))
            };
        proof {
            self.vmem.lemma_wf();
            assert forall|ceiling: Option<usize>, start: usize| #[trigger]
                call_ensures(search, (ceiling,), Some(start)) implies start + length.size()
                <= usize::MAX by {
                lemma_flexible_placement(
                    task,
                    self@.vmem,
                    as_suggestion(ceiling, ALIGN as int),
                    length.size(),
                    Some(view),
                    ALIGN as int,
                );
            }
        }
        let place = self.domain.place(view, length.as_usize(), hinted, search);
        proof {
            if let Some(family) = family_of(self@.domain, view) {
                lemma_placed_by_function(
                    self@.domain,
                    family,
                    length.size() as usize,
                    hinted,
                    MAX_ATTEMPTS as nat,
                    search,
                    function,
                    place,
                );
            }
        }
        match place {
            Ok(range) => match NonZeroAddress::new(range.start) {
                Some(address) => Some(address),
                None => suggested,
            },
            Err(_) => suggested,
        }
    }

    /// The first half of a creation: the pages are mapped, and belong to the caller's
    /// initialization until [`Self::finish_create`].
    pub fn begin_create(
        &mut self,
        access: Option<GuestAccess>,
        suggested_address: Option<NonZeroAddress<ALIGN>>,
        length: NonZeroPageSize<ALIGN>,
        flags: CreatePagesFlags,
        before_perms: MemoryRegionPermissions,
        shared_futex_backing: Option<(SharedFutexBacking, usize)>,
    ) -> (result: Result<(usize, InitializationId), MappingError>)
        requires
            old(self).wf(),
            creation_ok(
                old(self)@,
                access,
                suggested_address,
                length,
                flags,
                before_perms,
                shared_futex_backing,
            ),
        ensures
            final(self).follows(old(self)),
            creation_begun(
                final(self).platform(),
                old(self)@,
                access,
                (Creation {
                    suggested: suggestion(suggested_address),
                    size: length.size(),
                    flags,
                    before: before_perms,
                    backing: plain_backing(shared_futex_backing),
                }),
                final(self)@,
                result,
            ),
            result matches Ok(begun) ==> multiple_of(begun.0 as int, ALIGN as int) && begun.0
                + length.size() <= P::TASK_ADDR_MAX,
    {
        let ghost creation = Creation {
            suggested: suggestion(suggested_address),
            size: length.size(),
            flags,
            before: before_perms,
            backing: plain_backing(shared_futex_backing),
        };
        if flags.contains(CreatePagesFlags::FIXED_ADDR) {
            if let Some(guest) = access {
                if let Some(address) = suggested_address {
                    let start = address.as_usize();
                    let no_replace = flags.contains(CreatePagesFlags::NOREPLACE);
                    if self.is_fixed_blocked(guest.view, start, start + length.as_usize(), no_replace) {
                        return Err(
                            MappingError::MapError(
                                if no_replace {
                                    AllocationError::AddressInUse
                                } else {
                                    AllocationError::AddressPartiallyInUse
                                },
                            ),
                        );
                    }
                }
            }
        }
        let hint = self.steer(access, suggested_address, length, flags);
        let owner: Option<VmViewId> = match access {
            Some(guest) => Some(guest.view),
            None => None,
        };
        let identity = match self.vmem.reserve_initialization_id() {
            Ok(identity) => identity,
            Err(error) => {
                proof {
                    assert(pages_entered(
                        self.platform(),
                        old(self)@.vmem,
                        access,
                        creation,
                        suggestion(hint),
                        self@.vmem,
                        Err::<(usize, InitializationId), MappingError>(error),
                    ));
                }
                return Err(error);
            },
        };
        let ghost ready = self.vmem@;
        let answer = self.vmem.create_pages(
            hint,
            length,
            flags,
            before_perms,
            shared_futex_backing,
            owner,
        );
        let ghost mapped = self.vmem@;
        let ghost given = answer;
        proof {
            assert(created(
                self.platform(),
                ready,
                suggestion(hint),
                creation.size,
                creation.flags,
                creation.before,
                creation.backing,
                steer_owner(access),
                mapped,
                given,
            ));
        }
        let at: usize = match answer {
            Ok(at) => at,
            Err(error) => {
                self.sync();
                return Err(error);
            },
        };
        proof {
            self.vmem.lemma_wf();
            lemma_aligned_sum(at as int, length.size(), ALIGN as int);
        }
        let range = PageRange::<ALIGN> { start: at, end: at + length.as_usize() };
        self.vmem.track_initialization(range, identity);
        self.sync();
        proof {
            assert(pages_entered(
                self.platform(),
                old(self)@.vmem,
                access,
                creation,
                suggestion(hint),
                self@.vmem,
                Ok::<(usize, InitializationId), MappingError>((at, identity)),
            ));
        }
        Ok((at, identity))
    }

    /// Cleans up a failed creation, and says what it failed with.
    fn undo_create(
        &mut self,
        range: PageRange<ALIGN>,
        identity: InitializationId,
        primary: MappingError,
    ) -> (result: Result<usize, MappingError>)
        requires
            old(self).ahead_of(old(self)),
            range.wf(),
        ensures
            final(self).follows(old(self)),
            final(self)@.domain == old(self)@.domain,
            creation_undone(
                final(self).platform(),
                old(self)@.vmem,
                (range.start as int, range.end as int),
                identity,
                primary,
                final(self)@.vmem,
                result,
            ),
    {
        let cleanup = self.vmem.cleanup_initialization(range, identity);
        self.sync();
        proof {
            assert(cleaned_up(
                self.platform(),
                old(self)@.vmem,
                (range.start as int, range.end as int),
                identity,
                self@.vmem,
                cleanup,
            ));
        }
        Err(
            match cleanup {
                Ok(()) => primary,
                Err(error) => MappingError::Cleanup { primary: Box::new(primary), cleanup: error },
            },
        )
    }

    /// The second half of a creation, with what the caller's initialization came to. Whatever was
    /// unmapped, reset or replaced in between is not touched.
    pub fn finish_create(
        &mut self,
        access: Option<GuestAccess>,
        range: PageRange<ALIGN>,
        identity: InitializationId,
        after_perms: MemoryRegionPermissions,
        callback: Result<usize, MappingError>,
    ) -> (result: Result<usize, MappingError>)
        requires
            old(self).wf(),
            range.wf(),
        ensures
            final(self).follows(old(self)),
            creation_finished(
                final(self).platform(),
                old(self)@,
                access,
                (range.start as int, range.end as int),
                identity,
                after_perms,
                callback,
                final(self)@,
                result,
            ),
    {
        if let Err(primary) = callback {
            return self.undo_create(range, identity, primary);
        }
        if !self.vmem.owns_initialization(range, identity) {
            return self.undo_create(range, identity, MappingError::ConcurrentlyRemoved);
        }
        let outcome = self.vmem.protect_mapping(range, after_perms);
        let ghost mid = self.vmem@;
        let ghost given = outcome;
        proof {
            assert(protected(
                self.platform(),
                old(self)@.vmem,
                (range.start as int, range.end as int),
                after_perms,
                mid,
                given,
            ));
        }
        if let Err(error) = outcome {
            return self.undo_create(range, identity, MappingError::FinalizeProtection(error));
        }
        let done = self.vmem.finish_initialization(range, identity);
        self.sync();
        self.shadow_publish_present(access, range.start, range.end);
        proof {
            assert(mid.pending == old(self)@.vmem.pending);
            assert(done);
        }
        Ok(range.start)
    }

    /// Creates pages with the given flags. `op` initializes them; `before_perms` and `after_perms`
    /// are their permissions before and after it.
    fn create_pages<F: FnOnce(usize) -> Result<usize, MappingError>>(
        &mut self,
        access: Option<GuestAccess>,
        suggested_address: Option<NonZeroAddress<ALIGN>>,
        length: NonZeroPageSize<ALIGN>,
        flags: CreatePagesFlags,
        before_perms: MemoryRegionPermissions,
        after_perms: MemoryRegionPermissions,
        shared_futex_backing: Option<(SharedFutexBacking, usize)>,
        op: F,
    ) -> (result: Result<usize, MappingError>)
        requires
            old(self).wf(),
            creation_ok(
                old(self)@,
                access,
                suggested_address,
                length,
                flags,
                before_perms,
                shared_futex_backing,
            ),
            forall|at: usize| #[trigger] call_requires(op, (at,)),
        ensures
            final(self).follows(old(self)),
            pages_created(
                final(self).platform(),
                old(self)@,
                access,
                (Creation {
                    suggested: suggestion(suggested_address),
                    size: length.size(),
                    flags,
                    before: before_perms,
                    backing: plain_backing(shared_futex_backing),
                }),
                after_perms,
                op,
                final(self)@,
                result,
            ),
            is_creation(
                old(self)@.vmem,
                suggestion(suggested_address),
                length.size(),
                flags,
                after_perms.bits,
                final(self)@.vmem,
                result,
            ),
    {
        let ghost creation = Creation {
            suggested: suggestion(suggested_address),
            size: length.size(),
            flags,
            before: before_perms,
            backing: plain_backing(shared_futex_backing),
        };
        let begun = self.begin_create(
            access,
            suggested_address,
            length,
            flags,
            before_perms,
            shared_futex_backing,
        );
        let ghost mid = self@;
        let ghost first = begun;
        proof {
            self.lemma_wf();
            assert(creation_begun(self.platform(), old(self)@, access, creation, mid, first));
        }
        let (at, identity) = match begun {
            Ok(begun) => begun,
            Err(error) => {
                proof {
                    lemma_refused_creation(
                        self.platform(),
                        old(self)@,
                        access,
                        creation,
                        mid,
                        error,
                        after_perms.bits,
                    );
                }
                return Err(error);
            },
        };
        proof {
            lemma_aligned_sum(at as int, length.size(), ALIGN as int);
        }
        let callback = op(at);
        let ghost answered = callback;
        let range = PageRange::<ALIGN> { start: at, end: at + length.as_usize() };
        let result = self.finish_create(access, range, identity, after_perms, callback);
        proof {
            lemma_pages_are_created(
                self.platform(),
                old(self)@,
                access,
                creation,
                mid,
                at,
                identity,
                after_perms,
                answered,
                self@,
                result,
            );
        }
        result
    }

    /// Creates pages whose futexes are keyed by a stable backing object and byte offset rather
    /// than by their address.
    pub fn create_pages_with_shared_futex_backing<F: FnOnce(usize) -> Result<usize, MappingError>>(
        &mut self,
        access: Option<GuestAccess>,
        suggested_address: Option<NonZeroAddress<ALIGN>>,
        length: NonZeroPageSize<ALIGN>,
        flags: CreatePagesFlags,
        before_perms: MemoryRegionPermissions,
        after_perms: MemoryRegionPermissions,
        shared_futex_backing: Option<(SharedFutexBacking, usize)>,
        op: F,
    ) -> (result: Result<usize, MappingError>)
        requires
            old(self).wf(),
            creation_ok(
                old(self)@,
                access,
                suggested_address,
                length,
                flags,
                before_perms,
                shared_futex_backing,
            ),
            forall|at: usize| #[trigger] call_requires(op, (at,)),
        ensures
            final(self).follows(old(self)),
            pages_created(
                final(self).platform(),
                old(self)@,
                access,
                (Creation {
                    suggested: suggestion(suggested_address),
                    size: length.size(),
                    flags,
                    before: before_perms,
                    backing: plain_backing(shared_futex_backing),
                }),
                after_perms,
                op,
                final(self)@,
                result,
            ),
            is_creation(
                old(self)@.vmem,
                suggestion(suggested_address),
                length.size(),
                flags,
                after_perms.bits,
                final(self)@.vmem,
                result,
            ),
    {
        self.create_pages(
            access,
            suggested_address,
            length,
            flags,
            before_perms,
            after_perms,
            shared_futex_backing,
            op,
        )
    }

    /// Creates readable and executable pages. They are writable, not executable, for `op`.
    pub fn create_executable_pages<F: FnOnce(usize) -> Result<usize, MappingError>>(
        &mut self,
        access: Option<GuestAccess>,
        suggested_address: Option<NonZeroAddress<ALIGN>>,
        length: NonZeroPageSize<ALIGN>,
        flags: CreatePagesFlags,
        op: F,
    ) -> (result: Result<usize, MappingError>)
        requires
            old(self).wf(),
            creation_ok(old(self)@, access, suggested_address, length, flags, read_write(), None),
            forall|at: usize| #[trigger] call_requires(op, (at,)),
        ensures
            final(self).follows(old(self)),
            pages_created(
                final(self).platform(),
                old(self)@,
                access,
                plain_creation(suggestion(suggested_address), length.size(), flags, read_write()),
                read_execute(),
                op,
                final(self)@,
                result,
            ),
            is_creation(
                old(self)@.vmem,
                suggestion(suggested_address),
                length.size(),
                flags,
                5,
                final(self)@.vmem,
                result,
            ),
    {
        let before = MemoryRegionPermissions { bits: 3 };
        let after = MemoryRegionPermissions { bits: 5 };
        self.create_pages(access, suggested_address, length, flags, before, after, None, op)
    }

    /// Creates readable and writable pages.
    pub fn create_writable_pages<F: FnOnce(usize) -> Result<usize, MappingError>>(
        &mut self,
        access: Option<GuestAccess>,
        suggested_address: Option<NonZeroAddress<ALIGN>>,
        length: NonZeroPageSize<ALIGN>,
        flags: CreatePagesFlags,
        op: F,
    ) -> (result: Result<usize, MappingError>)
        requires
            old(self).wf(),
            creation_ok(old(self)@, access, suggested_address, length, flags, read_write(), None),
            forall|at: usize| #[trigger] call_requires(op, (at,)),
        ensures
            final(self).follows(old(self)),
            pages_created(
                final(self).platform(),
                old(self)@,
                access,
                plain_creation(suggestion(suggested_address), length.size(), flags, read_write()),
                read_write(),
                op,
                final(self)@,
                result,
            ),
            is_creation(
                old(self)@.vmem,
                suggestion(suggested_address),
                length.size(),
                flags,
                3,
                final(self)@.vmem,
                result,
            ),
    {
        let perms = MemoryRegionPermissions { bits: 3 };
        self.create_pages(access, suggested_address, length, flags, perms, perms, None, op)
    }

    /// Creates read-only pages. They are writable for `op`.
    pub fn create_readable_pages<F: FnOnce(usize) -> Result<usize, MappingError>>(
        &mut self,
        access: Option<GuestAccess>,
        suggested_address: Option<NonZeroAddress<ALIGN>>,
        length: NonZeroPageSize<ALIGN>,
        flags: CreatePagesFlags,
        op: F,
    ) -> (result: Result<usize, MappingError>)
        requires
            old(self).wf(),
            creation_ok(old(self)@, access, suggested_address, length, flags, read_write(), None),
            forall|at: usize| #[trigger] call_requires(op, (at,)),
        ensures
            final(self).follows(old(self)),
            pages_created(
                final(self).platform(),
                old(self)@,
                access,
                plain_creation(suggestion(suggested_address), length.size(), flags, read_write()),
                read_only(),
                op,
                final(self)@,
                result,
            ),
            is_creation(
                old(self)@.vmem,
                suggestion(suggested_address),
                length.size(),
                flags,
                1,
                final(self)@.vmem,
                result,
            ),
    {
        let before = MemoryRegionPermissions { bits: 3 };
        let after = MemoryRegionPermissions { bits: 1 };
        self.create_pages(access, suggested_address, length, flags, before, after, None, op)
    }

    /// Creates inaccessible pages.
    pub fn create_inaccessible_pages<F: FnOnce(usize) -> Result<usize, MappingError>>(
        &mut self,
        access: Option<GuestAccess>,
        suggested_address: Option<NonZeroAddress<ALIGN>>,
        length: NonZeroPageSize<ALIGN>,
        flags: CreatePagesFlags,
        op: F,
    ) -> (result: Result<usize, MappingError>)
        requires
            old(self).wf(),
            creation_ok(old(self)@, access, suggested_address, length, flags, no_access(), None),
            forall|at: usize| #[trigger] call_requires(op, (at,)),
        ensures
            final(self).follows(old(self)),
            pages_created(
                final(self).platform(),
                old(self)@,
                access,
                plain_creation(suggestion(suggested_address), length.size(), flags, no_access()),
                no_access(),
                op,
                final(self)@,
                result,
            ),
            is_creation(
                old(self)@.vmem,
                suggestion(suggested_address),
                length.size(),
                flags,
                0,
                final(self)@.vmem,
                result,
            ),
    {
        let perms = MemoryRegionPermissions::empty();
        self.create_pages(access, suggested_address, length, flags, perms, perms, None, op)
    }

    /// Creates stack pages: readable, writable, and growing down.
    pub fn create_stack_pages(
        &mut self,
        access: Option<GuestAccess>,
        suggested_address: Option<NonZeroAddress<ALIGN>>,
        length: NonZeroPageSize<ALIGN>,
        flags: CreatePagesFlags,
    ) -> (result: Result<usize, MappingError>)
        requires
            old(self).wf(),
            creation_ok(old(self)@, access, suggested_address, length, stack_flags(flags), read_write(), None),
        ensures
            final(self).follows(old(self)),
            exists|mid: ManagerModel, begun: Result<(usize, InitializationId), MappingError>| #[trigger]
                creation_begun(
                    final(self).platform(),
                    old(self)@,
                    access,
                    plain_creation(
                        suggestion(suggested_address),
                        length.size(),
                        stack_flags(flags),
                        read_write(),
                    ),
                    mid,
                    begun,
                ) && match begun {
                    Err(error) => final(self)@ == mid && result == Err::<usize, MappingError>(error),
                    Ok((at, identity)) => creation_finished(
                        final(self).platform(),
                        mid,
                        access,
                        (at as int, at + length.size()),
                        identity,
                        read_write(),
                        Ok(0),
                        final(self)@,
                        result,
                    ),
                },
            is_creation(
                old(self)@.vmem,
                suggestion(suggested_address),
                length.size(),
                (CreatePagesFlags { bits: flags.bits | 0x2 }),
                3,
                final(self)@.vmem,
                result,
            ),
    {
        let perms = MemoryRegionPermissions { bits: 3 };
        let flags = flags.union(CreatePagesFlags::IS_STACK);
        let begun = self.begin_create(access, suggested_address, length, flags, perms, None);
        let ghost mid = self@;
        let ghost first = begun;
        let ghost creation = plain_creation(
            suggestion(suggested_address),
            length.size(),
            flags,
            perms,
        );
        proof {
            self.lemma_wf();
            assert(creation_begun(self.platform(), old(self)@, access, creation, mid, first));
        }
        let (at, identity) = match begun {
            Ok(begun) => begun,
            Err(error) => {
                proof {
                    lemma_refused_creation(
                        self.platform(),
                        old(self)@,
                        access,
                        creation,
                        mid,
                        error,
                        3,
                    );
                }
                return Err(error);
            },
        };
        proof {
            lemma_aligned_sum(at as int, length.size(), ALIGN as int);
        }
        let range = PageRange::<ALIGN> { start: at, end: at + length.as_usize() };
        let result = self.finish_create(access, range, identity, perms, Ok(0));
        proof {
            lemma_pages_are_created(
                self.platform(),
                old(self)@,
                access,
                creation,
                mid,
                at,
                identity,
                perms,
                Ok(0),
                self@,
                result,
            );
        }
        result
    }
}

/// A creation without a backing object.
pub open spec fn plain_creation(
    suggested: Option<int>,
    size: int,
    flags: CreatePagesFlags,
    before: MemoryRegionPermissions,
) -> Creation {
    Creation { suggested, size, flags, before, backing: None }
}

pub open spec fn read_only() -> MemoryRegionPermissions {
    MemoryRegionPermissions { bits: 1 }
}

pub open spec fn read_write() -> MemoryRegionPermissions {
    MemoryRegionPermissions { bits: 3 }
}

pub open spec fn read_execute() -> MemoryRegionPermissions {
    MemoryRegionPermissions { bits: 5 }
}

pub open spec fn no_access() -> MemoryRegionPermissions {
    MemoryRegionPermissions { bits: 0 }
}

/// The flags of a stack.
pub open spec fn stack_flags(flags: CreatePagesFlags) -> CreatePagesFlags {
    CreatePagesFlags { bits: flags.bits | CreatePagesFlags::IS_STACK }
}

} // verus!
