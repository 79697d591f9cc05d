//! The virtual memory manager of one address space: which addresses are mapped, to what, and what
//! the platform is asked to do about it.
pub mod create;
pub mod effects;
pub mod initialization;
pub mod laws;
pub mod log;
pub mod placement;
pub mod protect;
pub mod remap;

use crate::id_map::IdMap;
use crate::mm::area::{InitializationId, SharedFutexIds, Transient, VmArea};
use crate::mm::errors::MappingError;
use crate::mm::flags::VmFlags;
use crate::mm::range_set::RangeSet;
use crate::mm::vmas::{TrackedVmas, VmaMirror};
use crate::platform::page_mgmt::PageManagementProvider;
use crate::range_table::RangeTable;
use core::ops::Range;
use vstd::prelude::*;

verus! {

use crate::mm::addr::{lemma_page_of, page_of};
use crate::mm::area::new_area;
use crate::range_map::{cut, lookup, pieces, pieces_of, put, revise, runs_of};
use crate::range_table::modelled;

broadcast use {
    crate::range_map::lemma_lookup_put,
    crate::range_map::lemma_lookup_cut,
    crate::range_map::lemma_lookup_revise,
};

/// Distance kept free below a stack for it to grow into.
pub const STACK_GUARD_GAP: usize = 0x10_0000;

/// How many shared-backing identities an address space takes from the process at a time.
pub const FUTEX_BLOCK: usize = 0x1_0000;

/// What an address space is, to everybody but the platform.
pub struct VmemModel {
    /// Current program break address.
    pub brk: usize,
    /// The area of each mapped address.
    pub areas: Map<int, VmArea>,
    /// The callback that still owns each address of a mapping being initialized.
    pub pending: Map<int, InitializationId>,
    /// The callback identity that is issued next.
    pub next_initialization: usize,
    /// The shared-backing identity that is issued next.
    pub next_futex: usize,
    /// The first shared-backing identity past those that this address space may issue.
    pub futex_end: usize,
    /// The addresses each owner holds back from flexible placement.
    pub reserved: Map<u64, Set<int>>,
}

/// An address maps to what its page maps to.
pub open spec fn on_page<M>(map: Map<int, M>, k: int, align: int) -> bool {
    lookup(map, k) == lookup(map, page_of(k, align))
}

/// Every page is mapped as a whole.
pub open spec fn paged<M>(map: Map<int, M>, align: int) -> bool {
    forall|k: int| #[trigger] on_page(map, k, align)
}

/// Changing a map by whole pages keeps it paged.
pub proof fn lemma_paged_put<M>(map: Map<int, M>, start: int, end: int, value: M, align: int)
    requires
        align > 0,
        paged(map, align),
        start % align == 0,
        end % align == 0,
    ensures
        paged(put(map, start, end, value), align),
        paged(cut(map, start, end), align),
{
    assert forall|k: int| #[trigger] on_page(put(map, start, end, value), k, align) && on_page(
        cut(map, start, end),
        k,
        align,
    ) by {
        assert(on_page(map, k, align));
        lemma_page_of(k, align);
        assert(start % align == 0 && end % align == 0);
    }
    assert forall|k: int| #[trigger] on_page(cut(map, start, end), k, align) by {
        assert(on_page(put(map, start, end, value), k, align));
    }
}

/// A change of value in a paged map happens at a page boundary.
pub proof fn lemma_paged_edge<M>(map: Map<int, M>, k: int, align: int)
    requires
        align > 0,
        paged(map, align),
        lookup(map, k - 1) != lookup(map, k),
    ensures
        k % align == 0,
{
    assert(on_page(map, k, align));
    assert(on_page(map, k - 1, align));
    lemma_page_of(k, align);
    lemma_page_of(k - 1, align);
    if k % align != 0 {
        // The page of `k` starts at or below `k - 1`, so both share it.
        let p = page_of(k, align);
        let q = page_of(k - 1, align);
        assert(p <= k - 1);
        assert(p % align == 0 && q % align == 0);
        assert(p <= q && q <= p);
    }
}

/// The pieces of a page range in a paged map are page ranges.
pub proof fn lemma_paged_pieces<M>(list: Seq<(int, int, M)>, map: Map<int, M>, start: int, end: int, align: int)
    requires
        align > 0,
        paged(map, align),
        start % align == 0,
        end % align == 0,
        pieces_of(list, map, start, end),
    ensures
        forall|i: int| 0 <= i < list.len() ==> (#[trigger] list[i]).0 % align == 0 && list[i].1 % align == 0,
{
    assert forall|i: int| 0 <= i < list.len() implies (#[trigger] list[i]).0 % align == 0 && list[i].1
        % align == 0 by {
        let (s, e, v) = list[i];
        assert(lookup(map, s) == Some(v));
        assert(lookup(map, e - 1) == Some(v));
        if s != start {
            lemma_paged_edge(map, s, align);
        }
        if e != end {
            lemma_paged_edge(map, e, align);
        }
    }
}

/// The area once no initialization owns it any more.
pub open spec fn cleared(area: VmArea) -> VmArea {
    VmArea { initialization: None, ..area }
}

/// The areas once no initialization owns any address of a range.
pub open spec fn cleared_over(areas: Map<int, VmArea>, start: int, end: int) -> Map<int, VmArea> {
    revise(areas, start, end, |area: VmArea| cleared(area))
}

/// The address space once no initialization owns any address of a range.
pub open spec fn invalidated(m: VmemModel, start: int, end: int) -> VmemModel {
    VmemModel {
        pending: cut(m.pending, start, end),
        areas: cleared_over(m.areas, start, end),
        ..m
    }
}

/// The backing of an area is tied to an address, if it has one.
pub open spec fn has_origin(area: VmArea) -> bool {
    area.shared_futex matches Some(shared) ==> shared.position is Origin
}

/// Every mapped area that has a backing has it tied to an address.
pub open spec fn all_placed(areas: Map<int, VmArea>) -> bool {
    forall|k: int| (#[trigger] lookup(areas, k)) matches Some(area) ==> has_origin(area)
}

/// The task address range of a platform makes sense: aligned, ordered, and low enough that a size
/// within it and two guard gaps still fit the address type.
pub open spec fn task_range_ok(min: int, max: int, align: int) -> bool {
    &&& align > 0
    &&& min % align == 0
    &&& max % align == 0
    &&& min <= max
    &&& max + 2 * STACK_GUARD_GAP <= usize::MAX
    &&& (2 * STACK_GUARD_GAP as int) % align == 0
}

/// Every range is aligned and not empty.
pub open spec fn reserved_ok(ranges: Seq<Range<usize>>, align: int) -> bool {
    forall|i: int|
        0 <= i < ranges.len() ==> (#[trigger] ranges[i]).start < ranges[i].end && ranges[i].start as int
            % align == 0 && ranges[i].end as int % align == 0
}

/// An address space took its block of identities from the source of the process.
pub open spec fn block_taken(before: SharedFutexIds, after: SharedFutexIds) -> bool {
    &&& after.wf()
    &&& after.next() == before.next() + FUTEX_BLOCK
    &&& after.end() == before.end()
}

/// A new address space: nothing but the reserved ranges, which are mapped without access, and the
/// block of shared-backing identities that begins at `first_futex`.
pub open spec fn is_fresh(m: VmemModel, reserved: Seq<Range<usize>>, first_futex: usize) -> bool {
    &&& m.brk == 0
    &&& m.pending == Map::<int, InitializationId>::empty()
    &&& m.next_initialization == 1
    &&& m.next_futex == first_futex
    &&& m.futex_end == first_futex + FUTEX_BLOCK
    &&& m.reserved == Map::<u64, Set<int>>::empty()
    &&& forall|k: int| #[trigger]
        lookup(m.areas, k) == (if exists|i: int|
            0 <= i < reserved.len() && (#[trigger] reserved[i]).start <= k < reserved[i].end {
            Some(new_area(0, false, None))
        } else {
            None
        })
}

/// Virtual Memory Manager
///
/// Maintains the virtual memory ranges backed by a platform. Each range is `ALIGN`-aligned.
pub struct Vmem<P: PageManagementProvider<ALIGN> + 'static, const ALIGN: usize> {
    /// Memory backend that provides the actual memory.
    platform: &'static P,
    /// Current program break address.
    brk: usize,
    /// Virtual memory areas.
    vmas: TrackedVmas,
    /// Temporary ownership of mappings whose caller callback has not returned.
    pending_initializations: RangeTable<InitializationId>,
    /// Next callback identity. Zero is never issued and identities are never reused.
    next_initialization_id: usize,
    /// Next shared-backing identity.
    futex_ids: SharedFutexIds,
    /// Address ranges an owner has claimed without a live mapping here. A flexible placement for
    /// that owner treats them as occupied; nobody else's does.
    reserved: IdMap<RangeSet>,
    /// What a mutation in flight is about to do. Empty whenever no operation runs.
    transient: RangeTable<Transient>,
}

impl<P: PageManagementProvider<ALIGN> + 'static, const ALIGN: usize> View for Vmem<P, ALIGN> {
    type V = VmemModel;

    closed spec fn view(&self) -> VmemModel {
        VmemModel {
            brk: self.brk,
            areas: self.vmas@,
            pending: self.pending_initializations@,
            next_initialization: self.next_initialization_id,
            next_futex: self.futex_ids.next(),
            futex_end: self.futex_ids.end(),
            reserved: Map::new(
                |owner: u64| self.reserved@.dom().contains(owner),
                |owner: u64| self.reserved@[owner]@,
            ),
        }
    }
}

impl<P: PageManagementProvider<ALIGN> + 'static, const ALIGN: usize> Vmem<P, ALIGN> {
    /// The platform underneath.
    pub closed spec fn platform(&self) -> &'static P {
        self.platform
    }

    /// The mapping table when its change log was last drained.
    pub closed spec fn base(&self) -> Map<int, VmArea> {
        self.vmas.base()
    }

    /// How many table changes wait to be replayed.
    pub closed spec fn logged(&self) -> nat {
        self.vmas.log().len()
    }

    /// The change log is longer than it was by so many changes.
    pub open spec fn logs(&self, before: &Self, count: nat) -> bool {
        self.logged() == before.logged() + count
    }

    /// The tables are well formed and hold whole pages, every shared backing is tied to an address,
    /// no operation is in flight, and no owner keeps an empty reservation.
    pub closed spec fn wf(&self) -> bool {
        &&& task_range_ok(P::TASK_ADDR_MIN as int, P::TASK_ADDR_MAX as int, ALIGN as int)
        &&& self.vmas.wf()
        &&& paged(self.vmas@, ALIGN as int)
        &&& all_placed(self.vmas@)
        &&& self.pending_initializations.wf()
        &&& paged(self.pending_initializations@, ALIGN as int)
        &&& self.transient.wf()
        &&& self.transient@ == Map::<int, Transient>::empty()
        &&& self.futex_ids.wf()
        &&& self.reserved.wf()
        &&& forall|owner: u64| #[trigger]
            self.reserved@.dom().contains(owner) ==> self.reserved@[owner].wf()
                && self.reserved@[owner]@ != Set::<int>::empty()
    }

    /// What every operation keeps: well-formedness, the platform, and the table that the change
    /// log starts from.
    pub open spec fn follows(&self, before: &Self) -> bool {
        &&& self.wf()
        &&& self.platform() == before.platform()
        &&& self.base() == before.base()
    }

    /// What well-formedness says of the model.
    pub proof fn lemma_wf(&self)
        requires
            self.wf(),
        ensures
            task_range_ok(P::TASK_ADDR_MIN as int, P::TASK_ADDR_MAX as int, ALIGN as int),
            paged(self@.areas, ALIGN as int),
            all_placed(self@.areas),
            paged(self@.pending, ALIGN as int),
            1 <= self@.next_futex <= self@.futex_end,
            forall|k: int| #[trigger] lookup(self@.areas, k) is Some ==> 0 <= k < usize::MAX,
            forall|k: int| #[trigger] lookup(self@.pending, k) is Some ==> 0 <= k < usize::MAX,
            forall|owner: u64| #[trigger]
                self@.reserved.dom().contains(owner) ==> self@.reserved[owner] != Set::<int>::empty(),
    {
        self.vmas.lemma_log();
        self.pending_initializations.lemma_bounds();
    }

    /// Create a new [`Vmem`] instance with the given platform, whose reserved ranges are entered
    /// as mapped without access.
    pub fn new(platform: &'static P, futex_ids: &mut SharedFutexIds) -> (vmem: Self)
        requires
            task_range_ok(P::TASK_ADDR_MIN as int, P::TASK_ADDR_MAX as int, ALIGN as int),
            old(futex_ids).wf(),
            old(futex_ids).next() + FUTEX_BLOCK <= old(futex_ids).end(),
            forall|ranges: Vec<Range<usize>>|
                call_ensures(P::reserved_pages, (platform,), ranges) ==> reserved_ok(
                    ranges@,
                    ALIGN as int,
                ),
        ensures
            vmem.wf(),
            vmem.platform() == platform,
            vmem.base() == Map::<int, VmArea>::empty(),
            block_taken(*old(futex_ids), *final(futex_ids)),
            exists|ranges: Vec<Range<usize>>|
                call_ensures(P::reserved_pages, (platform,), ranges) && is_fresh(
                    vmem@,
                    ranges@,
                    old(futex_ids).next(),
                ) && vmem.logged() == ranges@.len(),
    {
        let reserved = platform.reserved_pages();
        let vmem = Vmem::with_reserved(platform, futex_ids, reserved);
        proof {
            assert(call_ensures(P::reserved_pages, (platform,), reserved) && is_fresh(
                vmem@,
                reserved@,
                old(futex_ids).next(),
            ) && vmem.logged() == reserved@.len());
        }
        vmem
    }

    /// A new instance whose reserved ranges are the given ones.
    pub fn with_reserved(
        platform: &'static P,
        futex_ids: &mut SharedFutexIds,
        reserved: Vec<Range<usize>>,
    ) -> (vmem: Self)
        requires
            task_range_ok(P::TASK_ADDR_MIN as int, P::TASK_ADDR_MAX as int, ALIGN as int),
            old(futex_ids).wf(),
            old(futex_ids).next() + FUTEX_BLOCK <= old(futex_ids).end(),
            reserved_ok(reserved@, ALIGN as int),
        ensures
            vmem.wf(),
            vmem.platform() == platform,
            vmem.base() == Map::<int, VmArea>::empty(),
            block_taken(*old(futex_ids), *final(futex_ids)),
            is_fresh(vmem@, reserved@, old(futex_ids).next()),
            vmem.logged() == reserved@.len(),
    {
        let ghost first = futex_ids.next();
        let mut vmem = Vmem {
            platform,
            brk: 0,
            vmas: TrackedVmas::new(),
            pending_initializations: RangeTable::new(),
            next_initialization_id: 1,
            futex_ids: futex_ids.block(FUTEX_BLOCK),
            reserved: IdMap::new(),
            transient: RangeTable::new(),
        };
        proof {
            assert(vmem@.reserved =~= Map::<u64, Set<int>>::empty());
        }
        let mut i: usize = 0;
        while i < reserved.len()
            invariant
                i <= reserved@.len(),
                vmem.wf(),
                vmem.platform() == platform,
                vmem.base() == Map::<int, VmArea>::empty(),
                vmem.logged() == i,
                vmem@.brk == 0,
                vmem@.pending == Map::<int, InitializationId>::empty(),
                vmem@.next_initialization == 1,
                vmem@.next_futex == first,
                vmem@.futex_end == first + FUTEX_BLOCK,
                vmem@.reserved == Map::<u64, Set<int>>::empty(),
                reserved_ok(reserved@, ALIGN as int),
                forall|k: int| #[trigger]
                    lookup(vmem@.areas, k) == (if exists|j: int|
                        0 <= j < i && (#[trigger] reserved@[j]).start <= k < reserved@[j].end {
                        Some(new_area(0, false, None))
                    } else {
                        None
                    }),
            decreases reserved@.len() - i,
        {
            let ghost before = vmem@.areas;
            let (start, end) = (reserved[i].start, reserved[i].end);
            let area = VmArea::new(VmFlags::empty(), false, None);
            proof {
                assert(reserved@[i as int].start % ALIGN == 0);
                lemma_paged_put(before, start as int, end as int, area, ALIGN as int);
            }
            vmem.vmas.insert(start, end, area);
            i += 1;
            proof {
                assert forall|k: int| #[trigger]
                    lookup(vmem@.areas, k) == (if exists|j: int|
                        0 <= j < i && (#[trigger] reserved@[j]).start <= k < reserved@[j].end {
                        Some(new_area(0, false, None))
                    } else {
                        None
                    }) by {
                    assert(lookup(before, k) == lookup(before, k));
                    if start <= k < end {
                        assert(reserved@[i - 1].start <= k < reserved@[i - 1].end);
                    }
                }
            }
        }
        vmem
    }

    /// Every mapping with its range, in address order.
    pub fn iter(&self) -> (found: Vec<(usize, usize, VmArea)>)
        requires
            self.wf(),
        ensures
            runs_of(modelled(found@), self@.areas, 0, usize::MAX as int),
    {
        self.vmas.iter()
    }

    /// The mappings that a range partially or completely overlaps, in address order.
    pub fn overlapping(&self, start: usize, end: usize) -> (found: Vec<(usize, usize, VmArea)>)
        requires
            self.wf(),
        ensures
            runs_of(modelled(found@), self@.areas, start as int, end as int),
    {
        self.vmas.overlapping(start, end)
    }

    /// The mappings inside a non-empty range, cut off at its edges, in address order.
    pub fn pieces(&self, start: usize, end: usize) -> (found: Vec<(usize, usize, VmArea)>)
        requires
            self.wf(),
            start < end,
        ensures
            modelled(found@) == pieces(self@.areas, start as int, end as int),
            pieces_of(modelled(found@), self@.areas, start as int, end as int),
    {
        self.vmas.pieces(start, end)
    }

    /// The platform underneath.
    pub fn backend(&self) -> (platform: &'static P)
        ensures
            platform == self.platform(),
    {
        self.platform
    }

    /// Current program break address.
    pub fn brk(&self) -> (brk: usize)
        ensures
            brk == self@.brk,
    {
        self.brk
    }

    /// Moves the program break.
    pub fn set_brk(&mut self, brk: usize)
        requires
            old(self).wf(),
        ensures
            final(self).follows(old(self)),
            final(self).logs(old(self), 0),
            final(self)@ == (VmemModel { brk, ..old(self)@ }),
    {
        self.brk = brk;
        proof {
            assert(self@.reserved =~= old(self)@.reserved);
        }
    }

    /// Whether the mapping table changed since the last [`Self::replay_vma_ops`].
    pub fn has_vma_ops(&self) -> (changed: bool)
        requires
            self.wf(),
        ensures
            changed == (self.logged() > 0),
            !changed ==> self@.areas == self.base(),
    {
        self.vmas.has_ops()
    }

    /// Replays every mapping-table change logged since the last call into `mirror`, in order, and
    /// empties the log. A mirror that was the table then is the table afterwards. Returns how many
    /// changes it replayed.
    pub fn replay_vma_ops(&mut self, mirror: &mut VmaMirror) -> (count: usize)
        requires
            old(self).wf(),
            old(mirror).wf(),
            old(mirror)@ == old(self).base(),
        ensures
            final(self).wf(),
            final(self).platform() == old(self).platform(),
            final(self)@ == old(self)@,
            final(self).base() == final(self)@.areas,
            final(self).logged() == 0,
            final(mirror).wf(),
            final(mirror)@ == old(self)@.areas,
            count == old(self).logged(),
    {
        let count = self.vmas.drain_into(mirror);
        proof {
            assert(self@.reserved =~= old(self)@.reserved);
        }
        count
    }

    /// Takes a new block of shared-backing identities from the process. What is left of the old one
    /// is never issued.
    pub fn renew_futex_ids(&mut self, futex_ids: &mut SharedFutexIds)
        requires
            old(self).wf(),
            old(futex_ids).wf(),
            old(futex_ids).next() + FUTEX_BLOCK <= old(futex_ids).end(),
        ensures
            final(self).follows(old(self)),
            final(self).logs(old(self), 0),
            block_taken(*old(futex_ids), *final(futex_ids)),
            final(self)@ == (VmemModel {
                next_futex: old(futex_ids).next(),
                futex_end: (old(futex_ids).next() + FUTEX_BLOCK) as usize,
                ..old(self)@
            }),
    {
        self.futex_ids = futex_ids.block(FUTEX_BLOCK);
        proof {
            assert(self@.reserved =~= old(self)@.reserved);
        }
    }

    /// How many shared-backing identities are left of the block that was taken last.
    pub fn futex_ids_left(&self) -> (left: usize)
        requires
            self.wf(),
        ensures
            left == self@.futex_end - self@.next_futex,
    {
        self.futex_ids.left()
    }

    /// Reserves a callback identity before publishing the mapping it will own.
    /// Consumed identities are not reused, including when allocation fails.
    pub fn reserve_initialization_id(&mut self) -> (identity: Result<InitializationId, MappingError>)
        requires
            old(self).wf(),
        ensures
            final(self).follows(old(self)),
            final(self).logs(old(self), 0),
            match identity {
                Ok(id) => id.raw == old(self)@.next_initialization && final(self)@ == (VmemModel {
                    next_initialization: (id.raw + 1) as usize,
                    ..old(self)@
                }),
                Err(error) => error == MappingError::InitializationIdentityExhausted && final(self)@
                    == old(self)@,
            },
            identity is Err <==> old(self)@.next_initialization == usize::MAX,
    {
        let identity: usize = self.next_initialization_id;
        if identity == usize::MAX {
            return Err(MappingError::InitializationIdentityExhausted);
        }
        self.next_initialization_id = identity + 1;
        proof {
            assert(self@.reserved =~= old(self)@.reserved);
        }
        Ok(InitializationId { raw: identity })
    }
}

} // verus!
