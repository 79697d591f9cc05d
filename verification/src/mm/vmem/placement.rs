//! Where a new mapping goes: held-back ranges and the search for free addresses.
use crate::ids::VmViewId;
use crate::mm::addr::{NonZeroAddress, NonZeroPageSize};
use crate::mm::area::VmArea;
use crate::mm::flags::VmFlags;
use crate::mm::range_set::RangeSet;
use crate::mm::vmem::Vmem;
use crate::platform::page_mgmt::PageManagementProvider;
use vstd::prelude::*;

verus! {

use crate::mm::addr::{lemma_aligned_sum, lemma_page_of, page_of};
use crate::mm::flags::carries;
use crate::mm::vmem::effects::occupied;
use crate::mm::vmem::{lemma_paged_edge, paged, task_range_ok, VmemModel, STACK_GUARD_GAP};
use crate::range_map::{covered, is_run, lookup};
use crate::range_table::modelled;

/// Some address of a range is held back from the owner; with no owner, from anybody.
pub open spec fn held_back(
    reserved: Map<u64, Set<int>>,
    owner: Option<VmViewId>,
    start: int,
    end: int,
) -> bool {
    match owner {
        Some(view) => reserved.dom().contains(view.raw) && overlapped(reserved[view.raw], start, end),
        None => exists|view: u64| #[trigger]
            reserved.dom().contains(view) && overlapped(reserved[view], start, end),
    }
}

/// Some address of a range is in the set.
pub open spec fn overlapped(set: Set<int>, start: int, end: int) -> bool {
    exists|k: int| start <= k < end && set.contains(k)
}

/// A placement of `size` bytes at an address meets neither a mapping nor a held-back range.
pub open spec fn is_open(m: VmemModel, owner: Option<VmViewId>, start: int, size: int) -> bool {
    !occupied(m.areas, start, start + size) && !held_back(m.reserved, owner, start, start + size)
}

/// The first mapping at or above an address is a stack, and nearer than a stack needs to grow.
pub open spec fn crowds_stack(areas: Map<int, VmArea>, end: int) -> bool {
    exists|k: int| #[trigger] is_stack_ahead(areas, end, k)
}

/// The first mapping at or above an address begins at `k`, is a stack, and is nearer than a stack
/// needs to grow.
pub open spec fn is_stack_ahead(areas: Map<int, VmArea>, end: int, k: int) -> bool {
    &&& end <= k < end + 2 * STACK_GUARD_GAP
    &&& lookup(areas, k) matches Some(area) && carries(area.flags.bits, VmFlags::VM_GROWSDOWN)
    &&& !occupied(areas, end, k)
}

/// A placement of `size` bytes that the search may pick: it is open, and leaves a stack above it
/// room to grow.
pub open spec fn fits(m: VmemModel, owner: Option<VmViewId>, start: int, size: int) -> bool {
    is_open(m, owner, start, size) && !crowds_stack(m.areas, start + size)
}

/// What is held back somewhere is held back in every range around it.
proof fn lemma_held_back_grows(
    reserved: Map<u64, Set<int>>,
    owner: Option<VmViewId>,
    start: int,
    end: int,
    outer_start: int,
    outer_end: int,
)
    requires
        held_back(reserved, owner, start, end),
        outer_start <= start,
        end <= outer_end,
    ensures
        held_back(reserved, owner, outer_start, outer_end),
{
    match owner {
        Some(view) => {
            let k = choose|k: int| start <= k < end && reserved[view.raw].contains(k);
            assert(outer_start <= k < outer_end && reserved[view.raw].contains(k));
        },
        None => {
            let view = choose|view: u64| #[trigger]
                reserved.dom().contains(view) && overlapped(reserved[view], start, end);
            let k = choose|k: int| start <= k < end && reserved[view].contains(k);
            assert(outer_start <= k < outer_end && reserved[view].contains(k));
            assert(overlapped(reserved[view], outer_start, outer_end));
        },
    }
}

/// The reservations once an owner holds a range back.
pub open spec fn reserve(reserved: Map<u64, Set<int>>, owner: u64, start: int, end: int) -> Map<
    u64,
    Set<int>,
> {
    if start >= end {
        reserved
    } else {
        reserved.insert(owner, held_by(reserved, owner).union(Set::new(|k: int| start <= k < end)))
    }
}

/// What an owner holds back.
pub open spec fn held_by(reserved: Map<u64, Set<int>>, owner: u64) -> Set<int> {
    if reserved.dom().contains(owner) {
        reserved[owner]
    } else {
        Set::empty()
    }
}

/// The reservations once an owner released a range. An owner with nothing left is forgotten.
pub open spec fn release(reserved: Map<u64, Set<int>>, owner: u64, start: int, end: int) -> Map<
    u64,
    Set<int>,
> {
    let left = held_by(reserved, owner).difference(Set::new(|k: int| start <= k < end));
    if start >= end || !reserved.dom().contains(owner) {
        reserved
    } else if left == Set::<int>::empty() {
        reserved.remove(owner)
    } else {
        reserved.insert(owner, left)
    }
}

/// An address is a start of the window that fits.
pub open spec fn fits_in(
    m: VmemModel,
    owner: Option<VmViewId>,
    low: int,
    high: int,
    size: int,
    align: int,
    start: int,
) -> bool {
    low <= start <= high && start % align == 0 && fits(m, owner, start, size)
}

/// An address is the highest start of the window that fits.
pub open spec fn is_highest(
    m: VmemModel,
    owner: Option<VmViewId>,
    low: int,
    high: int,
    size: int,
    align: int,
    start: int,
) -> bool {
    &&& fits_in(m, owner, low, high, size, align, start)
    &&& forall|other: int| #[trigger]
        fits_in(m, owner, low, high, size, align, other) ==> other <= start
}

/// The unhinted search: the highest start of the window that fits, if one does.
pub open spec fn top_down(
    m: VmemModel,
    owner: Option<VmViewId>,
    low: int,
    high: int,
    size: int,
    align: int,
) -> Option<int> {
    if exists|start: int| #[trigger] is_highest(m, owner, low, high, size, align, start) {
        Some(choose|start: int| #[trigger] is_highest(m, owner, low, high, size, align, start))
    } else {
        None
    }
}

/// The search finds a place exactly if there is one, and then the highest: nothing above it in the
/// window fits.
pub proof fn lemma_search_is_exact(
    m: VmemModel,
    owner: Option<VmViewId>,
    low: int,
    high: int,
    size: int,
    align: int,
)
    ensures
        match top_down(m, owner, low, high, size, align) {
            Some(start) => fits_in(m, owner, low, high, size, align, start) && forall|other: int|
                start < other <= high && other % align == 0 ==> !#[trigger] fits(m, owner, other, size),
            None => forall|start: int|
                low <= start <= high && start % align == 0 ==> !#[trigger] fits(m, owner, start, size),
        },
{
    match top_down(m, owner, low, high, size, align) {
        Some(start) => {
            assert(is_highest(m, owner, low, high, size, align, start));
            assert forall|other: int| start < other <= high && other % align == 0 implies !#[trigger] fits(
                m,
                owner,
                other,
                size,
            ) by {
                assert(!fits_in(m, owner, low, high, size, align, other));
            }
        },
        None => {
            assert forall|start: int| low <= start <= high && start % align == 0 implies !#[trigger] fits(
                m,
                owner,
                start,
                size,
            ) by {
                if fits(m, owner, start, size) {
                    lemma_highest_exists(m, owner, low, high, size, align, start);
                }
            }
        },
    }
}

/// Where some start of a window fits, one of them is the highest.
proof fn lemma_highest_exists(
    m: VmemModel,
    owner: Option<VmViewId>,
    low: int,
    high: int,
    size: int,
    align: int,
    start: int,
) -> (highest: int)
    requires
        fits_in(m, owner, low, high, size, align, start),
    ensures
        is_highest(m, owner, low, high, size, align, highest),
    decreases high - start,
{
    if exists|other: int| #[trigger]
        fits_in(m, owner, low, high, size, align, other) && other > start {
        let other = choose|other: int| #[trigger]
            fits_in(m, owner, low, high, size, align, other) && other > start;
        lemma_highest_exists(m, owner, low, high, size, align, other)
    } else {
        assert(is_highest(m, owner, low, high, size, align, start));
        start
    }
}

/// There is only one highest start.
proof fn lemma_highest_is_found(
    m: VmemModel,
    owner: Option<VmViewId>,
    low: int,
    high: int,
    size: int,
    align: int,
    start: int,
)
    requires
        is_highest(m, owner, low, high, size, align, start),
    ensures
        top_down(m, owner, low, high, size, align) == Some(start),
{
    let found = top_down(m, owner, low, high, size, align)->0;
    assert(is_highest(m, owner, low, high, size, align, found));
    assert(fits_in(m, owner, low, high, size, align, found));
    assert(fits_in(m, owner, low, high, size, align, start));
}

/// Where a mapping of `size` bytes goes. A fixed address is taken as it is, if the mapping ends
/// inside the task range. A usable hint is taken; an unusable one first bounds the search from
/// above, then is ignored.
pub open spec fn unmapped_area(
    task: (int, int),
    m: VmemModel,
    suggested: Option<int>,
    size: int,
    fixed: bool,
    owner: Option<VmViewId>,
    align: int,
) -> Option<int> {
    let high = task.1 - size;
    if size > task.1 {
        None
    } else {
        match suggested {
            Some(address) => if fixed {
                if high < address {
                    None
                } else {
                    Some(address)
                }
            } else if task.0 <= address <= high && is_open(m, owner, address, size) {
                Some(address)
            } else if address < high && top_down(m, owner, task.0, address, size, align) is Some {
                top_down(m, owner, task.0, address, size, align)
            } else {
                top_down(m, owner, task.0, high, size, align)
            },
            None => if fixed {
                Some(0)
            } else {
                top_down(m, owner, task.0, high, size, align)
            },
        }
    }
}

/// The address of a suggestion.
pub open spec fn suggestion<const ALIGN: usize>(address: Option<NonZeroAddress<ALIGN>>) -> Option<int> {
    match address {
        Some(a) => Some(a.address()),
        None => None,
    }
}

/// A flexible placement is free, aligned, inside the task range, and clear of what its owner
/// holds back.
pub proof fn lemma_flexible_placement(
    task: (int, int),
    m: VmemModel,
    suggested: Option<int>,
    size: int,
    owner: Option<VmViewId>,
    align: int,
)
    requires
        task_range_ok(task.0, task.1, align),
        paged(m.areas, align),
        forall|k: int| #[trigger] lookup(m.areas, k) is Some ==> 0 <= k < usize::MAX,
        size > 0,
        size % align == 0,
        suggested matches Some(address) ==> address % align == 0,
    ensures
        unmapped_area(task, m, suggested, size, false, owner, align) matches Some(start) ==> {
            &&& task.0 <= start
            &&& start + size <= task.1
            &&& start % align == 0
            &&& !occupied(m.areas, start, start + size)
            &&& !held_back(m.reserved, owner, start, start + size)
        },
{
    lemma_search_is_exact(m, owner, task.0, task.1 - size, size, align);
    if let Some(address) = suggested {
        lemma_search_is_exact(m, owner, task.0, address, size, align);
    }
}

/// What one owner holds back, takes or gives back never moves another owner's placement.
pub proof fn lemma_reservations_are_private(
    task: (int, int),
    m: VmemModel,
    suggested: Option<int>,
    size: int,
    fixed: bool,
    view: VmViewId,
    align: int,
    other: u64,
    start: int,
    end: int,
)
    requires
        other != view.raw,
    ensures
        unmapped_area(task, m, suggested, size, fixed, Some(view), align) == unmapped_area(
            task,
            VmemModel { reserved: reserve(m.reserved, other, start, end), ..m },
            suggested,
            size,
            fixed,
            Some(view),
            align,
        ),
        unmapped_area(task, m, suggested, size, fixed, Some(view), align) == unmapped_area(
            task,
            VmemModel { reserved: release(m.reserved, other, start, end), ..m },
            suggested,
            size,
            fixed,
            Some(view),
            align,
        ),
{
    let reserved = VmemModel { reserved: reserve(m.reserved, other, start, end), ..m };
    let released = VmemModel { reserved: release(m.reserved, other, start, end), ..m };
    lemma_same_search(m, reserved, view, task.0, task.1 - size, size, align);
    lemma_same_search(m, released, view, task.0, task.1 - size, size, align);
    if let Some(address) = suggested {
        lemma_same_search(m, reserved, view, task.0, address, size, align);
        lemma_same_search(m, released, view, task.0, address, size, align);
    }
}

proof fn lemma_same_search(
    a: VmemModel,
    b: VmemModel,
    view: VmViewId,
    low: int,
    high: int,
    size: int,
    align: int,
)
    requires
        a.areas == b.areas,
        a.reserved.dom().contains(view.raw) == b.reserved.dom().contains(view.raw),
        a.reserved.dom().contains(view.raw) ==> a.reserved[view.raw] == b.reserved[view.raw],
    ensures
        top_down(a, Some(view), low, high, size, align) == top_down(
            b,
            Some(view),
            low,
            high,
            size,
            align,
        ),
{
    let owner = Some(view);
    assert forall|start: int| #[trigger]
        fits_in(a, owner, low, high, size, align, start) == fits_in(
            b,
            owner,
            low,
            high,
            size,
            align,
            start,
        ) by {}
    if let Some(start) = top_down(a, owner, low, high, size, align) {
        assert(is_highest(a, owner, low, high, size, align, start));
        assert(is_highest(b, owner, low, high, size, align, start)) by {
            assert(fits_in(a, owner, low, high, size, align, start));
            assert forall|other: int| #[trigger]
                fits_in(b, owner, low, high, size, align, other) implies other <= start by {
                assert(fits_in(a, owner, low, high, size, align, other));
            }
        }
        lemma_highest_is_found(b, owner, low, high, size, align, start);
    } else if let Some(start) = top_down(b, owner, low, high, size, align) {
        assert(is_highest(b, owner, low, high, size, align, start));
        assert(is_highest(a, owner, low, high, size, align, start)) by {
            assert(fits_in(a, owner, low, high, size, align, start));
        }
    }
}

/// Releasing what was just reserved over free addresses restores what the owner held.
pub proof fn lemma_release_undoes_reserve(reserved: Map<u64, Set<int>>, owner: u64, start: int, end: int)
    requires
        reserved.dom().contains(owner) ==> reserved[owner] != Set::<int>::empty(),
        !overlapped(held_by(reserved, owner), start, end),
    ensures
        release(reserve(reserved, owner, start, end), owner, start, end) == reserved,
{
    if start < end {
        let held = held_by(reserved, owner);
        let range = Set::new(|k: int| start <= k < end);
        assert(held.union(range).difference(range) =~= held) by {
            assert forall|k: int| held.contains(k) implies !range.contains(k) by {
                if start <= k < end {
                    assert(overlapped(held, start, end));
                }
            }
        }
        assert(release(reserve(reserved, owner, start, end), owner, start, end) =~= reserved);
    }
}

impl<P: PageManagementProvider<ALIGN> + 'static, const ALIGN: usize> Vmem<P, ALIGN> {
    /// Marks a range as held back on `owner`'s behalf: a flexible placement for that owner steers
    /// around it, anybody else's does not. Overlapping and adjacent reservations of the same owner
    /// are merged.
    pub fn reserve_external(&mut self, start: usize, end: usize, owner: VmViewId)
        requires
            old(self).wf(),
        ensures
            final(self).follows(old(self)),
            final(self).logs(old(self), 0),
            final(self)@ == (VmemModel {
                reserved: reserve(old(self)@.reserved, owner.raw, start as int, end as int),
                ..old(self)@
            }),
    {
        if start >= end {
            return ;
        }
        if self.reserved.contains(owner.raw) {
            let set = self.reserved.get_mut(owner.raw);
            set.insert(start, end);
        } else {
            let mut set = RangeSet::new();
            set.insert(start, end);
            self.reserved.insert(owner.raw, set);
        }
        proof {
            let range = Set::new(|k: int| start <= k < end);
            assert(range.contains(start as int));
            assert(held_by(old(self)@.reserved, owner.raw).union(range).contains(start as int));
            assert(Set::<int>::empty().union(range) =~= range);
            assert(self@.reserved =~= reserve(
                old(self)@.reserved,
                owner.raw,
                start as int,
                end as int,
            ));
        }
    }

    /// Releases a reservation made under the same `owner`. The range need not match what was
    /// reserved: a partial release shrinks or splits it, and releasing where `owner` has nothing
    /// is no change.
    pub fn release_external(&mut self, start: usize, end: usize, owner: VmViewId)
        requires
            old(self).wf(),
        ensures
            final(self).follows(old(self)),
            final(self).logs(old(self), 0),
            final(self)@ == (VmemModel {
                reserved: release(old(self)@.reserved, owner.raw, start as int, end as int),
                ..old(self)@
            }),
    {
        if start >= end {
            return ;
        }
        if !self.reserved.contains(owner.raw) {
            return ;
        }
        let empty;
        {
            let set = self.reserved.get_mut(owner.raw);
            set.remove(start, end);
            empty = set.is_empty();
        }
        if empty {
            self.reserved.remove(owner.raw);
        }
        proof {
            assert(self@.reserved =~= release(
                old(self)@.reserved,
                owner.raw,
                start as int,
                end as int,
            ));
        }
    }

    /// Whether some address of a non-empty range is held back from `owner`, or with no owner from
    /// anybody.
    fn reserved_overlaps(&self, start: usize, end: usize, owner: Option<VmViewId>) -> (found: bool)
        requires
            self.wf(),
            start < end,
        ensures
            found == held_back(self@.reserved, owner, start as int, end as int),
    {
        match owner {
            Some(view) => match self.reserved.get(view.raw) {
                Some(set) => set.overlaps(start, end),
                None => false,
            },
            None => {
                let n: usize = self.reserved.len();
                let mut i: usize = 0;
                while i < n
                    invariant
                        self.wf(),
                        owner is None,
                        start < end,
                        n == self.reserved.order().len(),
                        i <= n,
                        forall|j: int|
                            0 <= j < i ==> !overlapped(
                                self@.reserved[#[trigger] self.reserved.order()[j]],
                                start as int,
                                end as int,
                            ),
                    decreases n - i,
                {
                    let view = self.reserved.id_at(i);
                    if let Some(set) = self.reserved.get(view) {
                        if set.overlaps(start, end) {
                            proof {
                                assert(self@.reserved.dom().contains(view) && overlapped(
                                    self@.reserved[view],
                                    start as int,
                                    end as int,
                                ));
                            }
                            return true;
                        }
                    }
                    i += 1;
                }
                proof {
                    self.reserved.lemma_order();
                    assert forall|view: u64| #[trigger] self@.reserved.dom().contains(view) implies !overlapped(
                        self@.reserved[view],
                        start as int,
                        end as int,
                    ) by {
                        assert(self.reserved.order().contains(view));
                        let j = choose|j: int|
                            0 <= j < self.reserved.order().len() && self.reserved.order()[j] == view;
                        assert(self.reserved.order()[j] == view);
                    }
                }
                false
            },
        }
    }

    /// Whether a placement of `size` bytes at an address is open to `owner`.
    fn is_free(&self, start: usize, size: usize, owner: Option<VmViewId>) -> (free: bool)
        requires
            self.wf(),
            size > 0,
            start + size <= usize::MAX,
        ensures
            free == is_open(self@, owner, start as int, size as int),
    {
        let taken = self.vmas.overlaps(start, start + size);
        proof {
            assert(taken == occupied(self@.areas, start as int, start + size));
        }
        !taken && !self.reserved_overlaps(start, start + size, owner)
    }

    /// The start of the lowest mapping that reaches into a non-empty range.
    fn lowest_mapping(&self, start: usize, end: usize) -> (found: Option<(usize, VmArea)>)
        requires
            self.wf(),
            start < end,
        ensures
            match found {
                Some((from, area)) => {
                    &&& from < end
                    &&& from as int % ALIGN as int == 0
                    &&& lookup(self@.areas, from as int) == Some(area)
                    &&& !occupied(self@.areas, start as int, from as int)
                    &&& forall|k: int|
                        from <= k <= start ==> #[trigger] lookup(self@.areas, k) is Some
                },
                None => !occupied(self@.areas, start as int, end as int),
            },
    {
        let list = self.vmas.overlapping(start, end);
        let ghost runs = modelled(list@);
        let ghost areas = self@.areas;
        proof {
            self.lemma_wf();
        }
        if list.len() == 0 {
            proof {
                assert forall|k: int| start <= k < end implies #[trigger] lookup(areas, k) is None by {
                    if lookup(areas, k) is Some {
                        assert(covered(runs, k));
                    }
                }
            }
            return None;
        }
        let (from, to, area) = list[0];
        proof {
            assert(runs[0] == (from as int, to as int, area));
            assert(is_run(areas, runs[0].0, runs[0].1, runs[0].2));
            assert(lookup(areas, from as int) == Some(area));
            lemma_paged_edge(areas, from as int, ALIGN as int);
            assert forall|k: int| start <= k < from implies #[trigger] lookup(areas, k) is None by {
                if lookup(areas, k) is Some {
                    assert(covered(runs, k));
                    let i = choose|i: int| 0 <= i < runs.len() && (#[trigger] runs[i]).0 <= k < runs[i].1;
                    if i > 0 {
                        assert(runs[0].1 <= runs[i].0);
                    }
                }
            }
        }
        Some((from, area))
    }

    /// The highest mapping below an address that is not mapped.
    fn mapping_below(&self, address: usize) -> (found: Option<(usize, usize)>)
        requires
            self.wf(),
            lookup(self@.areas, address as int) is None,
        ensures
            match found {
                Some((from, to)) => {
                    &&& from < to <= address
                    &&& from as int % ALIGN as int == 0
                    &&& !occupied(self@.areas, to as int, address as int)
                    &&& forall|k: int| from <= k < to ==> #[trigger] lookup(self@.areas, k) is Some
                },
                None => !occupied(self@.areas, 0, address as int),
            },
    {
        let list = self.vmas.overlapping(0, address);
        let ghost runs = modelled(list@);
        let ghost areas = self@.areas;
        let n: usize = list.len();
        proof {
            self.lemma_wf();
        }
        if n == 0 {
            proof {
                assert forall|k: int| 0 <= k < address implies #[trigger] lookup(areas, k) is None by {
                    if lookup(areas, k) is Some {
                        assert(covered(runs, k));
                    }
                }
            }
            return None;
        }
        let (from, to, area) = list[n - 1];
        proof {
            assert(runs[n - 1] == (from as int, to as int, area));
            assert(is_run(areas, runs[n - 1].0, runs[n - 1].1, runs[n - 1].2));
            assert(lookup(areas, from as int) == Some(area));
            lemma_paged_edge(areas, from as int, ALIGN as int);
            if to > address {
                assert(lookup(areas, address as int) == Some(area));
            }
            assert forall|k: int| to <= k < address implies #[trigger] lookup(areas, k) is None by {
                if lookup(areas, k) is Some {
                    assert(covered(runs, k));
                    let i = choose|i: int| 0 <= i < runs.len() && (#[trigger] runs[i]).0 <= k < runs[i].1;
                    if i < n - 1 {
                        assert(runs[i].1 <= runs[n - 1].0);
                    }
                }
            }
        }
        Some((from, to))
    }

    /// An address that is held back from `owner` in a non-empty range, such that no lower address of
    /// the range is held back from the same holder. With no owner, from anybody.
    fn first_held_back(&self, start: usize, end: usize, owner: Option<VmViewId>) -> (found: Option<usize>)
        requires
            self.wf(),
            start < end,
        ensures
            match found {
                Some(from) => start <= from < end && held_back(
                    self@.reserved,
                    owner,
                    from as int,
                    from + 1,
                ),
                None => !held_back(self@.reserved, owner, start as int, end as int),
            },
    {
        match owner {
            Some(view) => match self.reserved.get(view.raw) {
                Some(set) => set.first_in(start, end),
                None => None,
            },
            None => {
                let n: usize = self.reserved.len();
                let mut i: usize = 0;
                while i < n
                    invariant
                        self.wf(),
                        owner is None,
                        start < end,
                        n == self.reserved.order().len(),
                        i <= n,
                        forall|j: int|
                            0 <= j < i ==> !overlapped(
                                self@.reserved[#[trigger] self.reserved.order()[j]],
                                start as int,
                                end as int,
                            ),
                    decreases n - i,
                {
                    let view = self.reserved.id_at(i);
                    if let Some(set) = self.reserved.get(view) {
                        if let Some(from) = set.first_in(start, end) {
                            proof {
                                assert(self@.reserved.dom().contains(view));
                                assert(self@.reserved[view].contains(from as int));
                                assert(overlapped(self@.reserved[view], from as int, from + 1));
                            }
                            return Some(from);
                        }
                    }
                    i += 1;
                }
                proof {
                    self.reserved.lemma_order();
                    assert forall|view: u64| #[trigger] self@.reserved.dom().contains(view) implies !overlapped(
                        self@.reserved[view],
                        start as int,
                        end as int,
                    ) by {
                        assert(self.reserved.order().contains(view));
                        let j = choose|j: int|
                            0 <= j < self.reserved.order().len() && self.reserved.order()[j] == view;
                        assert(self.reserved.order()[j] == view);
                    }
                }
                None
            },
        }
    }

    /// Where the search goes on once a place turned out not to fit: the highest aligned address that
    /// is not ruled out with it. `None` if the place fits.
    fn next_lower(&self, place: usize, size: usize, owner: Option<VmViewId>) -> (next: Option<Option<usize>>)
        requires
            self.wf(),
            size > 0,
            size as int % ALIGN as int == 0,
            place as int % ALIGN as int == 0,
            place + size <= P::TASK_ADDR_MAX,
        ensures
            match next {
                None => fits(self@, owner, place as int, size as int),
                Some(lower) => {
                    &&& lower matches Some(c) ==> c < place && c as int % ALIGN as int == 0
                    &&& forall|b: int|
                        (match lower {
                            Some(c) => c as int,
                            None => -1int,
                        }) < b <= place && b % ALIGN as int == 0 ==> !#[trigger] fits(
                            self@,
                            owner,
                            b,
                            size as int,
                        )
                },
            },
    {
        proof {
            self.lemma_wf();
        }
        let ghost areas = self@.areas;
        let end: usize = place + size;
        if let Some((from, _)) = self.lowest_mapping(place, end) {
            proof {
                lemma_aligned_sum(from as int, size as int, ALIGN as int);
                assert forall|b: int| from - size < b <= place implies !#[trigger] fits(
                    self@,
                    owner,
                    b,
                    size as int,
                ) by {
                    let k = if b < from {
                        from as int
                    } else {
                        b
                    };
                    assert(lookup(areas, k) is Some);
                    assert(occupied(areas, b, b + size));
                }
            }
            if from < size {
                return Some(None);
            }
            return Some(Some(from - size));
        }
        if let Some(from) = self.first_held_back(place, end, owner) {
            proof {
                assert forall|b: int| from - size < b <= place implies !#[trigger] fits(
                    self@,
                    owner,
                    b,
                    size as int,
                ) by {
                    lemma_held_back_grows(self@.reserved, owner, from as int, from + 1, b, b + size);
                }
            }
            if from < size {
                return Some(None);
            }
            let below: usize = from - size;
            proof {
                lemma_page_of(below as int, ALIGN as int);
                vstd::arithmetic::div_mod::lemma_mod_decreases(below as nat, ALIGN as nat);
            }
            let lower: usize = below - below % ALIGN;
            proof {
                assert(lower == page_of(below as int, ALIGN as int));
                if lower >= place {
                    assert(from >= place + size);
                }
                assert forall|b: int| lower < b <= place && b % ALIGN as int == 0 implies !#[trigger] fits(
                    self@,
                    owner,
                    b,
                    size as int,
                ) by {
                    if b <= below {
                        assert(b <= page_of(below as int, ALIGN as int));
                    }
                }
            }
            return Some(Some(lower));
        }
        let (from, area) = match self.lowest_mapping(end, end + (STACK_GUARD_GAP + STACK_GUARD_GAP)) {
            Some(found) => found,
            None => {
                proof {
                    assert(!crowds_stack(areas, end as int)) by {
                        if crowds_stack(areas, end as int) {
                            let k = choose|k: int| #[trigger] is_stack_ahead(areas, end as int, k);
                            assert(lookup(areas, k) is Some);
                        }
                    }
                }
                return None;
            },
        };
        proof {
            if from < end {
                assert(lookup(areas, end - 1) is Some) by {
                    if end - 1 < from {
                    } else {
                        assert(from <= end - 1 <= end);
                    }
                }
                assert(occupied(areas, place as int, end as int));
            }
        }
        if !area.flags.contains(VmFlags::VM_GROWSDOWN) {
            proof {
                assert(!crowds_stack(areas, end as int)) by {
                    if crowds_stack(areas, end as int) {
                        let k = choose|k: int| #[trigger] is_stack_ahead(areas, end as int, k);
                        if k < from {
                            assert(lookup(areas, k) is Some);
                        } else if k > from {
                            assert(occupied(areas, end as int, k)) by {
                                assert(lookup(areas, from as int) is Some);
                            }
                        }
                    }
                }
            }
            return None;
        }
        proof {
            if lookup(areas, place as int) is Some {
                assert(occupied(areas, place as int, end as int));
            }
        }
        let below = self.mapping_below(place);
        let room: usize = size + (STACK_GUARD_GAP + STACK_GUARD_GAP);
        let ghost floor: int = match below {
            Some((_, to)) => to as int,
            None => 0,
        };
        proof {
            lemma_aligned_sum(from as int, size as int, ALIGN as int);
            lemma_aligned_sum(from - size, 2 * STACK_GUARD_GAP as int, ALIGN as int);
            assert forall|b: int| from - room < b <= place && floor <= b implies !#[trigger] fits(
                self@,
                owner,
                b,
                size as int,
            ) by {
                assert(!occupied(areas, b + size, from as int)) by {
                    assert forall|k: int| b + size <= k < from implies #[trigger] lookup(areas, k) is None by {
                        if lookup(areas, k) is Some {
                            if k < place {
                                assert(occupied(areas, floor, place as int));
                            } else if k < end {
                                assert(occupied(areas, place as int, end as int));
                            } else {
                                assert(occupied(areas, end as int, from as int));
                            }
                        }
                    }
                }
                assert(is_stack_ahead(areas, b + size, from as int));
            }
        }
        match below {
            Some((low, to)) => {
                if from >= room && from - room >= to {
                    return Some(Some(from - room));
                }
                proof {
                    lemma_aligned_sum(low as int, size as int, ALIGN as int);
                    assert forall|b: int| low - size < b <= place implies !#[trigger] fits(
                        self@,
                        owner,
                        b,
                        size as int,
                    ) by {
                        if b < to {
                            let k = if b < low {
                                low as int
                            } else {
                                b
                            };
                            assert(lookup(areas, k) is Some);
                            assert(occupied(areas, b, b + size));
                        }
                    }
                }
                if low < size {
                    return Some(None);
                }
                Some(Some(low - size))
            },
            None => {
                if from < room {
                    return Some(None);
                }
                Some(Some(from - room))
            },
        }
    }

    /// The unhinted top-down search with a window for the start address: the highest aligned start
    /// at which `size` bytes fit.
    fn top_down_search(
        &self,
        low_limit: usize,
        high_limit: usize,
        size: usize,
        owner: Option<VmViewId>,
    ) -> (found: Option<usize>)
        requires
            self.wf(),
            size > 0,
            size as int % ALIGN as int == 0,
            high_limit as int % ALIGN as int == 0,
            high_limit + size <= P::TASK_ADDR_MAX,
        ensures
            match found {
                Some(start) => {
                    &&& low_limit <= start <= high_limit
                    &&& start as int % ALIGN as int == 0
                    &&& fits(self@, owner, start as int, size as int)
                    &&& forall|b: int|
                        start < b <= high_limit && b % ALIGN as int == 0 ==> !#[trigger] fits(
                            self@,
                            owner,
                            b,
                            size as int,
                        )
                },
                None => forall|b: int|
                    low_limit <= b <= high_limit && b % ALIGN as int == 0 ==> !#[trigger] fits(
                        self@,
                        owner,
                        b,
                        size as int,
                    ),
            },
            top_down(
                self@,
                owner,
                low_limit as int,
                high_limit as int,
                size as int,
                ALIGN as int,
            ) == (match found {
                Some(start) => Some(start as int),
                None => None,
            }),
    {
        let ghost (low, high, bytes, align) = (
            low_limit as int,
            high_limit as int,
            size as int,
            ALIGN as int,
        );
        let mut place: usize = high_limit;
        while place >= low_limit
            invariant
                self.wf(),
                size > 0,
                size as int % ALIGN as int == 0,
                place as int % ALIGN as int == 0,
                place <= high_limit,
                high_limit + size <= P::TASK_ADDR_MAX,
                low == low_limit,
                high == high_limit,
                bytes == size,
                align == ALIGN,
                forall|b: int|
                    place < b <= high && b % align == 0 ==> !#[trigger] fits(self@, owner, b, bytes),
            decreases place,
        {
            match self.next_lower(place, size, owner) {
                None => {
                    proof {
                        assert(is_highest(self@, owner, low, high, bytes, align, place as int));
                        lemma_highest_is_found(self@, owner, low, high, bytes, align, place as int);
                    }
                    return Some(place);
                },
                Some(Some(lower)) => {
                    place = lower;
                },
                Some(None) => {
                    proof {
                        lemma_search_is_exact(self@, owner, low, high, bytes, align);
                    }
                    return None;
                },
            }
        }
        proof {
            lemma_search_is_exact(self@, owner, low, high, bytes, align);
        }
        None
    }

    /// Get an unmapped area in the virtual address space, given a hint address and whether the
    /// address is fixed.
    pub fn find_unmapped_area(
        &self,
        suggested_address: Option<NonZeroAddress<ALIGN>>,
        length: NonZeroPageSize<ALIGN>,
        fixed_addr: bool,
        steer_owner: Option<VmViewId>,
    ) -> (found: Option<usize>)
        requires
            self.wf(),
            length.wf(),
            suggested_address matches Some(address) ==> address.wf(),
        ensures
            found is Some <==> unmapped_area(
                (P::TASK_ADDR_MIN as int, P::TASK_ADDR_MAX as int),
                self@,
                suggestion(suggested_address),
                length.size(),
                fixed_addr,
                steer_owner,
                ALIGN as int,
            ) is Some,
            found matches Some(start) ==> unmapped_area(
                (P::TASK_ADDR_MIN as int, P::TASK_ADDR_MAX as int),
                self@,
                suggestion(suggested_address),
                length.size(),
                fixed_addr,
                steer_owner,
                ALIGN as int,
            ) == Some(start as int),
    {
        proof {
            self.lemma_wf();
        }
        let size: usize = length.as_usize();
        if size > P::TASK_ADDR_MAX {
            return None;
        }
        let high: usize = P::TASK_ADDR_MAX - size;
        proof {
            lemma_aligned_sum(P::TASK_ADDR_MAX as int, size as int, ALIGN as int);
        }
        match suggested_address {
            Some(suggested) => {
                let address: usize = suggested.as_usize();
                if fixed_addr {
                    if high < address {
                        return None;
                    }
                    return Some(address);
                }
                if address >= P::TASK_ADDR_MIN && high >= address && self.is_free(
                    address,
                    size,
                    steer_owner,
                ) {
                    return Some(address);
                }
                if address < high {
                    if let Some(found) = self.top_down_search(
                        P::TASK_ADDR_MIN,
                        address,
                        size,
                        steer_owner,
                    ) {
                        return Some(found);
                    }
                }
            },
            None => {
                if fixed_addr {
                    return Some(0);
                }
            },
        }
        self.top_down_search(P::TASK_ADDR_MIN, high, size, steer_owner)
    }
}

} // verus!
