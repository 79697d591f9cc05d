//! The mapping table, the log of its changes, and the mirror that replays the log.
use crate::mm::addr::PageRange;
use crate::mm::area::{SharedFutexPosition, VmArea};
use crate::mm::flags::{MemoryRegionPermissions, VmFlags};
use crate::range_table::{Extent, RangeTable};
use vstd::prelude::*;

verus! {

use crate::mm::flags::{carries8, permissions_of};
use crate::range_map::{cut, is_run, lookup, pieces, pieces_of, put, runs_of, uniform};
use crate::range_table::modelled;

/// One change of the mapping table.
#[derive(Clone, Copy, Debug)]
pub enum VmaOp {
    /// A range was set to an area.
    Insert(usize, usize, VmArea),
    /// A range was forgotten.
    Remove(usize, usize),
}

/// The table after one change.
pub open spec fn apply_op(areas: Map<int, VmArea>, op: VmaOp) -> Map<int, VmArea> {
    match op {
        VmaOp::Insert(start, end, area) => put(areas, start as int, end as int, area),
        VmaOp::Remove(start, end) => cut(areas, start as int, end as int),
    }
}

/// The table after a list of changes, first to last.
pub open spec fn replayed(areas: Map<int, VmArea>, ops: Seq<VmaOp>) -> Map<int, VmArea>
    decreases ops.len(),
{
    if ops.len() == 0 {
        areas
    } else {
        apply_op(replayed(areas, ops.drop_last()), ops.last())
    }
}

/// The change names a non-empty range.
pub open spec fn op_wf(op: VmaOp) -> bool {
    match op {
        VmaOp::Insert(start, end, _) => start < end,
        VmaOp::Remove(start, end) => start < end,
    }
}

/// An address is mapped with at least the permissions in `mask`.
pub open spec fn granted_at(areas: Map<int, VmArea>, address: int, mask: u8) -> bool {
    lookup(areas, address) matches Some(area) && carries8(permissions_of(area.flags).bits, mask)
}

/// The permissions of a range: those of the one area that covers all of it, if one does.
pub open spec fn permissions_over(areas: Map<int, VmArea>, start: int, end: int) -> Option<
    MemoryRegionPermissions,
> {
    match lookup(areas, start) {
        Some(area) => if uniform(areas, start, end, area) {
            Some(permissions_of(area.flags))
        } else {
            None
        },
        None => None,
    }
}

/// The flags of the area at an address.
pub open spec fn flags_over(areas: Map<int, VmArea>, address: int) -> Option<VmFlags> {
    match lookup(areas, address) {
        Some(area) => Some(area.flags),
        None => None,
    }
}

/// The backing identity and byte offset that an address shows, if it shows a placed backing.
pub open spec fn futex_key_over(areas: Map<int, VmArea>, address: usize) -> Option<(usize, usize)> {
    match lookup(areas, address as int) {
        Some(area) => match area.shared_futex {
            Some(shared) => match shared.position {
                SharedFutexPosition::Origin(origin) => Some(
                    (shared.identity, address.wrapping_sub(origin)),
                ),
                SharedFutexPosition::PendingOffset(_) => None,
            },
            None => None,
        },
        None => None,
    }
}

fn table_memory_permissions(table: &RangeTable<VmArea>, start: usize, end: usize) -> (found: Option<
    MemoryRegionPermissions,
>)
    requires
        table.wf(),
        start < end,
    ensures
        found == permissions_over(table@, start as int, end as int),
{
    match table.extent(start, end) {
        Extent::Uniform(area) => {
            proof {
                assert(lookup(table@, start as int) == Some(area));
            }
            Some(MemoryRegionPermissions::from_flags(area.flags))
        },
        Extent::Uncovered => {
            proof {
                assert(lookup(table@, start as int) is None);
            }
            None
        },
        Extent::Mixed => None,
    }
}

fn table_flags_at(table: &RangeTable<VmArea>, address: usize) -> (found: Option<VmFlags>)
    requires
        table.wf(),
    ensures
        found == flags_over(table@, address as int),
{
    match table.get_key_value(address) {
        Some((_, _, area)) => Some(area.flags),
        None => None,
    }
}

fn table_shared_futex_key_at(table: &RangeTable<VmArea>, address: usize) -> (found: Option<(usize, usize)>)
    requires
        table.wf(),
    ensures
        found == futex_key_over(table@, address),
{
    match table.get_key_value(address) {
        Some((_, _, area)) => match area.shared_futex {
            Some(shared) => match shared.position {
                SharedFutexPosition::Origin(origin) => Some(
                    (shared.identity, address.wrapping_sub(origin)),
                ),
                SharedFutexPosition::PendingOffset(_) => None,
            },
            None => None,
        },
        None => None,
    }
}

/// The mapping table with every change logged since the log was last drained.
pub struct TrackedVmas {
    map: RangeTable<VmArea>,
    ops: Vec<VmaOp>,
    base: Ghost<Map<int, VmArea>>,
}

impl View for TrackedVmas {
    type V = Map<int, VmArea>;

    closed spec fn view(&self) -> Map<int, VmArea> {
        self.map@
    }
}

impl TrackedVmas {
    /// What the table was when the log was last empty.
    pub closed spec fn base(&self) -> Map<int, VmArea> {
        self.base@
    }

    /// The logged changes, oldest first.
    pub closed spec fn log(&self) -> Seq<VmaOp> {
        self.ops@
    }

    /// No change escapes the log: replaying it on what the table was gives what the table is.
    pub closed spec fn wf(&self) -> bool {
        &&& self.map.wf()
        &&& forall|i: int| 0 <= i < self.ops@.len() ==> op_wf(#[trigger] self.ops@[i])
        &&& replayed(self.base@, self.ops@) == self.map@
    }

    /// What the log promises of a well-formed table.
    pub proof fn lemma_log(&self)
        requires
            self.wf(),
        ensures
            replayed(self.base(), self.log()) == self@,
            forall|k: int| #[trigger] lookup(self@, k) is Some ==> 0 <= k < usize::MAX,
    {
        self.map.lemma_bounds();
    }

    pub fn new() -> (vmas: Self)
        ensures
            vmas.wf(),
            vmas@ == Map::<int, VmArea>::empty(),
            vmas.base() == Map::<int, VmArea>::empty(),
            vmas.log().len() == 0,
    {
        TrackedVmas { map: RangeTable::new(), ops: Vec::new(), base: Ghost(Map::empty()) }
    }

    pub fn insert(&mut self, start: usize, end: usize, area: VmArea)
        requires
            old(self).wf(),
            start < end,
        ensures
            final(self).wf(),
            final(self)@ == put(old(self)@, start as int, end as int, area),
            final(self).base() == old(self).base(),
            final(self).log() == old(self).log().push(VmaOp::Insert(start, end, area)),
    {
        self.map.insert(start, end, &area);
        self.ops.push(VmaOp::Insert(start, end, area));
        proof {
            assert(self.ops@.drop_last() =~= old(self).ops@);
        }
    }

    pub fn remove(&mut self, start: usize, end: usize)
        requires
            old(self).wf(),
            start < end,
        ensures
            final(self).wf(),
            final(self)@ == cut(old(self)@, start as int, end as int),
            final(self).base() == old(self).base(),
            final(self).log() == old(self).log().push(VmaOp::Remove(start, end)),
    {
        self.map.remove(start, end);
        self.ops.push(VmaOp::Remove(start, end));
        proof {
            assert(self.ops@.drop_last() =~= old(self).ops@);
        }
    }

    /// Whether the table changed since the log was last drained.
    pub fn has_ops(&self) -> (changed: bool)
        requires
            self.wf(),
        ensures
            changed == (self.log().len() > 0),
            !changed ==> self@ == self.base(),
    {
        self.ops.len() > 0
    }

    /// Replays the log into a mirror that was the table when the log was empty, and empties it.
    pub fn drain_into(&mut self, mirror: &mut VmaMirror) -> (count: usize)
        requires
            old(self).wf(),
            old(mirror).wf(),
            old(mirror)@ == old(self).base(),
        ensures
            final(self).wf(),
            final(self)@ == old(self)@,
            final(self).base() == old(self)@,
            final(self).log().len() == 0,
            final(mirror).wf(),
            final(mirror)@ == old(self)@,
            count == old(self).log().len(),
    {
        let count: usize = self.ops.len();
        let mut i: usize = 0;
        while i < count
            invariant
                self.wf(),
                count == self.ops@.len(),
                i <= count,
                mirror.wf(),
                mirror@ == replayed(self.base@, self.ops@.take(i as int)),
                *self == *old(self),
            decreases count - i,
        {
            proof {
                assert(self.ops@.take(i + 1).drop_last() =~= self.ops@.take(i as int));
                assert(self.ops@.take(i + 1).last() == self.ops@[i as int]);
            }
            let op = self.ops[i];
            mirror.apply(op);
            i += 1;
        }
        proof {
            assert(self.ops@.take(count as int) =~= self.ops@);
        }
        self.ops = Vec::new();
        self.base = Ghost(self.map@);
        count
    }

    pub fn get_key_value(&self, address: usize) -> (found: Option<(usize, usize, VmArea)>)
        requires
            self.wf(),
        ensures
            found is Some <==> lookup(self@, address as int) is Some,
            found matches Some(entry) ==> entry.0 <= address < entry.1 && is_run(
                self@,
                entry.0 as int,
                entry.1 as int,
                entry.2,
            ) && lookup(self@, address as int) == Some(entry.2),
    {
        self.map.get_key_value(address)
    }

    pub fn overlapping(&self, start: usize, end: usize) -> (found: Vec<(usize, usize, VmArea)>)
        requires
            self.wf(),
        ensures
            runs_of(modelled(found@), self@, start as int, end as int),
    {
        self.map.overlapping(start, end)
    }

    pub fn pieces(&self, start: usize, end: usize) -> (found: Vec<(usize, usize, VmArea)>)
        requires
            self.wf(),
            start < end,
        ensures
            pieces_of(modelled(found@), self@, start as int, end as int),
            modelled(found@) == pieces(self@, start as int, end as int),
    {
        self.map.pieces(start, end)
    }

    pub fn iter(&self) -> (found: Vec<(usize, usize, VmArea)>)
        requires
            self.wf(),
        ensures
            runs_of(modelled(found@), self@, 0, usize::MAX as int),
    {
        self.map.iter()
    }

    pub fn overlaps(&self, start: usize, end: usize) -> (found: bool)
        requires
            self.wf(),
            start < end,
        ensures
            found == (exists|k: int| start <= k < end && #[trigger] lookup(self@, k) is Some),
    {
        self.map.overlaps(start, end)
    }

    pub fn has_gap(&self, start: usize, end: usize) -> (found: bool)
        requires
            self.wf(),
        ensures
            found == (exists|k: int| start <= k < end && #[trigger] lookup(self@, k) is None),
    {
        self.map.has_gap(start, end)
    }
}

/// A copy of the mapping table that answers point-in-time questions without its lock.
pub struct VmaMirror {
    map: RangeTable<VmArea>,
}

impl View for VmaMirror {
    type V = Map<int, VmArea>;

    closed spec fn view(&self) -> Map<int, VmArea> {
        self.map@
    }
}

impl VmaMirror {
    pub closed spec fn wf(&self) -> bool {
        self.map.wf()
    }

    pub fn new() -> (mirror: Self)
        ensures
            mirror.wf(),
            mirror@ == Map::<int, VmArea>::empty(),
    {
        VmaMirror { map: RangeTable::new() }
    }

    /// Applies one logged table operation.
    pub fn apply(&mut self, op: VmaOp)
        requires
            old(self).wf(),
            op_wf(op),
        ensures
            final(self).wf(),
            final(self)@ == apply_op(old(self)@, op),
    {
        match op {
            VmaOp::Insert(start, end, area) => self.map.insert(start, end, &area),
            VmaOp::Remove(start, end) => self.map.remove(start, end),
        }
    }

    /// Every entry, in address order.
    pub fn iter(&self) -> (found: Vec<(usize, usize, VmArea)>)
        requires
            self.wf(),
        ensures
            runs_of(modelled(found@), self@, 0, usize::MAX as int),
    {
        self.map.iter()
    }

    /// The permissions of `page_range`: those of the single entry covering all of it, `None`
    /// when no one entry does (a hole, or pieces with different properties).
    pub fn get_memory_permissions<const ALIGN: usize>(&self, page_range: PageRange<ALIGN>) -> (found: Option<
        MemoryRegionPermissions,
    >)
        requires
            self.wf(),
            page_range.wf(),
        ensures
            found == permissions_over(self@, page_range.start as int, page_range.end as int),
    {
        table_memory_permissions(&self.map, page_range.start, page_range.end)
    }

    /// Whether every address of a range is mapped with at least the permissions in `mask`, be it by
    /// one mapping or by several.
    pub fn is_granted(&self, start: usize, end: usize, mask: u8) -> (yes: bool)
        requires
            self.wf(),
        ensures
            yes == (forall|k: int| start <= k < end ==> #[trigger] granted_at(self@, k, mask)),
    {
        let mut cursor: usize = start;
        while cursor < end
            invariant
                self.wf(),
                start <= cursor,
                start < end ==> cursor <= end,
                forall|k: int| start <= k < cursor ==> #[trigger] granted_at(self@, k, mask),
            decreases end - cursor,
        {
            let (found, stop) = self.map.segment(cursor, end);
            let granted = match found {
                Some(area) => MemoryRegionPermissions::from_flags(area.flags).contains(mask),
                None => false,
            };
            if !granted {
                proof {
                    assert(lookup(self@, cursor as int) == found);
                    assert(!granted_at(self@, cursor as int, mask));
                }
                return false;
            }
            proof {
                assert forall|k: int| cursor <= k < stop implies #[trigger] granted_at(self@, k, mask) by {
                    assert(lookup(self@, k) == found);
                }
            }
            cursor = stop;
        }
        true
    }

    /// The flags of the mapping containing `address`.
    pub fn flags_at(&self, address: usize) -> (found: Option<VmFlags>)
        requires
            self.wf(),
        ensures
            found == flags_over(self@, address as int),
    {
        table_flags_at(&self.map, address)
    }

    /// The shared-backing futex identity and byte offset for `address`.
    pub fn shared_futex_key_at(&self, address: usize) -> (found: Option<(usize, usize)>)
        requires
            self.wf(),
        ensures
            found == futex_key_over(self@, address),
    {
        table_shared_futex_key_at(&self.map, address)
    }
}

} // verus!
