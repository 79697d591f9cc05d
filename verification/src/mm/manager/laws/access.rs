//! What a check of a guest's access promises, and what entering memory that exists already does.
use crate::ids::VmViewId;
use crate::mm::area::VmArea;
use crate::mm::domain::ViewOverlay;
use crate::mm::flags::MemoryRegionPermissions;
use crate::mm::manager::GuestAccessError;
use vstd::prelude::*;

verus! {

use crate::mm::addr::{lemma_page_of, page_of};
use crate::mm::flags::{access_of, may_flags};
use crate::mm::manager::{access_checked, needed, pages_grant, registered_area, ManagerModel};
use crate::mm::vmas::granted_at;
use crate::mm::vmem::effects::occupied;
use crate::mm::vmem::initialization::overwritten;
use crate::mm::vmem::laws::placing::is_free;
use crate::mm::vmem::laws::reading::lemma_grant_is_bit_by_bit;
use crate::mm::vmem::VmemModel;
use crate::range_map::lookup;

broadcast use {
    crate::range_map::lemma_lookup_put,
    crate::range_map::lemma_lookup_cut,
    crate::range_map::lemma_lookup_revise,
};

/// An address can be read, and written if that is what is asked.
pub open spec fn is_accessible(areas: Map<int, VmArea>, k: int, write: bool) -> bool {
    lookup(areas, k) matches Some(area) && area.flags.bits & 0x1 != 0 && (write ==> area.flags.bits & 0x2
        != 0)
}

/// What a check of a guest's access must answer, given its error if it refused. It grants only ranges
/// that are not empty, lie inside the task range, and are accessible at every byte. It refuses a range
/// that is empty or leaves the task range as such, and calls one not mapped only where some address of
/// the pages that it touches is not accessible.
pub open spec fn is_check(
    task: (int, int),
    areas: Map<int, VmArea>,
    range: (int, int),
    write: bool,
    align: int,
    refusal: Option<GuestAccessError>,
) -> bool {
    &&& refusal == Some(GuestAccessError::OutOfAperture) <==> range.0 >= range.1 || range.0 < task.0
        || range.1 > task.1
    &&& refusal is None ==> forall|k: int|
        range.0 <= k < range.1 ==> #[trigger] is_accessible(areas, k, write)
    &&& refusal == Some(GuestAccessError::NotMapped) ==> exists|k: int|
        range.0 - align < k < range.1 + align && !#[trigger] is_accessible(areas, k, write)
}

/// What an access needs, as bits.
proof fn lemma_accessible(areas: Map<int, VmArea>, k: int, write: bool)
    ensures
        granted_at(areas, k, needed(write)) <==> is_accessible(areas, k, write),
{
    assert(0x1u8 | 0x2u8 == 0x3u8 && 0x1u8 & 0xf == 0x1 && 0x3u8 & 0xf == 0x3 && 0x1u8 & 0x1 != 0 && 0x1u8 & 0x2 == 0 && 0x1u8 & 0x4
        == 0 && 0x1u8 & 0x8 == 0 && 0x3u8 & 0x1 != 0 && 0x3u8 & 0x2 != 0 && 0x3u8 & 0x4 == 0 && 0x3u8 & 0x8
        == 0) by (bit_vector);
    lemma_grant_is_bit_by_bit(areas, k, needed(write));
}

/// A check of a guest's access answers what it must. A view that is not registered, not active or not
/// open is refused by its domain, and one that is all of these is never refused by it.
pub proof fn lemma_check_is_lawful(
    task: (int, int),
    m: ManagerModel,
    view: VmViewId,
    start: int,
    end: int,
    write: bool,
    align: int,
)
    requires
        align > 0,
    ensures
        is_check(
            task,
            m.vmem.areas,
            (start, end),
            write,
            align,
            match access_checked(task, m, view, start, end, write, align).1 {
                Ok(_) => None,
                Err(error) => Some(error),
            },
        ),
        !m.domain.views.dom().contains(view.raw) || m.domain.views[view.raw].overlay != ViewOverlay::Active
            ==> access_checked(task, m, view, start, end, write, align).1 is Err,
        access_checked(task, m, view, start, end, write, align).1 matches Ok(lease) ==> lease.view == view,
{
    let answer = access_checked(task, m, view, start, end, write, align).1;
    if start < end {
        let (low, high) = (page_of(start, align), page_of(end + align - 1, align));
        lemma_page_of(start, align);
        lemma_page_of(end + align - 1, align);
        if pages_grant(m.vmem.areas, start, end, write, align) is Ok {
            assert forall|k: int| start <= k < end implies #[trigger] is_accessible(
                m.vmem.areas,
                k,
                write,
            ) by {
                assert(granted_at(m.vmem.areas, k, needed(write)));
                lemma_accessible(m.vmem.areas, k, write);
            }
        } else {
            let k = choose|k: int|
                low <= k < high && !#[trigger] granted_at(m.vmem.areas, k, needed(write));
            lemma_accessible(m.vmem.areas, k, write);
            assert(start - align < k < end + align && !is_accessible(m.vmem.areas, k, write));
        }
    }
}

/// What entering memory that exists already must do: with nothing in the way, or with leave to replace
/// it, the whole range is mapped with the access that was named and every ceiling, for a file or shared
/// as it was named, and nobody initializes it; every other address is as it was. Otherwise nothing
/// changes.
pub open spec fn is_registration(
    before: VmemModel,
    range: (int, int),
    permissions: MemoryRegionPermissions,
    file_backed: bool,
    replace: bool,
    shared: bool,
    after: VmemModel,
    entered: bool,
) -> bool {
    &&& entered <==> replace || is_free(before.areas, range.0, range.1)
    &&& !entered ==> after == before
    &&& entered ==> forall|k: int|
        if range.0 <= k < range.1 {
            (#[trigger] lookup(after.areas, k)) matches Some(now) && {
                &&& now.flags.bits & 0x7 == (permissions.bits & 0x7) as u32
                &&& now.flags.bits & 0x70 == 0x70
                &&& now.flags.bits & 0x8 != 0 <==> shared
                &&& now.flags.bits & !0x7fu32 == 0
                &&& now.is_file_backed == file_backed
                &&& now.initialization is None
                &&& lookup(after.pending, k) is None
            }
        } else {
            lookup(after.areas, k) == lookup(before.areas, k) && lookup(after.pending, k) == lookup(
                before.pending,
                k,
            )
        }
}

/// Entering memory that exists already does what it must.
pub proof fn lemma_registration_is_lawful(
    before: VmemModel,
    range: (int, int),
    permissions: MemoryRegionPermissions,
    file_backed: bool,
    replace: bool,
    shared: bool,
)
    requires
        range.0 < range.1,
    ensures
        is_registration(
            before,
            range,
            permissions,
            file_backed,
            replace,
            shared,
            if !replace && occupied(before.areas, range.0, range.1) {
                before
            } else {
                overwritten(
                    before,
                    range.0,
                    range.1,
                    registered_area(permissions, file_backed, shared),
                )
            },
            replace || !occupied(before.areas, range.0, range.1),
        ),
{
    let p: u8 = permissions.bits;
    let access: u32 = access_of(permissions);
    let may: u32 = may_flags(shared);
    let bits: u32 = access | may;
    assert(bits & 0x7 == (p & 0x7) as u32 && bits & 0x70 == 0x70 && (bits & 0x8 != 0 <==> shared) && bits
        & !0x7fu32 == 0) by (bit_vector)
        requires
            bits == access | may,
            access == (p & 0x7) as u32,
            may == (if shared {
                0x70u32 | 0x8u32
            } else {
                0x70u32
            }),
    ;
    if occupied(before.areas, range.0, range.1) {
        let k = choose|k: int| range.0 <= k < range.1 && #[trigger] lookup(before.areas, k) is Some;
        assert(!is_free(before.areas, range.0, range.1)) by {
            assert(!(lookup(before.areas, k) is None));
        }
    } else {
        assert forall|k: int| range.0 <= k < range.1 implies #[trigger] lookup(before.areas, k) is None by {
            assert(!(lookup(before.areas, k) is Some));
        }
    }
}

} // verus!
