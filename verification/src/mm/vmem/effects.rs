//! Mapping and unmapping: what is decided before the platform is asked, what it is asked, and what
//! its answer changes.
use crate::mm::addr::PageRange;
use crate::mm::area::{
    SharedFutexBacking, SharedFutexMapping, SharedFutexPosition, Transient, VmArea,
};
use crate::mm::errors::{VmemResetError, VmemUnmapError};
use crate::mm::flags::{MemoryRegionPermissions, VmFlags};
use crate::mm::vmem::Vmem;
use crate::platform::page_mgmt::{
    AllocationError, DeallocationError, FixedAddressBehavior, PageManagementProvider,
};
use vstd::prelude::*;

verus! {

use crate::mm::addr::{lemma_aligned_sum, multiple_of};
use crate::mm::flags::carries;
use crate::mm::vmem::laws::lemma_insertion_is_confined;
use crate::mm::vmem::log::{
    begins, entries_in, entries_of, insert_logged, lemma_marks, lemma_one_stretch, reset_entries,
    reset_logged, stretches, stretches_logged,
};
use crate::mm::vmem::initialization::{next_after, overwritten, placed, span, takes_backing};
use crate::mm::vmem::{invalidated, lemma_paged_pieces, lemma_paged_put, VmemModel};
use crate::platform::page_mgmt::allocation_answer;
use crate::range_map::{covered, cut, lookup, pieces, pieces_of, put, uniform};
use crate::range_table::modelled;

broadcast use {
    crate::range_map::lemma_lookup_put,
    crate::range_map::lemma_lookup_cut,
    crate::range_map::lemma_lookup_revise,
};

/// Some address of a range is mapped.
pub open spec fn occupied(areas: Map<int, VmArea>, start: int, end: int) -> bool {
    exists|k: int| start <= k < end && #[trigger] lookup(areas, k) is Some
}

/// A region is mapped as one area, aligned, and ends inside the task range.
pub open spec fn entered(task_end: int, align: int, areas: Map<int, VmArea>, start: int, length: int) -> bool {
    &&& multiple_of(start, align)
    &&& start + length <= task_end
    &&& lookup(areas, start) matches Some(area) && uniform(areas, start, start + length, area)
}

/// Some address of a range is not mapped.
pub open spec fn holed(areas: Map<int, VmArea>, start: int, end: int) -> bool {
    exists|k: int| start <= k < end && #[trigger] lookup(areas, k) is None
}

/// The area is a reservation that the platform knows nothing of.
pub open spec fn deferred(area: VmArea) -> bool {
    carries(area.flags.bits, VmFlags::VM_DEFERRED)
}

/// Some piece is a reservation.
pub open spec fn any_deferred(pieces: Seq<(int, int, VmArea)>) -> bool {
    exists|i: int| 0 <= i < pieces.len() && deferred((#[trigger] pieces[i]).2)
}

/// The platform was asked, in order, to tear down each piece that is no reservation, until it
/// refused one; `answer` is its last word.
pub open spec fn pieces_torn<P: PageManagementProvider<ALIGN>, const ALIGN: usize>(
    platform: &P,
    pieces: Seq<(int, int, VmArea)>,
    answer: Result<(), DeallocationError>,
) -> bool
    decreases pieces.len(),
{
    if pieces.len() == 0 {
        answer == Ok::<(), DeallocationError>(())
    } else if deferred(pieces[0].2) {
        pieces_torn(platform, pieces.drop_first(), answer)
    } else {
        exists|a: Result<(), DeallocationError>| #[trigger]
            call_ensures(P::deallocate_pages, (platform, span(pieces[0].0, pieces[0].1)), a) && match a {
                Ok(()) => pieces_torn(platform, pieces.drop_first(), answer),
                Err(_) => answer == a,
            }
    }
}

/// The platform was asked to tear a range down: as a whole, or piece by piece around reservations.
pub open spec fn teardown_answered<P: PageManagementProvider<ALIGN>, const ALIGN: usize>(
    platform: &P,
    areas: Map<int, VmArea>,
    start: int,
    end: int,
    answer: Result<(), DeallocationError>,
) -> bool {
    if any_deferred(pieces(areas, start, end)) {
        pieces_torn(platform, pieces(areas, start, end), answer)
    } else {
        call_ensures(P::deallocate_pages, (platform, span(start, end)), answer)
    }
}

/// The address space once a range is gone.
pub open spec fn unmapped(m: VmemModel, start: int, end: int) -> VmemModel {
    invalidated(VmemModel { areas: cut(m.areas, start, end), ..m }, start, end)
}

/// What removing a mapping reports for the platform's answer.
pub open spec fn unmap_result(answer: Result<(), DeallocationError>) -> Result<(), VmemUnmapError> {
    match answer {
        Ok(()) => Ok(()),
        Err(error) => Err(VmemUnmapError::UnmapError(error)),
    }
}

/// What removing a mapping did: nothing if the platform refused, else the range is gone.
pub open spec fn removed<P: PageManagementProvider<ALIGN>, const ALIGN: usize>(
    platform: &P,
    before: VmemModel,
    start: int,
    end: int,
    after: VmemModel,
    result: Result<(), VmemUnmapError>,
) -> bool {
    exists|answer: Result<(), DeallocationError>| #[trigger]
        teardown_answered(platform, before.areas, start, end, answer) && result == unmap_result(answer)
            && after == (if answer is Ok {
            unmapped(before, start, end)
        } else {
            before
        })
}

/// How an insertion is admitted.
#[derive(Clone, Copy, Debug, PartialEq, Eq, Structural)]
pub enum InsertAdmission {
    /// Refused, with the platform not asked.
    Refuse(AllocationError),
    /// Entered as a reservation, with the platform not asked.
    Book,
    /// The platform is asked once, with this behavior.
    Ask(FixedAddressBehavior),
    /// The platform is asked stretch by stretch: to replace what is mapped, and to keep off what is
    /// not.
    AskEach,
}

/// How an insertion is admitted: inside the task range, and reservations only over free addresses.
/// The platform may replace only what is mapped here, so a replacement of a range that is mapped in
/// part is taken apart.
pub open spec fn insert_admission(
    task: (int, int),
    areas: Map<int, VmArea>,
    start: int,
    end: int,
    area: VmArea,
    behavior: FixedAddressBehavior,
) -> InsertAdmission {
    if start < task.0 {
        InsertAdmission::Refuse(AllocationError::BelowMinAddress)
    } else if end > task.1 {
        InsertAdmission::Refuse(AllocationError::AboveMaxAddress)
    } else if deferred(area) {
        if occupied(areas, start, end) {
            InsertAdmission::Refuse(AllocationError::AddressInUse)
        } else {
            InsertAdmission::Book
        }
    } else {
        match behavior {
            FixedAddressBehavior::Hint => InsertAdmission::Ask(FixedAddressBehavior::Hint),
            FixedAddressBehavior::NoReplace => if occupied(areas, start, end) {
                InsertAdmission::Refuse(AllocationError::AddressInUse)
            } else {
                InsertAdmission::Ask(FixedAddressBehavior::NoReplace)
            },
            FixedAddressBehavior::Replace => if !occupied(areas, start, end) {
                InsertAdmission::Ask(FixedAddressBehavior::NoReplace)
            } else if holed(areas, start, end) {
                InsertAdmission::AskEach
            } else {
                InsertAdmission::Ask(FixedAddressBehavior::Replace)
            },
        }
    }
}

/// `[start, to)` is the longest part of `[start, end)` from its start on that is mapped throughout,
/// or free throughout.
pub open spec fn is_stretch(areas: Map<int, VmArea>, start: int, to: int, end: int) -> bool {
    &&& start < to <= end
    &&& forall|k: int|
        start <= k < to ==> (#[trigger] lookup(areas, k) is Some) == (lookup(areas, start) is Some)
    &&& to < end ==> (lookup(areas, to) is Some) != (lookup(areas, start) is Some)
}

/// What the platform may do to a stretch: replace it if it is mapped here, else keep off.
pub open spec fn stretch_behavior(areas: Map<int, VmArea>, start: int) -> FixedAddressBehavior {
    if lookup(areas, start) is Some {
        FixedAddressBehavior::Replace
    } else {
        FixedAddressBehavior::NoReplace
    }
}

/// The area with its backing tied to where the whole of it begins, so that every part of it shows
/// its own part of the backing.
pub open spec fn anchored(area: VmArea, start: usize) -> VmArea {
    match area.shared_futex {
        Some(shared) => match shared.position {
            SharedFutexPosition::PendingOffset(offset) => VmArea {
                shared_futex: Some(
                    SharedFutexMapping {
                        identity: shared.identity,
                        position: SharedFutexPosition::Origin(start.wrapping_sub(offset)),
                    },
                ),
                ..area
            },
            SharedFutexPosition::Origin(_) => area,
        },
        None => area,
    }
}

/// The area with a backing of its own, if it is shared and has none yet.
pub open spec fn backed(area: VmArea, next_futex: usize) -> VmArea {
    if takes_backing(area) {
        VmArea {
            shared_futex: Some(
                SharedFutexMapping {
                    identity: next_futex,
                    position: SharedFutexPosition::PendingOffset(0),
                },
            ),
            ..area
        }
    } else {
        area
    }
}

/// The backing identity and offset that an area shows when it starts at an address.
pub open spec fn backing_at(area: VmArea, start: usize) -> Option<(usize, usize)> {
    match area.shared_futex {
        None => None,
        Some(shared) => match shared.position {
            SharedFutexPosition::PendingOffset(offset) => Some((shared.identity, offset)),
            SharedFutexPosition::Origin(origin) => Some((shared.identity, start.wrapping_sub(origin))),
        },
    }
}

/// The platform was asked to allocate a range for an area, and gave this answer.
pub open spec fn allocation_asked<P: PageManagementProvider<ALIGN>, const ALIGN: usize>(
    platform: &P,
    start: int,
    end: int,
    area: VmArea,
    populate: bool,
    behavior: FixedAddressBehavior,
    answer: Result<usize, AllocationError>,
) -> bool {
    let permissions = MemoryRegionPermissions { bits: (area.flags.bits & 7) as u8 };
    let grows = carries(area.flags.bits, VmFlags::VM_GROWSDOWN);
    match backing_at(area, start as usize) {
        Some((identity, offset)) => call_ensures(
            P::allocate_shared_pages,
            (platform, identity, offset, span(start, end), permissions, grows, populate, behavior),
            answer,
        ),
        None => call_ensures(
            P::allocate_pages,
            (platform, span(start, end), permissions, grows, populate, behavior),
            answer,
        ),
    }
}

/// What an insertion reports for the platform's answer.
pub open spec fn insert_result(answer: Result<usize, AllocationError>) -> Result<usize, AllocationError> {
    match answer {
        Err(AllocationError::AddressInUse) => Err(AllocationError::AddressInUseByPlatform),
        other => other,
    }
}

/// The address space once the platform answered an allocation.
pub open spec fn after_allocation(
    m: VmemModel,
    length: int,
    area: VmArea,
    answer: Result<usize, AllocationError>,
) -> VmemModel {
    match answer {
        Ok(at) => overwritten(m, at as int, at + length, area),
        Err(_) => m,
    }
}

/// The platform was asked for one range, and its answer was entered.
pub open spec fn run_inserted<P: PageManagementProvider<ALIGN>, const ALIGN: usize>(
    platform: &P,
    before: VmemModel,
    range: (int, int),
    area: VmArea,
    populate: bool,
    behavior: FixedAddressBehavior,
    after: VmemModel,
    result: Result<usize, AllocationError>,
) -> bool {
    exists|answer: Result<usize, AllocationError>| #[trigger]
        allocation_asked(platform, range.0, range.1, area, populate, behavior, answer)
            && allocation_answer(
            (P::TASK_ADDR_MIN as int, P::TASK_ADDR_MAX as int),
            ALIGN as int,
            span(range.0, range.1),
            behavior,
            answer,
        ) && after == after_allocation(before, range.1 - range.0, area, answer) && result
            == insert_result(answer)
}

/// The platform was asked for each stretch of a range, in address order, until it refused one. The
/// stretches before a refusal are entered, the refused one and those after it are as they were.
#[verifier::opaque]
pub open spec fn stretches_inserted<P: PageManagementProvider<ALIGN>, const ALIGN: usize>(
    platform: &P,
    before: VmemModel,
    start: int,
    end: int,
    area: VmArea,
    populate: bool,
    after: VmemModel,
    ended: Result<(), AllocationError>,
) -> bool
    decreases end - start,
{
    if start >= end {
        after == before && ended == Ok::<(), AllocationError>(())
    } else {
        exists|to: int, middle: VmemModel, result: Result<usize, AllocationError>|
            is_stretch(before.areas, start, to, end) && #[trigger] run_inserted(
                platform,
                before,
                (start, to),
                area,
                populate,
                stretch_behavior(before.areas, start),
                middle,
                result,
            ) && match result {
                Ok(_) => stretches_inserted(platform, middle, to, end, area, populate, after, ended),
                Err(error) => after == middle && ended == Err::<(), AllocationError>(error),
            }
    }
}

/// What the stretches that are left do is what all of them did.
#[verifier::opaque]
spec fn stretches_go_on<P: PageManagementProvider<ALIGN>, const ALIGN: usize>(
    platform: &P,
    range: (int, int),
    area: VmArea,
    populate: bool,
    first: VmemModel,
    now: VmemModel,
    cursor: int,
) -> bool {
    forall|after: VmemModel, ended: Result<(), AllocationError>| #[trigger]
        stretches_inserted(platform, now, cursor, range.1, area, populate, after, ended)
            ==> stretches_inserted(platform, first, range.0, range.1, area, populate, after, ended)
}

proof fn lemma_stretches_start<P: PageManagementProvider<ALIGN>, const ALIGN: usize>(
    platform: &P,
    range: (int, int),
    area: VmArea,
    populate: bool,
    first: VmemModel,
)
    ensures
        stretches_go_on(platform, range, area, populate, first, first, range.0),
{
    reveal(stretches_go_on);
}

proof fn lemma_stretches_end<P: PageManagementProvider<ALIGN>, const ALIGN: usize>(
    platform: &P,
    range: (int, int),
    area: VmArea,
    populate: bool,
    first: VmemModel,
    now: VmemModel,
    cursor: int,
)
    requires
        stretches_go_on(platform, range, area, populate, first, now, cursor),
        cursor >= range.1,
    ensures
        stretches_inserted(platform, first, range.0, range.1, area, populate, now, Ok(())),
{
    reveal(stretches_go_on);
    assert(stretches_inserted(platform, now, cursor, range.1, area, populate, now, Ok(()))) by {
        reveal(stretches_inserted);
    }
}

/// One more stretch was asked for: the rest goes on behind it, or the refusal ends it.
proof fn lemma_stretches_step<P: PageManagementProvider<ALIGN>, const ALIGN: usize>(
    platform: &P,
    range: (int, int),
    area: VmArea,
    populate: bool,
    first: VmemModel,
    now: VmemModel,
    cursor: int,
    to: int,
    middle: VmemModel,
    result: Result<usize, AllocationError>,
)
    requires
        stretches_go_on(platform, range, area, populate, first, now, cursor),
        is_stretch(now.areas, cursor, to, range.1),
        run_inserted(
            platform,
            now,
            (cursor, to),
            area,
            populate,
            stretch_behavior(now.areas, cursor),
            middle,
            result,
        ),
    ensures
        result is Ok ==> stretches_go_on(platform, range, area, populate, first, middle, to),
        result matches Err(error) ==> stretches_inserted(
            platform,
            first,
            range.0,
            range.1,
            area,
            populate,
            middle,
            Err(error),
        ),
{
    reveal(stretches_go_on);
    reveal(stretches_inserted);
    if let Err(error) = result {
        assert(stretches_inserted(platform, now, cursor, range.1, area, populate, middle, Err(error)));
    } else {
        assert forall|after: VmemModel, ended: Result<(), AllocationError>| #[trigger]
            stretches_inserted(platform, middle, to, range.1, area, populate, after, ended) implies stretches_inserted(
            platform,
            first,
            range.0,
            range.1,
            area,
            populate,
            after,
            ended,
        ) by {
            assert(stretches_inserted(platform, now, cursor, range.1, area, populate, after, ended));
        }
    }
}

/// The area as an anchored one is entered, wherever a part of it goes.
pub open spec fn settled(area: VmArea) -> VmArea {
    VmArea {
        shared_futex: if carries(area.flags.bits, VmFlags::VM_SHARED) {
            area.shared_futex
        } else {
            None
        },
        initialization: None,
        ..area
    }
}

/// The backing of the area is tied to an address, or the area has none and needs none.
pub open spec fn is_anchored(area: VmArea) -> bool {
    &&& !takes_backing(area)
    &&& area.shared_futex matches Some(shared) ==> shared.position is Origin
}

/// The stretches of a range up to `reached` carry the area, and everything else is as it was;
/// without a refusal `reached` is the end of the range.
pub proof fn lemma_stretches_reach<P: PageManagementProvider<ALIGN>, const ALIGN: usize>(
    platform: &P,
    before: VmemModel,
    start: int,
    end: int,
    area: VmArea,
    populate: bool,
    after: VmemModel,
    ended: Result<(), AllocationError>,
) -> (reached: int)
    requires
        stretches_inserted(platform, before, start, end, area, populate, after, ended),
        0 <= start <= end <= usize::MAX,
        is_anchored(area),
    ensures
        start <= reached <= end,
        ended is Ok <==> reached == end,
        after == (VmemModel { areas: after.areas, pending: after.pending, ..before }),
        uniform(after.areas, start, reached, settled(area)),
        forall|k: int|
            !(start <= k < reached) ==> #[trigger] lookup(after.areas, k) == lookup(before.areas, k)
                && lookup(after.pending, k) == lookup(before.pending, k),
    decreases end - start,
{
    reveal(stretches_inserted);
    if start >= end {
        end
    } else {
        let (to, middle, result) = choose|to: int, middle: VmemModel, result: Result<usize, AllocationError>|
            is_stretch(before.areas, start, to, end) && #[trigger] run_inserted(
                platform,
                before,
                (start, to),
                area,
                populate,
                stretch_behavior(before.areas, start),
                middle,
                result,
            ) && match result {
                Ok(_) => stretches_inserted(platform, middle, to, end, area, populate, after, ended),
                Err(error) => after == middle && ended == Err::<(), AllocationError>(error),
            };
        match result {
            Ok(at) => {
                assert(at == start);
                assert(placed(area, at, before.next_futex) == (VmArea {
                    shared_futex: settled(area).shared_futex,
                    ..area
                }));
                assert(uniform(middle.areas, start, to, settled(area)));
                lemma_stretches_reach(platform, middle, to, end, area, populate, after, ended)
            },
            Err(_) => start,
        }
    }
}

/// What an insertion did.
#[verifier::opaque]
pub open spec fn inserted<P: PageManagementProvider<ALIGN>, const ALIGN: usize>(
    platform: &P,
    before: VmemModel,
    range: (int, int),
    area: VmArea,
    populate: bool,
    behavior: FixedAddressBehavior,
    after: VmemModel,
    result: Result<usize, AllocationError>,
) -> bool {
    let (start, end) = range;
    match insert_admission(
        (P::TASK_ADDR_MIN as int, P::TASK_ADDR_MAX as int),
        before.areas,
        start,
        end,
        area,
        behavior,
    ) {
        InsertAdmission::Refuse(error) => after == before && result == Err::<usize, AllocationError>(error),
        InsertAdmission::Book => {
            &&& after == overwritten(before, start, end, area)
            &&& result == Ok::<usize, AllocationError>(start as usize)
        },
        InsertAdmission::Ask(asked) => {
            let with_backing = backed(area, before.next_futex);
            let ready = VmemModel { next_futex: next_after(area, before.next_futex), ..before };
            run_inserted(platform, ready, range, with_backing, populate, asked, after, result)
        },
        InsertAdmission::AskEach => {
            let whole = anchored(backed(area, before.next_futex), start as usize);
            let ready = VmemModel { next_futex: next_after(area, before.next_futex), ..before };
            exists|ended: Result<(), AllocationError>| #[trigger]
                stretches_inserted(platform, ready, start, end, whole, populate, after, ended)
                    && result == (match ended {
                    Ok(()) => Ok(start as usize),
                    Err(error) => Err(error),
                })
        },
    }
}

/// The platform was asked, piece by piece in address order, to replace each private anonymous
/// piece by fresh pages, until a piece could not be reset.
#[verifier::opaque]
pub open spec fn pieces_reset<P: PageManagementProvider<ALIGN>, const ALIGN: usize>(
    platform: &P,
    before: VmemModel,
    pieces: Seq<(int, int, VmArea)>,
    after: VmemModel,
    result: Result<(), VmemResetError>,
) -> bool
    decreases pieces.len(),
{
    if pieces.len() == 0 {
        after == before && result == Ok::<(), VmemResetError>(())
    } else {
        let (start, end, area) = pieces[0];
        if carries(area.flags.bits, VmFlags::VM_SHARED) {
            pieces_reset(platform, before, pieces.drop_first(), after, result)
        } else if area.is_file_backed {
            after == before && result == Err::<(), VmemResetError>(VmemResetError::FileBacked)
        } else if deferred(area) {
            pieces_reset(platform, before, pieces.drop_first(), after, result)
        } else {
            exists|middle: VmemModel, answer: Result<usize, AllocationError>| #[trigger]
                inserted(
                    platform,
                    before,
                    (start, end),
                    area,
                    false,
                    FixedAddressBehavior::Replace,
                    middle,
                    answer,
                ) && match answer {
                    Ok(_) => pieces_reset(platform, middle, pieces.drop_first(), after, result),
                    Err(error) => after == middle && result == Err::<(), VmemResetError>(
                        VmemResetError::Platform(error),
                    ),
                }
        }
    }
}

proof fn lemma_reset_done<P: PageManagementProvider<ALIGN>, const ALIGN: usize>(
    platform: &P,
    m: VmemModel,
    pieces: Seq<(int, int, VmArea)>,
)
    ensures
        pieces.len() == 0 ==> pieces_reset(platform, m, pieces, m, Ok(())),
        pieces.len() > 0 && !carries(pieces[0].2.flags.bits, VmFlags::VM_SHARED)
            && pieces[0].2.is_file_backed ==> pieces_reset(
            platform,
            m,
            pieces,
            m,
            Err(VmemResetError::FileBacked),
        ),
{
    reveal(pieces_reset);
}

proof fn lemma_reset_skip<P: PageManagementProvider<ALIGN>, const ALIGN: usize>(
    platform: &P,
    m: VmemModel,
    pieces: Seq<(int, int, VmArea)>,
    after: VmemModel,
    result: Result<(), VmemResetError>,
)
    requires
        pieces.len() > 0,
        carries(pieces[0].2.flags.bits, VmFlags::VM_SHARED) || (!pieces[0].2.is_file_backed && deferred(
            pieces[0].2,
        )),
        pieces_reset(platform, m, pieces.drop_first(), after, result),
    ensures
        pieces_reset(platform, m, pieces, after, result),
{
    reveal(pieces_reset);
}

proof fn lemma_reset_insert<P: PageManagementProvider<ALIGN>, const ALIGN: usize>(
    platform: &P,
    before: VmemModel,
    middle: VmemModel,
    pieces: Seq<(int, int, VmArea)>,
    answer: Result<usize, AllocationError>,
    after: VmemModel,
    result: Result<(), VmemResetError>,
)
    requires
        pieces.len() > 0,
        !carries(pieces[0].2.flags.bits, VmFlags::VM_SHARED),
        !pieces[0].2.is_file_backed,
        !deferred(pieces[0].2),
        inserted(
            platform,
            before,
            (pieces[0].0, pieces[0].1),
            pieces[0].2,
            false,
            FixedAddressBehavior::Replace,
            middle,
            answer,
        ),
        match answer {
            Ok(_) => pieces_reset(platform, middle, pieces.drop_first(), after, result),
            Err(error) => after == middle && result == Err::<(), VmemResetError>(
                VmemResetError::Platform(error),
            ),
        },
    ensures
        pieces_reset(platform, before, pieces, after, result),
{
    reveal(pieces_reset);
}

/// What the reset of the pieces that are left does is what the reset of all of them did.
#[verifier::opaque]
spec fn reset_goes_on<P: PageManagementProvider<ALIGN>, const ALIGN: usize>(
    platform: &P,
    first: VmemModel,
    all: Seq<(int, int, VmArea)>,
    now: VmemModel,
    left: Seq<(int, int, VmArea)>,
) -> bool {
    forall|after: VmemModel, result: Result<(), VmemResetError>| #[trigger]
        pieces_reset(platform, now, left, after, result) ==> pieces_reset(
            platform,
            first,
            all,
            after,
            result,
        )
}

proof fn lemma_reset_starts<P: PageManagementProvider<ALIGN>, const ALIGN: usize>(
    platform: &P,
    first: VmemModel,
    all: Seq<(int, int, VmArea)>,
)
    ensures
        reset_goes_on(platform, first, all, first, all),
{
    reveal(reset_goes_on);
}

proof fn lemma_reset_ends<P: PageManagementProvider<ALIGN>, const ALIGN: usize>(
    platform: &P,
    first: VmemModel,
    all: Seq<(int, int, VmArea)>,
    now: VmemModel,
    left: Seq<(int, int, VmArea)>,
    after: VmemModel,
    result: Result<(), VmemResetError>,
)
    requires
        reset_goes_on(platform, first, all, now, left),
        pieces_reset(platform, now, left, after, result),
    ensures
        pieces_reset(platform, first, all, after, result),
{
    reveal(reset_goes_on);
}

proof fn lemma_reset_passes<P: PageManagementProvider<ALIGN>, const ALIGN: usize>(
    platform: &P,
    first: VmemModel,
    all: Seq<(int, int, VmArea)>,
    now: VmemModel,
    left: Seq<(int, int, VmArea)>,
)
    requires
        reset_goes_on(platform, first, all, now, left),
        left.len() > 0,
        carries(left[0].2.flags.bits, VmFlags::VM_SHARED) || (!left[0].2.is_file_backed && deferred(
            left[0].2,
        )),
    ensures
        reset_goes_on(platform, first, all, now, left.drop_first()),
{
    reveal(reset_goes_on);
    assert forall|after: VmemModel, result: Result<(), VmemResetError>| #[trigger]
        pieces_reset(platform, now, left.drop_first(), after, result) implies pieces_reset(
        platform,
        first,
        all,
        after,
        result,
    ) by {
        lemma_reset_skip(platform, now, left, after, result);
    }
}

proof fn lemma_reset_replaces<P: PageManagementProvider<ALIGN>, const ALIGN: usize>(
    platform: &P,
    first: VmemModel,
    all: Seq<(int, int, VmArea)>,
    before: VmemModel,
    middle: VmemModel,
    left: Seq<(int, int, VmArea)>,
    answer: Result<usize, AllocationError>,
)
    requires
        reset_goes_on(platform, first, all, before, left),
        left.len() > 0,
        !carries(left[0].2.flags.bits, VmFlags::VM_SHARED),
        !left[0].2.is_file_backed,
        !deferred(left[0].2),
        inserted(
            platform,
            before,
            (left[0].0, left[0].1),
            left[0].2,
            false,
            FixedAddressBehavior::Replace,
            middle,
            answer,
        ),
        answer is Ok,
    ensures
        reset_goes_on(platform, first, all, middle, left.drop_first()),
{
    reveal(reset_goes_on);
    assert forall|after: VmemModel, result: Result<(), VmemResetError>| #[trigger]
        pieces_reset(platform, middle, left.drop_first(), after, result) implies pieces_reset(
        platform,
        first,
        all,
        after,
        result,
    ) by {
        lemma_reset_insert(platform, before, middle, left, answer, after, result);
    }
}

/// What a reset did. A range with holes is reset where it is mapped, and reported.
pub open spec fn reset<P: PageManagementProvider<ALIGN>, const ALIGN: usize>(
    platform: &P,
    before: VmemModel,
    start: int,
    end: int,
    after: VmemModel,
    result: Result<(), VmemResetError>,
) -> bool {
    exists|walked: Result<(), VmemResetError>| #[trigger]
        pieces_reset(
            platform,
            before,
            pieces(before.areas, start, end),
            after,
            walked,
        ) && result == (if walked is Ok && holed(before.areas, start, end) {
            Err(VmemResetError::AlreadyUnallocated)
        } else {
            walked
        })
}

impl<P: PageManagementProvider<ALIGN> + 'static, const ALIGN: usize> Vmem<P, ALIGN> {
    /// Enters what the platform answered to the teardown of a range.
    pub fn finish_remove(&mut self, range: PageRange<ALIGN>, answer: Result<(), DeallocationError>) -> (result: Result<
        (),
        VmemUnmapError,
    >)
        requires
            old(self).wf(),
            range.wf(),
        ensures
            final(self).follows(old(self)),
            final(self).logs(
                old(self),
                if answer is Ok {
                    1
                } else {
                    0
                },
            ),
            result == unmap_result(answer),
            final(self)@ == (if answer is Ok {
                unmapped(old(self)@, range.start as int, range.end as int)
            } else {
                old(self)@
            }),
    {
        if let Err(error) = answer {
            return Err(VmemUnmapError::UnmapError(error));
        }
        proof {
            let any = crate::mm::area::new_area(0, false, None);
            lemma_paged_put(self@.areas, range.start as int, range.end as int, any, ALIGN as int);
            lemma_marks(self@.areas, range.start as int, range.end as int, any);
        }
        self.vmas.remove(range.start, range.end);
        proof {
            assert(self@.reserved =~= old(self)@.reserved);
        }
        self.invalidate_initializations(range.start, range.end);
        Ok(())
    }

    /// Remove a range from its virtual address space, if all or any of it was present.
    ///
    /// If the range to be removed _partially_ overlaps any ranges, then those ranges will
    /// be contracted to no longer cover the removed range.
    pub fn remove_mapping(&mut self, range: PageRange<ALIGN>) -> (result: Result<(), VmemUnmapError>)
        requires
            old(self).wf(),
            range.wf(),
        ensures
            final(self).follows(old(self)),
            final(self).logs(
                old(self),
                if result is Ok {
                    1
                } else {
                    0
                },
            ),
            removed(
                final(self).platform(),
                old(self)@,
                range.start as int,
                range.end as int,
                final(self)@,
                result,
            ),
    {
        let (start, end) = (range.start, range.end);
        let pieces = self.vmas.pieces(start, end);
        let ghost list = modelled(pieces@);
        let ghost platform = self.platform();
        let mut deferred_present: bool = false;
        let mut i: usize = 0;
        while i < pieces.len()
            invariant
                i <= pieces@.len(),
                list == modelled(pieces@),
                start < end,
                self.wf() || i > 0,
                pieces_of(list, old(self)@.areas, start as int, end as int),
                deferred_present == (exists|j: int| 0 <= j < i && deferred((#[trigger] list[j]).2)),
                self.transient.wf(),
                forall|k: int| #[trigger] lookup(self.transient@, k) is Some ==> start <= k < end,
                self.vmas == old(self).vmas,
                self.pending_initializations == old(self).pending_initializations,
                self.reserved == old(self).reserved,
                self.platform == old(self).platform,
                self.brk == old(self).brk,
                self.next_initialization_id == old(self).next_initialization_id,
                self.futex_ids == old(self).futex_ids,
            decreases pieces@.len() - i,
        {
            let (s, e, area) = pieces[i];
            proof {
                assert(list[i as int] == (s as int, e as int, area));
            }
            if area.flags.contains(VmFlags::VM_DEFERRED) {
                deferred_present = true;
            } else {
                self.transient.insert(s, e, &Transient::Retiring { restore: area });
            }
            i += 1;
        }
        let answer: Result<(), DeallocationError>;
        if !deferred_present {
            answer = self.platform.deallocate_pages(start..end);
        } else {
            let mut refused: Option<DeallocationError> = None;
            let mut n: usize = 0;
            proof {
                assert(list.skip(0) =~= list);
            }
            while n < pieces.len() && refused.is_none()
                invariant
                    n <= pieces@.len(),
                    list == modelled(pieces@),
                    platform == self.platform(),
                    refused is None ==> forall|answer: Result<(), DeallocationError>|
                        pieces_torn(platform, list.skip(n as int), answer) ==> #[trigger] pieces_torn(
                            platform,
                            list,
                            answer,
                        ),
                    refused matches Some(error) ==> pieces_torn(platform, list, Err(error)),
                decreases pieces@.len() - n,
            {
                let (s, e, area) = pieces[n];
                proof {
                    assert(list[n as int] == (s as int, e as int, area));
                    assert(list.skip(n as int)[0] == list[n as int]);
                    assert(list.skip(n as int).drop_first() =~= list.skip(n + 1));
                }
                if !area.flags.contains(VmFlags::VM_DEFERRED) {
                    let one = self.platform.deallocate_pages(s..e);
                    proof {
                        assert(call_ensures(P::deallocate_pages, (platform, span(s as int, e as int)), one));
                    }
                    if let Err(error) = one {
                        proof {
                            assert(pieces_torn(platform, list.skip(n as int), Err(error)));
                        }
                        refused = Some(error);
                    }
                }
                n += 1;
            }
            answer = match refused {
                Some(error) => Err(error),
                None => {
                    proof {
                        assert(pieces_torn(platform, list.skip(n as int), Ok(())));
                    }
                    Ok(())
                },
            };
        }
        self.transient.remove(start, end);
        proof {
            assert forall|k: int| lookup(self.transient@, k) is None by {}
            crate::range_map::lemma_same_lookups(self.transient@, Map::<int, Transient>::empty());
            assert(any_deferred(list) == deferred_present);
            assert(teardown_answered(platform, old(self)@.areas, start as int, end as int, answer));
            assert(self@ == old(self)@);
        }
        self.finish_remove(range, answer)
    }

    /// How an insertion is admitted.
    pub fn admit_insert(&self, range: PageRange<ALIGN>, area: VmArea, behavior: FixedAddressBehavior) -> (admission:
        InsertAdmission)
        requires
            self.wf(),
            range.wf(),
        ensures
            admission == insert_admission(
                (P::TASK_ADDR_MIN as int, P::TASK_ADDR_MAX as int),
                self@.areas,
                range.start as int,
                range.end as int,
                area,
                behavior,
            ),
    {
        let (start, end) = (range.start, range.end);
        if start < P::TASK_ADDR_MIN {
            return InsertAdmission::Refuse(AllocationError::BelowMinAddress);
        }
        if end > P::TASK_ADDR_MAX {
            return InsertAdmission::Refuse(AllocationError::AboveMaxAddress);
        }
        let taken = self.vmas.overlaps(start, end);
        proof {
            assert(taken == occupied(self@.areas, start as int, end as int));
        }
        if area.flags.contains(VmFlags::VM_DEFERRED) {
            if taken {
                return InsertAdmission::Refuse(AllocationError::AddressInUse);
            }
            return InsertAdmission::Book;
        }
        match behavior {
            FixedAddressBehavior::Hint => InsertAdmission::Ask(FixedAddressBehavior::Hint),
            FixedAddressBehavior::NoReplace => {
                if taken {
                    return InsertAdmission::Refuse(AllocationError::AddressInUse);
                }
                InsertAdmission::Ask(FixedAddressBehavior::NoReplace)
            },
            FixedAddressBehavior::Replace => {
                if !taken {
                    return InsertAdmission::Ask(FixedAddressBehavior::NoReplace);
                }
                let gap = self.vmas.has_gap(start, end);
                proof {
                    assert(gap == holed(self@.areas, start as int, end as int));
                }
                if gap {
                    return InsertAdmission::AskEach;
                }
                InsertAdmission::Ask(FixedAddressBehavior::Replace)
            },
        }
    }

    /// Enters what the platform answered to an allocation for an area.
    pub fn finish_insert(
        &mut self,
        range: PageRange<ALIGN>,
        area: VmArea,
        answer: Result<usize, AllocationError>,
    ) -> (result: Result<usize, AllocationError>)
        requires
            old(self).wf(),
            range.wf(),
            answer matches Ok(at) ==> at as int % ALIGN as int == 0 && at + (range.end - range.start)
                <= usize::MAX,
            takes_backing(area) ==> old(self)@.next_futex < old(self)@.futex_end,
        ensures
            final(self).follows(old(self)),
            final(self).logs(
                old(self),
                if answer is Ok {
                    entries_of(area)
                } else {
                    0
                },
            ),
            result == insert_result(answer),
            final(self)@ == after_allocation(old(self)@, range.end - range.start, area, answer),
    {
        match answer {
            Err(error) => match error {
                AllocationError::AddressInUse => Err(AllocationError::AddressInUseByPlatform),
                other => Err(other),
            },
            Ok(at) => {
                proof {
                    let length = range.end - range.start;
                    lemma_aligned_sum(range.end as int, range.start as int, ALIGN as int);
                    lemma_aligned_sum(at as int, length, ALIGN as int);
                }
                let installed = PageRange { start: at, end: at + (range.end - range.start) };
                self.register_existing_mapping_overwrite(installed, area);
                Ok(at)
            },
        }
    }

    /// The end of the stretch that begins a range.
    fn stretch_end(&self, range: PageRange<ALIGN>) -> (to: usize)
        requires
            self.wf(),
            range.wf(),
        ensures
            is_stretch(self@.areas, range.start as int, to as int, range.end as int),
            to as int % ALIGN as int == 0,
    {
        let (start, end) = (range.start, range.end);
        let pieces = self.vmas.pieces(start, end);
        let ghost list = modelled(pieces@);
        proof {
            lemma_paged_pieces(list, self@.areas, start as int, end as int, ALIGN as int);
            assert(forall|i: int|
                0 <= i < list.len() ==> list[i] == (pieces@[i].0 as int, pieces@[i].1 as int, pieces@[i].2));
        }
        if pieces.len() == 0 {
            proof {
                assert forall|k: int| start <= k < end implies lookup(self@.areas, k) is None by {
                    if lookup(self@.areas, k) is Some {
                        assert(covered(list, k));
                    }
                }
            }
            return end;
        }
        let (first, after_first, _) = pieces[0];
        proof {
            assert(list[0].0 == first && list[0].1 == after_first);
        }
        if start < first {
            proof {
                assert forall|k: int| start <= k < first implies lookup(self@.areas, k) is None by {
                    if lookup(self@.areas, k) is Some {
                        assert(covered(list, k));
                        let i = choose|i: int| 0 <= i < list.len() && (#[trigger] list[i]).0 <= k < list[i].1;
                        assert(list[0].0 <= list[i].0);
                    }
                }
                assert(lookup(self@.areas, first as int) is Some);
            }
            return first;
        }
        let mut to: usize = after_first;
        let mut i: usize = 1;
        while i < pieces.len() && pieces[i].0 == to
            invariant
                1 <= i <= pieces@.len(),
                list == modelled(pieces@),
                start < to <= end,
                to == list[i - 1].1,
                pieces_of(list, self@.areas, start as int, end as int),
                forall|j: int| 0 <= j < list.len() ==> (#[trigger] list[j]).1 % ALIGN as int == 0,
                forall|k: int| start <= k < to ==> #[trigger] lookup(self@.areas, k) is Some,
            decreases pieces@.len() - i,
        {
            let (s, e, area) = pieces[i];
            proof {
                assert(list[i as int] == (s as int, e as int, area));
            }
            to = e;
            i += 1;
        }
        proof {
            assert(list[i - 1].1 % ALIGN as int == 0);
            if to < end && lookup(self@.areas, to as int) is Some {
                assert(covered(list, to as int));
                let j = choose|j: int|
                    0 <= j < list.len() && (#[trigger] list[j]).0 <= to as int && (to as int) < list[j].1;
                assert(list[i - 1].1 == to);
                if j < i - 1 {
                    assert(list[j].1 <= list[i - 1].0);
                } else if j > i {
                    assert(list[i as int].1 <= list[j].0);
                    assert(list[i as int].0 >= list[i - 1].1);
                }
                assert(list[i as int].0 == pieces@[i as int].0);
            }
        }
        to
    }

    /// Asks the platform for one range, and enters its answer.
    fn insert_run(
        &mut self,
        range: PageRange<ALIGN>,
        area: VmArea,
        populate_pages_immediately: bool,
        behavior: FixedAddressBehavior,
    ) -> (result: Result<usize, AllocationError>)
        requires
            old(self).wf(),
            range.wf(),
            !takes_backing(area),
        ensures
            final(self).follows(old(self)),
            final(self).logs(
                old(self),
                if result is Ok {
                    entries_of(area)
                } else {
                    0
                },
            ),
            run_inserted(
                final(self).platform(),
                old(self)@,
                (range.start as int, range.end as int),
                area,
                populate_pages_immediately,
                behavior,
                final(self)@,
                result,
            ),
    {
        let (start, end) = (range.start, range.end);
        let ghost platform = self.platform();
        let staged = !matches!(behavior, FixedAddressBehavior::Hint);
        if staged {
            self.transient.insert(start, end, &Transient::Installing { publish: area });
        }
        let bits: u32 = area.flags.bits & 7;
        assert(bits <= 7) by {
            let flags: u32 = area.flags.bits;
            assert(flags & 7 <= 7) by (bit_vector);
        }
        let permissions = MemoryRegionPermissions { bits: bits as u8 };
        let grows = area.flags.contains(VmFlags::VM_GROWSDOWN);
        let answer = match area.shared_futex {
            Some(shared) => {
                let offset: usize = match shared.position {
                    SharedFutexPosition::PendingOffset(offset) => offset,
                    SharedFutexPosition::Origin(origin) => start.wrapping_sub(origin),
                };
                self.platform.allocate_shared_pages(
                    shared.identity,
                    offset,
                    start..end,
                    permissions,
                    grows,
                    populate_pages_immediately,
                    behavior,
                )
            },
            None => self.platform.allocate_pages(
                start..end,
                permissions,
                grows,
                populate_pages_immediately,
                behavior,
            ),
        };
        if staged {
            self.transient.remove(start, end);
        }
        proof {
            assert(self.transient@ =~= Map::<int, Transient>::empty());
            assert(allocation_asked(
                platform,
                start as int,
                end as int,
                area,
                populate_pages_immediately,
                behavior,
                answer,
            ));
            assert(self@.reserved =~= old(self)@.reserved);
            assert(self@ == old(self)@);
        }
        self.finish_insert(range, area, answer)
    }

    /// Asks the platform for each stretch of a range, until it refuses one.
    fn insert_stretches(&mut self, range: PageRange<ALIGN>, area: VmArea, populate_pages_immediately: bool) -> (ended:
        Result<(), AllocationError>)
        requires
            old(self).wf(),
            range.wf(),
            is_anchored(area),
        ensures
            final(self).follows(old(self)),
            stretches_logged(
                old(self)@.areas,
                (range.start as int, range.end as int),
                area,
                final(self)@.areas,
                ended is Ok,
                final(self).logged() - old(self).logged(),
            ),
            stretches_inserted(
                final(self).platform(),
                old(self)@,
                range.start as int,
                range.end as int,
                area,
                populate_pages_immediately,
                final(self)@,
                ended,
            ),
    {
        let ghost platform = self.platform();
        let ghost whole = (range.start as int, range.end as int);
        let mut cursor: usize = range.start;
        proof {
            lemma_stretches_start(platform, whole, area, populate_pages_immediately, self@);
        }
        while cursor < range.end
            invariant
                range.wf(),
                range.start <= cursor <= range.end,
                cursor as int % ALIGN as int == 0,
                platform == self.platform(),
                self.follows(old(self)),
                is_anchored(area),
                whole == (range.start as int, range.end as int),
                uniform(self@.areas, range.start as int, cursor as int, settled(area)),
                forall|k: int|
                    cursor <= k < range.end ==> #[trigger] lookup(self@.areas, k) == lookup(
                        old(self)@.areas,
                        k,
                    ),
                cursor < range.end ==> begins(old(self)@.areas, range.start as int, cursor as int),
                self.logs(
                    old(self),
                    entries_in(area, stretches(old(self)@.areas, range.start as int, cursor as int)),
                ),
                stretches_go_on(
                    platform,
                    whole,
                    area,
                    populate_pages_immediately,
                    old(self)@,
                    self@,
                    cursor as int,
                ),
            decreases range.end - cursor,
        {
            let left = PageRange::<ALIGN> { start: cursor, end: range.end };
            let to = self.stretch_end(left);
            let behavior = match self.vmas.get_key_value(cursor) {
                Some(_) => FixedAddressBehavior::Replace,
                None => FixedAddressBehavior::NoReplace,
            };
            let ghost now = self@;
            let stretch = PageRange::<ALIGN> { start: cursor, end: to };
            let result = self.insert_run(stretch, area, populate_pages_immediately, behavior);
            proof {
                lemma_stretches_step(
                    platform,
                    whole,
                    area,
                    populate_pages_immediately,
                    old(self)@,
                    now,
                    cursor as int,
                    to as int,
                    self@,
                    result,
                );
                let first = old(self)@.areas;
                assert(lookup(now.areas, cursor as int) == lookup(first, cursor as int));
                assert forall|k: int| cursor <= k < to implies (#[trigger] lookup(first, k) is Some) == (
                lookup(first, cursor as int) is Some) by {
                    assert(lookup(now.areas, k) == lookup(first, k));
                }
                if to < range.end {
                    assert(lookup(now.areas, to as int) == lookup(first, to as int));
                    assert(lookup(now.areas, to - 1) == lookup(first, to - 1));
                }
                lemma_one_stretch(old(self)@.areas, range.start as int, cursor as int, to as int);
                if let Ok(at) = result {
                    assert(at == cursor);
                    assert(placed(area, at, now.next_futex) == (VmArea {
                        shared_futex: settled(area).shared_futex,
                        ..area
                    }));
                    assert(uniform(self@.areas, cursor as int, to as int, settled(area)));
                }
            }
            if let Err(error) = result {
                return Err(error);
            }
            cursor = to;
        }
        proof {
            lemma_stretches_end(
                platform,
                whole,
                area,
                populate_pages_immediately,
                old(self)@,
                self@,
                cursor as int,
            );
        }
        Ok(())
    }

    /// Insert a range to its virtual address space.
    ///
    /// Where it overlaps existing ranges, in part or as a whole, those are replaced, as far as
    /// `behavior` allows. The platform replaces only what is mapped here: a range that is mapped in
    /// part is asked for stretch by stretch. If it refuses a stretch, those before it stay.
    pub fn insert_mapping(
        &mut self,
        range: PageRange<ALIGN>,
        area: VmArea,
        populate_pages_immediately: bool,
        behavior: FixedAddressBehavior,
    ) -> (result: Result<usize, AllocationError>)
        requires
            old(self).wf(),
            range.wf(),
            takes_backing(area) ==> old(self)@.next_futex < old(self)@.futex_end,
        ensures
            final(self).follows(old(self)),
            inserted(
                final(self).platform(),
                old(self)@,
                (range.start as int, range.end as int),
                area,
                populate_pages_immediately,
                behavior,
                final(self)@,
                result,
            ),
            insert_logged(
                (P::TASK_ADDR_MIN as int, P::TASK_ADDR_MAX as int),
                old(self)@,
                (range.start as int, range.end as int),
                area,
                behavior,
                final(self)@.areas,
                result is Ok,
                final(self).logged() - old(self).logged(),
            ),
            result matches Ok(at) ==> entered(
                P::TASK_ADDR_MAX as int,
                ALIGN as int,
                final(self)@.areas,
                at as int,
                range.end - range.start,
            ),
    {
        let (start, end) = (range.start, range.end);
        let ghost platform = self.platform();
        proof {
            reveal(inserted);
        }
        let mut asked: Option<FixedAddressBehavior> = None;
        match self.admit_insert(range, area, behavior) {
            InsertAdmission::Refuse(error) => {
                return Err(error);
            },
            InsertAdmission::Book => {
                self.register_existing_mapping_overwrite(range, area);
                proof {
                    assert(lookup(self@.areas, start as int) is Some);
                    let entry = self@.areas[start as int];
                    assert forall|k: int| start <= k < end implies #[trigger] lookup(self@.areas, k)
                        == Some(entry) by {}
                }
                return Ok(start);
            },
            InsertAdmission::Ask(behavior) => {
                asked = Some(behavior);
            },
            InsertAdmission::AskEach => {},
        }
        let mut with_backing = area;
        if area.flags.contains(VmFlags::VM_SHARED) && area.shared_futex.is_none() {
            let backing = SharedFutexBacking::new(&mut self.futex_ids);
            with_backing.shared_futex = Some(
                SharedFutexMapping {
                    identity: backing.identity(),
                    position: SharedFutexPosition::PendingOffset(0),
                },
            );
        }
        proof {
            assert(with_backing == backed(area, old(self)@.next_futex));
            assert(self@.reserved =~= old(self)@.reserved);
            assert(self@ == (VmemModel {
                next_futex: next_after(area, old(self)@.next_futex),
                ..old(self)@
            }));
        }
        match asked {
            Some(behavior) => {
                let result = self.insert_run(range, with_backing, populate_pages_immediately, behavior);
                proof {
                    if let Ok(at) = result {
                        assert(lookup(self@.areas, at as int) is Some);
                        let entry = self@.areas[at as int];
                        assert forall|k: int| at <= k < at + (end - start) implies #[trigger] lookup(
                            self@.areas,
                            k,
                        ) == Some(entry) by {}
                    }
                }
                result
            },
            None => {
                let mut whole = with_backing;
                if let Some(shared) = with_backing.shared_futex {
                    if let SharedFutexPosition::PendingOffset(offset) = shared.position {
                        whole.shared_futex = Some(
                            SharedFutexMapping {
                                identity: shared.identity,
                                position: SharedFutexPosition::Origin(start.wrapping_sub(offset)),
                            },
                        );
                    }
                }
                let ghost ready = self@;
                proof {
                    assert(whole == anchored(with_backing, start));
                }
                let ended = self.insert_stretches(range, whole, populate_pages_immediately);
                proof {
                    let reached = lemma_stretches_reach(
                        platform,
                        ready,
                        start as int,
                        end as int,
                        whole,
                        populate_pages_immediately,
                        self@,
                        ended,
                    );
                    if ended is Ok {
                        assert(lookup(self@.areas, start as int) == Some(settled(whole)));
                    }
                }
                match ended {
                    Ok(()) => Ok(start),
                    Err(error) => Err(error),
                }
            },
        }
    }

    /// Reset pages without removing their mapping.
    ///
    /// Private anonymous memory is replaced by fresh pages; shared memory and reservations are
    /// left alone; private file-backed memory is refused. Every piece before a refusal stays
    /// reset.
    pub fn reset_pages(&mut self, range: PageRange<ALIGN>, anonymous_only: bool) -> (result: Result<
        (),
        VmemResetError,
    >)
        requires
            old(self).wf(),
            range.wf(),
        ensures
            final(self).follows(old(self)),
            reset_logged(
                old(self)@.areas,
                (range.start as int, range.end as int),
                result,
                final(self).logged() - old(self).logged(),
            ),
            reset(
                final(self).platform(),
                old(self)@,
                range.start as int,
                range.end as int,
                final(self)@,
                result,
            ),
    {
        let (start, end) = (range.start, range.end);
        let ghost platform = self.platform();
        let unmapped_error = self.vmas.has_gap(start, end);
        let pieces = self.vmas.pieces(start, end);
        let ghost list = modelled(pieces@);
        proof {
            assert(unmapped_error == holed(self@.areas, start as int, end as int));
            lemma_paged_pieces(list, self@.areas, start as int, end as int, ALIGN as int);
            assert(list.skip(0) =~= list);
            lemma_reset_starts(platform, self@, list);
        }
        let mut i: usize = 0;
        while i < pieces.len()
            invariant
                i <= pieces@.len(),
                list == modelled(pieces@),
                ALIGN > 0,
                platform == self.platform(),
                self.follows(old(self)),
                list == crate::range_map::pieces(
                    old(self)@.areas,
                    range.start as int,
                    range.end as int,
                ),
                forall|j: int| 0 <= j < list.len() ==> (#[trigger] list[j]).0 < list[j].1 && list[j].0
                    % ALIGN as int == 0 && list[j].1 % ALIGN as int == 0,
                forall|j: int, k: int|
                    0 <= j < list.len() && (#[trigger] list[j]).0 <= k < list[j].1
                        ==> #[trigger] lookup(self@.areas, k) is Some,
                self.logs(old(self), reset_entries(list, i as int)),
                reset_goes_on(platform, old(self)@, list, self@, list.skip(i as int)),
            decreases pieces@.len() - i,
        {
            let (s, e, area) = pieces[i];
            proof {
                assert(list[i as int] == (s as int, e as int, area));
                assert(list.skip(i as int)[0] == list[i as int]);
                assert(list.skip(i as int).drop_first() =~= list.skip(i + 1));
            }
            let ghost before = self@;
            let ghost rest = list.skip(i as int);
            if area.flags.contains(VmFlags::VM_SHARED) || (!area.is_file_backed()
                && area.flags.contains(VmFlags::VM_DEFERRED)) {
                proof {
                    lemma_reset_passes(platform, old(self)@, list, before, rest);
                }
            } else if area.is_file_backed() {
                proof {
                    lemma_reset_done(platform, before, rest);
                    lemma_reset_ends(
                        platform,
                        old(self)@,
                        list,
                        before,
                        rest,
                        before,
                        Err(VmemResetError::FileBacked),
                    );
                }
                return Err(VmemResetError::FileBacked);
            } else {
                let piece = PageRange { start: s, end: e };
                let answer = self.insert_mapping(piece, area, false, FixedAddressBehavior::Replace);
                proof {
                    assert(!holed(before.areas, s as int, e as int)) by {
                        assert forall|k: int| s <= k < e implies lookup(before.areas, k) is Some by {
                            assert(list[i as int].0 <= k < list[i as int].1);
                        }
                    }
                    let reached = lemma_insertion_is_confined(
                        platform,
                        before,
                        (s as int, e as int),
                        area,
                        false,
                        FixedAddressBehavior::Replace,
                        self@,
                        answer,
                    );
                    assert forall|j: int, k: int|
                        answer is Ok && 0 <= j < list.len() && (#[trigger] list[j]).0 <= k < list[j].1 implies
                        #[trigger] lookup(self@.areas, k) is Some by {
                        assert(lookup(before.areas, k) is Some);
                    }
                }
                if let Err(error) = answer {
                    proof {
                        let refused = Err(VmemResetError::Platform(error));
                        lemma_reset_insert(platform, before, self@, rest, answer, self@, refused);
                        lemma_reset_ends(
                            platform,
                            old(self)@,
                            list,
                            before,
                            rest,
                            self@,
                            refused,
                        );
                    }
                    return Err(VmemResetError::Platform(error));
                }
                proof {
                    lemma_reset_replaces(
                        platform,
                        old(self)@,
                        list,
                        before,
                        self@,
                        rest,
                        answer,
                    );
                }
            }
            i += 1;
        }
        proof {
            lemma_reset_done(platform, self@, list.skip(i as int));
            lemma_reset_ends(
                platform,
                old(self)@,
                list,
                self@,
                list.skip(i as int),
                self@,
                Ok(()),
            );
        }
        if unmapped_error {
            Err(VmemResetError::AlreadyUnallocated)
        } else {
            Ok(())
        }
    }
}

} // verus!
