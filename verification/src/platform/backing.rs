//! Moving, capturing and restoring guest memory by copying its bytes.
use crate::ids::{BackingGenerationId, IdCounter};
use crate::mm::domain::{DomainBlocked, DomainIds, GuestVaDomain};
use crate::mm::flags::MemoryRegionPermissions;
use crate::platform::page_mgmt::{
    AllocationError, CaptureBackingError, CaptureMode, CapturedBackingRun, DeallocationError,
    FixedAddressBehavior, PageManagementProvider, PermissionUpdateError, PrivateBackingLease, RemapError,
    RestoreBackingError,
};
use core::ops::Range;
use vstd::prelude::*;

verus! {

use crate::mm::addr::{lemma_aligned_sum, multiple_of};
use crate::mm::domain::{ids_taken, is_fresh_domain};
use crate::mm::flags::carries8;
use crate::mm::manager::views::spans;

/// What an empty range, or the platform's reading of a non-empty one, makes of a snapshot.
pub open spec fn snapshot_result(
    range: Range<usize>,
    read: Option<Vec<u8>>,
) -> Result<Seq<u8>, CaptureBackingError> {
    if range.start >= range.end {
        Err(CaptureBackingError::Unaligned)
    } else {
        match read {
            Some(bytes) => Ok(bytes@),
            None => Err(CaptureBackingError::NotCapturable),
        }
    }
}

/// A capture, reduced to its bytes.
pub open spec fn captured_bytes(answer: Result<PrivateBackingLease, CaptureBackingError>) -> Result<
    Seq<u8>,
    CaptureBackingError,
> {
    match answer {
        Ok(lease) => Ok(lease.bytes()),
        Err(error) => Err(error),
    }
}

/// Takes an owned copy of a range's bytes.
pub fn snapshot_bytes<P: PageManagementProvider<ALIGN>, const ALIGN: usize>(
    platform: &P,
    range: Range<usize>,
) -> (answer: Result<PrivateBackingLease, CaptureBackingError>)
    ensures
        range.start >= range.end ==> captured_bytes(answer) == snapshot_result(range, None),
        range.start < range.end ==> exists|read: Option<Vec<u8>>| #[trigger]
            call_ensures(
                P::read_guest_bytes,
                (platform, range.start, (range.end - range.start) as usize),
                read,
            ) && captured_bytes(answer) == snapshot_result(range, read),
{
    if range.start >= range.end {
        return Err(CaptureBackingError::Unaligned);
    }
    let read = platform.read_guest_bytes(range.start, range.end - range.start);
    match read {
        Some(bytes) => Ok(PrivateBackingLease::ByteSnapshot(bytes)),
        None => Err(CaptureBackingError::NotCapturable),
    }
}

/// Writes an owned copy of bytes to an address. An empty copy, and one that cannot be written, do
/// not fit.
pub fn write_snapshot<P: PageManagementProvider<ALIGN>, const ALIGN: usize>(
    platform: &P,
    lease: PrivateBackingLease,
    gva: usize,
) -> (answer: Result<(), RestoreBackingError>)
    ensures
        lease.bytes().len() == 0 ==> answer == Err::<(), RestoreBackingError>(
            RestoreBackingError::LengthMismatch,
        ),
        lease.bytes().len() > 0 ==> exists|written: bool| #[trigger]
            call_ensures(P::write_guest_bytes, (platform, gva, &lease->ByteSnapshot_0), written)
                && answer == (if written {
                Ok::<(), RestoreBackingError>(())
            } else {
                Err(RestoreBackingError::LengthMismatch)
            }),
{
    match lease {
        PrivateBackingLease::ByteSnapshot(bytes) => {
            if bytes.len() == 0 {
                return Err(RestoreBackingError::LengthMismatch);
            }
            let written = platform.write_guest_bytes(gva, &bytes);
            if written {
                Ok(())
            } else {
                Err(RestoreBackingError::LengthMismatch)
            }
        },
    }
}

/// What a capture comes to, once the platform answered: a run with a generation of its own.
pub open spec fn is_captured_run(
    range: Range<usize>,
    issued: u64,
    answer: Result<PrivateBackingLease, CaptureBackingError>,
    result: Result<CapturedBackingRun, CaptureBackingError>,
) -> bool {
    match answer {
        Err(error) => result == Err::<CapturedBackingRun, CaptureBackingError>(error),
        Ok(lease) => if issued == u64::MAX {
            result == Err::<CapturedBackingRun, CaptureBackingError>(
                CaptureBackingError::NotCapturable,
            )
        } else {
            result matches Ok(run) && run.range == range && run.generation.raw == issued + 1
                && run.lease == lease
        },
    }
}

/// Captures a private memory run and gives it a generation.
pub fn capture_run<P: PageManagementProvider<ALIGN>, const ALIGN: usize>(
    platform: &P,
    generations: &mut IdCounter,
    range: Range<usize>,
    mode: CaptureMode,
) -> (result: Result<CapturedBackingRun, CaptureBackingError>)
    ensures
        exists|answer: Result<PrivateBackingLease, CaptureBackingError>| #[trigger]
            call_ensures(P::capture_private_backing, (platform, range, mode), answer)
                && is_captured_run(range, old(generations).issued(), answer, result),
        final(generations).issued() == (if result is Ok {
            old(generations).issued() + 1
        } else {
            old(generations).issued() as int
        }),
{
    let answer = platform.capture_private_backing(range.start..range.end, mode);
    finish_capture(generations, range, answer)
}

/// Gives a captured lease its run and generation.
pub fn finish_capture(
    generations: &mut IdCounter,
    range: Range<usize>,
    answer: Result<PrivateBackingLease, CaptureBackingError>,
) -> (result: Result<CapturedBackingRun, CaptureBackingError>)
    ensures
        is_captured_run(range, old(generations).issued(), answer, result),
        final(generations).issued() == (if result is Ok {
            old(generations).issued() + 1
        } else {
            old(generations).issued() as int
        }),
{
    match answer {
        Err(error) => Err(error),
        Ok(lease) => match generations.next() {
            None => Err(CaptureBackingError::NotCapturable),
            Some(raw) => Ok(
                CapturedBackingRun { range, generation: BackingGenerationId { raw }, lease },
            ),
        },
    }
}

/// What a move reports for a refused allocation.
pub open spec fn remap_refusal(error: AllocationError) -> RemapError {
    match error {
        AllocationError::OutOfMemory => RemapError::OutOfMemory,
        _ => RemapError::AlreadyAllocated,
    }
}

/// The permissions under which a copy is written.
pub open spec fn copy_permissions(permissions: MemoryRegionPermissions) -> MemoryRegionPermissions {
    MemoryRegionPermissions { bits: permissions.bits | MemoryRegionPermissions::WRITE }
}

/// The length of the `i`-th chunk of a copy.
pub open spec fn chunk_length(total: int, align: int, i: int) -> int {
    if total - i * align < align {
        total - i * align
    } else {
        align
    }
}

/// A chunk was read at the old place and written at the new one.
pub open spec fn chunk_copied<P: PageManagementProvider<ALIGN>, const ALIGN: usize>(
    platform: &P,
    from: int,
    to: int,
    length: int,
    bytes: Vec<u8>,
) -> bool {
    &&& call_ensures(
        P::read_guest_bytes,
        (platform, from as usize, length as usize),
        Some(bytes),
    )
    &&& call_ensures(P::write_guest_bytes, (platform, to as usize, &bytes), true)
}

/// Every chunk of the old range was copied to the new start, in address order.
pub open spec fn all_copied<P: PageManagementProvider<ALIGN>, const ALIGN: usize>(
    platform: &P,
    old_range: (int, int),
    new_start: int,
    chunks: Seq<Vec<u8>>,
) -> bool {
    &&& (old_range.1 - old_range.0) <= chunks.len() * ALIGN
    &&& forall|i: int|
        0 <= i < chunks.len() ==> chunk_copied(
            platform,
            old_range.0 + i * ALIGN,
            new_start + i * ALIGN,
            chunk_length(old_range.1 - old_range.0, ALIGN as int, i),
            #[trigger] chunks[i],
        )
}

/// The platform never refuses what a copying move asks of it besides the allocation: permission
/// changes, reads, writes, and giving back the old range.
pub open spec fn copies_freely<P: PageManagementProvider<ALIGN>, const ALIGN: usize>(platform: &P) -> bool {
    &&& forall|range: Range<usize>, permissions: MemoryRegionPermissions, answer|
        #[trigger] call_ensures(P::update_permissions, (platform, range, permissions), answer)
            ==> answer is Ok
    &&& forall|range: Range<usize>, answer|
        #[trigger] call_ensures(P::deallocate_pages, (platform, range), answer) ==> answer is Ok
    &&& forall|address: usize, length: usize, read|
        #[trigger] call_ensures(P::read_guest_bytes, (platform, address, length), read)
            ==> read is Some
    &&& forall|address: usize, bytes: &Vec<u8>, written|
        #[trigger] call_ensures(P::write_guest_bytes, (platform, address, bytes), written)
            ==> written
}

/// The platform was asked to change permissions.
pub open spec fn permissions_asked<P: PageManagementProvider<ALIGN>, const ALIGN: usize>(
    platform: &P,
    range: Range<usize>,
    permissions: MemoryRegionPermissions,
) -> bool {
    exists|answer: Result<(), PermissionUpdateError>| #[trigger]
        call_ensures(P::update_permissions, (platform, range, permissions), answer) && answer is Ok
}

/// The old range was made readable for the copy if it was not, and the new one got its own
/// permissions if it was not to be writable.
pub open spec fn permissions_lent<P: PageManagementProvider<ALIGN>, const ALIGN: usize>(
    platform: &P,
    old_range: Range<usize>,
    new_range: Range<usize>,
    permissions: MemoryRegionPermissions,
) -> bool {
    &&& !carries8(permissions.bits, MemoryRegionPermissions::READ) ==> permissions_asked(
        platform,
        old_range,
        MemoryRegionPermissions { bits: permissions.bits | MemoryRegionPermissions::READ },
    )
    &&& copy_permissions(permissions) != permissions ==> permissions_asked(
        platform,
        new_range,
        permissions,
    )
}

/// The platform was asked to give a range back.
pub open spec fn given_back<P: PageManagementProvider<ALIGN>, const ALIGN: usize>(
    platform: &P,
    range: Range<usize>,
) -> bool {
    exists|answer: Result<(), DeallocationError>| #[trigger]
        call_ensures(P::deallocate_pages, (platform, range), answer) && answer is Ok
}

/// A copy leaves no byte out and mixes none up: every byte of the old range is in some chunk that was read
/// as far from the old start as it was written from the new one. `memory` is what the platform reads.
pub proof fn lemma_copy_moves_every_byte<P: PageManagementProvider<ALIGN>, const ALIGN: usize>(
    platform: &P,
    old_range: (int, int),
    new_start: int,
    chunks: Seq<Vec<u8>>,
    memory: spec_fn(int) -> u8,
    offset: int,
)
    requires
        ALIGN > 0,
        0 <= old_range.0,
        old_range.1 <= usize::MAX,
        0 <= offset < old_range.1 - old_range.0,
        all_copied(platform, old_range, new_start, chunks),
        forall|at: usize, length: usize, bytes: Vec<u8>| #[trigger]
            call_ensures(P::read_guest_bytes, (platform, at, length), Some(bytes)) ==> bytes@.len()
                == length && forall|i: int| 0 <= i < length ==> #[trigger] bytes@[i] == memory(at + i),
    ensures
        exists|i: int|
            #![trigger chunks[i]]
            {
                let within = offset - i * ALIGN;
                &&& 0 <= i < chunks.len()
                &&& 0 <= within < chunks[i]@.len()
                &&& chunks[i]@[within] == memory(old_range.0 + offset)
                &&& call_ensures(
                    P::write_guest_bytes,
                    (platform, (new_start + offset - within) as usize, &chunks[i]),
                    true,
                )
            },
{
    let align = ALIGN as int;
    let total = old_range.1 - old_range.0;
    let i = offset / align;
    vstd::arithmetic::div_mod::lemma_fundamental_div_mod(offset, align);
    vstd::arithmetic::div_mod::lemma_mod_bound(offset, align);
    assert(i * align == align * i) by (nonlinear_arith);
    let within = offset - i * align;
    assert(0 <= within < align);
    assert(0 <= i) by (nonlinear_arith)
        requires
            i == offset / align,
            offset >= 0,
            align > 0,
    ;
    assert(i < chunks.len()) by (nonlinear_arith)
        requires
            i * align <= offset,
            offset < total,
            total <= chunks.len() * align,
            align > 0,
    ;
    assert(0 <= i * align) by (nonlinear_arith)
        requires
            i >= 0,
            align > 0,
    ;
    let length = chunk_length(total, align, i);
    assert(chunk_copied(platform, old_range.0 + i * ALIGN, new_start + i * ALIGN, length, chunks[i]));
    assert(within < length);
    assert(chunks[i]@[within] == memory((old_range.0 + i * align) + within));
}

/// A move ends with the permissions that were asked for, whatever was lent for the copy: pages that are
/// not to be written are made so again, and pages that could not be read are lent to the reader first. The
/// reason that a refused move gives tells whether there was no memory.
pub proof fn lemma_permissions_are_taken_back<P: PageManagementProvider<ALIGN>, const ALIGN: usize>(
    platform: &P,
    old_range: Range<usize>,
    new_range: Range<usize>,
    permissions: MemoryRegionPermissions,
    error: AllocationError,
)
    ensures
        copy_permissions(permissions).bits & 0x2 != 0,
        copy_permissions(permissions).bits & 0xfd == permissions.bits & 0xfd,
        permissions_lent(platform, old_range, new_range, permissions) && permissions.bits & 0x2 == 0
            ==> permissions_asked(platform, new_range, permissions),
        permissions_lent(platform, old_range, new_range, permissions) && permissions.bits & 0x1 == 0
            ==> exists|lent: MemoryRegionPermissions| #[trigger]
            permissions_asked(platform, old_range, lent) && lent.bits & 0x1 != 0,
        remap_refusal(error) == RemapError::OutOfMemory <==> error == AllocationError::OutOfMemory,
        remap_refusal(error) == RemapError::OutOfMemory || remap_refusal(error)
            == RemapError::AlreadyAllocated,
{
    let bits = permissions.bits;
    assert((bits | 0x2) & 0x2 != 0 && (bits | 0x2) & 0xfd == bits & 0xfd && (bits | 0x1) & 0x1 != 0 && (bits
        & 0x2 == 0 ==> (bits | 0x2) != bits) && (bits & 0x1 == 0 ==> bits & 0x1 != 0x1)) by (bit_vector);
}

/// A snapshot holds exactly the bytes that were read, and a range that is empty has none.
pub proof fn lemma_snapshot_is_what_was_read(range: Range<usize>, read: Option<Vec<u8>>)
    ensures
        snapshot_result(range, read) is Ok <==> range.start < range.end && read is Some,
        snapshot_result(range, read) matches Ok(bytes) ==> bytes == read->0@,
        snapshot_result(range, read) == Err::<Seq<u8>, CaptureBackingError>(CaptureBackingError::Unaligned)
            <==> range.start >= range.end,
{
}

/// A capture keeps the range and the bytes, under a generation that no capture before it had.
pub proof fn lemma_capture_is_new(
    range: Range<usize>,
    issued: u64,
    answer: Result<PrivateBackingLease, CaptureBackingError>,
    result: Result<CapturedBackingRun, CaptureBackingError>,
)
    requires
        is_captured_run(range, issued, answer, result),
    ensures
        result is Ok ==> answer is Ok,
        result matches Ok(run) ==> run.range == range && run.generation.raw > issued && run.lease.bytes()
            == answer->Ok_0.bytes(),
        answer is Ok && issued < u64::MAX ==> result is Ok,
        answer matches Err(error) ==> result == Err::<CapturedBackingRun, CaptureBackingError>(error),
{
}

/// Moves pages by allocating the new range, copying the bytes in chunks of one page, and giving
/// back the old range. The ranges are aligned and apart, and the new one is the larger.
pub fn remap_by_copy<P: PageManagementProvider<ALIGN>, const ALIGN: usize>(
    platform: &P,
    old_range: Range<usize>,
    new_range: Range<usize>,
    permissions: MemoryRegionPermissions,
) -> (result: Result<usize, RemapError>)
    requires
        ALIGN > 0,
        old_range.start <= old_range.end,
        multiple_of(old_range.start as int, ALIGN as int),
        multiple_of(old_range.end as int, ALIGN as int),
        multiple_of(new_range.start as int, ALIGN as int),
        multiple_of(new_range.end as int, ALIGN as int),
        P::TASK_ADDR_MIN <= new_range.start,
        new_range.end <= P::TASK_ADDR_MAX,
        new_range.end - new_range.start > old_range.end - old_range.start,
        copies_freely(platform),
        forall|answer: Result<usize, AllocationError>| #[trigger]
            call_ensures(
                P::allocate_pages,
                (
                    platform,
                    new_range,
                    copy_permissions(permissions),
                    false,
                    true,
                    FixedAddressBehavior::NoReplace,
                ),
                answer,
            ) ==> answer != Err::<usize, AllocationError>(AllocationError::AddressPartiallyInUse),
    ensures
        exists|answer: Result<usize, AllocationError>| #[trigger]
            call_ensures(
                P::allocate_pages,
                (
                    platform,
                    new_range,
                    copy_permissions(permissions),
                    false,
                    true,
                    FixedAddressBehavior::NoReplace,
                ),
                answer,
            ) && match answer {
                Err(error) => result == Err::<usize, RemapError>(remap_refusal(error)),
                Ok(start) => result == Ok::<usize, RemapError>(start) && exists|chunks: Seq<Vec<u8>>|
                 #[trigger]
                    all_copied(
                        platform,
                        (old_range.start as int, old_range.end as int),
                        start as int,
                        chunks,
                    ) && permissions_lent(platform, old_range, new_range, permissions) && given_back(
                    platform,
                    old_range,
                ),
            },
{
    let (old_start, old_end) = (old_range.start, old_range.end);
    let (new_start, new_end) = (new_range.start, new_range.end);
    let writable = permissions.union(MemoryRegionPermissions::WRITE);
    let answer = platform.allocate_pages(
        new_start..new_end,
        writable,
        false,
        true,
        FixedAddressBehavior::NoReplace,
    );
    let start: usize = match answer {
        Ok(start) => start,
        Err(error) => {
            return Err(
                match error {
                    AllocationError::OutOfMemory => RemapError::OutOfMemory,
                    _ => RemapError::AlreadyAllocated,
                },
            );
        },
    };
    if !permissions.contains(MemoryRegionPermissions::READ) {
        let lent = platform.update_permissions(
            old_start..old_end,
            permissions.union(MemoryRegionPermissions::READ),
        );
        proof {
            assert(lent is Ok);
        }
    }
    let total: usize = old_end - old_start;
    let mut offset: usize = 0;
    let ghost mut chunks: Seq<Vec<u8>> = Seq::empty();
    proof {
        assert(0 * ALIGN as int == 0) by (nonlinear_arith);
        lemma_aligned_sum(old_end as int, old_start as int, ALIGN as int);
        vstd::arithmetic::div_mod::lemma_small_mod(0, ALIGN as nat);
    }
    while offset < total
        invariant
            ALIGN > 0,
            total == old_end - old_start,
            multiple_of(total as int, ALIGN as int),
            multiple_of(offset as int, ALIGN as int),
            start == new_start,
            new_end - new_start > total,
            copies_freely(platform),
            offset == chunks.len() * ALIGN,
            offset <= total,
            forall|i: int|
                0 <= i < chunks.len() ==> chunk_copied(
                    platform,
                    old_start + i * ALIGN,
                    start + i * ALIGN,
                    chunk_length(total as int, ALIGN as int, i),
                    #[trigger] chunks[i],
                ),
        decreases total - offset,
    {
        let length: usize = if total - offset < ALIGN {
            total - offset
        } else {
            ALIGN
        };
        if let Some(bytes) = platform.read_guest_bytes(old_start + offset, length) {
            let written = platform.write_guest_bytes(start + offset, &bytes);
            proof {
                assert(chunk_copied(
                    platform,
                    old_start + offset,
                    start + offset,
                    length as int,
                    bytes,
                ));
                let before = chunks;
                chunks = chunks.push(bytes);
                assert((before.len() + 1) * ALIGN == before.len() * ALIGN + ALIGN) by (nonlinear_arith);
                assert(chunk_length(total as int, ALIGN as int, before.len() as int) == length);
            }
        }
        proof {
            // What is left is at least one whole chunk.
            lemma_aligned_sum(total as int, offset as int, ALIGN as int);
            if total - offset < ALIGN {
                vstd::arithmetic::div_mod::lemma_small_mod((total - offset) as nat, ALIGN as nat);
            }
            vstd::arithmetic::div_mod::lemma_mod_self_0(ALIGN as int);
            lemma_aligned_sum(offset as int, ALIGN as int, ALIGN as int);
        }
        offset = offset + ALIGN;
    }
    if writable.bits != permissions.bits {
        let taken = platform.update_permissions(new_start..new_end, permissions);
        proof {
            assert(taken is Ok);
        }
    }
    let freed = platform.deallocate_pages(old_start..old_end);
    proof {
        assert(freed is Ok);
        assert(permissions_lent(platform, old_range, new_range, permissions));
        assert(all_copied(platform, (old_start as int, old_end as int), start as int, chunks));
    }
    Ok(start)
}

/// Makes the domain of a platform's task addresses, with its reserved pages blocked.
pub fn build_domain<P: PageManagementProvider<ALIGN>, const ALIGN: usize>(
    platform: &P,
    domains: &mut DomainIds,
) -> (domain: GuestVaDomain)
    requires
        old(domains).has_room(),
        forall|ranges: Vec<Range<usize>>, i: int|
            call_ensures(P::reserved_pages, (platform,), ranges) && 0 <= i < ranges@.len()
                ==> (#[trigger] ranges@[i]).start < ranges@[i].end,
    ensures
        domain.wf(),
        ids_taken(*old(domains), *final(domains)),
        domain@.id.raw == old(domains).domains() + 1,
        exists|ranges: Vec<Range<usize>>| #[trigger]
            call_ensures(P::reserved_pages, (platform,), ranges) && is_fresh_domain(
                domain@,
                (P::TASK_ADDR_MIN as int, P::TASK_ADDR_MAX as int),
                spans(ranges@),
                old(domains).issued(),
            ),
{
    let ranges = platform.reserved_pages();
    let mut blocked: Vec<DomainBlocked> = Vec::new();
    let mut i: usize = 0;
    while i < ranges.len()
        invariant
            i <= ranges@.len(),
            blocked@.len() == i,
            forall|j: int| 0 <= j < ranges@.len() ==> (#[trigger] ranges@[j]).start < ranges@[j].end,
            forall|j: int|
                0 <= j < i ==> (#[trigger] blocked@[j]).0.start == ranges@[j].start
                    && blocked@[j].0.end == ranges@[j].end,
        decreases ranges@.len() - i,
    {
        blocked.push(DomainBlocked(ranges[i].start..ranges[i].end));
        i += 1;
    }
    let ghost declared = crate::mm::domain::declared_spans(blocked@);
    let domain = GuestVaDomain::new(domains, P::TASK_ADDR_MIN..P::TASK_ADDR_MAX, blocked);
    proof {
        assert(declared =~= spans(ranges@));
    }
    domain
}

} // verus!
