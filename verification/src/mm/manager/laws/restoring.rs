//! What restoring captured memory promises.
use crate::mm::area::VmArea;
use crate::platform::page_mgmt::{
    AllocationError, FixedAddressBehavior, PageManagementProvider, PrivateBackingLease, RestoreBackingError,
};
use vstd::prelude::*;

verus! {

use crate::mm::addr::multiple_of;
use crate::mm::manager::{bare, run_restored};
use crate::mm::vmem::effects::inserted;
use crate::mm::vmem::laws::asking::lemma_insertion_is_refused_where_it_must_be;
use crate::mm::vmem::laws::placing::is_free;
use crate::mm::vmem::laws::{all_mapped_like, lemma_insertion_is_confined, same_outside};
use crate::mm::vmem::VmemModel;

/// Memory is restored only over addresses that are free and whole pages, exactly as many as there are
/// bytes. Where that succeeds the platform was handed the bytes for that very address, all of the range
/// is mapped with the flags of the area that was given, and nothing else changed. Bytes that are none, or that do not fill pages, are refused and change nothing, and so is a
/// range that anything is mapped in or that leaves the task range.
pub proof fn lemma_restoring_is_lawful<P: PageManagementProvider<ALIGN>, const ALIGN: usize>(
    platform: &P,
    before: VmemModel,
    lease: PrivateBackingLease,
    gva: usize,
    area: VmArea,
    after: VmemModel,
    result: Result<usize, RestoreBackingError>,
)
    requires
        ALIGN > 0,
        gva + lease.bytes().len() <= usize::MAX,
        run_restored(platform, before, lease, gva, area, after, result),
    ensures
        ({
            let end = gva + lease.bytes().len();
            let fits = lease.bytes().len() > 0 && gva as int % ALIGN as int == 0 && end % ALIGN as int == 0;
            let inside = P::TASK_ADDR_MIN <= gva && end <= P::TASK_ADDR_MAX;
            &&& !fits ==> after == before && result == Err::<usize, RestoreBackingError>(
                RestoreBackingError::LengthMismatch,
            )
            &&& fits && !(inside && is_free(before.areas, gva as int, end)) ==> after == before && result
                == Err::<usize, RestoreBackingError>(RestoreBackingError::AddressInUse)
            &&& result matches Ok(at) ==> {
                &&& fits
                &&& inside
                &&& is_free(before.areas, gva as int, end)
                &&& call_ensures(
                    P::restore_private_backing,
                    (platform, lease, gva),
                    Ok::<(), RestoreBackingError>(()),
                )
                &&& same_outside(before, after, at as int, at + lease.bytes().len())
                &&& all_mapped_like(
                    after.areas,
                    at as int,
                    at + lease.bytes().len(),
                    (VmArea { initialization: None, shared_futex: None, ..area }),
                )
            }
        }),
{
    let end = gva + lease.bytes().len();
    if lease.bytes().len() > 0 && multiple_of(gva as int, ALIGN as int) && multiple_of(end, ALIGN as int) {
        let placed = choose|placed: Result<usize, AllocationError>| #[trigger]
            inserted(
                platform,
                before,
                (gva as int, end),
                bare(area),
                true,
                FixedAddressBehavior::NoReplace,
                after,
                placed,
            ) && match placed {
                Err(_) => result == Err::<usize, RestoreBackingError>(RestoreBackingError::AddressInUse),
                Ok(start) => exists|answer: Result<(), RestoreBackingError>| #[trigger]
                    call_ensures(P::restore_private_backing, (platform, lease, gva), answer) && result == (
                    match answer {
                        Ok(()) => Ok::<usize, RestoreBackingError>(start),
                        Err(error) => Err(error),
                    }),
            };
        lemma_insertion_is_refused_where_it_must_be(
            platform,
            before,
            (gva as int, end),
            bare(area),
            true,
            FixedAddressBehavior::NoReplace,
            after,
            placed,
        );
        let reached = lemma_insertion_is_confined(
            platform,
            before,
            (gva as int, end),
            bare(area),
            true,
            FixedAddressBehavior::NoReplace,
            after,
            placed,
        );
        if let Ok(at) = result {
            let answer = choose|answer: Result<(), RestoreBackingError>| #[trigger]
                call_ensures(P::restore_private_backing, (platform, lease, gva), answer) && result == (
                match answer {
                    Ok(()) => Ok::<usize, RestoreBackingError>(placed->Ok_0),
                    Err(error) => Err(error),
                });
            if let Ok(done) = answer {
                assert(done == ());
            }
        }
    }
}

} // verus!
