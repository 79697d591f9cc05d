//! What a permission flip leaves behind.
use crate::ids::VmViewId;
use crate::mm::custody::CustodyModel;
use crate::mm::manager::GuestAccess;
use crate::shim::{WxFlipOutcome, WxFlipRequest};
use vstd::prelude::*;

verus! {

use crate::mm::domain::lookup::custody_via_lineage;
use crate::mm::domain::DomainModel;
use crate::mm::manager::{flip_recorded, may_flip};
use crate::mm::wx_ledger::{lemma_newest_is_last, oldest_first, populated, LedgerModel};

/// A flip may go to the platform exactly if a guest asks for it and the page is real memory of the
/// guest's view or of an ancestor.
pub proof fn lemma_flip_needs_presence(m: DomainModel, access: Option<GuestAccess>, page: int)
    ensures
        access is None ==> !may_flip(m, access, page),
        access matches Some(guest) ==> (may_flip(m, access, page) <==> match custody_via_lineage(
            m,
            guest.view,
            page,
        ) {
            CustodyModel::Present { .. } => true,
            _ => false,
        }),
{
}

/// A flip that the platform committed is the newest entry of the ledger: with the page and the direction
/// that were asked for, the view, the time it took, and an identity that no mutation of the domain had
/// before, or none if there is none left. Nothing else of the domain changes. A flip that was not
/// committed leaves no trace.
pub proof fn lemma_committed_flip_is_recorded(
    m: DomainModel,
    ledger: LedgerModel,
    view: VmViewId,
    request: WxFlipRequest,
    outcome: WxFlipOutcome,
)
    requires
        ledger.slots.len() == 64,
        ledger.next < 64,
    ensures
        ({
            let (after, written) = flip_recorded(m, ledger, view, request, outcome);
            match outcome {
                WxFlipOutcome::Committed(nanos) => {
                    let newest = populated(oldest_first(written)).last();
                    &&& populated(oldest_first(written)).len() > 0
                    &&& newest.view == view
                    &&& newest.page == request.page
                    &&& newest.executable == request.want_execute
                    &&& newest.duration_nanos == nanos
                    &&& newest.mutation == 0 || newest.mutation > m.issued.mutation
                    &&& newest.mutation == 0 ==> m.issued.mutation >= m.limits.mutation && after == m
                    &&& after.issued.mutation >= newest.mutation
                    &&& after == (DomainModel { issued: after.issued, ..m })
                },
                _ => after == m && written == ledger,
            }
        }),
{
    if let WxFlipOutcome::Committed(nanos) = outcome {
        let mutation = if m.issued.mutation >= m.limits.mutation {
            0
        } else {
            (m.issued.mutation + 1) as u64
        };
        lemma_newest_is_last(
            ledger,
            crate::mm::manager::flip_entry(view, request, mutation, nanos),
        );
    }
}

} // verus!
