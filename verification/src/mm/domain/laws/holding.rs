//! What each step of a range's life records at every address of it.
use crate::ids::{FamilyId, VmViewId};
use crate::mm::custody::{CustodyModel, SpanKind, TokenModel};
use crate::mm::domain::{ClaimHostError, DomainConflict, ViewOverlay};
use core::ops::Range;
use vstd::prelude::*;

verus! {

use crate::mm::custody::BlockOrigin;
use crate::mm::domain::holes::{
    claim_begun, claim_finished, install_begun, install_finished, other_installed, release_begun,
    release_finished, replace_begun, replace_finished, retire_begun, retire_finished, ClaimInFlight,
    InstallInFlight,
};
use crate::mm::domain::laws::{held_by_another, lemma_other_installed};
use crate::mm::domain::lookup::{custody_of, found_at, uniform_custody, Found};
use crate::mm::domain::publish::{
    found_place, is_placeable, next_ceiling, own_retired, owns_retired, present_published, stranger_retired,
    strangers_retired, untracked_counted,
};
use crate::mm::domain::registry::family_of;
use crate::mm::domain::{lineage_ok, DomainModel};
use crate::range_map::{lookup, uniform};
use crate::range_table::touched;

broadcast use {crate::range_map::lemma_lookup_put, crate::range_map::lemma_lookup_cut};

/// What a family records of an address.
pub open spec fn record(m: DomainModel, family: FamilyId, k: int) -> Option<CustodyModel> {
    lookup(m.maps[family.raw].custody, k)
}

/// The view that a family has installed at an address.
pub open spec fn installed_at(m: DomainModel, family: FamilyId, k: int) -> Option<VmViewId> {
    lookup(m.maps[family.raw].installed, k)
}

/// Outside a range a family records and has installed what it had.
pub open spec fn is_same_outside(
    before: DomainModel,
    after: DomainModel,
    family: FamilyId,
    start: int,
    end: int,
    k: int,
) -> bool {
    !(start <= k < end) ==> record(after, family, k) == record(before, family, k) && installed_at(
        after,
        family,
        k,
    ) == installed_at(before, family, k)
}

/// Publishing a present span that succeeds stays inside the domain and off blocked addresses. It records
/// every address of the range as real memory of the view, under a generation that was never handed out
/// before, installs the view there, and enters it in the view's own list; a view that was being installed
/// is active from there on. A refusal changes no record.
pub proof fn lemma_publishing_records_presence(
    m: DomainModel,
    view: VmViewId,
    start: int,
    end: int,
    k: int,
)
    requires
        lineage_ok(m),
    ensures
        ({
            let (after, answer) = present_published(m, view, start, end);
            &&& answer is Err ==> after.maps == m.maps && after.views == m.views && after.blocked
                == m.blocked && after.families == m.families
            &&& answer matches Ok(mutation) ==> family_of(m, view) matches Some(family) && {
                &&& m.aperture.0 <= start < end <= m.aperture.1
                &&& mutation.raw > m.issued.mutation
                &&& start <= k < end ==> {
                    &&& lookup(m.blocked, k) is None
                    &&& !held_by_another(m.maps[family.raw].installed, view, k)
                    &&& record(after, family, k) matches Some(
                        CustodyModel::Present { generation, view: holder },
                    ) && holder == view && generation.raw > m.issued.generation
                    &&& installed_at(after, family, k) == Some(view)
                    &&& lookup(after.views[view.raw].topology, k) == Some(SpanKind::Present)
                }
                &&& is_same_outside(m, after, family, start, end, k)
                &&& after.views[view.raw].overlay == (if m.views[view.raw].overlay
                    == ViewOverlay::Installing {
                    ViewOverlay::Active
                } else {
                    m.views[view.raw].overlay
                })
                &&& after.blocked == m.blocked
            }
        }),
{
    if let Some(family) = family_of(m, view) {
        assert(m.maps.dom().contains(family.raw));
        if start < end {
            lemma_other_installed(m, family, view, start, end);
        }
        if start <= k < end && lookup(m.blocked, k) is Some {
            assert(touched(m.blocked, start, end));
        }
    }
}

/// A family's record says of a whole range that nobody claimed it exactly if no address of it is blocked,
/// and it records nothing there at all or that nobody claimed any of it.
pub proof fn lemma_unclaimed_range(m: DomainModel, family: FamilyId, start: int, end: int)
    requires
        start < end,
        m.maps.dom().contains(family.raw),
    ensures
        uniform_custody(m, family, start, end) == Some(CustodyModel::Unclaimed) <==> (forall|k: int|
            start <= k < end ==> #[trigger] lookup(m.blocked, k) is None) && ((forall|k: int|
            start <= k < end ==> #[trigger] record(m, family, k) is None) || (forall|k: int|
            start <= k < end ==> #[trigger] record(m, family, k) == Some(CustodyModel::Unclaimed))),
        forall|custody: CustodyModel|
            custody != CustodyModel::Unclaimed && !(custody is DomainBlocked) ==> (uniform_custody(
                m,
                family,
                start,
                end,
            ) == Some(custody) <==> #[trigger] uniform(
                m.maps[family.raw].custody,
                start,
                end,
                custody,
            )),
{
    let custody = custody_of(m, family);
    assert(custody == m.maps[family.raw].custody);
    let blocked = touched(m.blocked, start, end);
    let all_free = forall|k: int| start <= k < end ==> #[trigger] lookup(m.blocked, k) is None;
    let nothing = forall|k: int| start <= k < end ==> #[trigger] record(m, family, k) is None;
    let unclaimed = forall|k: int|
        start <= k < end ==> #[trigger] record(m, family, k) == Some(CustodyModel::Unclaimed);
    assert(blocked == !all_free) by {
        if blocked {
            let k = choose|k: int| start <= k < end && #[trigger] lookup(m.blocked, k) is Some;
            assert(!(lookup(m.blocked, k) is None));
        } else {
            assert forall|k: int| start <= k < end implies #[trigger] lookup(m.blocked, k) is None by {
                assert(!(lookup(m.blocked, k) is Some));
            }
        }
    }
    assert(touched(custody, start, end) == !nothing) by {
        if touched(custody, start, end) {
            let k = choose|k: int| start <= k < end && #[trigger] lookup(custody, k) is Some;
            assert(!(record(m, family, k) is None));
        } else {
            assert forall|k: int| start <= k < end implies #[trigger] record(m, family, k) is None by {
                assert(!(lookup(custody, k) is Some));
            }
        }
    }
    assert(uniform(custody, start, end, CustodyModel::Unclaimed) == unclaimed) by {
        if unclaimed {
            assert forall|k: int| start <= k < end implies #[trigger] lookup(custody, k) == Some(
                CustodyModel::Unclaimed,
            ) by {
                assert(record(m, family, k) == Some(CustodyModel::Unclaimed));
            }
        } else if uniform(custody, start, end, CustodyModel::Unclaimed) {
            assert forall|k: int| start <= k < end implies #[trigger] record(m, family, k) == Some(
                CustodyModel::Unclaimed,
            ) by {
                assert(lookup(custody, k) == Some(CustodyModel::Unclaimed));
            }
        }
    }
    assert(lookup(custody, start) == lookup(custody, start));
    assert forall|other: CustodyModel|
        other != CustodyModel::Unclaimed && !(other is DomainBlocked) implies (uniform_custody(
        m,
        family,
        start,
        end,
    ) == Some(other) <==> #[trigger] uniform(m.maps[family.raw].custody, start, end, other)) by {
        if uniform(custody, start, end, other) {
            assert(lookup(custody, start) == Some(other));
        }
    }
}

/// A claim begins exactly if its range is inside the domain and clear of what was declared, a generation
/// is left, the view is registered, and nobody claimed any address of the range. It then records the
/// whole range as being installed under a generation that was never handed out before.
pub proof fn lemma_claim_marks_its_range(m: DomainModel, view: VmViewId, start: int, end: int, k: int)
    requires
        lineage_ok(m),
        0 <= start,
        end <= usize::MAX,
    ensures
        ({
            let (after, answer) = claim_begun(m, view, start, end);
            &&& answer is Ok <==> {
                &&& m.aperture.0 <= start < end <= m.aperture.1
                &&& !crate::mm::domain::overlaps_spans(m.declared, start, end)
                &&& m.issued.generation < m.limits.generation
                &&& family_of(m, view) matches Some(family) && uniform_custody(m, family, start, end)
                    == Some(CustodyModel::Unclaimed)
            }
            &&& answer is Err ==> after.maps == m.maps && after.blocked == m.blocked
            &&& answer matches Ok(claim) ==> family_of(m, view) matches Some(family) && {
                &&& claim.start == start
                &&& claim.end == end
                &&& claim.family == family
                &&& claim.generation.raw > m.issued.generation
                &&& start <= k < end ==> record(after, family, k) == Some(
                    CustodyModel::Installing { generation: claim.generation },
                )
                &&& is_same_outside(m, after, family, start, end, k)
                &&& after.views == m.views
            }
        }),
{
    if let Some(family) = family_of(m, view) {
        assert(m.maps.dom().contains(family.raw));
    }
}

/// What the host's answer to a claim records: a hole under the claim's generation, with a token that says
/// so; nobody's if the host refused; and if the host holds the range for somebody else, nothing but that
/// it is blocked, for every family.
pub proof fn lemma_claim_is_answered(
    m: DomainModel,
    claim: ClaimInFlight,
    answer: Result<(), ClaimHostError>,
    k: int,
)
    requires
        m.maps.dom().contains(claim.family.raw),
    ensures
        ({
            let (after, result) = claim_finished(m, claim, answer);
            let (start, end) = (claim.start as int, claim.end as int);
            &&& result is Ok <==> answer is Ok
            &&& result matches Ok(token) ==> token.start == start && token.end == end && token.generation
                == claim.generation && token.family == claim.family
            &&& start <= k < end ==> record(after, claim.family, k) == (match answer {
                Ok(()) => Some(CustodyModel::Hole { generation: claim.generation }),
                Err(ClaimHostError::Other) => Some(CustodyModel::Unclaimed),
                Err(ClaimHostError::ForeignHost) => None,
            })
            &&& lookup(after.blocked, k) == (if start <= k < end && answer == Err::<(), ClaimHostError>(
                ClaimHostError::ForeignHost,
            ) {
                Some(BlockOrigin::ForeignHost)
            } else {
                lookup(m.blocked, k)
            })
            &&& is_same_outside(m, after, claim.family, start, end, k)
            &&& installed_at(after, claim.family, k) == installed_at(m, claim.family, k)
        }),
{
}

/// An install begins exactly for a view of the token's family, if the family records the whole range as
/// the hole that the token names, no other view is installed there, and identities are left. The range is
/// then marked under the same generation, and nothing else is recorded.
pub proof fn lemma_install_needs_its_hole(m: DomainModel, token: TokenModel, view: VmViewId, k: int)
    requires
        lineage_ok(m),
        0 <= token.start < token.end <= usize::MAX,
        m.maps.dom().contains(token.family.raw),
    ensures
        ({
            let (after, answer) = install_begun(m, token, view);
            let (start, end) = (token.start, token.end);
            let hole = CustodyModel::Hole { generation: token.generation };
            &&& answer is Ok <==> {
                &&& family_of(m, view) == Some(token.family)
                &&& uniform(m.maps[token.family.raw].custody, start, end, hole)
                &&& forall|j: int|
                    start <= j < end ==> !#[trigger] held_by_another(
                        m.maps[token.family.raw].installed,
                        view,
                        j,
                    )
                &&& m.issued.mutation < m.limits.mutation
                &&& m.issued.generation < m.limits.generation
            }
            &&& answer is Err ==> after.maps == m.maps && after.views == m.views
            &&& answer matches Ok(install) ==> {
                &&& install.start == start
                &&& install.end == end
                &&& install.family == token.family
                &&& install.view == view
                &&& install.held == token.generation
                &&& install.fresh.raw > m.issued.generation
                &&& install.mutation.raw > m.issued.mutation
                &&& start <= k < end ==> record(after, token.family, k) == Some(
                    CustodyModel::Installing { generation: token.generation },
                )
                &&& is_same_outside(m, after, token.family, start, end, k)
                &&& after.views == m.views
            }
        }),
{
    lemma_unclaimed_range(m, token.family, token.start, token.end);
    lemma_other_installed(m, token.family, view, token.start, token.end);
    let here = m.maps[token.family.raw].installed;
    match other_installed(m, token.family, view, token.start, token.end) {
        Some(other) => {
            let j = choose|j: int|
                token.start <= j < token.end && #[trigger] lookup(here, j) == Some(other);
            assert(held_by_another(here, view, j));
        },
        None => {
            assert forall|j: int| token.start <= j < token.end implies !#[trigger] held_by_another(
                here,
                view,
                j,
            ) by {
                assert(lookup(here, j) is None || lookup(here, j) == Some(view));
            }
        },
    }
    let hole = CustodyModel::Hole { generation: token.generation };
    assert(uniform(m.maps[token.family.raw].custody, token.start, token.end, hole) || !uniform(
        m.maps[token.family.raw].custody,
        token.start,
        token.end,
        hole,
    ));
}

/// What the host's answer to an install records: the view's own real memory under the fresh generation,
/// installed and listed; or, where the host refused, the hole as it was.
pub proof fn lemma_install_is_answered(
    m: DomainModel,
    install: InstallInFlight,
    answer: Result<(), ()>,
    k: int,
)
    requires
        m.maps.dom().contains(install.family.raw),
        m.views.dom().contains(install.view.raw),
    ensures
        ({
            let (after, result) = install_finished(m, install, answer);
            let (start, end) = (install.start as int, install.end as int);
            &&& result is Ok <==> answer is Ok
            &&& result matches Ok(mutation) ==> mutation == install.mutation
            &&& start <= k < end && answer is Ok ==> {
                &&& record(after, install.family, k) == Some(
                    CustodyModel::Present { generation: install.fresh, view: install.view },
                )
                &&& installed_at(after, install.family, k) == Some(install.view)
                &&& lookup(after.views[install.view.raw].topology, k) == Some(SpanKind::Present)
            }
            &&& start <= k < end && answer is Err ==> {
                &&& record(after, install.family, k) == Some(
                    CustodyModel::Hole { generation: install.held },
                )
                &&& installed_at(after, install.family, k) == installed_at(m, install.family, k)
            }
            &&& answer is Err ==> after.views == m.views
            &&& is_same_outside(m, after, install.family, start, end, k)
            &&& after.blocked == m.blocked
        }),
{
}

/// A replacement begins exactly if its range is inside the domain and clear of what was declared, the view
/// has all of it as its own real memory under one generation and nobody else is installed there, and
/// identities are left. Its answer records fresh memory of the view, or the old one.
pub proof fn lemma_replacement_renews_presence(
    m: DomainModel,
    view: VmViewId,
    start: int,
    end: int,
    answer: Result<(), ()>,
    k: int,
)
    requires
        lineage_ok(m),
        0 <= start < end <= usize::MAX,
        family_of(m, view) is Some,
    ensures
        ({
            let (after, begun) = replace_begun(m, view, start, end);
            let family = family_of(m, view)->0;
            &&& begun is Err ==> after.maps == m.maps && after.views == m.views
            &&& begun matches Ok(install) ==> {
                let (last, result) = replace_finished(after, install, answer);
                &&& uniform(
                    m.maps[family.raw].custody,
                    start,
                    end,
                    CustodyModel::Present { generation: install.held, view },
                )
                &&& install.fresh.raw > m.issued.generation
                &&& install.view == view
                &&& result is Ok <==> answer is Ok
                &&& start <= k < end ==> record(last, family, k) == Some(
                    CustodyModel::Present {
                        generation: if answer is Ok {
                            install.fresh
                        } else {
                            install.held
                        },
                        view,
                    },
                )
                &&& installed_at(last, family, k) == installed_at(m, family, k)
                &&& is_same_outside(m, last, family, start, end, k)
            }
        }),
{
    let family = family_of(m, view)->0;
    assert(m.maps.dom().contains(family.raw));
    lemma_unclaimed_range(m, family, start, end);
    if let Some(custody) = uniform_custody(m, family, start, end) {
        assert(uniform(m.maps[family.raw].custody, start, end, custody) || !uniform(
            m.maps[family.raw].custody,
            start,
            end,
            custody,
        ));
    }
}

/// A retirement begins only if the view has the whole range as its own real memory under one generation.
/// Its answer makes it a hole under a generation that was never handed out before, where nobody is
/// installed and which the view does not list any more; or leaves it present as it was.
pub proof fn lemma_retirement_makes_a_hole(
    m: DomainModel,
    view: VmViewId,
    start: int,
    end: int,
    answer: Result<(), ()>,
    k: int,
)
    requires
        lineage_ok(m),
        0 <= start < end <= usize::MAX,
        family_of(m, view) is Some,
    ensures
        ({
            let (after, begun) = retire_begun(m, view, start, end);
            let family = family_of(m, view)->0;
            &&& begun is Err ==> after.maps == m.maps && after.views == m.views
            &&& begun matches Ok(retire) ==> {
                let (last, result) = retire_finished(after, retire, answer);
                &&& uniform(
                    m.maps[family.raw].custody,
                    start,
                    end,
                    CustodyModel::Present { generation: retire.held, view },
                )
                &&& retire.fresh.raw > m.issued.generation
                &&& result is Ok <==> answer is Ok
                &&& result matches Ok(token) ==> token.start == start && token.end == end
                    && token.generation == retire.fresh && token.family == family
                &&& start <= k < end && answer is Ok ==> {
                    &&& record(last, family, k) == Some(CustodyModel::Hole { generation: retire.fresh })
                    &&& installed_at(last, family, k) is None
                    &&& lookup(last.views[view.raw].topology, k) is None
                }
                &&& start <= k < end && answer is Err ==> {
                    &&& record(last, family, k) == Some(
                        CustodyModel::Present { generation: retire.held, view },
                    )
                    &&& installed_at(last, family, k) == installed_at(m, family, k)
                }
                &&& is_same_outside(m, last, family, start, end, k)
            }
        }),
{
    let family = family_of(m, view)->0;
    assert(m.maps.dom().contains(family.raw));
    lemma_unclaimed_range(m, family, start, end);
    if let Some(custody) = uniform_custody(m, family, start, end) {
        assert(uniform(m.maps[family.raw].custody, start, end, custody) || !uniform(
            m.maps[family.raw].custody,
            start,
            end,
            custody,
        ));
    }
}

/// A release begins exactly if the token's family records the whole range as the hole that the token
/// names. Its answer forgets the range, or leaves the hole.
pub proof fn lemma_release_forgets_a_hole(m: DomainModel, token: TokenModel, answer: Result<(), ()>, k: int)
    requires
        0 <= token.start < token.end <= usize::MAX,
        m.maps.dom().contains(token.family.raw),
    ensures
        ({
            let (after, begun) = release_begun(m, token);
            let (start, end) = (token.start, token.end);
            let hole = CustodyModel::Hole { generation: token.generation };
            &&& begun is Ok <==> uniform(m.maps[token.family.raw].custody, start, end, hole)
            &&& begun is Err ==> after == m
            &&& begun matches Ok(release) ==> {
                let (last, result) = release_finished(after, release, answer);
                &&& result is Ok <==> answer is Ok
                &&& start <= k < end ==> record(last, token.family, k) == (if answer is Ok {
                    None
                } else {
                    Some(hole)
                })
                &&& installed_at(last, token.family, k) == installed_at(m, token.family, k)
                &&& is_same_outside(m, last, token.family, start, end, k)
                &&& last.views == m.views
            }
        }),
{
    lemma_unclaimed_range(m, token.family, token.start, token.end);
    let hole = CustodyModel::Hole { generation: token.generation };
    assert(uniform(m.maps[token.family.raw].custody, token.start, token.end, hole) || !uniform(
        m.maps[token.family.raw].custody,
        token.start,
        token.end,
        hole,
    ));
}

/// What lineage says of an address is the family's own record if it has one that is not unclaimed; else
/// what the parent kept for its descendants, else the parent's own record, and so on upwards; and only
/// where no family records anything does it matter that the address is blocked.
pub proof fn lemma_nearest_record_decides(m: DomainModel, family: u64, hops: u64, k: int)
    ensures
        hops == 0 || lookup(m.maps[family].snapshot, k) is None ==> ((lookup(m.maps[family].custody, k) matches Some(
            custody,
        ) && custody != CustodyModel::Unclaimed) ==> found_at(m, family, hops, k) == Some(
            Found::Held { hops, kept: false, custody: m.maps[family].custody[k] },
        )),
        hops > 0 && lookup(m.maps[family].snapshot, k) is Some ==> found_at(m, family, hops, k) == Some(
            Found::Held { hops, kept: true, custody: m.maps[family].snapshot[k] },
        ),
        (hops == 0 || lookup(m.maps[family].snapshot, k) is None) && (lookup(m.maps[family].custody, k) is None
            || lookup(m.maps[family].custody, k) == Some(CustodyModel::Unclaimed)) ==> found_at(
            m,
            family,
            hops,
            k,
        ) == (match m.families[family].parent {
            Some(parent) if parent.raw < family => found_at(m, parent.raw, (hops + 1) as u64, k),
            _ => match lookup(m.blocked, k) {
                Some(origin) => Some(Found::Blocked(origin)),
                None => None,
            },
        }),
{
}

/// A span is retired for a view only if it is the view's own: one that is present for another view, or that
/// is not present at all, leaves the domain as it is.
pub proof fn lemma_only_own_spans_are_retired(m: DomainModel, span: (int, int, CustodyModel), view: VmViewId)
    ensures
        !(span.2 matches CustodyModel::Present { view: holder, .. } && holder.raw == view.raw) ==> own_retired(
            m,
            span,
            view,
        ) == m,
        span.2 matches CustodyModel::Present { view: holder, .. } && holder.raw == view.raw ==> {
            let (once, first) = crate::mm::domain::publish::retired_in_domain(m, view, span.0, span.1);
            first is Ok ==> own_retired(m, span, view) == once
        },
{
}

/// The first place that a search offers is taken if it can be, and without an offer there is no place. After
/// an offer that cannot be taken the search goes on from where the whole length fits below what is in
/// the way, or from the very bottom.
pub proof fn lemma_first_place_is_taken(
    m: DomainModel,
    family: FamilyId,
    len: usize,
    hint: Option<usize>,
    attempts: nat,
    search: spec_fn(Option<usize>) -> Option<usize>,
    result: Result<Range<usize>, DomainConflict>,
    conflict: int,
)
    requires
        attempts > 0,
        found_place(m, family, len, hint, attempts, search, result),
    ensures
        search(hint) is None ==> result is Err,
        search(hint) matches Some(start) ==> is_placeable(m, family, start as int, start + len) ==> (
        result matches Ok(range) && range.start == start && (start + len <= usize::MAX ==> range.end == start
            + len)),
        0 <= conflict <= usize::MAX ==> (next_ceiling(conflict, len) + len == conflict || next_ceiling(
            conflict,
            len,
        ) == 0 && conflict < len),
        result matches Err(error) ==> error == DomainConflict::Occupied,
    decreases attempts,
{
    reveal_with_fuel(found_place, 2);
    if attempts > 1 && result is Err {
        if let Some(start) = search(hint) {
            if !is_placeable(m, family, start as int, start + len) {
                let at = choose|at: int| #[trigger]
                    crate::mm::domain::publish::lowest_conflict(
                        m,
                        family,
                        start as int,
                        start + len,
                        at,
                    ) && if next_ceiling(at, len) >= start {
                        result == Err::<Range<usize>, DomainConflict>(DomainConflict::Occupied)
                    } else {
                        found_place(
                            m,
                            family,
                            len,
                            Some(next_ceiling(at, len)),
                            (attempts - 1) as nat,
                            search,
                            result,
                        )
                    };
                if next_ceiling(at, len) < start {
                    lemma_first_place_is_taken(
                        m,
                        family,
                        len,
                        Some(next_ceiling(at, len)),
                        (attempts - 1) as nat,
                        search,
                        result,
                        conflict,
                    );
                }
            }
        }
    }
}

/// Spans are retired one after another, the view's own by one walk and those of others by another: a list
/// that holds none of the kind leaves the domain as it is, and one that goes on goes on from where its
/// first part left the domain.
pub proof fn lemma_retiring_goes_on(
    m: DomainModel,
    first: Seq<(int, int, CustodyModel)>,
    more: Seq<(int, int, CustodyModel)>,
    view: VmViewId,
)
    ensures
        owns_retired(m, first + more, view) == owns_retired(owns_retired(m, first, view), more, view),
        strangers_retired(m, first + more, view) == strangers_retired(
            strangers_retired(m, first, view),
            more,
            view,
        ),
        (forall|i: int|
            0 <= i < first.len() ==> !((#[trigger] first[i]).2 matches CustodyModel::Present { view: holder, .. }
                && holder.raw == view.raw)) ==> owns_retired(m, first, view) == m,
        first.len() == 1 ==> owns_retired(m, first, view) == own_retired(m, first[0], view),
    decreases first.len(),
{
    reveal_with_fuel(owns_retired, 2);
    if first.len() == 0 {
        assert(first + more =~= more);
    } else {
        let rest = first.drop_first();
        assert((first + more).drop_first() =~= rest + more);
        lemma_retiring_goes_on(own_retired(m, first[0], view), rest, more, view);
        lemma_retiring_goes_on(stranger_retired(m, first[0], view), rest, more, view);
        if forall|i: int|
            0 <= i < first.len() ==> !((#[trigger] first[i]).2 matches CustodyModel::Present { view: holder, .. }
                && holder.raw == view.raw) {
            assert forall|i: int| 0 <= i < rest.len() implies !((#[trigger] rest[i]).2 matches
                CustodyModel::Present { view: holder, .. } && holder.raw == view.raw) by {
                assert(rest[i] == first[i + 1]);
            }
            lemma_only_own_spans_are_retired(m, first[0], view);
        }
    }
}

/// An effect that could not be recorded is counted once, and changes nothing else.
pub proof fn lemma_untracked_effect_is_counted_once(m: DomainModel)
    ensures
        m.untracked < u64::MAX ==> untracked_counted(m).untracked == m.untracked + 1,
        untracked_counted(m).maps == m.maps,
        untracked_counted(m).families == m.families,
        untracked_counted(m).views == m.views,
        untracked_counted(m).blocked == m.blocked,
{
}

} // verus!
