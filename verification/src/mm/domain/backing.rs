//! What is installed is in custody: what the two tables of a family say of an address fits together,
//! whatever is done to the domain.
use crate::ids::{FamilyId, MutationId, VmViewId};
use crate::mm::custody::{CustodyModel, TokenModel};
use crate::mm::domain::{ClaimHostError, DomainConflict};
use vstd::prelude::*;

verus! {

use crate::mm::custody::BlockOrigin;
use crate::mm::domain::holes::{
    claim_begun, claim_finished, install_begun, install_finished, other_installed, present_generation,
    release_begun, release_finished, replace_begun, replace_finished, retire_begun, retire_finished,
};
use crate::mm::domain::lookup::{custody_of, custody_within, fragments, uniform_custody};
use crate::mm::domain::publish::{
    own_retired, owns_retired, present_confirmed, present_published, reserved_published,
    retired_in_domain, stranger_retired, strangers_retired,
};
use crate::mm::domain::registry::{family_added, family_of, view_evicted, view_gone};
use crate::mm::domain::{
    is_fresh_domain, lineage_ok, range_validity, DomainModel, FamilyModel, IssuedIds,
};
use crate::range_map::{lookup, uniform};
use crate::range_table::touched;

broadcast use {crate::range_map::lemma_lookup_put, crate::range_map::lemma_lookup_cut};

/// An address of a family that a view is installed at is present in the family's custody, for that
/// view.
pub open spec fn is_backed(maps: FamilyModel, k: int) -> bool {
    lookup(maps.installed, k) matches Some(view) ==> (lookup(maps.custody, k) matches Some(
        CustodyModel::Present { view: holder, .. },
    ) && holder == view)
}

/// Every installed address of a family is in its custody.
pub open spec fn family_backed(maps: FamilyModel) -> bool {
    forall|k: int| #[trigger] is_backed(maps, k)
}

/// Every installed span has its custody in the same family.
pub open spec fn installs_backed(m: DomainModel) -> bool {
    forall|family: u64| #[trigger] m.maps.dom().contains(family) ==> family_backed(m.maps[family])
}

/// What a claim does and answers, given what the host would answer.
pub open spec fn claim_made(
    m: DomainModel,
    view: VmViewId,
    start: int,
    end: int,
    answer: Result<(), ClaimHostError>,
) -> (DomainModel, Result<TokenModel, DomainConflict>) {
    match claim_begun(m, view, start, end) {
        (after, Ok(claim)) => claim_finished(after, claim, answer),
        (after, Err(error)) => (after, Err(error)),
    }
}

/// What an install does and answers, given what the host would answer.
pub open spec fn install_made(m: DomainModel, token: TokenModel, view: VmViewId, answer: Result<(), ()>) -> (
    DomainModel,
    Result<MutationId, DomainConflict>,
) {
    match install_begun(m, token, view) {
        (after, Ok(install)) => install_finished(after, install, answer),
        (after, Err(error)) => (after, Err(error)),
    }
}

/// What a replacement does and answers, given what the host would answer.
pub open spec fn replacement_made(
    m: DomainModel,
    view: VmViewId,
    start: int,
    end: int,
    answer: Result<(), ()>,
) -> (DomainModel, Result<MutationId, DomainConflict>) {
    match replace_begun(m, view, start, end) {
        (after, Ok(install)) => replace_finished(after, install, answer),
        (after, Err(error)) => (after, Err(error)),
    }
}

/// What a retirement does and answers, given what the host would answer.
pub open spec fn retirement_made(
    m: DomainModel,
    view: VmViewId,
    start: int,
    end: int,
    answer: Result<(), ()>,
) -> (DomainModel, Result<TokenModel, DomainConflict>) {
    match retire_begun(m, view, start, end) {
        (after, Ok(retire)) => retire_finished(after, retire, answer),
        (after, Err(error)) => (after, Err(error)),
    }
}

/// What a release does and answers, given what the host would answer.
pub open spec fn release_made(m: DomainModel, token: TokenModel, answer: Result<(), ()>) -> (
    DomainModel,
    Result<(), DomainConflict>,
) {
    match release_begun(m, token) {
        (after, Ok(release)) => release_finished(after, release, answer),
        (after, Err(error)) => (after, Err(error)),
    }
}

/// A change to the tables of one family keeps everything backed if it keeps that family so.
proof fn lemma_one_family(m: DomainModel, after: DomainModel, family: u64)
    requires
        installs_backed(m),
        after.maps == m.maps.insert(family, after.maps[family]),
        family_backed(after.maps[family]),
    ensures
        installs_backed(after),
{
    assert forall|other: u64| #[trigger] after.maps.dom().contains(other) implies family_backed(
        after.maps[other],
    ) by {
        if other != family {
            assert(m.maps.dom().contains(other));
        }
    }
}

/// Nothing is installed where a family has no custody, or custody of another kind than present.
proof fn lemma_none_installed(m: DomainModel, family: FamilyId, start: int, end: int, k: int)
    requires
        installs_backed(m),
        m.maps.dom().contains(family.raw),
        start <= k < end,
        uniform_custody(m, family, start, end) matches Some(custody) && !(custody is Present),
    ensures
        lookup(m.maps[family.raw].installed, k) is None,
{
    let maps = m.maps[family.raw];
    assert(is_backed(maps, k));
    if lookup(maps.custody, k) is Some {
        assert(touched(custody_of(m, family), start, end));
    }
}

/// A domain begins with nothing installed, and so with everything in custody.
pub proof fn lemma_new_domain_is_backed(
    m: DomainModel,
    aperture: (int, int),
    declared: Seq<(int, int)>,
    first: IssuedIds,
)
    requires
        is_fresh_domain(m, aperture, declared, first),
    ensures
        installs_backed(m),
{
}

/// A new family has nothing installed, and what the others have stays in custody.
pub proof fn lemma_new_family_is_backed(m: DomainModel, parent: Option<FamilyId>)
    requires
        installs_backed(m),
    ensures
        installs_backed(family_added(m, parent)),
{
    lemma_one_family(m, family_added(m, parent), (m.issued.family + 1) as u64);
}

/// Taking a view out of the installed set of its family, or out of the domain, keeps what is
/// installed in custody.
pub proof fn lemma_eviction_keeps_backing(m: DomainModel, view: VmViewId)
    requires
        lineage_ok(m),
        installs_backed(m),
    ensures
        m.views.dom().contains(view.raw) ==> installs_backed(
            view_evicted(m, view, m.views[view.raw].family),
        ) && installs_backed(view_gone(m, view)),
{
    if m.views.dom().contains(view.raw) {
        lemma_evicted_is_backed(m, view, m.views[view.raw].family);
    }
}

proof fn lemma_evicted_is_backed(m: DomainModel, view: VmViewId, family: FamilyId)
    requires
        installs_backed(m),
        m.maps.dom().contains(family.raw),
    ensures
        installs_backed(view_evicted(m, view, family)),
{
    let after = view_evicted(m, view, family);
    assert forall|k: int| #[trigger] is_backed(after.maps[family.raw], k) by {
        assert(is_backed(m.maps[family.raw], k));
    }
    lemma_one_family(m, after, family.raw);
}

/// Publishing keeps what is installed in custody: a present span is entered in both tables, and a
/// reservation gives way to what is present.
pub proof fn lemma_publishing_keeps_backing(m: DomainModel, view: VmViewId, start: int, end: int)
    requires
        lineage_ok(m),
        installs_backed(m),
    ensures
        installs_backed(present_published(m, view, start, end).0),
        installs_backed(reserved_published(m, view, start, end).0),
{
    if let Some(family) = family_of(m, view) {
        assert(m.maps.dom().contains(family.raw));
        let present = present_published(m, view, start, end).0;
        assert forall|k: int| #[trigger] is_backed(present.maps[family.raw], k) by {
            assert(is_backed(m.maps[family.raw], k));
        }
        assert(present.maps =~= m.maps.insert(family.raw, present.maps[family.raw]));
        lemma_one_family(m, present, family.raw);
        let reserved = reserved_published(m, view, start, end).0;
        assert forall|k: int| #[trigger] is_backed(reserved.maps[family.raw], k) by {
            assert(is_backed(m.maps[family.raw], k));
        }
        assert(reserved.maps =~= m.maps.insert(family.raw, reserved.maps[family.raw]));
        lemma_one_family(m, reserved, family.raw);
    }
}

/// A claim keeps what is installed in custody, whatever the host answers: nothing is installed where
/// it is let through.
pub proof fn lemma_claim_keeps_backing(
    m: DomainModel,
    view: VmViewId,
    start: int,
    end: int,
    answer: Result<(), ClaimHostError>,
)
    requires
        lineage_ok(m),
        installs_backed(m),
        0 <= start,
        end <= usize::MAX,
    ensures
        installs_backed(claim_made(m, view, start, end, answer).0),
        claim_begun(m, view, start, end).1 is Ok ==> (family_of(m, view) matches Some(family)
            && forall|k: int|
            start <= k < end ==> (#[trigger] lookup(m.maps[family.raw].installed, k)) is None),
{
    if let (_, Ok(claim)) = claim_begun(m, view, start, end) {
        let family = family_of(m, view)->0;
        assert(m.maps.dom().contains(family.raw));
        assert forall|k: int| start <= k < end implies (#[trigger] lookup(
            m.maps[family.raw].installed,
            k,
        )) is None by {
            lemma_none_installed(m, family, start, end, k);
        }
        let after = claim_made(m, view, start, end, answer).0;
        assert forall|k: int| #[trigger] is_backed(after.maps[family.raw], k) by {
            assert(is_backed(m.maps[family.raw], k));
            if start <= k < end {
                assert(lookup(m.maps[family.raw].installed, k) is None);
            }
        }
        assert(after.maps =~= m.maps.insert(family.raw, after.maps[family.raw]));
        lemma_one_family(m, after, family.raw);
    }
}

/// Installing into a hole, and releasing one, keeps what is installed in custody, whatever the host
/// answers.
pub proof fn lemma_tokens_keep_backing(m: DomainModel, token: TokenModel, view: VmViewId, answer: Result<(), ()>)
    requires
        lineage_ok(m),
        installs_backed(m),
        0 <= token.start < token.end <= usize::MAX,
    ensures
        installs_backed(install_made(m, token, view, answer).0),
        installs_backed(release_made(m, token, answer).0),
{
    let TokenModel { start, end, generation, family } = token;
    if m.maps.dom().contains(family.raw) {
        let installed = install_made(m, token, view, answer).0;
        if install_begun(m, token, view).1 is Ok {
            assert forall|k: int| #[trigger] is_backed(installed.maps[family.raw], k) by {
                assert(is_backed(m.maps[family.raw], k));
                if start <= k < end {
                    lemma_none_installed(m, family, start, end, k);
                }
            }
        }
        assert(installed.maps =~= m.maps.insert(family.raw, installed.maps[family.raw]));
        lemma_one_family(m, installed, family.raw);
        let released = release_made(m, token, answer).0;
        if release_begun(m, token).1 is Ok {
            assert forall|k: int| #[trigger] is_backed(released.maps[family.raw], k) by {
                assert(is_backed(m.maps[family.raw], k));
                if start <= k < end {
                    lemma_none_installed(m, family, start, end, k);
                }
            }
        }
        assert(released.maps =~= m.maps.insert(family.raw, released.maps[family.raw]));
        lemma_one_family(m, released, family.raw);
    } else {
        if let Some(own) = family_of(m, view) {
            assert(m.maps.dom().contains(own.raw));
        }
    }
}

/// Replacing and retiring what is present keeps what is installed in custody, whatever the host
/// answers.
pub proof fn lemma_replacing_keeps_backing(
    m: DomainModel,
    view: VmViewId,
    start: int,
    end: int,
    answer: Result<(), ()>,
)
    requires
        lineage_ok(m),
        installs_backed(m),
        0 <= start,
        end <= usize::MAX,
    ensures
        installs_backed(replacement_made(m, view, start, end, answer).0),
        installs_backed(retirement_made(m, view, start, end, answer).0),
{
    if let Some(family) = family_of(m, view) {
        assert(m.maps.dom().contains(family.raw));
        let maps = m.maps[family.raw];
        if present_generation(m, family, view, start, end) is Some && start < end {
            assert forall|k: int| start <= k < end implies (#[trigger] lookup(maps.installed, k)) is None
                || lookup(maps.installed, k) == Some(view) by {
                assert(is_backed(maps, k));
                assert(uniform_custody(m, family, start, end) is Some);
                let custody = uniform_custody(m, family, start, end)->0;
                assert(uniform(custody_of(m, family), start, end, custody));
                assert(lookup(maps.custody, k) == Some(custody));
            }
        }
        let replaced = replacement_made(m, view, start, end, answer).0;
        assert forall|k: int| #[trigger] is_backed(replaced.maps[family.raw], k) by {
            assert(is_backed(maps, k));
            if start <= k < end {
                assert(lookup(maps.installed, k) == lookup(maps.installed, k));
            }
        }
        assert(replaced.maps =~= m.maps.insert(family.raw, replaced.maps[family.raw]));
        lemma_one_family(m, replaced, family.raw);
        let retired = retirement_made(m, view, start, end, answer).0;
        assert forall|k: int| #[trigger] is_backed(retired.maps[family.raw], k) by {
            assert(is_backed(maps, k));
            if start <= k < end {
                assert(lookup(maps.installed, k) == lookup(maps.installed, k));
            }
        }
        assert(retired.maps =~= m.maps.insert(family.raw, retired.maps[family.raw]));
        lemma_one_family(m, retired, family.raw);
    }
}

/// The aperture is made of addresses.
pub open spec fn aperture_ok(m: DomainModel) -> bool {
    0 <= m.aperture.0 && m.aperture.1 <= usize::MAX
}

/// A retirement that asks nothing of the host keeps what is installed in custody, and the lineage.
proof fn lemma_retired_keeps_backing(m: DomainModel, view: VmViewId, start: int, end: int)
    requires
        lineage_ok(m),
        aperture_ok(m),
        installs_backed(m),
    ensures
        ({
            let after = retired_in_domain(m, view, start, end).0;
            lineage_ok(after) && aperture_ok(after) && installs_backed(after)
        }),
{
    let after = retired_in_domain(m, view, start, end).0;
    if let (_, Ok(retire)) = retire_begun(m, view, start, end) {
        lemma_replacing_keeps_backing(m, view, start, end, Ok(()));
        assert(retirement_made(m, view, start, end, Ok(())).0 == after);
        let family = family_of(m, view)->0;
        assert(m.maps.dom().contains(family.raw));
        assert(after.maps.dom() =~= m.maps.dom());
        assert(after.views.dom() =~= m.views.dom());
        assert forall|id: u64| #[trigger] after.views.dom().contains(id) implies 0 < id <= after.issued.view
            && after.families.dom().contains(after.views[id].family.raw) by {
            assert(m.views.dom().contains(id));
        }
    }
}

proof fn lemma_strangers_keep_backing(m: DomainModel, spans: Seq<(int, int, CustodyModel)>, view: VmViewId)
    requires
        lineage_ok(m),
        aperture_ok(m),
        installs_backed(m),
    ensures
        ({
            let after = strangers_retired(m, spans, view);
            lineage_ok(after) && aperture_ok(after) && installs_backed(after)
        }),
    decreases spans.len(),
{
    if spans.len() > 0 {
        if let CustodyModel::Present { view: stale, .. } = spans[0].2 {
            lemma_retired_keeps_backing(m, stale, spans[0].0, spans[0].1);
        }
        lemma_strangers_keep_backing(stranger_retired(m, spans[0], view), spans.drop_first(), view);
    }
}

/// Confirming what is present, and what is gone, keeps what is installed in custody.
pub proof fn lemma_confirming_keeps_backing(
    m: DomainModel,
    view: VmViewId,
    start: int,
    end: int,
    spans: Seq<(int, int, CustodyModel)>,
)
    requires
        lineage_ok(m),
        aperture_ok(m),
        installs_backed(m),
    ensures
        installs_backed(present_confirmed(m, view, start, end).0),
        installs_backed(owns_retired(m, spans, view)),
    decreases spans.len(),
{
    let first = present_published(m, view, start, end).0;
    lemma_publishing_keeps_backing(m, view, start, end);
    if present_published(m, view, start, end).1 matches Err(DomainConflict::InstalledOverlap(_)) {
        let found = fragments(first, view, start, end);
        lemma_strangers_keep_backing(first, found, view);
        lemma_publishing_keeps_backing(strangers_retired(first, found, view), view, start, end);
    }
    if spans.len() > 0 {
        let (from, to, _) = spans[0];
        lemma_retired_keeps_backing(m, view, from, to);
        lemma_retired_keeps_backing(retired_in_domain(m, view, from, to).0, view, from, to);
        lemma_confirming_keeps_backing(
            own_retired(m, spans[0], view),
            view,
            start,
            end,
            spans.drop_first(),
        );
    }
}

/// After the host refused a claim because it holds the range for somebody else, nothing is installed
/// there, every address of it shows the block, and publishing over any part of it is refused as
/// blocked and changes nothing.
pub proof fn lemma_nothing_is_published_over_a_foreign_range(
    m: DomainModel,
    view: VmViewId,
    claim: (int, int),
    range: (int, int),
    k: int,
)
    requires
        lineage_ok(m),
        installs_backed(m),
        0 <= claim.0,
        claim.1 <= usize::MAX,
        claim_begun(m, view, claim.0, claim.1).1 is Ok,
        range_validity(m, range.0, range.1) is Ok,
        claim.0 <= k < claim.1,
        range.0 <= k < range.1,
    ensures
        ({
            let (after, answer) = claim_made(m, view, claim.0, claim.1, Err(ClaimHostError::ForeignHost));
            let family = family_of(m, view)->0;
            &&& answer == Err::<TokenModel, DomainConflict>(DomainConflict::Blocked)
            &&& present_published(after, view, range.0, range.1) == (
                after,
                Err::<MutationId, DomainConflict>(DomainConflict::Blocked),
            )
            &&& custody_within(after, view, k) == CustodyModel::DomainBlocked(BlockOrigin::ForeignHost)
            &&& lookup(after.maps[family.raw].installed, k) is None
        }),
{
    let answer = Err(ClaimHostError::ForeignHost);
    let after = claim_made(m, view, claim.0, claim.1, answer).0;
    let family = family_of(m, view)->0;
    assert(m.maps.dom().contains(family.raw));
    lemma_claim_keeps_backing(m, view, claim.0, claim.1, answer);
    assert(lookup(m.maps[family.raw].installed, k) is None);
    assert(lookup(after.blocked, k) == Some(BlockOrigin::ForeignHost));
    assert(touched(after.blocked, range.0, range.1));
    assert(lookup(custody_of(after, family), k) is None);
}

/// What a second claim of a range is answered after the first: if the host reserved it, it is a hole
/// and occupied; if the host holds it for somebody else, it is blocked, and the host is not asked
/// again; after any other refusal it is unclaimed, and the host is asked again.
pub proof fn lemma_claimed_again(
    m: DomainModel,
    view: VmViewId,
    start: int,
    end: int,
    answer: Result<(), ClaimHostError>,
    k: int,
)
    requires
        lineage_ok(m),
        0 <= start <= k < end <= usize::MAX,
        claim_begun(m, view, start, end).1 is Ok,
        m.issued.generation + 1 < m.limits.generation,
    ensures
        ({
            let (after, first) = claim_made(m, view, start, end, answer);
            let (_, again) = claim_begun(after, view, start, end);
            match answer {
                Ok(()) => {
                    &&& first matches Ok(token) && token.start == start && token.end == end
                        && custody_within(after, view, k) == (CustodyModel::Hole {
                        generation: token.generation,
                    })
                    &&& again matches Err(DomainConflict::Occupied)
                },
                Err(ClaimHostError::ForeignHost) => {
                    &&& first == Err::<TokenModel, DomainConflict>(DomainConflict::Blocked)
                    &&& custody_within(after, view, k) == CustodyModel::DomainBlocked(
                        BlockOrigin::ForeignHost,
                    )
                    &&& again matches Err(DomainConflict::Blocked)
                },
                Err(ClaimHostError::Other) => {
                    &&& first == Err::<TokenModel, DomainConflict>(DomainConflict::Occupied)
                    &&& custody_within(after, view, k) == CustodyModel::Unclaimed
                    &&& again is Ok
                },
            }
        }),
{
    let family = family_of(m, view)->0;
    assert(m.maps.dom().contains(family.raw));
    let (after, first) = claim_made(m, view, start, end, answer);
    let custody = custody_of(after, family);
    assert(family_of(after, view) == Some(family));
    assert(!touched(m.blocked, start, end));
    assert(lookup(m.blocked, k) is None);
    match answer {
        Ok(()) => {
            let hole = CustodyModel::Hole { generation: first->Ok_0.generation };
            assert(uniform(custody, start, end, hole));
            assert(lookup(custody, start) == Some(hole));
            assert(touched(custody, start, end));
            assert(uniform_custody(after, family, start, end) == Some(hole));
        },
        Err(ClaimHostError::ForeignHost) => {
            assert(forall|a: int| start <= a < end ==> (#[trigger] lookup(custody, a)) is None);
            assert(!touched(custody, start, end));
            assert(lookup(after.blocked, start) == Some(BlockOrigin::ForeignHost));
            assert(touched(after.blocked, start, end));
            assert(uniform(after.blocked, start, end, BlockOrigin::ForeignHost));
        },
        Err(ClaimHostError::Other) => {
            assert(uniform(custody, start, end, CustodyModel::Unclaimed));
            assert(after.blocked == m.blocked);
            assert(uniform_custody(after, family, start, end) == Some(CustodyModel::Unclaimed));
        },
    }
}

/// A failed install gives the hole back under its own generation, so that the same token installs
/// once more; after an install that went through, the token installs nothing: it is refused before
/// the host is asked, and nothing changes.
pub proof fn lemma_failed_install_can_be_made_again(m: DomainModel, token: TokenModel, view: VmViewId, k: int)
    requires
        lineage_ok(m),
        0 <= token.start <= k < token.end <= usize::MAX,
        family_of(m, view) == Some(token.family),
        uniform_custody(m, token.family, token.start, token.end) == Some(
            CustodyModel::Hole { generation: token.generation },
        ),
        other_installed(m, token.family, view, token.start, token.end) is None,
        m.issued.mutation + 1 < m.limits.mutation,
        m.issued.generation + 1 < m.limits.generation,
    ensures
        ({
            let (failed, first) = install_made(m, token, view, Err(()));
            let (present, second) = install_made(failed, token, view, Ok(()));
            let family = token.family.raw;
            &&& first == Err::<MutationId, DomainConflict>(DomainConflict::Occupied)
            &&& custody_within(failed, view, k) == (CustodyModel::Hole { generation: token.generation })
            &&& failed.maps[family].installed == m.maps[family].installed
            &&& second is Ok
            &&& custody_within(present, view, k) matches CustodyModel::Present { view: holder, .. }
                && holder == view
            &&& install_made(present, token, view, Ok(())) == (
                present,
                Err::<MutationId, DomainConflict>(DomainConflict::NotFound),
            )
        }),
{
    let TokenModel { start, end, generation, family } = token;
    let hole = CustodyModel::Hole { generation };
    assert(m.maps.dom().contains(family.raw));
    let failed = install_made(m, token, view, Err(())).0;
    assert(uniform(custody_of(failed, family), start, end, hole));
    assert(lookup(custody_of(failed, family), start) == Some(hole));
    assert(lookup(custody_of(failed, family), k) == Some(hole));
    assert(touched(custody_of(failed, family), start, end));
    assert(uniform_custody(failed, family, start, end) == Some(hole));
    let install = install_begun(failed, token, view).1->Ok_0;
    let present = install_made(failed, token, view, Ok(())).0;
    let now = CustodyModel::Present { generation: install.fresh, view };
    assert(uniform(custody_of(present, family), start, end, now));
    assert(lookup(custody_of(present, family), start) == Some(now));
    assert(lookup(custody_of(present, family), k) == Some(now));
    assert(touched(custody_of(present, family), start, end));
    assert(uniform_custody(present, family, start, end) == Some(now));
}

/// What a family records of an address comes first: through its lineage a view sees exactly that.
pub proof fn lemma_own_record_comes_first(m: DomainModel, view: VmViewId, family: FamilyId, k: int)
    requires
        lineage_ok(m),
        family_of(m, view) == Some(family),
        lookup(custody_of(m, family), k) matches Some(custody) && custody != CustodyModel::Unclaimed,
    ensures
        Some(crate::mm::domain::lookup::custody_via_lineage(m, view, k)) == lookup(custody_of(m, family), k),
{
    assert(m.maps.dom().contains(family.raw));
}

} // verus!
