//! What holds of the domain's operations taken together.
pub mod holding;
pub mod membership;

use crate::ids::{FamilyId, MutationId, VmViewId};
use crate::mm::custody::{CustodyModel, TokenModel};
use crate::mm::domain::{ClaimHostError, DomainConflict};
use vstd::prelude::*;

verus! {

use crate::mm::custody::BlockOrigin;
use crate::mm::domain::holes::{
    claim_begun, claim_finished, first_other, install_begun, install_finished, other_installed,
    release_begun, release_finished, replace_begun, replace_finished, retire_begun, retire_finished,
    ClaimInFlight, InstallInFlight, ReleaseInFlight, RetireInFlight,
};
use crate::mm::domain::lineage::{descends, has_live_descendant, lemma_descends_from_older};
use crate::mm::domain::lookup::{
    custody_found, custody_of, custody_via_lineage, found_at, uniform_custody,
};
use crate::mm::domain::publish::{joined, present_published, reserved_published};
use crate::mm::domain::registry::family_of;
use crate::mm::domain::{census_ok, lineage_ok, members_of, range_validity, DomainModel};
use crate::range_map::{covered, lemma_pieces, lookup, pieces, uniform};
use crate::range_table::touched;

broadcast use {crate::range_map::lemma_lookup_put, crate::range_map::lemma_lookup_cut};

/// The tables of every family but one are as they were.
pub open spec fn others_untouched(before: DomainModel, after: DomainModel, family: FamilyId) -> bool {
    &&& after.maps.dom() == before.maps.dom()
    &&& forall|other: u64|
        other != family.raw && #[trigger] before.maps.dom().contains(other) ==> after.maps[other]
            == before.maps[other]
}

/// What one family does is invisible to every other: nothing that a view publishes, claims,
/// replaces or retires changes the tables of a family that the view is not in.
pub proof fn lemma_families_are_apart(m: DomainModel, view: VmViewId, family: FamilyId, start: int, end: int)
    requires
        lineage_ok(m),
        family_of(m, view) == Some(family),
    ensures
        others_untouched(m, present_published(m, view, start, end).0, family),
        others_untouched(m, reserved_published(m, view, start, end).0, family),
        others_untouched(m, claim_begun(m, view, start, end).0, family),
        others_untouched(m, replace_begun(m, view, start, end).0, family),
        others_untouched(m, retire_begun(m, view, start, end).0, family),
{
    assert(m.maps.dom().contains(family.raw));
    assert(m.maps.dom().insert(family.raw) =~= m.maps.dom());
}

/// The same of what a token lets its holder do: it reaches the family that it was minted for and
/// no other.
pub proof fn lemma_tokens_reach_one_family(m: DomainModel, token: TokenModel, view: VmViewId)
    requires
        lineage_ok(m),
    ensures
        others_untouched(m, install_begun(m, token, view).0, token.family),
        others_untouched(m, release_begun(m, token).0, token.family),
{
    if m.maps.dom().contains(token.family.raw) {
        assert(m.maps.dom().insert(token.family.raw) =~= m.maps.dom());
    }
}

/// The same of what the host's answers change.
pub proof fn lemma_answers_reach_one_family(
    m: DomainModel,
    claim: ClaimInFlight,
    claimed: Result<(), ClaimHostError>,
    install: InstallInFlight,
    retire: RetireInFlight,
    release: ReleaseInFlight,
    answer: Result<(), ()>,
)
    ensures
        others_untouched(m, claim_finished(m, claim, claimed).0, claim.family),
        others_untouched(m, install_finished(m, install, answer).0, install.family),
        others_untouched(m, replace_finished(m, install, answer).0, install.family),
        others_untouched(m, retire_finished(m, retire, answer).0, retire.family),
        others_untouched(m, release_finished(m, release, answer).0, release.family),
{
    assert forall|family: u64| #[trigger] m.maps.dom().contains(family) implies m.maps.dom().insert(family)
        == m.maps.dom() by {
        assert(m.maps.dom().insert(family) =~= m.maps.dom());
    }
}

/// Whoever is found in the way is installed there and is not the view itself; and where nobody is
/// found, nobody is.
pub proof fn lemma_other_installed(m: DomainModel, family: FamilyId, view: VmViewId, start: int, end: int)
    requires
        start < end,
    ensures
        match other_installed(m, family, view, start, end) {
            Some(other) => other != view && exists|k: int|
                start <= k < end && #[trigger] lookup(m.maps[family.raw].installed, k) == Some(other),
            None => forall|k: int|
                start <= k < end ==> (#[trigger] lookup(m.maps[family.raw].installed, k)) is None || lookup(
                    m.maps[family.raw].installed,
                    k,
                ) == Some(view),
        },
{
    let installed = m.maps[family.raw].installed;
    let list = pieces(installed, start, end);
    lemma_pieces(installed, start, end);
    lemma_first_other(list, view);
    match first_other(list, view) {
        Some(other) => {
            let i = choose|i: int| 0 <= i < list.len() && (#[trigger] list[i]).2 == other;
            assert(lookup(installed, list[i].0) == Some(other));
        },
        None => {
            assert forall|k: int| start <= k < end implies (#[trigger] lookup(installed, k)) is None
                || lookup(installed, k) == Some(view) by {
                if lookup(installed, k) is Some {
                    assert(covered(list, k));
                    let i = choose|i: int| 0 <= i < list.len() && (#[trigger] list[i]).0 <= k < list[i].1;
                    assert(lookup(installed, k) == Some(list[i].2));
                }
            }
        },
    }
}

proof fn lemma_first_other(spans: Seq<(int, int, VmViewId)>, view: VmViewId)
    ensures
        match first_other(spans, view) {
            Some(other) => other != view && exists|i: int|
                0 <= i < spans.len() && (#[trigger] spans[i]).2 == other,
            None => forall|i: int| 0 <= i < spans.len() ==> (#[trigger] spans[i]).2 == view,
        },
    decreases spans.len(),
{
    if spans.len() > 0 {
        let rest = spans.drop_first();
        lemma_first_other(rest, view);
        if spans[0].2 != view {
            assert(spans[0].2 == spans[0].2);
        } else {
            match first_other(rest, view) {
                Some(other) => {
                    let i = choose|i: int| 0 <= i < rest.len() && (#[trigger] rest[i]).2 == other;
                    assert(spans[i + 1].2 == other);
                },
                None => {
                    assert forall|i: int| 0 <= i < spans.len() implies (#[trigger] spans[i]).2 == view by {
                        if i > 0 {
                            assert(spans[i] == rest[i - 1]);
                        }
                    }
                },
            }
        }
    }
}

/// Some other view is installed at an address.
pub open spec fn held_by_another(installed: Map<int, VmViewId>, view: VmViewId, address: int) -> bool {
    lookup(installed, address) is Some && lookup(installed, address) != Some(view)
}

/// Installed spans are disjoint: a span that is published takes no address from another view of the
/// family. A range with another view in it is refused, and names that view, unless it is refused as
/// blocked.
pub proof fn lemma_installed_spans_are_disjoint(
    m: DomainModel,
    view: VmViewId,
    family: FamilyId,
    start: int,
    end: int,
)
    requires
        lineage_ok(m),
        family_of(m, view) == Some(family),
        range_validity(m, start, end) == Ok::<(), DomainConflict>(()),
    ensures
        ({
            let before = m.maps[family.raw].installed;
            let (after, answer) = present_published(m, view, start, end);
            &&& forall|k: int| #[trigger]
                held_by_another(before, view, k) ==> lookup(after.maps[family.raw].installed, k)
                    == lookup(before, k)
            &&& (answer is Ok ==> forall|k: int| #[trigger]
                lookup(after.maps[family.raw].installed, k) == (if start <= k < end {
                    Some(view)
                } else {
                    lookup(before, k)
                }))
            &&& !touched(m.blocked, start, end) ==> ((exists|k: int|
                start <= k < end && #[trigger] held_by_another(before, view, k))
                <==> answer matches Err(DomainConflict::InstalledOverlap(_)))
        }),
{
    lemma_other_installed(m, family, view, start, end);
    let before = m.maps[family.raw].installed;
    if let Some(other) = other_installed(m, family, view, start, end) {
        let k = choose|k: int| start <= k < end && #[trigger] lookup(before, k) == Some(other);
        assert(start <= k < end && held_by_another(before, view, k));
    }
}

/// A span is published only inside the aperture and clear of every declared span.
pub proof fn lemma_declared_spans_stay_clear(m: DomainModel, view: VmViewId, start: int, end: int, i: int)
    requires
        present_published(m, view, start, end).1 is Ok || reserved_published(m, view, start, end).1 is Ok
            || claim_begun(m, view, start, end).1 is Ok,
        0 <= i < m.declared.len(),
    ensures
        m.aperture.0 <= start < end <= m.aperture.1,
        end <= m.declared[i].0 || m.declared[i].1 <= start,
{
}

/// A range that the host holds for somebody else is never asked for again: whoever claims any part
/// of it, of whatever family, is refused before the host is asked, and no placement ends up there.
pub proof fn lemma_foreign_range_is_not_probed_again(
    m: DomainModel,
    claim: ClaimInFlight,
    view: VmViewId,
    start: int,
    end: int,
    k: int,
)
    requires
        claim.start <= k < claim.end,
        start <= k < end,
    ensures
        ({
            let after = claim_finished(m, claim, Err(ClaimHostError::ForeignHost)).0;
            &&& lookup(after.blocked, k) == Some(BlockOrigin::ForeignHost)
            &&& forall|other: FamilyId| (#[trigger] uniform_custody(after, other, start, end)) != Some(
                CustodyModel::Unclaimed,
            )
            &&& claim_begun(after, view, start, end).1 is Err
        }),
{
    let after = claim_finished(m, claim, Err(ClaimHostError::ForeignHost)).0;
    assert(lookup(after.blocked, k) == Some(BlockOrigin::ForeignHost));
    lemma_blocked_is_not_unclaimed(after, start, end, k);
}

/// A range with a blocked address in it counts as unclaimed for no family.
pub proof fn lemma_blocked_is_not_unclaimed(m: DomainModel, start: int, end: int, k: int)
    requires
        lookup(m.blocked, k) is Some,
        start <= k < end,
    ensures
        forall|family: FamilyId| (#[trigger] uniform_custody(m, family, start, end)) != Some(
            CustodyModel::Unclaimed,
        ),
{
    assert(touched(m.blocked, start, end));
}

/// Blocked addresses stay blocked, whatever is asked of the domain and whatever the host answers; a
/// span over one is refused and leaves everything as it was.
pub proof fn lemma_blocks_are_permanent(
    m: DomainModel,
    view: VmViewId,
    range: (int, int),
    token: TokenModel,
    claim: (ClaimInFlight, Result<(), ClaimHostError>),
    install: InstallInFlight,
    retire: RetireInFlight,
    release: ReleaseInFlight,
    answer: Result<(), ()>,
    k: int,
)
    requires
        lookup(m.blocked, k) is Some,
    ensures
        lookup(present_published(m, view, range.0, range.1).0.blocked, k) is Some,
        lookup(reserved_published(m, view, range.0, range.1).0.blocked, k) is Some,
        lookup(claim_begun(m, view, range.0, range.1).0.blocked, k) is Some,
        lookup(claim_finished(m, claim.0, claim.1).0.blocked, k) is Some,
        lookup(install_begun(m, token, view).0.blocked, k) is Some,
        lookup(install_finished(m, install, answer).0.blocked, k) is Some,
        lookup(replace_begun(m, view, range.0, range.1).0.blocked, k) is Some,
        lookup(replace_finished(m, install, answer).0.blocked, k) is Some,
        lookup(retire_begun(m, view, range.0, range.1).0.blocked, k) is Some,
        lookup(retire_finished(m, retire, answer).0.blocked, k) is Some,
        lookup(release_begun(m, token).0.blocked, k) is Some,
        lookup(release_finished(m, release, answer).0.blocked, k) is Some,
        range.0 <= k < range.1 ==> present_published(m, view, range.0, range.1).0 == m
            && present_published(m, view, range.0, range.1).1 is Err,
        range.0 <= k < range.1 && range_validity(m, range.0, range.1) is Ok ==> present_published(
            m,
            view,
            range.0,
            range.1,
        ).1 == Err::<MutationId, DomainConflict>(DomainConflict::Blocked),
{
}

/// Nobody's pages are taken by a replacement: where another view of the family is installed in the
/// range, it is refused as occupied before the host is asked, and nothing changes.
pub proof fn lemma_replacement_takes_nothing(
    m: DomainModel,
    view: VmViewId,
    family: FamilyId,
    start: int,
    end: int,
    k: int,
)
    requires
        family_of(m, view) == Some(family),
        range_validity(m, start, end) == Ok::<(), DomainConflict>(()),
        start <= k < end,
        held_by_another(m.maps[family.raw].installed, view, k),
    ensures
        replace_begun(m, view, start, end) == (
            m,
            Err::<InstallInFlight, DomainConflict>(DomainConflict::Occupied),
        ),
{
    lemma_other_installed(m, family, view, start, end);
}

/// A reservation is logical only: whatever custody a family records, other than unclaimed or
/// reserved, outlives it, and so does everything installed; and an address that was free is then
/// reserved for the view.
pub proof fn lemma_reservations_give_way(
    m: DomainModel,
    view: VmViewId,
    family: FamilyId,
    start: int,
    end: int,
    k: int,
)
    requires
        lineage_ok(m),
        family_of(m, view) == Some(family),
    ensures
        ({
            let (after, answer) = reserved_published(m, view, start, end);
            let before = lookup(custody_of(m, family), k);
            let now = lookup(custody_of(after, family), k);
            &&& after.maps[family.raw].installed == m.maps[family.raw].installed
            &&& (before matches Some(custody) && custody != CustodyModel::Unclaimed && !(custody is Reserved))
                ==> now == before
            &&& !(start <= k < end) ==> now == before
            &&& answer is Ok && start <= k < end && (before == Some(CustodyModel::Unclaimed) || before is None)
                && lookup(m.blocked, k) is None ==> now == Some(
                CustodyModel::Reserved { views: seq![view] },
            )
            &&& answer is Ok && start <= k < end ==> (before matches Some(CustodyModel::Reserved { views })
                ==> now == Some(CustodyModel::Reserved { views: joined(views, view) }))
        }),
{
    assert(m.maps.dom().contains(family.raw));
}

/// What the two halves of a claim do where the host agrees.
pub open spec fn claimed(m: DomainModel, view: VmViewId, start: int, end: int) -> Option<(DomainModel, TokenModel)> {
    match claim_begun(m, view, start, end) {
        (after, Ok(claim)) => match claim_finished(after, claim, Ok(())) {
            (last, Ok(token)) => Some((last, token)),
            (_, Err(_)) => None,
        },
        (_, Err(_)) => None,
    }
}

/// What the two halves of a release do where the host agrees.
pub open spec fn released(m: DomainModel, token: TokenModel) -> Option<DomainModel> {
    match release_begun(m, token) {
        (after, Ok(release)) => match release_finished(after, release, Ok(())) {
            (last, Ok(())) => Some(last),
            (_, Err(_)) => None,
        },
        (_, Err(_)) => None,
    }
}

/// What the two halves of an install do where the host agrees.
pub open spec fn installed(m: DomainModel, token: TokenModel, view: VmViewId) -> Option<DomainModel> {
    match install_begun(m, token, view) {
        (after, Ok(install)) => match install_finished(after, install, Ok(())) {
            (last, Ok(_)) => Some(last),
            (_, Err(_)) => None,
        },
        (_, Err(_)) => None,
    }
}

/// What the two halves of a retirement do where the host agrees.
pub open spec fn retired(m: DomainModel, view: VmViewId, start: int, end: int) -> Option<
    (DomainModel, TokenModel),
> {
    match retire_begun(m, view, start, end) {
        (after, Ok(retire)) => match retire_finished(after, retire, Ok(())) {
            (last, Ok(token)) => Some((last, token)),
            (_, Err(_)) => None,
        },
        (_, Err(_)) => None,
    }
}

/// A recorded range is uniform in what is recorded.
proof fn lemma_recorded(m: DomainModel, family: FamilyId, start: int, end: int, custody: CustodyModel)
    requires
        start < end,
        uniform(custody_of(m, family), start, end, custody),
        custody != CustodyModel::Unclaimed,
    ensures
        uniform_custody(m, family, start, end) == Some(custody),
{
    assert(lookup(custody_of(m, family), start) == Some(custody));
}

/// Releasing undoes a claim: a range that is not blocked is unclaimed again, and around it nothing
/// has changed.
pub proof fn lemma_release_undoes_claim(m: DomainModel, view: VmViewId, start: int, end: int)
    requires
        lineage_ok(m),
        0 <= start,
        end <= usize::MAX,
        claimed(m, view, start, end) is Some,
        !touched(m.blocked, start, end),
    ensures
        ({
            let (middle, token) = claimed(m, view, start, end)->0;
            &&& released(middle, token) matches Some(last) && {
                &&& uniform_custody(last, token.family, start, end) == Some(CustodyModel::Unclaimed)
                &&& forall|k: int|
                    !(start <= k < end) ==> #[trigger] lookup(custody_of(last, token.family), k) == lookup(
                        custody_of(m, token.family),
                        k,
                    )
                &&& last.blocked == m.blocked
                &&& last.views == m.views
                &&& last.families == m.families
            }
        }),
{
    let family = family_of(m, view)->0;
    let (middle, token) = claimed(m, view, start, end)->0;
    let hole = CustodyModel::Hole { generation: token.generation };
    assert(m.maps.dom().contains(family.raw));
    assert(uniform(custody_of(middle, family), start, end, hole));
    lemma_recorded(middle, family, start, end, hole);
    let last = released(middle, token)->0;
    let custody = custody_of(last, family);
    assert(forall|k: int| start <= k < end ==> #[trigger] lookup(custody, k) is None);
    assert(!touched(custody, start, end));
}

/// A token is spent once: after the install or the release that it allowed, it allows neither.
pub proof fn lemma_token_is_spent(m: DomainModel, token: TokenModel, view: VmViewId, other: VmViewId)
    requires
        lineage_ok(m),
        0 <= token.start < token.end <= usize::MAX,
        m.maps.dom().contains(token.family.raw),
    ensures
        installed(m, token, view) matches Some(last) ==> {
            &&& install_begun(last, token, other).1 == Err::<InstallInFlight, DomainConflict>(
                DomainConflict::NotFound,
            )
            &&& release_begun(last, token).1 == Err::<ReleaseInFlight, DomainConflict>(
                DomainConflict::NotFound,
            )
        },
        released(m, token) matches Some(last) ==> {
            &&& install_begun(last, token, other).1 == Err::<InstallInFlight, DomainConflict>(
                DomainConflict::NotFound,
            )
            &&& release_begun(last, token).1 == Err::<ReleaseInFlight, DomainConflict>(
                DomainConflict::NotFound,
            )
        },
{
    let TokenModel { start, end, generation, family } = token;
    if let Some(last) = installed(m, token, view) {
        let (_, begun) = install_begun(m, token, view);
        let install = begun->Ok_0;
        let present = CustodyModel::Present { generation: install.fresh, view };
        assert(uniform(custody_of(last, family), start, end, present));
        lemma_recorded(last, family, start, end, present);
    }
    if let Some(last) = released(m, token) {
        let custody = custody_of(last, family);
        assert(forall|k: int| start <= k < end ==> #[trigger] lookup(custody, k) is None);
        assert(!touched(custody, start, end));
    }
}

/// What is claimed can be installed, and what was installed can be retired: each leaves the range as
/// the next one needs it, and the retirement mints a token that can be spent again.
pub proof fn lemma_claimed_range_can_be_cycled(m: DomainModel, view: VmViewId, start: int, end: int)
    requires
        lineage_ok(m),
        0 <= start,
        end <= usize::MAX,
        claimed(m, view, start, end) is Some,
        family_of(m, view) matches Some(family) && other_installed(m, family, view, start, end) is None,
        m.issued.mutation < m.limits.mutation,
        m.issued.generation + 3 < m.limits.generation,
    ensures
        ({
            let (hole, token) = claimed(m, view, start, end)->0;
            &&& installed(hole, token, view) matches Some(present) && {
                &&& exists|generation: crate::ids::HoleGenerationId|
                    uniform_custody(present, token.family, start, end) == Some(
                        #[trigger] present_under(generation, view),
                    )
                &&& retired(present, view, start, end) matches Some((last, again)) && {
                    &&& again.start == start && again.end == end && again.family == token.family
                    &&& again.generation.raw > token.generation.raw
                    &&& released(last, again) is Some
                }
            }
        }),
{
    let family = family_of(m, view)->0;
    let (hole, token) = claimed(m, view, start, end)->0;
    assert(m.maps.dom().contains(family.raw));
    let held = CustodyModel::Hole { generation: token.generation };
    assert(uniform(custody_of(hole, family), start, end, held));
    lemma_recorded(hole, family, start, end, held);
    assert(hole.maps[family.raw].installed == m.maps[family.raw].installed);
    let (_, begun) = install_begun(hole, token, view);
    let install = begun->Ok_0;
    let present = installed(hole, token, view)->0;
    let mine = present_under(install.fresh, view);
    assert(uniform(custody_of(present, family), start, end, mine));
    lemma_recorded(present, family, start, end, mine);
    let (last, again) = retired(present, view, start, end)->0;
    let after = CustodyModel::Hole { generation: again.generation };
    assert(uniform(custody_of(last, family), start, end, after));
    lemma_recorded(last, family, start, end, after);
}

/// Present custody of a view under a generation.
pub open spec fn present_under(generation: crate::ids::HoleGenerationId, view: VmViewId) -> CustodyModel {
    CustodyModel::Present { generation, view }
}

/// Forked views keep what they inherited: a retirement changes nothing that a view of another
/// family resolves through its lineage. What an ancestor gives up stays resolvable for every
/// descendant that still inherits it.
pub proof fn lemma_retirement_keeps_inheritance(
    m: DomainModel,
    view: VmViewId,
    start: int,
    end: int,
    heir: VmViewId,
    k: int,
)
    requires
        lineage_ok(m),
        census_ok(m.families, m.views),
        0 <= start,
        end <= usize::MAX,
        retired(m, view, start, end) is Some,
        family_of(m, heir) is Some,
        family_of(m, heir) != family_of(m, view),
    ensures
        custody_via_lineage((retired(m, view, start, end)->0).0, heir, k) == custody_via_lineage(m, heir, k),
{
    let family = family_of(m, view)->0;
    let child = family_of(m, heir)->0;
    let (middle, begun) = retire_begun(m, view, start, end);
    let retire = begun->Ok_0;
    let last = (retired(m, view, start, end)->0).0;
    assert(m.families.dom().contains(child.raw));
    assert(m.families.dom().contains(family.raw));
    assert(last.families == m.families);
    assert(family_of(last, heir) == Some(child));
    if descends(m, child.raw, family.raw) {
        lemma_same_descent(m, middle, child.raw, family.raw);
        let members = members_of(m.views, child.raw);
        assert(members.contains(heir.raw));
        assert(members.len() > 0) by {
            if members.len() == 0 {
                members.lemma_len0_is_empty();
            }
        }
        assert(middle.families.dom().contains(child.raw) && middle.families[child.raw].members > 0);
        assert(has_live_descendant(middle, family));
    }
    lemma_inherited(m, last, view, family, start, end, child.raw, 0, k);
}

/// A family that retires a span sees that it did: through its own lineage, too, the span is the hole
/// that the family now records. What was kept of the span is for its descendants alone.
pub proof fn lemma_retirement_shows_to_its_own_family(
    m: DomainModel,
    view: VmViewId,
    start: int,
    end: int,
    member: VmViewId,
    k: int,
)
    requires
        lineage_ok(m),
        0 <= start,
        end <= usize::MAX,
        retired(m, view, start, end) is Some,
        family_of(m, member) == family_of(m, view),
        start <= k < end,
    ensures
        ({
            let (last, hole) = retired(m, view, start, end)->0;
            custody_via_lineage(last, member, k) == (CustodyModel::Hole { generation: hole.generation })
        }),
{
    let family = family_of(m, view)->0;
    let (last, hole) = retired(m, view, start, end)->0;
    assert(m.maps.dom().contains(family.raw));
    assert(family_of(last, member) == Some(family));
    assert(lookup(last.maps[family.raw].custody, k) == Some(
        CustodyModel::Hole { generation: hole.generation },
    ));
}

proof fn lemma_same_descent(a: DomainModel, b: DomainModel, family: u64, ancestor: u64)
    requires
        a.families == b.families,
    ensures
        descends(a, family, ancestor) == descends(b, family, ancestor),
    decreases family,
{
    match a.families[family].parent {
        Some(parent) if parent.raw < family => {
            lemma_same_descent(a, b, parent.raw, ancestor);
        },
        _ => {},
    }
}

/// A family whose lineage passes through the retiring one resolves an address as before.
proof fn lemma_inherited(
    m: DomainModel,
    last: DomainModel,
    view: VmViewId,
    family: FamilyId,
    start: int,
    end: int,
    x: u64,
    hops: u64,
    k: int,
)
    requires
        lineage_ok(m),
        family_of(m, view) == Some(family),
        0 <= start,
        end <= usize::MAX,
        retire_begun(m, view, start, end).1 is Ok,
        last == (retired(m, view, start, end)->0).0,
        m.families.dom().contains(x),
        x == family.raw ==> hops > 0,
        hops + x <= u64::MAX,
        x == family.raw || descends(m, x, family.raw) ==> has_live_descendant(
            retire_begun(m, view, start, end).0,
            family,
        ),
    ensures
        custody_found(found_at(last, x, hops, k)) == custody_found(found_at(m, x, hops, k)),
    decreases x,
{
    let (middle, begun) = retire_begun(m, view, start, end);
    let retire = begun->Ok_0;
    let held = present_under(retire.held, view);
    assert(m.maps.dom().contains(family.raw));
    assert(uniform_custody(m, family, start, end) == Some(held));
    match m.families[x].parent {
        Some(parent) if parent.raw < x => {
            if x == family.raw && descends(m, parent.raw, family.raw) {
                lemma_descends_from_older(m, parent.raw, family.raw);
            }
            lemma_inherited(m, last, view, family, start, end, parent.raw, (hops + 1) as u64, k);
        },
        _ => {},
    }
    if x == family.raw {
        let maps = m.maps[x];
        assert(lookup(last.maps[x].snapshot, k) == (match lookup(maps.snapshot, k) {
            Some(kept) => Some(kept),
            None => if start <= k < end {
                Some(held)
            } else {
                None
            },
        }));
        if start <= k < end {
            assert(touched(maps.custody, start, end));
            assert(uniform(maps.custody, start, end, held));
            assert(lookup(maps.custody, k) == Some(held));
        } else {
            assert(lookup(last.maps[x].custody, k) == lookup(maps.custody, k));
        }
    } else {
        assert(last.maps[x] == m.maps[x]);
    }
}

} // verus!
