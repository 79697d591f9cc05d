//! Run and access admission: a view's word of state, drain generation and live leases.
use crate::ids::VmViewId;
use crate::mm::domain::{AdmissionState, DomainConflict, GuestVaDomain, ViewOverlay};
use vstd::prelude::*;

verus! {

use crate::ids::FamilyId;
use crate::mm::domain::registry::{family_of, view_gone};
use crate::mm::domain::{lemma_kept, DomainModel, FamilyRecord, ViewModel};

broadcast use {
    crate::id_map::lemma_modelled_insert,
    crate::id_map::lemma_modelled_remove,
};

/// The largest lease count that an admission word can hold.
pub const ADMISSION_MAX_COUNT: u32 = 0x3fff_ffff;

/// The two low bits of an admission word.
pub open spec fn state_bits(state: AdmissionState) -> u64 {
    match state {
        AdmissionState::Open => 0,
        AdmissionState::Draining => 1,
        AdmissionState::Closed => 2,
    }
}

/// The word that holds a state in its two low bits, a drain generation in the next thirty-two, and
/// the low thirty bits of a lease count above.
pub open spec fn packed(state: AdmissionState, generation: u32, count: u32) -> u64 {
    state_bits(state) | ((generation as u64) << 2) | ((count as u64) << 34)
}

/// What an admission word says.
pub open spec fn unpacked(word: u64) -> (AdmissionState, u32, u32) {
    (
        if word & 3 == 0 {
            AdmissionState::Open
        } else if word & 3 == 1 {
            AdmissionState::Draining
        } else {
            AdmissionState::Closed
        },
        ((word >> 2) & 0xffff_ffff) as u32,
        (word >> 34) as u32,
    )
}

/// An admission word says what was packed into it, for every count that fits.
pub proof fn lemma_admission_round_trip(state: AdmissionState, generation: u32, count: u32)
    requires
        count <= ADMISSION_MAX_COUNT,
    ensures
        unpacked(packed(state, generation, count)) == (state, generation, count),
{
    let bits = state_bits(state);
    let word = packed(state, generation, count);
    let (g, c) = (generation as u64, count as u64);
    assert(word == bits | (g << 2) | (c << 34));
    assert(word & 3 == bits && (word >> 2) & 0xffff_ffff == g && word >> 34 == c) by (bit_vector)
        requires
            word == bits | (g << 2) | (c << 34),
            bits <= 2,
            g <= 0xffff_ffff,
            c <= 0x3fff_ffff,
    ;
}

/// No admission word says more than [`ADMISSION_MAX_COUNT`] leases.
pub proof fn lemma_admission_count(word: u64)
    ensures
        unpacked(word).2 <= ADMISSION_MAX_COUNT,
{
    assert(word >> 34 <= 0x3fff_ffff) by (bit_vector);
}

/// Packs an admission word.
pub fn pack_admission(state: AdmissionState, generation: u32, count: u32) -> (word: u64)
    ensures
        word == packed(state, generation, count),
{
    let bits: u64 = match state {
        AdmissionState::Open => 0,
        AdmissionState::Draining => 1,
        AdmissionState::Closed => 2,
    };
    bits | ((generation as u64) << 2) | ((count as u64) << 34)
}

/// Unpacks an admission word.
pub fn unpack_admission(word: u64) -> (parts: (AdmissionState, u32, u32))
    ensures
        parts == unpacked(word),
{
    let low: u64 = word & 3;
    let state = if low == 0 {
        AdmissionState::Open
    } else if low == 1 {
        AdmissionState::Draining
    } else {
        AdmissionState::Closed
    };
    let generation: u32 = ((word >> 2) & 0xffff_ffff) as u32;
    let count: u32 = (word >> 34) as u32;
    (state, generation, count)
}

/// A held run admission of a view. It is given back by [`GuestVaDomain::release_run_lease`].
#[must_use]
pub struct GuestRunLease {
    view: VmViewId,
    family: FamilyId,
}

/// A held access admission of a view. It is given back by
/// [`GuestVaDomain::release_access_lease`].
#[must_use]
pub struct ViewAccessLease {
    view: VmViewId,
    family: FamilyId,
}

/// What a lease stands for: an admission of a view, counted for the family that the view was in.
pub struct LeaseModel {
    pub view: VmViewId,
    pub family: FamilyId,
}

impl GuestRunLease {
    /// What the lease stands for.
    pub closed spec fn held(&self) -> LeaseModel {
        LeaseModel { view: self.view, family: self.family }
    }
}

impl ViewAccessLease {
    /// What the lease stands for.
    pub closed spec fn held(&self) -> LeaseModel {
        LeaseModel { view: self.view, family: self.family }
    }
}

/// The domain with another admission word for a registered view.
pub open spec fn with_admission(m: DomainModel, view: VmViewId, word: u64) -> DomainModel {
    DomainModel {
        views: m.views.insert(
            view.raw,
            ViewModel { admission: word, ..m.views[view.raw] },
        ),
        ..m
    }
}

/// The domain with another count of outstanding leases of a family.
pub open spec fn with_survivors(m: DomainModel, family: FamilyId, survivors: usize) -> DomainModel {
    DomainModel {
        families: m.families.insert(
            family.raw,
            FamilyRecord { lease_survivors: survivors, ..m.families[family.raw] },
        ),
        ..m
    }
}

/// What the start of a drain does and answers.
pub open spec fn drain_begun(m: DomainModel, view: VmViewId) -> (DomainModel, Result<u32, DomainConflict>) {
    if !m.views.dom().contains(view.raw) {
        (m, Err(DomainConflict::NotFound))
    } else {
        let (state, generation, count) = unpacked(m.views[view.raw].admission);
        if state != AdmissionState::Open {
            (m, Err(DomainConflict::Draining))
        } else if generation == u32::MAX {
            (m, Err(DomainConflict::IdentityExhausted))
        } else {
            let next = (generation + 1) as u32;
            (
                with_admission(m, view, packed(AdmissionState::Draining, next, count)),
                Ok(next),
            )
        }
    }
}

/// What acquiring a lease does and answers.
pub open spec fn lease_acquired(m: DomainModel, view: VmViewId) -> (
    DomainModel,
    Result<LeaseModel, DomainConflict>,
) {
    match family_of(m, view) {
        None => (m, Err(DomainConflict::NotFound)),
        Some(family) => {
            let entry = m.views[view.raw];
            let (state, generation, count) = unpacked(entry.admission);
            if entry.overlay != ViewOverlay::Active {
                (m, Err(DomainConflict::NotInstalled))
            } else if state != AdmissionState::Open {
                (m, Err(DomainConflict::Draining))
            } else {
                let admitted = with_admission(
                    m,
                    view,
                    packed(state, generation, (count + 1) as u32),
                );
                (
                    with_survivors(
                        admitted,
                        family,
                        m.families[family.raw].lease_survivors.wrapping_add(1),
                    ),
                    Ok(LeaseModel { view, family }),
                )
            }
        },
    }
}

/// The domain after the family of a lease counts one outstanding lease less.
pub open spec fn survivor_gone(m: DomainModel, family: FamilyId) -> DomainModel {
    if m.families.dom().contains(family.raw) {
        let survivors = m.families[family.raw].lease_survivors;
        with_survivors(
            m,
            family,
            if survivors == 0 {
                0
            } else {
                (survivors - 1) as usize
            },
        )
    } else {
        m
    }
}

/// The domain after a lease was given back: the view counts one lease less if it is still there, and
/// its family one outstanding lease less in any case.
pub open spec fn lease_released(m: DomainModel, lease: LeaseModel) -> DomainModel {
    let view = lease.view;
    survivor_gone(
        if m.views.dom().contains(view.raw) {
            let (state, generation, count) = unpacked(m.views[view.raw].admission);
            with_admission(
                m,
                view,
                packed(
                    state,
                    generation,
                    if count == 0 {
                        0
                    } else {
                        (count - 1) as u32
                    },
                ),
            )
        } else {
            m
        },
        lease.family,
    )
}

/// The next lease of a view can be counted for its family.
pub open spec fn lease_countable(m: DomainModel, view: VmViewId) -> bool {
    family_of(m, view) matches Some(family) ==> m.families[family.raw].lease_survivors < usize::MAX
}

/// Once a drain has begun, no lease is admitted.
pub proof fn lemma_drain_refuses_leases(m: DomainModel, view: VmViewId)
    requires
        drain_begun(m, view).1 is Ok,
    ensures
        lease_acquired(drain_begun(m, view).0, view).1 is Err,
        lease_acquired(drain_begun(m, view).0, view).0 == drain_begun(m, view).0,
        drain_begun(drain_begun(m, view).0, view) == (
            drain_begun(m, view).0,
            Err::<u32, DomainConflict>(DomainConflict::Draining),
        ),
{
    let (_, generation, count) = unpacked(m.views[view.raw].admission);
    lemma_admission_count(m.views[view.raw].admission);
    lemma_admission_round_trip(AdmissionState::Draining, (generation + 1) as u32, count);
}

/// A drain leaves the leases that are already held alone.
pub proof fn lemma_drain_keeps_leases(m: DomainModel, view: VmViewId)
    requires
        drain_begun(m, view).1 is Ok,
    ensures
        unpacked(drain_begun(m, view).0.views[view.raw].admission).2 == unpacked(
            m.views[view.raw].admission,
        ).2,
        drain_begun(m, view).0.families == m.families,
{
    let (_, generation, count) = unpacked(m.views[view.raw].admission);
    lemma_admission_count(m.views[view.raw].admission);
    lemma_admission_round_trip(AdmissionState::Draining, (generation + 1) as u32, count);
}

/// Giving a lease back undoes acquiring it: the view counts as many leases as before, its state
/// and generation are the same, and so is every family record and every other view.
pub proof fn lemma_lease_balances(m: DomainModel, view: VmViewId)
    requires
        lease_acquired(m, view).1 is Ok,
        lease_countable(m, view),
        unpacked(m.views[view.raw].admission).2 < ADMISSION_MAX_COUNT,
        m.families.dom().contains(m.views[view.raw].family.raw),
    ensures
        unpacked(lease_acquired(m, view).0.views[view.raw].admission).2 == unpacked(
            m.views[view.raw].admission,
        ).2 + 1,
        ({
            let (held, lease) = lease_acquired(m, view);
            let after = lease_released(held, lease->Ok_0);
            &&& unpacked(after.views[view.raw].admission) == unpacked(m.views[view.raw].admission)
            &&& after.families == m.families
            &&& forall|id: u64| id != view.raw ==> #[trigger] after.views.dom().contains(id)
                == m.views.dom().contains(id) && after.views[id] == m.views[id]
        }),
{
    let (state, generation, count) = unpacked(m.views[view.raw].admission);
    lemma_admission_round_trip(state, generation, (count + 1) as u32);
    lemma_admission_round_trip(state, generation, count);
    let (held, lease) = lease_acquired(m, view);
    let after = lease_released(held, lease->Ok_0);
    assert(after.families =~= m.families);
}

/// A lease that is given back after its view was unregistered no longer counts for the family: it has
/// as many outstanding leases as before the lease was acquired.
pub proof fn lemma_lease_outlives_its_view(m: DomainModel, view: VmViewId)
    requires
        lease_acquired(m, view).1 is Ok,
        lease_countable(m, view),
        m.families.dom().contains(m.views[view.raw].family.raw),
    ensures
        ({
            let (held, lease) = lease_acquired(m, view);
            let after = lease_released(view_gone(held, view), lease->Ok_0);
            let family = m.views[view.raw].family.raw;
            &&& !after.views.dom().contains(view.raw)
            &&& after.families[family].lease_survivors == m.families[family].lease_survivors
        }),
{
}

impl GuestVaDomain {
    /// Writes the admission word of a registered view.
    fn set_admission(&mut self, view: VmViewId, word: u64)
        requires
            old(self).wf(),
            old(self)@.views.dom().contains(view.raw),
        ensures
            final(self).wf(),
            final(self)@ == with_admission(old(self)@, view, word),
    {
        let entry = self.views.get_mut(view.raw);
        entry.admission = word;
        proof {
            assert(self@.views.dom() =~= old(self)@.views.dom());
            lemma_kept(old(self)@, self@);
        }
    }

    /// Writes the lease count of a registered family.
    fn set_survivors(&mut self, family: FamilyId, survivors: usize)
        requires
            old(self).wf(),
            old(self)@.families.dom().contains(family.raw),
        ensures
            final(self).wf(),
            final(self)@ == with_survivors(old(self)@, family, survivors),
    {
        let record = self.families.get_mut(family.raw);
        record.lease_survivors = survivors;
        proof {
            assert(self@.families.dom() =~= old(self)@.families.dom());
            lemma_kept(old(self)@, self@);
        }
    }

    /// Marks a view's admission as draining: no new lease is admitted from here on. Held leases
    /// are unaffected, and nothing is waited for. Answers the drain's fresh generation.
    pub fn begin_drain(&mut self, view: VmViewId) -> (result: Result<u32, DomainConflict>)
        requires
            old(self).wf(),
        ensures
            final(self).wf(),
            (final(self)@, result) == drain_begun(old(self)@, view),
    {
        let word: u64 = match self.views.get(view.raw) {
            Some(entry) => entry.admission,
            None => {
                return Err(DomainConflict::NotFound);
            },
        };
        let (state, generation, count) = unpack_admission(word);
        if state != AdmissionState::Open {
            return Err(DomainConflict::Draining);
        }
        if generation == u32::MAX {
            return Err(DomainConflict::IdentityExhausted);
        }
        self.set_admission(view, pack_admission(AdmissionState::Draining, generation + 1, count));
        Ok(generation + 1)
    }

    /// A view's admission state, drain generation and live lease count.
    pub fn admission_snapshot(&self, view: VmViewId) -> (parts: Option<(AdmissionState, u32, u32)>)
        requires
            self.wf(),
        ensures
            parts == (if self@.views.dom().contains(view.raw) {
                Some(unpacked(self@.views[view.raw].admission))
            } else {
                None
            }),
    {
        match self.views.get(view.raw) {
            Some(entry) => Some(unpack_admission(entry.admission)),
            None => None,
        }
    }

    fn acquire_lease(&mut self, view: VmViewId) -> (result: Result<FamilyId, DomainConflict>)
        requires
            old(self).wf(),
        ensures
            final(self).wf(),
            final(self)@ == lease_acquired(old(self)@, view).0,
            match result {
                Ok(family) => lease_acquired(old(self)@, view).1 == Ok::<LeaseModel, DomainConflict>(
                    LeaseModel { view, family },
                ),
                Err(error) => lease_acquired(old(self)@, view).1 == Err::<LeaseModel, DomainConflict>(
                    error,
                ),
            },
    {
        let (family, word) = match self.views.get(view.raw) {
            Some(entry) => {
                if entry.overlay != ViewOverlay::Active {
                    return Err(DomainConflict::NotInstalled);
                }
                (entry.family, entry.admission)
            },
            None => {
                return Err(DomainConflict::NotFound);
            },
        };
        let (state, generation, count) = unpack_admission(word);
        if state != AdmissionState::Open {
            return Err(DomainConflict::Draining);
        }
        proof {
            lemma_admission_count(word);
            assert(self@.views.dom().contains(view.raw));
        }
        let survivors: usize = match self.families.get(family.raw) {
            Some(record) => record.lease_survivors,
            None => 0,
        };
        self.set_admission(view, pack_admission(state, generation, count + 1));
        self.set_survivors(family, survivors.wrapping_add(1));
        Ok(family)
    }

    /// Gives a lease back.
    fn release_lease(&mut self, view: VmViewId, family: FamilyId)
        requires
            old(self).wf(),
        ensures
            final(self).wf(),
            final(self)@ == lease_released(old(self)@, LeaseModel { view, family }),
    {
        let word: Option<u64> = match self.views.get(view.raw) {
            Some(entry) => Some(entry.admission),
            None => None,
        };
        if let Some(word) = word {
            let (state, generation, count) = unpack_admission(word);
            self.set_admission(view, pack_admission(state, generation, count.saturating_sub(1)));
        }
        let survivors: Option<usize> = match self.families.get(family.raw) {
            Some(record) => Some(record.lease_survivors),
            None => None,
        };
        if let Some(survivors) = survivors {
            self.set_survivors(family, survivors.saturating_sub(1));
        }
    }

    /// Acquires a run lease on a view that is active and open to admission. Refused, never
    /// blocked, otherwise.
    pub fn acquire_run_lease(&mut self, view: VmViewId) -> (result: Result<GuestRunLease, DomainConflict>)
        requires
            old(self).wf(),
        ensures
            final(self).wf(),
            final(self)@ == lease_acquired(old(self)@, view).0,
            match result {
                Ok(lease) => lease_acquired(old(self)@, view).1 == Ok::<LeaseModel, DomainConflict>(
                    lease.held(),
                ),
                Err(error) => lease_acquired(old(self)@, view).1 == Err::<LeaseModel, DomainConflict>(
                    error,
                ),
            },
    {
        match self.acquire_lease(view) {
            Ok(family) => Ok(GuestRunLease { view, family }),
            Err(error) => Err(error),
        }
    }

    /// Acquires an access lease on a view, admitted like [`Self::acquire_run_lease`].
    pub fn acquire_access_lease(&mut self, view: VmViewId) -> (result: Result<ViewAccessLease, DomainConflict>)
        requires
            old(self).wf(),
        ensures
            final(self).wf(),
            final(self)@ == lease_acquired(old(self)@, view).0,
            match result {
                Ok(lease) => lease_acquired(old(self)@, view).1 == Ok::<LeaseModel, DomainConflict>(
                    lease.held(),
                ),
                Err(error) => lease_acquired(old(self)@, view).1 == Err::<LeaseModel, DomainConflict>(
                    error,
                ),
            },
    {
        match self.acquire_lease(view) {
            Ok(family) => Ok(ViewAccessLease { view, family }),
            Err(error) => Err(error),
        }
    }

    /// Gives a run lease back.
    pub fn release_run_lease(&mut self, lease: GuestRunLease)
        requires
            old(self).wf(),
        ensures
            final(self).wf(),
            final(self)@ == lease_released(old(self)@, lease.held()),
    {
        self.release_lease(lease.view, lease.family);
    }

    /// Gives an access lease back.
    pub fn release_access_lease(&mut self, lease: ViewAccessLease)
        requires
            old(self).wf(),
        ensures
            final(self).wf(),
            final(self)@ == lease_released(old(self)@, lease.held()),
    {
        self.release_lease(lease.view, lease.family);
    }
}

} // verus!
