//! Mappings whose initialization callback has not returned, and the backing of shared mappings.
use crate::mm::addr::PageRange;
use crate::mm::area::{
    InitializationId, SharedFutexBacking, SharedFutexMapping, SharedFutexPosition, VmArea,
};
use crate::mm::errors::VmemUnmapError;
use crate::mm::flags::VmFlags;
use crate::mm::vmem::Vmem;
use crate::platform::page_mgmt::PageManagementProvider;
use core::ops::Range;
use vstd::prelude::*;

verus! {

use crate::mm::flags::carries;
use crate::mm::vmem::effects::{removed, unmapped};
use crate::mm::vmem::log::{
    entries_of, granted, is_marked, lemma_filter_step, lemma_marks, marks,
};
use crate::mm::vmem::{
    cleared, cleared_over, invalidated, lemma_paged_pieces, lemma_paged_put, paged, VmemModel,
};
use crate::range_map::{cut, lookup, lemma_same_lookups, pieces, pieces_of, put, uniform};
use crate::range_table::modelled;

broadcast use {
    crate::range_map::lemma_lookup_put,
    crate::range_map::lemma_lookup_cut,
    crate::range_map::lemma_lookup_revise,
};

/// The address space once a callback owns a freshly published mapping.
pub open spec fn claimed(m: VmemModel, start: int, end: int, identity: InitializationId) -> VmemModel {
    VmemModel {
        areas: put(
            m.areas,
            start,
            end,
            VmArea { initialization: Some(identity), ..m.areas[start] },
        ),
        pending: put(m.pending, start, end, identity),
        ..m
    }
}

/// A callback owns every address of a range.
pub open spec fn owns(m: VmemModel, start: int, end: int, identity: InitializationId) -> bool {
    uniform(m.pending, start, end, identity)
}

/// The pieces of a list that a callback owns.
pub open spec fn owned_pieces(
    pieces: Seq<(int, int, InitializationId)>,
    identity: InitializationId,
) -> Seq<(int, int, InitializationId)> {
    pieces.filter(owned_by(identity))
}

/// A piece belongs to a callback.
pub open spec fn owned_by(identity: InitializationId) -> spec_fn((int, int, InitializationId)) -> bool {
    |piece: (int, int, InitializationId)| piece.2 == identity
}

/// The address space once the removal of each piece was answered: a piece that was removed is gone,
/// one that was refused stays.
pub open spec fn torn_down(
    m: VmemModel,
    pieces: Seq<(int, int, InitializationId)>,
    answers: Seq<Result<(), VmemUnmapError>>,
) -> VmemModel
    decreases pieces.len(),
{
    if pieces.len() == 0 {
        m
    } else {
        let before = torn_down(m, pieces.drop_last(), answers.drop_last());
        let (start, end, _) = pieces.last();
        if answers.last() is Ok {
            unmapped(before, start, end)
        } else {
            before
        }
    }
}

/// The first refusal, if there was one.
pub open spec fn first_refusal(answers: Seq<Result<(), VmemUnmapError>>) -> Result<(), VmemUnmapError>
    decreases answers.len(),
{
    if answers.len() == 0 {
        Ok(())
    } else {
        match first_refusal(answers.drop_last()) {
            Ok(()) => answers.last(),
            Err(error) => Err(error),
        }
    }
}

/// The range between two addresses, as the platform is told it.
pub open spec fn span(start: int, end: int) -> Range<usize> {
    Range { start: start as usize, end: end as usize }
}

/// The backing of an area that is placed at an address: none if the area is not shared, the
/// pending or given one with its origin fixed, or a new one that begins here.
pub open spec fn placed(area: VmArea, origin: usize, next_futex: usize) -> VmArea {
    VmArea {
        shared_futex: if !carries(area.flags.bits, VmFlags::VM_SHARED) {
            None
        } else {
            match area.shared_futex {
                Some(shared) => match shared.position {
                    SharedFutexPosition::PendingOffset(offset) => Some(
                        SharedFutexMapping {
                            identity: shared.identity,
                            position: SharedFutexPosition::Origin(origin.wrapping_sub(offset)),
                        },
                    ),
                    SharedFutexPosition::Origin(_) => Some(shared),
                },
                None => Some(
                    SharedFutexMapping {
                        identity: next_futex,
                        position: SharedFutexPosition::Origin(origin),
                    },
                ),
            }
        },
        ..area
    }
}

/// Placing the area takes a new backing identity.
pub open spec fn takes_backing(area: VmArea) -> bool {
    carries(area.flags.bits, VmFlags::VM_SHARED) && area.shared_futex is None
}

/// The next identity after an area was given a backing if it needs one.
pub open spec fn next_after(area: VmArea, next_futex: usize) -> usize {
    if takes_backing(area) {
        (next_futex + 1) as usize
    } else {
        next_futex
    }
}

/// The address space once an already allocated region was entered over whatever was there.
pub open spec fn overwritten(m: VmemModel, start: int, end: int, area: VmArea) -> VmemModel {
    invalidated(
        VmemModel {
            areas: put(m.areas, start, end, placed(area, start as usize, m.next_futex)),
            next_futex: next_after(area, m.next_futex),
            ..m
        },
        start,
        end,
    )
}

impl<P: PageManagementProvider<ALIGN> + 'static, const ALIGN: usize> Vmem<P, ALIGN> {
    /// Marks a newly-published mapping as owned by one initialization callback. The range must be
    /// mapped as one area.
    pub fn track_initialization(&mut self, range: PageRange<ALIGN>, identity: InitializationId)
        requires
            old(self).wf(),
            range.wf(),
            lookup(old(self)@.areas, range.start as int) matches Some(area) && uniform(
                old(self)@.areas,
                range.start as int,
                range.end as int,
                area,
            ),
        ensures
            final(self).follows(old(self)),
            final(self).logs(old(self), 1),
            final(self)@ == claimed(old(self)@, range.start as int, range.end as int, identity),
    {
        let (start, end) = (range.start, range.end);
        if let Some((_, _, area)) = self.vmas.get_key_value(start) {
            let mut marked = area;
            marked.initialization = Some(identity);
            proof {
                assert(area == old(self)@.areas[start as int]);
                lemma_paged_put(self@.areas, start as int, end as int, marked, ALIGN as int);
                lemma_paged_put(self@.pending, start as int, end as int, identity, ALIGN as int);
            }
            self.vmas.insert(start, end, marked);
            self.pending_initializations.insert(start, end, &identity);
            proof {
                assert(self@.reserved =~= old(self)@.reserved);
            }
        }
    }

    /// Returns whether the complete range still belongs to the original callback.
    pub fn owns_initialization(&self, range: PageRange<ALIGN>, identity: InitializationId) -> (yes: bool)
        requires
            self.wf(),
            range.wf(),
        ensures
            yes == owns(self@, range.start as int, range.end as int, identity),
    {
        match self.pending_initializations.get_key_value(range.start) {
            Some((start, end, current)) => {
                proof {
                    assert(lookup(self@.pending, range.start as int) == Some(current));
                    if end < range.end {
                        assert(lookup(self@.pending, end as int) != Some(current));
                    } else {
                        assert forall|k: int| range.start <= k < range.end implies #[trigger] lookup(
                            self@.pending,
                            k,
                        ) == Some(current) by {}
                    }
                }
                current == identity && start <= range.start && end >= range.end
            },
            None => {
                proof {
                    assert(lookup(self@.pending, range.start as int) is None);
                }
                false
            },
        }
    }

    /// Whether some address of a non-empty range belongs to a callback.
    pub fn has_pending_initialization(&self, start: usize, end: usize) -> (found: bool)
        requires
            self.wf(),
            start < end,
        ensures
            found == (exists|k: int| start <= k < end && #[trigger] lookup(self@.pending, k) is Some),
    {
        self.pending_initializations.overlaps(start, end)
    }

    /// Takes the callback marks off every area of a range.
    fn clear_initialization_markers(&mut self, start: usize, end: usize)
        requires
            old(self).wf(),
            start < end,
            start as int % ALIGN as int == 0,
            end as int % ALIGN as int == 0,
        ensures
            final(self).follows(old(self)),
            final(self).logs(old(self), marks(old(self)@.areas, start as int, end as int)),
            final(self)@ == (VmemModel {
                areas: cleared_over(old(self)@.areas, start as int, end as int),
                ..old(self)@
            }),
    {
        let pieces = self.vmas.pieces(start, end);
        let ghost list = modelled(pieces@);
        let ghost before = self@.areas;
        let ghost goal = cleared_over(before, start as int, end as int);
        let mut i: usize = 0;
        proof {
            reveal(Seq::filter);
            assert(list.take(0) =~= Seq::empty());
        }
        while i < pieces.len()
            invariant
                i <= pieces@.len(),
                list == modelled(pieces@),
                before == old(self)@.areas,
                goal == cleared_over(before, start as int, end as int),
                start as int % ALIGN as int == 0,
                end as int % ALIGN as int == 0,
                ALIGN > 0,
                paged(before, ALIGN as int),
                pieces_of(list, before, start as int, end as int),
                self.follows(old(self)),
                self.logs(old(self), list.take(i as int).filter(is_marked()).len()),
                self@ == (VmemModel { areas: self@.areas, ..old(self)@ }),
                forall|k: int| #[trigger]
                    lookup(self@.areas, k) == (if exists|j: int|
                        0 <= j < i && (#[trigger] list[j]).0 <= k < list[j].1 {
                        lookup(goal, k)
                    } else {
                        lookup(before, k)
                    }),
            decreases pieces@.len() - i,
        {
            let (s, e, area) = pieces[i];
            let ghost middle = self@.areas;
            proof {
                assert(list[i as int] == (s as int, e as int, area));
                lemma_filter_step(list, is_marked(), i as int);
                lemma_paged_pieces(list, before, start as int, end as int, ALIGN as int);
                assert forall|k: int| s <= k < e implies #[trigger] lookup(goal, k) == Some(cleared(area)) by {
                    assert(lookup(before, k) == Some(area));
                }
            }
            if area.initialization.is_some() {
                let mut marked = area;
                marked.initialization = None;
                proof {
                    lemma_paged_put(middle, s as int, e as int, marked, ALIGN as int);
                }
                self.vmas.insert(s, e, marked);
                proof {
                    assert(self@.reserved =~= old(self)@.reserved);
                }
            }
            i += 1;
            proof {
                assert forall|k: int| #[trigger]
                    lookup(self@.areas, k) == (if exists|j: int|
                        0 <= j < i && (#[trigger] list[j]).0 <= k < list[j].1 {
                        lookup(goal, k)
                    } else {
                        lookup(before, k)
                    }) by {
                    assert(lookup(middle, k) == lookup(middle, k));
                    if s <= k < e {
                        assert(list[i - 1].0 <= k < list[i - 1].1);
                        assert(lookup(before, k) == Some(area));
                        assert(lookup(goal, k) == Some(cleared(area)));
                        if area.initialization is None {
                            assert(cleared(area) == area);
                        }
                    }
                }
            }
        }
        proof {
            assert forall|k: int| #[trigger] lookup(self@.areas, k) == lookup(goal, k) by {
                if lookup(before, k) is Some && start <= k < end {
                    assert(crate::range_map::covered(list, k));
                    let j = choose|j: int|
                        0 <= j < list.len() && (#[trigger] list[j]).0 <= k < list[j].1;
                    assert(list[j].0 <= k < list[j].1);
                }
            }
            lemma_same_lookups(self@.areas, goal);
            assert(list.take(list.len() as int) =~= list);
        }
    }

    /// No callback owns any address of the range any more.
    pub(crate) fn invalidate_initializations(&mut self, start: usize, end: usize)
        requires
            old(self).wf(),
            start < end,
            start as int % ALIGN as int == 0,
            end as int % ALIGN as int == 0,
        ensures
            final(self).follows(old(self)),
            final(self).logs(old(self), marks(old(self)@.areas, start as int, end as int)),
            final(self)@ == invalidated(old(self)@, start as int, end as int),
    {
        proof {
            let any = InitializationId { raw: 0 };
            lemma_paged_put(self@.pending, start as int, end as int, any, ALIGN as int);
        }
        self.pending_initializations.remove(start, end);
        proof {
            assert(self@.reserved =~= old(self)@.reserved);
        }
        self.clear_initialization_markers(start, end);
    }

    /// Completes a callback after its exact mapping has been finalized. Does nothing and returns
    /// `false` if some of the range belongs to it no longer.
    pub fn finish_initialization(&mut self, range: PageRange<ALIGN>, identity: InitializationId) -> (done: bool)
        requires
            old(self).wf(),
            range.wf(),
        ensures
            final(self).follows(old(self)),
            final(self).logs(
                old(self),
                if done {
                    marks(old(self)@.areas, range.start as int, range.end as int)
                } else {
                    0
                },
            ),
            done == owns(old(self)@, range.start as int, range.end as int, identity),
            final(self)@ == (if done {
                invalidated(old(self)@, range.start as int, range.end as int)
            } else {
                old(self)@
            }),
    {
        if !self.owns_initialization(range, identity) {
            return false;
        }
        self.invalidate_initializations(range.start, range.end);
        true
    }

    /// Removes only fragments still owned by `identity`, never a same-address replacement. Every
    /// fragment is tried; the first refusal is reported. A reservation is removed without a call to
    /// the platform.
    pub fn cleanup_initialization(&mut self, range: PageRange<ALIGN>, identity: InitializationId) -> (result: Result<
        (),
        VmemUnmapError,
    >)
        requires
            old(self).wf(),
            range.wf(),
        ensures
            final(self).follows(old(self)),
            cleaned_up(
                final(self).platform(),
                old(self)@,
                (range.start as int, range.end as int),
                identity,
                final(self)@,
                result,
            ),
            exists|answers: Seq<Result<(), VmemUnmapError>>| #[trigger]
                cleanup_answered(
                    final(self).platform(),
                    old(self)@,
                    (range.start as int, range.end as int),
                    identity,
                    final(self)@,
                    result,
                    answers,
                ) && final(self).logs(old(self), granted(answers)),
    {
        let (start, end) = (range.start, range.end);
        let pieces = self.pending_initializations.pieces(start, end);
        let ghost list = modelled(pieces@);
        let mut first_error: Option<VmemUnmapError> = None;
        let ghost mut answers: Seq<Result<(), VmemUnmapError>> = Seq::empty();
        let ghost is_owned = owned_by(identity);
        let mut i: usize = 0;
        proof {
            lemma_paged_pieces(list, self@.pending, start as int, end as int, ALIGN as int);
            assert(list.take(0) =~= Seq::empty());
            reveal(Seq::filter);
        }
        while i < pieces.len()
            invariant
                i <= pieces@.len(),
                list == modelled(pieces@),
                ALIGN > 0,
                is_owned == owned_by(identity),
                pieces_of(list, old(self)@.pending, start as int, end as int),
                forall|j: int| 0 <= j < list.len() ==> (#[trigger] list[j]).0 % ALIGN as int == 0
                    && list[j].1 % ALIGN as int == 0,
                self.follows(old(self)),
                self@ == torn_down(old(self)@, list.take(i as int).filter(is_owned), answers),
                self.logs(old(self), granted(answers)),
                answers.len() == list.take(i as int).filter(is_owned).len(),
                forall|j: int| 0 <= j < answers.len() ==> #[trigger] piece_removed(
                    self.platform(),
                    old(self)@,
                    list.take(i as int).filter(is_owned),
                    answers,
                    j,
                ),
                match first_error {
                    Some(error) => first_refusal(answers) == Err::<(), VmemUnmapError>(error),
                    None => first_refusal(answers) == Ok::<(), VmemUnmapError>(()),
                },
            decreases pieces@.len() - i,
        {
            let (s, e, current) = pieces[i];
            proof {
                assert(list[i as int] == (s as int, e as int, current));
                assert(list.take(i + 1).drop_last() =~= list.take(i as int));
                assert(list.take(i + 1).last() == list[i as int]);
                reveal(Seq::filter);
            }
            if current == identity {
                let ghost shorter = list.take(i as int).filter(is_owned);
                let ghost longer = list.take(i + 1).filter(is_owned);
                let ghost before = self@;
                let answer = self.remove_mapping(PageRange { start: s, end: e });
                if let Err(error) = answer {
                    if first_error.is_none() {
                        first_error = Some(error);
                    }
                }
                proof {
                    assert(longer =~= shorter.push(list[i as int]));
                    assert(longer.drop_last() =~= shorter);
                    let more = answers.push(answer);
                    assert(more.drop_last() =~= answers);
                    assert(self@ == torn_down(old(self)@, longer, more));
                    assert forall|j: int| 0 <= j < more.len() implies #[trigger] piece_removed(
                        self.platform(),
                        old(self)@,
                        longer,
                        more,
                        j,
                    ) by {
                        if j < answers.len() {
                            assert(piece_removed(self.platform(), old(self)@, shorter, answers, j));
                            assert(longer.take(j) =~= shorter.take(j));
                            assert(more.take(j) =~= answers.take(j));
                            assert(longer.take(j + 1) =~= shorter.take(j + 1));
                            assert(more.take(j + 1) =~= answers.take(j + 1));
                        } else {
                            assert(longer.take(j) =~= shorter);
                            assert(more.take(j) =~= answers);
                            assert(longer.take(j + 1) =~= longer);
                            assert(more.take(j + 1) =~= more);
                        }
                    }
                    answers = more;
                }
            }
            i += 1;
        }
        proof {
            assert(list.take(list.len() as int) =~= list);
            assert(cleanup_answered(
                self.platform(),
                old(self)@,
                (start as int, end as int),
                identity,
                self@,
                first_refusal(answers),
                answers,
            ));
        }
        match first_error {
            Some(error) => Err(error),
            None => Ok(()),
        }
    }

    /// Gives an area that is placed at an address its backing.
    pub(crate) fn assign_shared_futex_identity(&mut self, area: VmArea, origin: usize) -> (with_backing: VmArea)
        requires
            old(self).wf(),
            takes_backing(area) ==> old(self)@.next_futex < old(self)@.futex_end,
        ensures
            final(self).follows(old(self)),
            final(self).logs(old(self), 0),
            with_backing == placed(area, origin, old(self)@.next_futex),
            final(self)@ == (VmemModel {
                next_futex: next_after(area, old(self)@.next_futex),
                ..old(self)@
            }),
    {
        let mut area = area;
        if !area.flags.contains(VmFlags::VM_SHARED) {
            area.shared_futex = None;
            return area;
        }
        match area.shared_futex {
            Some(shared) => match shared.position {
                SharedFutexPosition::PendingOffset(offset) => {
                    area.shared_futex = Some(
                        SharedFutexMapping {
                            identity: shared.identity,
                            position: SharedFutexPosition::Origin(origin.wrapping_sub(offset)),
                        },
                    );
                },
                SharedFutexPosition::Origin(_) => {},
            },
            None => {
                let backing = SharedFutexBacking::new(&mut self.futex_ids);
                area.shared_futex = Some(
                    SharedFutexMapping {
                        identity: backing.identity(),
                        position: SharedFutexPosition::Origin(origin),
                    },
                );
                proof {
                    assert(self@.reserved =~= old(self)@.reserved);
                }
            },
        }
        area
    }

    /// Enters an already-allocated region without calling the platform allocator. Tracked
    /// mappings that overlap it leave the table without a call to the platform deallocator.
    pub fn register_existing_mapping_overwrite(&mut self, range: PageRange<ALIGN>, area: VmArea)
        requires
            old(self).wf(),
            range.wf(),
            takes_backing(area) ==> old(self)@.next_futex < old(self)@.futex_end,
        ensures
            final(self).follows(old(self)),
            final(self).logs(old(self), entries_of(area)),
            final(self)@ == overwritten(old(self)@, range.start as int, range.end as int, area),
    {
        let (start, end) = (range.start, range.end);
        let area = self.assign_shared_futex_identity(area, start);
        proof {
            lemma_paged_put(self@.areas, start as int, end as int, area, ALIGN as int);
        }
        let ghost before = self@.areas;
        self.vmas.insert(start, end, area);
        proof {
            assert(self@.reserved =~= old(self)@.reserved);
            lemma_marks(before, start as int, end as int, area);
        }
        self.invalidate_initializations(start, end);
    }
}

/// One of the pieces was removed after those before it, with this answer.
pub open spec fn piece_removed<P: PageManagementProvider<ALIGN>, const ALIGN: usize>(
    platform: &P,
    before: VmemModel,
    pieces: Seq<(int, int, InitializationId)>,
    answers: Seq<Result<(), VmemUnmapError>>,
    j: int,
) -> bool {
    removed(
        platform,
        torn_down(before, pieces.take(j), answers.take(j)),
        pieces[j].0,
        pieces[j].1,
        torn_down(before, pieces.take(j + 1), answers.take(j + 1)),
        answers[j],
    )
}

/// The pieces of the range that the callback owned were removed in address order, with these
/// answers, and they decide what is left and what is reported.
pub open spec fn cleanup_answered<P: PageManagementProvider<ALIGN>, const ALIGN: usize>(
    platform: &P,
    before: VmemModel,
    range: (int, int),
    identity: InitializationId,
    after: VmemModel,
    result: Result<(), VmemUnmapError>,
    answers: Seq<Result<(), VmemUnmapError>>,
) -> bool {
    let owned = owned_pieces(pieces(before.pending, range.0, range.1), identity);
    &&& answers.len() == owned.len()
    &&& forall|j: int|
        0 <= j < owned.len() ==> #[trigger] piece_removed(platform, before, owned, answers, j)
    &&& after == torn_down(before, owned, answers)
    &&& result == first_refusal(answers)
}

/// What a cleanup did: each piece of the range that the callback owned was removed, as far as the
/// platform allowed it.
pub open spec fn cleaned_up<P: PageManagementProvider<ALIGN>, const ALIGN: usize>(
    platform: &P,
    before: VmemModel,
    range: (int, int),
    identity: InitializationId,
    after: VmemModel,
    result: Result<(), VmemUnmapError>,
) -> bool {
    exists|answers: Seq<Result<(), VmemUnmapError>>| #[trigger]
        cleanup_answered(platform, before, range, identity, after, result, answers)
}

} // verus!
