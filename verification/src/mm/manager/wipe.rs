//! What a forked child must not see of its parent's memory.
use crate::ids::VmViewId;
use crate::mm::addr::PageRange;
use crate::mm::errors::VmemResetError;
use crate::mm::flags::{MemoryRegionPermissions, VmFlags};
use crate::mm::manager::PageManager;
use crate::platform::page_mgmt::{PageManagementProvider, PermissionUpdateError};
use core::ops::Range;
use vstd::prelude::*;

verus! {

use crate::mm::domain::publish::present_confirmed;
use crate::mm::domain::DomainModel;
use crate::mm::flags::{carries, permissions_of};
use crate::mm::manager::release::clamped;
use crate::mm::manager::views::{holder_models, materialize_asked, spans, whole_pages};
use crate::mm::vmem::protect::lists_marked;
use crate::mm::vmem::effects::reset;
use crate::mm::vmem::initialization::span;
use crate::mm::vmem::protect::marked_entries;
use crate::mm::vmem::VmemModel;

/// A marked mapping with private pages of its own: a fork gives the child's view fresh ones.
pub open spec fn is_renewed(flags: VmFlags) -> bool {
    !carries(flags.bits, VmFlags::VM_SHARED) && !carries(flags.bits, VmFlags::VM_DEFERRED)
}

/// A marked mapping that a fork wipes in place: one with private pages of its own that are writable.
/// Those are the pages that a parent saves, so nothing that it cannot restore is zeroed.
pub open spec fn is_wiped(flags: VmFlags) -> bool {
    is_renewed(flags) && carries(flags.bits, VmFlags::VM_WRITE)
}

/// Parts of one mapping were reset in place, each on its own; `wiped` counts the bytes of those
/// that could be, from what was counted `so_far`.
#[verifier::opaque]
pub open spec fn parts_wiped<P: PageManagementProvider<ALIGN>, const ALIGN: usize>(
    platform: &P,
    before: VmemModel,
    mapping: (int, int),
    parts: Seq<(int, int)>,
    so_far: usize,
    after: VmemModel,
    wiped: usize,
) -> bool
    decreases parts.len(),
{
    if parts.len() == 0 {
        after == before && wiped == so_far
    } else {
        let part = clamped(parts[0], mapping);
        if !whole_pages(part.0, part.1, ALIGN as int) {
            parts_wiped(platform, before, mapping, parts.drop_first(), so_far, after, wiped)
        } else {
            exists|mid: VmemModel, outcome: Result<(), VmemResetError>| #[trigger]
                reset(platform, before, part.0, part.1, mid, outcome) && parts_wiped(
                    platform,
                    mid,
                    mapping,
                    parts.drop_first(),
                    if outcome is Ok {
                        so_far.wrapping_add((part.1 - part.0) as usize)
                    } else {
                        so_far
                    },
                    after,
                    wiped,
                )
        }
    }
}

/// What a caller names of each marked mapping was reset in place.
#[verifier::opaque]
pub open spec fn mappings_wiped<
    P: PageManagementProvider<ALIGN>,
    const ALIGN: usize,
    F: Fn(Range<usize>, VmFlags) -> Vec<Range<usize>>,
>(
    platform: &P,
    before: VmemModel,
    mappings: Seq<(int, int, VmFlags)>,
    restrict: F,
    so_far: usize,
    after: VmemModel,
    wiped: usize,
) -> bool
    decreases mappings.len(),
{
    if mappings.len() == 0 {
        after == before && wiped == so_far
    } else {
        let (start, end, flags) = mappings[0];
        if !is_wiped(flags) {
            mappings_wiped(
                platform,
                before,
                mappings.drop_first(),
                restrict,
                so_far,
                after,
                wiped,
            )
        } else {
            exists|parts: Vec<Range<usize>>, mid: VmemModel, count: usize|
                #[trigger] call_ensures(restrict, (span(start, end), flags), parts)
                    && #[trigger] parts_wiped(
                    platform,
                    before,
                    (start, end),
                    spans(parts@),
                    so_far,
                    mid,
                    count,
                ) && mappings_wiped(
                    platform,
                    mid,
                    mappings.drop_first(),
                    restrict,
                    count,
                    after,
                    wiped,
                )
        }
    }
}

/// Parts of one mapping were given to a view as fresh pages of its own; `wiped` counts their bytes,
/// from what was counted `so_far`.
#[verifier::opaque]
pub open spec fn parts_renewed<P: PageManagementProvider<ALIGN>, const ALIGN: usize>(
    before: DomainModel,
    view: VmViewId,
    mapping: (int, int),
    permissions: MemoryRegionPermissions,
    parts: Seq<(int, int)>,
    so_far: usize,
    after: DomainModel,
    wiped: usize,
) -> bool
    decreases parts.len(),
{
    if parts.len() == 0 {
        after == before && wiped == so_far
    } else {
        let part = clamped(parts[0], mapping);
        if part.0 >= part.1 {
            parts_renewed::<P, ALIGN>(
                before,
                view,
                mapping,
                permissions,
                parts.drop_first(),
                so_far,
                after,
                wiped,
            )
        } else {
            exists|answer: Result<(), PermissionUpdateError>| #[trigger]
                materialize_asked::<P, ALIGN>(Seq::empty(), view, part, permissions, answer)
                    && parts_renewed::<P, ALIGN>(
                    if answer is Ok {
                        present_confirmed(before, view, part.0, part.1).0
                    } else {
                        before
                    },
                    view,
                    mapping,
                    permissions,
                    parts.drop_first(),
                    if answer is Ok {
                        so_far.wrapping_add((part.1 - part.0) as usize)
                    } else {
                        so_far
                    },
                    after,
                    wiped,
                )
        }
    }
}

/// What a caller names of each marked mapping was given to a view as fresh pages.
#[verifier::opaque]
pub open spec fn mappings_renewed<
    P: PageManagementProvider<ALIGN>,
    const ALIGN: usize,
    F: Fn(Range<usize>, VmFlags) -> Vec<Range<usize>>,
>(
    before: DomainModel,
    view: VmViewId,
    mappings: Seq<(int, int, VmFlags)>,
    restrict: F,
    so_far: usize,
    after: DomainModel,
    wiped: usize,
) -> bool
    decreases mappings.len(),
{
    if mappings.len() == 0 {
        after == before && wiped == so_far
    } else {
        let (start, end, flags) = mappings[0];
        if !is_renewed(flags) {
            mappings_renewed::<P, ALIGN, F>(
                before,
                view,
                mappings.drop_first(),
                restrict,
                so_far,
                after,
                wiped,
            )
        } else {
            exists|parts: Vec<Range<usize>>, mid: DomainModel, count: usize|
                #[trigger] call_ensures(restrict, (span(start, end), flags), parts)
                    && #[trigger] parts_renewed::<P, ALIGN>(
                    before,
                    view,
                    (start, end),
                    permissions_of(flags),
                    spans(parts@),
                    so_far,
                    mid,
                    count,
                ) && mappings_renewed::<P, ALIGN, F>(
                    mid,
                    view,
                    mappings.drop_first(),
                    restrict,
                    count,
                    after,
                    wiped,
                )
        }
    }
}
impl<P: PageManagementProvider<ALIGN> + 'static, const ALIGN: usize> PageManager<P, ALIGN> {
    /// Resets parts of one mapping in place.
    fn wipe_parts(
        &mut self,
        start: usize,
        end: usize,
        parts: &Vec<Range<usize>>,
        so_far: usize,
    ) -> (wiped: usize)
        requires
            old(self).wf(),
        ensures
            final(self).follows(old(self)),
            final(self)@.domain == old(self)@.domain,
            parts_wiped(
                final(self).platform(),
                old(self)@.vmem,
                (start as int, end as int),
                spans(parts@),
                so_far,
                final(self)@.vmem,
                wiped,
            ),
    {
        let ghost platform = self.platform();
        let ghost first = self@.vmem;
        let ghost list = spans(parts@);
        let ghost mapping = (start as int, end as int);
        let mut count: usize = so_far;
        let mut i: usize = 0;
        proof {
            assert(list.skip(0) =~= list);
        }
        while i < parts.len()
            invariant
                self.follows(old(self)),
                platform == self.platform(),
                first == old(self)@.vmem,
                self@.domain == old(self)@.domain,
                i <= parts@.len(),
                list == spans(parts@),
                mapping == (start as int, end as int),
                forall|after: VmemModel, wiped: usize| #[trigger]
                    parts_wiped(
                        platform,
                        self@.vmem,
                        mapping,
                        list.skip(i as int),
                        count,
                        after,
                        wiped,
                    ) ==> parts_wiped(platform, first, mapping, list, so_far, after, wiped),
            decreases parts@.len() - i,
        {
            let ghost here = self@.vmem;
            let ghost counted = count;
            let ghost rest = list.skip(i as int);
            let from: usize = if parts[i].start < start {
                start
            } else {
                parts[i].start
            };
            let to: usize = if parts[i].end > end {
                end
            } else {
                parts[i].end
            };
            let ghost part = (from as int, to as int);
            proof {
                assert(rest[0] == list[i as int]);
                assert(rest.drop_first() =~= list.skip(i + 1));
                assert(clamped(rest[0], mapping) == part);
            }
            if let Some(range) = PageRange::<ALIGN>::new(from, to) {
                let outcome = self.vmem.reset_pages(range, true);
                self.sync();
                proof {
                    assert(reset(platform, here, part.0, part.1, self@.vmem, outcome));
                }
                if outcome.is_ok() {
                    count = count.wrapping_add(to - from);
                }
                proof {
                    let mid = self@.vmem;
                    assert forall|after: VmemModel, wiped: usize| #[trigger]
                        parts_wiped(
                            platform,
                            mid,
                            mapping,
                            list.skip(i + 1),
                            count,
                            after,
                            wiped,
                        ) implies parts_wiped(
                        platform,
                        first,
                        mapping,
                        list,
                        so_far,
                        after,
                        wiped,
                    ) by {
                        reveal(parts_wiped);
                        assert(reset(platform, here, part.0, part.1, mid, outcome));
                        assert(parts_wiped(platform, here, mapping, rest, counted, after, wiped));
                    }
                }
            } else {
                proof {
                    assert forall|after: VmemModel, wiped: usize| #[trigger]
                        parts_wiped(
                            platform,
                            here,
                            mapping,
                            list.skip(i + 1),
                            count,
                            after,
                            wiped,
                        ) implies parts_wiped(
                        platform,
                        first,
                        mapping,
                        list,
                        so_far,
                        after,
                        wiped,
                    ) by {
                        reveal(parts_wiped);
                        assert(parts_wiped(platform, here, mapping, rest, counted, after, wiped));
                    }
                }
            }
            i += 1;
        }
        proof {
            reveal(parts_wiped);
            assert(parts_wiped(
                platform,
                self@.vmem,
                mapping,
                list.skip(i as int),
                count,
                self@.vmem,
                count,
            ));
        }
        count
    }

    /// Gives the child of a fork its view of memory marked to be wiped: every marked, writable,
    /// private mapping is dropped and re-created zero-filled, keeping its flags, the mark among them.
    ///
    /// It works on the pages that the child goes on to use, so whatever the parent needs of them
    /// must be saved before. `restrict` names the parts of each marked mapping that belong to the
    /// forking process; parts are cut off at their mapping. A piece that cannot be wiped is left as
    /// it is.
    ///
    /// Returns the number of bytes wiped.
    pub fn wipe_on_fork_child<F: Fn(Range<usize>, VmFlags) -> Vec<Range<usize>>>(
        &mut self,
        restrict: F,
    ) -> (wiped: usize)
        requires
            old(self).wf(),
            forall|range: Range<usize>, flags: VmFlags| #[trigger]
                call_requires(restrict, (range, flags)),
        ensures
            final(self).follows(old(self)),
            final(self)@.domain == old(self)@.domain,
            exists|list: Seq<(Range<usize>, VmFlags)>| #[trigger]
                lists_marked(list, old(self)@.vmem.areas, VmFlags::VM_WIPEONFORK) && mappings_wiped(
                    final(self).platform(),
                    old(self)@.vmem,
                    marked_entries(list),
                    restrict,
                    0,
                    final(self)@.vmem,
                    wiped,
                ),
    {
        let found = self.ranges_to_wipe_on_fork();
        let ghost platform = self.platform();
        let ghost first = self@.vmem;
        let ghost list = marked_entries(found@);
        let mut count: usize = 0;
        let mut i: usize = 0;
        proof {
            assert(list.skip(0) =~= list);
            assert(lists_marked(found@, first.areas, VmFlags::VM_WIPEONFORK));
        }
        while i < found.len()
            invariant
                self.follows(old(self)),
                platform == self.platform(),
                first == old(self)@.vmem,
                self@.domain == old(self)@.domain,
                i <= found@.len(),
                list == marked_entries(found@),
                forall|range: Range<usize>, flags: VmFlags| #[trigger]
                    call_requires(restrict, (range, flags)),
                forall|after: VmemModel, wiped: usize| #[trigger]
                    mappings_wiped(
                        platform,
                        self@.vmem,
                        list.skip(i as int),
                        restrict,
                        count,
                        after,
                        wiped,
                    ) ==> mappings_wiped(platform, first, list, restrict, 0, after, wiped),
            decreases found@.len() - i,
        {
            let ghost here = self@.vmem;
            let ghost counted = count;
            let ghost rest = list.skip(i as int);
            let (start, end, flags) = (found[i].0.start, found[i].0.end, found[i].1);
            proof {
                assert(rest[0] == list[i as int]);
                assert(rest.drop_first() =~= list.skip(i + 1));
                assert(rest[0] == (start as int, end as int, flags));
            }
            if flags.contains(VmFlags::VM_SHARED) || flags.contains(VmFlags::VM_DEFERRED)
                || !flags.contains(VmFlags::VM_WRITE) {
                proof {
                    assert forall|after: VmemModel, wiped: usize| #[trigger]
                        mappings_wiped(
                            platform,
                            here,
                            list.skip(i + 1),
                            restrict,
                            count,
                            after,
                            wiped,
                        ) implies mappings_wiped(platform, first, list, restrict, 0, after, wiped) by {
                        reveal(mappings_wiped);
                        assert(mappings_wiped(platform, here, rest, restrict, counted, after, wiped));
                    }
                }
            } else {
                let parts = restrict(start..end, flags);
                proof {
                    assert(call_ensures(
                        restrict,
                        (span(start as int, end as int), flags),
                        parts,
                    ));
                }
                count = self.wipe_parts(start, end, &parts, count);
                proof {
                    let mid = self@.vmem;
                    assert forall|after: VmemModel, wiped: usize| #[trigger]
                        mappings_wiped(
                            platform,
                            mid,
                            list.skip(i + 1),
                            restrict,
                            count,
                            after,
                            wiped,
                        ) implies mappings_wiped(platform, first, list, restrict, 0, after, wiped) by {
                        reveal(mappings_wiped);
                        assert(mappings_wiped(platform, here, rest, restrict, counted, after, wiped));
                    }
                }
            }
            i += 1;
        }
        proof {
            reveal(mappings_wiped);
            assert(mappings_wiped(
                platform,
                self@.vmem,
                list.skip(i as int),
                restrict,
                count,
                self@.vmem,
                count,
            ));
        }
        count
    }

    /// Gives a view fresh pages of its own for parts of one mapping.
    fn renew_parts(
        &mut self,
        view: VmViewId,
        start: usize,
        end: usize,
        permissions: MemoryRegionPermissions,
        parts: &Vec<Range<usize>>,
        so_far: usize,
    ) -> (wiped: usize)
        requires
            old(self).wf(),
        ensures
            final(self).follows(old(self)),
            final(self)@.vmem == old(self)@.vmem,
            parts_renewed::<P, ALIGN>(
                old(self)@.domain,
                view,
                (start as int, end as int),
                permissions,
                spans(parts@),
                so_far,
                final(self)@.domain,
                wiped,
            ),
    {
        let ghost first = self@.domain;
        let ghost list = spans(parts@);
        let ghost mapping = (start as int, end as int);
        let mut count: usize = so_far;
        let mut i: usize = 0;
        proof {
            assert(list.skip(0) =~= list);
        }
        while i < parts.len()
            invariant
                self.follows(old(self)),
                first == old(self)@.domain,
                self@.vmem == old(self)@.vmem,
                i <= parts@.len(),
                list == spans(parts@),
                mapping == (start as int, end as int),
                forall|after: DomainModel, wiped: usize| #[trigger]
                    parts_renewed::<P, ALIGN>(
                        self@.domain,
                        view,
                        mapping,
                        permissions,
                        list.skip(i as int),
                        count,
                        after,
                        wiped,
                    ) ==> parts_renewed::<P, ALIGN>(
                        first,
                        view,
                        mapping,
                        permissions,
                        list,
                        so_far,
                        after,
                        wiped,
                    ),
            decreases parts@.len() - i,
        {
            let ghost here = self@.domain;
            let ghost counted = count;
            let ghost rest = list.skip(i as int);
            let from: usize = if parts[i].start < start {
                start
            } else {
                parts[i].start
            };
            let to: usize = if parts[i].end > end {
                end
            } else {
                parts[i].end
            };
            let ghost part = (from as int, to as int);
            proof {
                assert(rest[0] == list[i as int]);
                assert(rest.drop_first() =~= list.skip(i + 1));
                assert(clamped(rest[0], mapping) == part);
            }
            if from < to {
                let nobody: Vec<(Range<usize>, VmViewId)> = Vec::new();
                proof {
                    assert(holder_models(nobody@) =~= Seq::empty());
                }
                let answer = Self::materialize(view, from, to, permissions, nobody);
                proof {
                    assert(materialize_asked::<P, ALIGN>(
                        Seq::empty(),
                        view,
                        part,
                        permissions,
                        answer,
                    ));
                }
                if answer.is_ok() {
                    let _ = self.domain.confirm_present_or_reconcile(view, from..to);
                    count = count.wrapping_add(to - from);
                }
                proof {
                    let mid = self@.domain;
                    assert forall|after: DomainModel, wiped: usize| #[trigger]
                        parts_renewed::<P, ALIGN>(
                            mid,
                            view,
                            mapping,
                            permissions,
                            list.skip(i + 1),
                            count,
                            after,
                            wiped,
                        ) implies parts_renewed::<P, ALIGN>(
                        first,
                        view,
                        mapping,
                        permissions,
                        list,
                        so_far,
                        after,
                        wiped,
                    ) by {
                        reveal(parts_renewed);
                        assert(parts_renewed::<P, ALIGN>(
                            here,
                            view,
                            mapping,
                            permissions,
                            rest,
                            counted,
                            after,
                            wiped,
                        ));
                    }
                }
            } else {
                proof {
                    assert forall|after: DomainModel, wiped: usize| #[trigger]
                        parts_renewed::<P, ALIGN>(
                            here,
                            view,
                            mapping,
                            permissions,
                            list.skip(i + 1),
                            count,
                            after,
                            wiped,
                        ) implies parts_renewed::<P, ALIGN>(
                        first,
                        view,
                        mapping,
                        permissions,
                        list,
                        so_far,
                        after,
                        wiped,
                    ) by {
                        reveal(parts_renewed);
                        assert(parts_renewed::<P, ALIGN>(
                            here,
                            view,
                            mapping,
                            permissions,
                            rest,
                            counted,
                            after,
                            wiped,
                        ));
                    }
                }
            }
            i += 1;
        }
        proof {
            reveal(parts_renewed);
            assert(parts_renewed::<P, ALIGN>(
                self@.domain,
                view,
                mapping,
                permissions,
                list.skip(i as int),
                count,
                self@.domain,
                count,
            ));
        }
        count
    }

    /// Gives a freshly forked child with an address space of its own its view of memory marked to
    /// be wiped: fresh zero-filled pages of its own, published as its own. The parent keeps its
    /// contents.
    ///
    /// `restrict` names the parts of each marked mapping that belong to the forking process. Returns
    /// the number of bytes zeroed in the child's view.
    pub fn wipe_on_fork_child_view<F: Fn(Range<usize>, VmFlags) -> Vec<Range<usize>>>(
        &mut self,
        view: VmViewId,
        restrict: F,
    ) -> (wiped: usize)
        requires
            old(self).wf(),
            forall|range: Range<usize>, flags: VmFlags| #[trigger]
                call_requires(restrict, (range, flags)),
        ensures
            final(self).follows(old(self)),
            final(self)@.vmem == old(self)@.vmem,
            exists|list: Seq<(Range<usize>, VmFlags)>| #[trigger]
                lists_marked(list, old(self)@.vmem.areas, VmFlags::VM_WIPEONFORK)
                    && mappings_renewed::<P, ALIGN, F>(
                    old(self)@.domain,
                    view,
                    marked_entries(list),
                    restrict,
                    0,
                    final(self)@.domain,
                    wiped,
                ),
    {
        let found = self.ranges_to_wipe_on_fork();
        let ghost first = self@.domain;
        let ghost list = marked_entries(found@);
        let mut count: usize = 0;
        let mut i: usize = 0;
        proof {
            assert(list.skip(0) =~= list);
            assert(lists_marked(found@, old(self)@.vmem.areas, VmFlags::VM_WIPEONFORK));
        }
        while i < found.len()
            invariant
                self.follows(old(self)),
                first == old(self)@.domain,
                self@.vmem == old(self)@.vmem,
                i <= found@.len(),
                list == marked_entries(found@),
                forall|range: Range<usize>, flags: VmFlags| #[trigger]
                    call_requires(restrict, (range, flags)),
                forall|after: DomainModel, wiped: usize| #[trigger]
                    mappings_renewed::<P, ALIGN, F>(
                        self@.domain,
                        view,
                        list.skip(i as int),
                        restrict,
                        count,
                        after,
                        wiped,
                    ) ==> mappings_renewed::<P, ALIGN, F>(
                        first,
                        view,
                        list,
                        restrict,
                        0,
                        after,
                        wiped,
                    ),
            decreases found@.len() - i,
        {
            let ghost here = self@.domain;
            let ghost counted = count;
            let ghost rest = list.skip(i as int);
            let (start, end, flags) = (found[i].0.start, found[i].0.end, found[i].1);
            proof {
                assert(rest[0] == list[i as int]);
                assert(rest.drop_first() =~= list.skip(i + 1));
                assert(rest[0] == (start as int, end as int, flags));
            }
            if flags.contains(VmFlags::VM_SHARED) || flags.contains(VmFlags::VM_DEFERRED) {
                proof {
                    assert forall|after: DomainModel, wiped: usize| #[trigger]
                        mappings_renewed::<P, ALIGN, F>(
                            here,
                            view,
                            list.skip(i + 1),
                            restrict,
                            count,
                            after,
                            wiped,
                        ) implies mappings_renewed::<P, ALIGN, F>(
                        first,
                        view,
                        list,
                        restrict,
                        0,
                        after,
                        wiped,
                    ) by {
                        reveal(mappings_renewed);
                        assert(mappings_renewed::<P, ALIGN, F>(
                            here,
                            view,
                            rest,
                            restrict,
                            counted,
                            after,
                            wiped,
                        ));
                    }
                }
            } else {
                let parts = restrict(start..end, flags);
                proof {
                    assert(call_ensures(
                        restrict,
                        (span(start as int, end as int), flags),
                        parts,
                    ));
                }
                count = self.renew_parts(
                    view,
                    start,
                    end,
                    MemoryRegionPermissions::from_flags(flags),
                    &parts,
                    count,
                );
                proof {
                    let mid = self@.domain;
                    assert forall|after: DomainModel, wiped: usize| #[trigger]
                        mappings_renewed::<P, ALIGN, F>(
                            mid,
                            view,
                            list.skip(i + 1),
                            restrict,
                            count,
                            after,
                            wiped,
                        ) implies mappings_renewed::<P, ALIGN, F>(
                        first,
                        view,
                        list,
                        restrict,
                        0,
                        after,
                        wiped,
                    ) by {
                        reveal(mappings_renewed);
                        assert(mappings_renewed::<P, ALIGN, F>(
                            here,
                            view,
                            rest,
                            restrict,
                            counted,
                            after,
                            wiped,
                        ));
                    }
                }
            }
            i += 1;
        }
        proof {
            reveal(mappings_renewed);
            assert(mappings_renewed::<P, ALIGN, F>(
                self@.domain,
                view,
                list.skip(i as int),
                restrict,
                count,
                self@.domain,
                count,
            ));
        }
        count
    }
}

} // verus!
