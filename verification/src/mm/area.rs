//! Virtual memory areas and what tells two of them apart.
use crate::mm::flags::VmFlags;
use crate::range_table::Coded;
use vstd::prelude::*;

verus! {

/// A source of shared-backing identities. One source serves a whole process; an address space takes
/// blocks of identities from it, so that no two of them ever issue the same one.
pub struct SharedFutexIds {
    next: usize,
    end: usize,
}

impl SharedFutexIds {
    /// The identity that the next backing will get.
    pub closed spec fn next(&self) -> usize {
        self.next
    }

    /// The first identity past the last one that can be issued.
    pub closed spec fn end(&self) -> usize {
        self.end
    }

    /// Zero is no identity.
    pub open spec fn wf(&self) -> bool {
        1 <= self.next() <= self.end()
    }

    /// The source may still issue an identity.
    pub open spec fn can_issue(&self, identity: usize) -> bool {
        self.next() <= identity < self.end()
    }

    /// The source of all identities of a process: 1, 2, 3, ...
    pub fn new() -> (source: Self)
        ensures
            source.wf(),
            source.next() == 1,
            source.end() == usize::MAX,
    {
        SharedFutexIds { next: 1, end: usize::MAX }
    }

    /// How many identities can still be issued.
    pub fn left(&self) -> (left: usize)
        requires
            self.wf(),
        ensures
            left == self.end() - self.next(),
    {
        self.end - self.next
    }

    /// Takes the next `len` identities out of this source, as a source of their own: what the one
    /// issues, the other never does. There must be as many left.
    pub fn block(&mut self, len: usize) -> (block: Self)
        requires
            old(self).wf(),
            old(self).next() + len <= old(self).end(),
        ensures
            final(self).wf(),
            block.wf(),
            block.next() == old(self).next(),
            block.end() == old(self).next() + len,
            final(self).next() == old(self).next() + len,
            final(self).end() == old(self).end(),
            forall|identity: usize|
                old(self).can_issue(identity) <==> (#[trigger] block.can_issue(identity)
                    || final(self).can_issue(identity)),
            forall|identity: usize|
                !(#[trigger] block.can_issue(identity) && final(self).can_issue(identity)),
    {
        let next: usize = self.next;
        let end: usize = next + len;
        self.next = end;
        SharedFutexIds { next, end }
    }
}

/// Stable identity of one shared memory backing object.
#[derive(Clone, Copy, Debug, PartialEq, Eq, Structural)]
pub struct SharedFutexBacking {
    identity: usize,
}

impl SharedFutexBacking {
    /// The identity of this backing.
    pub closed spec fn id(&self) -> usize {
        self.identity
    }

    /// Allocates an identity that its source never hands out again. The source must not be
    /// exhausted.
    pub fn new(source: &mut SharedFutexIds) -> (backing: Self)
        requires
            old(source).wf(),
            old(source).next() < old(source).end(),
        ensures
            final(source).wf(),
            backing.id() == old(source).next(),
            backing.id() >= 1,
            final(source).next() == old(source).next() + 1,
            final(source).end() == old(source).end(),
            forall|identity: usize| #[trigger]
                final(source).can_issue(identity) <==> old(source).can_issue(identity) && identity
                    != backing.id(),
    {
        let identity: usize = source.next;
        source.next = identity + 1;
        SharedFutexBacking { identity }
    }

    /// Returns this backing object's stable identity.
    pub fn identity(self) -> (identity: usize)
        ensures
            identity == self.id(),
    {
        self.identity
    }
}

/// Identities never repeat: what a source issues later, itself or through a block that was taken from
/// it, is not what it issued before. `later` stands for any source that can issue no more than
/// `after` could once the first backing was allocated.
pub proof fn lemma_identities_never_repeat(
    before: SharedFutexIds,
    after: SharedFutexIds,
    first: SharedFutexBacking,
    later: SharedFutexIds,
    second: SharedFutexBacking,
)
    requires
        before.can_issue(first.id()),
        forall|identity: usize| #[trigger]
            after.can_issue(identity) <==> before.can_issue(identity) && identity != first.id(),
        forall|identity: usize| #[trigger] later.can_issue(identity) ==> after.can_issue(identity),
        later.can_issue(second.id()),
    ensures
        first.id() != second.id(),
        first != second,
{
}

/// Never-reused identity of a mapping while its initialization callback runs.
#[derive(Clone, Copy, Debug, PartialEq, Eq, Structural)]
pub struct InitializationId {
    pub raw: usize,
}

/// Where a shared backing sits relative to the addresses that show it.
#[derive(Clone, Copy, Debug, PartialEq, Eq, Structural)]
pub enum SharedFutexPosition {
    /// Not placed yet: the backing offset that the mapping's first byte will show.
    PendingOffset(usize),
    /// Placed: the address at which backing offset 0 would sit.
    Origin(usize),
}

/// The shared backing of a mapping.
#[derive(Clone, Copy, Debug, PartialEq, Eq, Structural)]
pub struct SharedFutexMapping {
    pub identity: usize,
    pub position: SharedFutexPosition,
}

/// Virtual memory area
#[derive(Clone, Copy, Debug, PartialEq, Eq, Structural)]
pub struct VmArea {
    /// Flags describing the properties of the memory region.
    pub flags: VmFlags,
    /// Whether this area is backed by a file
    pub is_file_backed: bool,
    /// Identity and original virtual origin of shared backing, used to derive futex keys that
    /// survive virtual-address moves without aliasing unrelated shared mappings.
    pub shared_futex: Option<SharedFutexMapping>,
    /// Distinguishes adjacent mappings while either initialization still owns its exact range.
    pub initialization: Option<InitializationId>,
}

/// A fresh area over an optional backing at an offset.
pub open spec fn new_area(flags: u32, is_file_backed: bool, backing: Option<(usize, usize)>) -> VmArea {
    VmArea {
        flags: VmFlags { bits: flags },
        is_file_backed,
        shared_futex: match backing {
            Some((identity, offset)) => Some(
                SharedFutexMapping {
                    identity,
                    position: SharedFutexPosition::PendingOffset(offset),
                },
            ),
            None => None,
        },
        initialization: None,
    }
}

impl VmArea {
    /// Get the flags of this memory area.
    pub fn flags(self) -> (flags: VmFlags)
        ensures
            flags == self.flags,
    {
        self.flags
    }

    /// Check if this area is backed by a file.
    pub fn is_file_backed(self) -> (yes: bool)
        ensures
            yes == self.is_file_backed,
    {
        self.is_file_backed
    }

    /// Create a new [`VmArea`] with the given flags.
    pub fn new(
        flags: VmFlags,
        is_file_backed: bool,
        shared_futex_backing: Option<(SharedFutexBacking, usize)>,
    ) -> (area: Self)
        ensures
            area == new_area(
                flags.bits,
                is_file_backed,
                match shared_futex_backing {
                    Some((backing, offset)) => Some((backing.id(), offset)),
                    None => None,
                },
            ),
    {
        VmArea {
            flags,
            is_file_backed,
            shared_futex: match shared_futex_backing {
                Some((backing, offset)) => Some(
                    SharedFutexMapping {
                        identity: backing.identity,
                        position: SharedFutexPosition::PendingOffset(offset),
                    },
                ),
                None => None,
            },
            initialization: None,
        }
    }

    /// The same area with other flags.
    pub fn with_flags(self, flags: VmFlags) -> (area: Self)
        ensures
            area == (VmArea { flags, ..self }),
    {
        VmArea {
            flags,
            is_file_backed: self.is_file_backed,
            shared_futex: self.shared_futex,
            initialization: self.initialization,
        }
    }
}

/// What a mutation in flight is about to do to a fragment of the mapping table.
#[derive(Clone, Copy, Debug, PartialEq, Eq, Structural)]
pub enum Transient {
    /// An install is in flight; `publish` is the area the fragment will carry.
    Installing { publish: VmArea },
    /// A teardown is in flight; `restore` is the area the fragment carried before.
    Retiring { restore: VmArea },
}

impl Coded for InitializationId {
    type Model = InitializationId;

    open spec fn model(&self) -> InitializationId {
        *self
    }

    open spec fn code(model: InitializationId) -> Seq<u64> {
        seq![model.raw as u64]
    }

    open spec fn decoded(words: Seq<u64>) -> InitializationId {
        InitializationId { raw: words[0] as usize }
    }

    proof fn lemma_round_trip(model: InitializationId) {
    }

    fn encode(&self) -> (words: Vec<u64>) {
        let words = vec![self.raw as u64];
        proof {
            assert(words@ =~= Self::code(self.model()));
        }
        words
    }

    fn decode(words: &Vec<u64>) -> (value: Self) {
        InitializationId { raw: words[0] as usize }
    }
}

impl Coded for VmArea {
    type Model = VmArea;

    open spec fn model(&self) -> VmArea {
        *self
    }

    open spec fn code(model: VmArea) -> Seq<u64> {
        let futex: (u64, u64, u64) = match model.shared_futex {
            None => (0, 0, 0),
            Some(shared) => match shared.position {
                SharedFutexPosition::PendingOffset(offset) => (1, shared.identity as u64, offset as u64),
                SharedFutexPosition::Origin(origin) => (2, shared.identity as u64, origin as u64),
            },
        };
        let initialization: (u64, u64) = match model.initialization {
            None => (0, 0),
            Some(id) => (1, id.raw as u64),
        };
        seq![
            model.flags.bits as u64,
            if model.is_file_backed { 1 } else { 0 },
            futex.0,
            futex.1,
            futex.2,
            initialization.0,
            initialization.1,
        ]
    }

    open spec fn decoded(words: Seq<u64>) -> VmArea {
        VmArea {
            flags: VmFlags { bits: words[0] as u32 },
            is_file_backed: words[1] == 1,
            shared_futex: if words[2] == 0 {
                None
            } else {
                Some(
                    SharedFutexMapping {
                        identity: words[3] as usize,
                        position: if words[2] == 1 {
                            SharedFutexPosition::PendingOffset(words[4] as usize)
                        } else {
                            SharedFutexPosition::Origin(words[4] as usize)
                        },
                    },
                )
            },
            initialization: if words[5] == 0 {
                None
            } else {
                Some(InitializationId { raw: words[6] as usize })
            },
        }
    }

    proof fn lemma_round_trip(model: VmArea) {
    }

    fn encode(&self) -> (words: Vec<u64>) {
        let futex: (u64, u64, u64) = match self.shared_futex {
            None => (0, 0, 0),
            Some(shared) => match shared.position {
                SharedFutexPosition::PendingOffset(offset) => (1, shared.identity as u64, offset as u64),
                SharedFutexPosition::Origin(origin) => (2, shared.identity as u64, origin as u64),
            },
        };
        let initialization: (u64, u64) = match self.initialization {
            None => (0, 0),
            Some(id) => (1, id.raw as u64),
        };
        let words = vec![
            self.flags.bits as u64,
            if self.is_file_backed { 1 } else { 0 },
            futex.0,
            futex.1,
            futex.2,
            initialization.0,
            initialization.1,
        ];
        proof {
            assert(words@ =~= Self::code(self.model()));
        }
        words
    }

    fn decode(words: &Vec<u64>) -> (value: Self) {
        proof {
            assert(words@.subrange(0, 7) =~= words@);
        }
        area_from_words(words, 0)
    }
}

/// Reads back the seven words of an area that start at a position.
fn area_from_words(words: &Vec<u64>, at: usize) -> (area: VmArea)
    requires
        at + 7 <= words.len(),
    ensures
        area == VmArea::decoded(words@.subrange(at as int, at + 7)),
{
    VmArea {
        flags: VmFlags { bits: words[at] as u32 },
        is_file_backed: words[at + 1] == 1,
        shared_futex: if words[at + 2] == 0 {
            None
        } else {
            Some(
                SharedFutexMapping {
                    identity: words[at + 3] as usize,
                    position: if words[at + 2] == 1 {
                        SharedFutexPosition::PendingOffset(words[at + 4] as usize)
                    } else {
                        SharedFutexPosition::Origin(words[at + 4] as usize)
                    },
                },
            )
        },
        initialization: if words[at + 5] == 0 {
            None
        } else {
            Some(InitializationId { raw: words[at + 6] as usize })
        },
    }
}

impl Coded for Transient {
    type Model = Transient;

    open spec fn model(&self) -> Transient {
        *self
    }

    open spec fn code(model: Transient) -> Seq<u64> {
        match model {
            Transient::Installing { publish } => seq![0u64] + VmArea::code(publish),
            Transient::Retiring { restore } => seq![1u64] + VmArea::code(restore),
        }
    }

    open spec fn decoded(words: Seq<u64>) -> Transient {
        if words[0] == 0 {
            Transient::Installing { publish: VmArea::decoded(words.subrange(1, 8)) }
        } else {
            Transient::Retiring { restore: VmArea::decoded(words.subrange(1, 8)) }
        }
    }

    proof fn lemma_round_trip(model: Transient) {
        match model {
            Transient::Installing { publish } => {
                VmArea::lemma_round_trip(publish);
                assert(Self::code(model).subrange(1, 8) =~= VmArea::code(publish));
            },
            Transient::Retiring { restore } => {
                VmArea::lemma_round_trip(restore);
                assert(Self::code(model).subrange(1, 8) =~= VmArea::code(restore));
            },
        }
    }

    fn encode(&self) -> (words: Vec<u64>) {
        let (tag, area): (u64, VmArea) = match self {
            Transient::Installing { publish } => (0, *publish),
            Transient::Retiring { restore } => (1, *restore),
        };
        let mut words = vec![tag];
        let mut tail = area.encode();
        words.append(&mut tail);
        proof {
            assert(words@ =~= Self::code(self.model()));
        }
        words
    }

    fn decode(words: &Vec<u64>) -> (value: Self) {
        let area = area_from_words(words, 1);
        if words[0] == 0 {
            Transient::Installing { publish: area }
        } else {
            Transient::Retiring { restore: area }
        }
    }
}

} // verus!
