//! Never-reused numeric identities.
use vstd::prelude::*;

verus! {

/// Hands out 1, 2, 3, ... until the number space ends.
pub struct IdCounter {
    issued: u64,
}

impl IdCounter {
    /// The largest identity handed out so far; 0 before the first.
    pub closed spec fn issued(&self) -> u64 {
        self.issued
    }

    pub fn new() -> (counter: Self)
        ensures
            counter.issued() == 0,
    {
        IdCounter { issued: 0 }
    }

    /// The next identity: larger than every one before it, never 0. `None` once the space is
    /// exhausted, and then for ever.
    pub fn next(&mut self) -> (id: Option<u64>)
        ensures
            id is None <==> old(self).issued() == u64::MAX,
            id matches Some(n) ==> n == old(self).issued() + 1 && final(self).issued() == n,
            id is None ==> final(self).issued() == old(self).issued(),
    {
        if self.issued == u64::MAX {
            None
        } else {
            self.issued = self.issued + 1;
            Some(self.issued)
        }
    }

    /// How many identities can still be handed out.
    pub fn left(&self) -> (left: u64)
        ensures
            left == u64::MAX - self.issued(),
    {
        u64::MAX - self.issued
    }

    /// Hands out the next `len` identities at once. There must be as many left.
    pub fn block(&mut self, len: u64) -> (block: IdBlock)
        requires
            old(self).issued() + len <= u64::MAX,
        ensures
            final(self).issued() == old(self).issued() + len,
            block.issued() == old(self).issued(),
            block.limit() == old(self).issued() + len,
    {
        let issued: u64 = self.issued;
        self.issued = issued + len;
        IdBlock { issued, limit: issued + len }
    }
}

/// Identities that a counter handed out at once, to be handed out one by one.
pub struct IdBlock {
    issued: u64,
    limit: u64,
}

impl IdBlock {
    /// The largest identity handed out so far, or the one before the first of the block.
    pub closed spec fn issued(&self) -> u64 {
        self.issued
    }

    /// The last identity of the block.
    pub closed spec fn limit(&self) -> u64 {
        self.limit
    }

    /// How many identities are left of the block.
    pub fn left(&self) -> (left: u64)
        requires
            self.issued() <= self.limit(),
        ensures
            left == self.limit() - self.issued(),
    {
        self.limit - self.issued
    }

    /// The next identity: larger than every one before it, never 0. `None` once the block is used
    /// up, and then for ever.
    pub fn next(&mut self) -> (id: Option<u64>)
        ensures
            final(self).limit() == old(self).limit(),
            id is None <==> old(self).issued() >= old(self).limit(),
            id matches Some(n) ==> n == old(self).issued() + 1 && final(self).issued() == n,
            id is None ==> final(self).issued() == old(self).issued(),
    {
        if self.issued >= self.limit {
            None
        } else {
            self.issued = self.issued + 1;
            Some(self.issued)
        }
    }
}

/// Two blocks of one counter have no identity in common, and neither has one in common with what the
/// counter hands out after them.
pub proof fn lemma_blocks_are_apart(
    before: IdCounter,
    first: IdBlock,
    between: IdCounter,
    second: IdBlock,
    after: IdCounter,
    id: u64,
)
    requires
        first.issued() == before.issued(),
        first.limit() == between.issued(),
        second.issued() >= between.issued(),
        second.limit() == after.issued(),
        second.issued() <= second.limit(),
        first.issued() < id <= first.limit(),
    ensures
        !(second.issued() < id <= second.limit()),
        id <= after.issued(),
{
}

/// One guest address-space view.
#[derive(Clone, Copy, Debug, PartialEq, Eq, Structural)]
pub struct VmViewId {
    pub raw: u64,
}

/// One lineage-related group of views that share an address-range table.
#[derive(Clone, Copy, Debug, PartialEq, Eq, Structural)]
pub struct FamilyId {
    pub raw: u64,
}

/// One claimed hole, across all of its installs and retirements.
#[derive(Clone, Copy, Debug, PartialEq, Eq, Structural)]
pub struct HoleGenerationId {
    pub raw: u64,
}

/// One change of the address-range domain.
#[derive(Clone, Copy, Debug, PartialEq, Eq, Structural)]
pub struct MutationId {
    pub raw: u64,
}

/// One recorded failure.
#[derive(Clone, Copy, Debug, PartialEq, Eq, Structural)]
pub struct FailureId {
    pub raw: u64,
}

/// One memory-effect session.
#[derive(Clone, Copy, Debug, PartialEq, Eq, Structural)]
pub struct MemorySessionId {
    pub raw: u64,
}

/// One position in the order of effects.
#[derive(Clone, Copy, Debug, PartialEq, Eq, Structural)]
pub struct EffectEpoch {
    pub raw: u64,
}

/// One guest task.
#[derive(Clone, Copy, Debug, PartialEq, Eq, Structural)]
pub struct TaskInstanceId {
    pub raw: u64,
}

/// One guest process.
#[derive(Clone, Copy, Debug, PartialEq, Eq, Structural)]
pub struct ProcessInstanceId {
    pub raw: u64,
}

/// One domain of guest virtual addresses.
#[derive(Clone, Copy, Debug, PartialEq, Eq, Structural)]
pub struct MemoryDomainId {
    pub raw: u64,
}

/// One captured private backing.
#[derive(Clone, Copy, Debug, PartialEq, Eq, Structural)]
pub struct BackingGenerationId {
    pub raw: u64,
}

} // verus!
