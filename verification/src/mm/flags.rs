//! The flag sets of mappings, of mapping requests and of page permissions.
use vstd::prelude::*;

verus! {

/// The properties of a memory region.
#[derive(Clone, Copy, Debug, PartialEq, Eq, Structural)]
pub struct VmFlags {
    pub bits: u32,
}

/// The access that the platform grants on a memory region.
#[derive(Clone, Copy, Debug, PartialEq, Eq, Structural)]
pub struct MemoryRegionPermissions {
    pub bits: u8,
}

/// Options for page creation.
#[derive(Clone, Copy, Debug, PartialEq, Eq, Structural)]
pub struct CreatePagesFlags {
    pub bits: u8,
}

/// All bits of `mask` are set in `bits`.
pub open spec fn carries(bits: u32, mask: u32) -> bool {
    bits & mask == mask
}

/// What the flags are as bits: each of them is one bit, which is set or is not.
pub proof fn lemma_single_flag(bits: u32)
    ensures
        carries(bits, VmFlags::VM_READ) <==> bits & 0x1 != 0,
        carries(bits, VmFlags::VM_WRITE) <==> bits & 0x2 != 0,
        carries(bits, VmFlags::VM_EXEC) <==> bits & 0x4 != 0,
        carries(bits, VmFlags::VM_SHARED) <==> bits & 0x8 != 0,
        carries(bits, VmFlags::VM_GROWSDOWN) <==> bits & 0x100 != 0,
        carries(bits, VmFlags::VM_DEFERRED) <==> bits & 0x200 != 0,
        carries(bits, VmFlags::VM_WIPEONFORK) <==> bits & 0x400 != 0,
        carries(bits, VmFlags::VM_DONTCOPY) <==> bits & 0x800 != 0,
        VmFlags::VM_ACCESS_FLAGS == 0x7,
        VmFlags::VM_MAYREAD == 0x10,
        VmFlags::VM_MAYWRITE == 0x20,
        VmFlags::VM_MAYEXEC == 0x40,
        VmFlags::VM_MAYSHARE == 0x80,
{
    assert((bits & 0x1 == 0x1 <==> bits & 0x1 != 0) && (bits & 0x2 == 0x2 <==> bits & 0x2 != 0) && (bits & 0x4
        == 0x4 <==> bits & 0x4 != 0) && (bits & 0x8 == 0x8 <==> bits & 0x8 != 0) && (bits & 0x100 == 0x100
        <==> bits & 0x100 != 0) && (bits & 0x200 == 0x200 <==> bits & 0x200 != 0) && (bits & 0x400 == 0x400
        <==> bits & 0x400 != 0) && (bits & 0x800 == 0x800 <==> bits & 0x800 != 0)) by (bit_vector);
}

/// All bits of `mask` are set in `bits`.
pub open spec fn carries8(bits: u8, mask: u8) -> bool {
    bits & mask == mask
}

impl VmFlags {
    /// Readable.
    pub const VM_READ: u32 = 0x1;

    /// Writable.
    pub const VM_WRITE: u32 = 0x2;

    /// Executable.
    pub const VM_EXEC: u32 = 0x4;

    /// Shared between processes.
    pub const VM_SHARED: u32 = 0x8;

    /// A protection change may turn on reading.
    pub const VM_MAYREAD: u32 = 0x10;

    /// A protection change may turn on writing.
    pub const VM_MAYWRITE: u32 = 0x20;

    /// A protection change may turn on execution.
    pub const VM_MAYEXEC: u32 = 0x40;

    /// A protection change may turn on sharing.
    pub const VM_MAYSHARE: u32 = 0x80;

    /// The area can grow downward upon page fault.
    pub const VM_GROWSDOWN: u32 = 0x100;

    /// The range is reserved in the mapping table only; the platform holds nothing for it yet.
    pub const VM_DEFERRED: u32 = 0x200;

    /// A forked child sees this range zero-filled.
    pub const VM_WIPEONFORK: u32 = 0x400;

    /// This range is absent from a forked child.
    pub const VM_DONTCOPY: u32 = 0x800;

    pub const VM_ACCESS_FLAGS: u32 = 0x7;

    pub const VM_MAY_ACCESS_FLAGS: u32 = 0x70;

    /// Every defined flag.
    pub const ALL: u32 = 0xfff;

    pub fn empty() -> (flags: Self)
        ensures
            flags.bits == 0,
    {
        VmFlags { bits: 0 }
    }

    pub fn bits(self) -> (bits: u32)
        ensures
            bits == self.bits,
    {
        self.bits
    }

    /// The set with exactly these bits; `None` if one of them is not a flag.
    pub fn from_bits(bits: u32) -> (flags: Option<Self>)
        ensures
            flags == (if bits & !VmFlags::ALL == 0 {
                Some(VmFlags { bits })
            } else {
                None
            }),
    {
        if bits & !VmFlags::ALL == 0 {
            Some(VmFlags { bits })
        } else {
            None
        }
    }

    pub fn is_empty(self) -> (empty: bool)
        ensures
            empty == (self.bits == 0),
    {
        self.bits == 0
    }

    pub fn contains(self, mask: u32) -> (all: bool)
        ensures
            all == carries(self.bits, mask),
    {
        self.bits & mask == mask
    }

    pub fn intersection(self, mask: u32) -> (flags: Self)
        ensures
            flags.bits == self.bits & mask,
    {
        VmFlags { bits: self.bits & mask }
    }

    pub fn union(self, mask: u32) -> (flags: Self)
        ensures
            flags.bits == self.bits | mask,
    {
        VmFlags { bits: self.bits | mask }
    }

    /// The set without the flags of `mask`.
    pub fn without(self, mask: u32) -> (flags: Self)
        ensures
            flags.bits == self.bits & !mask,
    {
        VmFlags { bits: self.bits & !mask }
    }

    /// Turns the flags of `mask` on or off.
    pub fn set(&mut self, mask: u32, on: bool)
        ensures
            final(self).bits == set_bits(old(self).bits, mask, on),
    {
        self.bits = if on { self.bits | mask } else { self.bits & !mask };
    }

    /// The default ceiling flags and the sharing flag of a mapping.
    pub fn may_flags_for_mapping(shared: bool, file_backed: bool) -> (flags: Self)
        ensures
            flags.bits == may_flags(shared),
    {
        if shared {
            VmFlags { bits: VmFlags::VM_MAY_ACCESS_FLAGS | VmFlags::VM_SHARED }
        } else {
            VmFlags { bits: VmFlags::VM_MAY_ACCESS_FLAGS }
        }
    }

    /// The access flags that grant `value`. Sharing is not expressible here.
    pub fn from_permissions(value: MemoryRegionPermissions) -> (flags: Self)
        requires
            !carries8(value.bits, MemoryRegionPermissions::SHARED),
        ensures
            flags.bits == access_of(value),
    {
        VmFlags { bits: (value.bits & 7) as u32 }
    }
}

/// `bits` with the flags of `mask` turned on or off.
pub open spec fn set_bits(bits: u32, mask: u32, on: bool) -> u32 {
    if on {
        bits | mask
    } else {
        bits & !mask
    }
}

/// The default ceiling flags and the sharing flag of a mapping.
pub open spec fn may_flags(shared: bool) -> u32 {
    if shared {
        VmFlags::VM_MAY_ACCESS_FLAGS | VmFlags::VM_SHARED
    } else {
        VmFlags::VM_MAY_ACCESS_FLAGS
    }
}

/// The read, write and execute flags of a permission set: the three sit at the same positions in
/// both types.
pub open spec fn access_of(permissions: MemoryRegionPermissions) -> u32 {
    (permissions.bits & 7) as u32
}

/// The permissions that a region's flags grant.
pub open spec fn permissions_of(flags: VmFlags) -> MemoryRegionPermissions {
    MemoryRegionPermissions { bits: (flags.bits & 0xf) as u8 }
}

/// Granting the access flags of a permission set asks for nothing beyond the ceiling of `old`.
pub open spec fn within_ceiling(old: u32, access: u32) -> bool {
    (!(old >> 4) & access) & VmFlags::VM_ACCESS_FLAGS == 0
}

impl MemoryRegionPermissions {
    /// Readable
    pub const READ: u8 = 0x1;

    /// Writable
    pub const WRITE: u8 = 0x2;

    /// Executable
    pub const EXEC: u8 = 0x4;

    /// Sharable between processes
    pub const SHARED: u8 = 0x8;

    /// Every defined permission.
    pub const ALL: u8 = 0xf;

    /// Only defined bits are set.
    pub open spec fn wf(&self) -> bool {
        self.bits & !MemoryRegionPermissions::ALL == 0
    }

    pub fn empty() -> (permissions: Self)
        ensures
            permissions.bits == 0,
            permissions.wf(),
    {
        assert(0u8 & !0xfu8 == 0) by (bit_vector);
        MemoryRegionPermissions { bits: 0 }
    }

    /// The set with exactly these bits; `None` if one of them is not a permission.
    pub fn from_bits(bits: u8) -> (permissions: Option<Self>)
        ensures
            permissions == (if bits & !MemoryRegionPermissions::ALL == 0 {
                Some(MemoryRegionPermissions { bits })
            } else {
                None
            }),
    {
        if bits & !MemoryRegionPermissions::ALL == 0 {
            Some(MemoryRegionPermissions { bits })
        } else {
            None
        }
    }

    pub fn bits(self) -> (bits: u8)
        ensures
            bits == self.bits,
    {
        self.bits
    }

    pub fn is_empty(self) -> (empty: bool)
        ensures
            empty == (self.bits == 0),
    {
        self.bits == 0
    }

    pub fn contains(self, mask: u8) -> (all: bool)
        ensures
            all == carries8(self.bits, mask),
    {
        self.bits & mask == mask
    }

    pub fn union(self, mask: u8) -> (permissions: Self)
        ensures
            permissions.bits == self.bits | mask,
    {
        MemoryRegionPermissions { bits: self.bits | mask }
    }

    /// The set without the permissions of `mask`.
    pub fn without(self, mask: u8) -> (permissions: Self)
        ensures
            permissions.bits == self.bits & !mask,
    {
        MemoryRegionPermissions { bits: self.bits & !mask }
    }

    /// The permissions that a region's flags grant: the four lowest flags.
    pub fn from_flags(flags: VmFlags) -> (permissions: Self)
        ensures
            permissions == permissions_of(flags),
            permissions.wf(),
    {
        let bits: u32 = flags.bits;
        assert((bits & 0xf) as u8 & !0xfu8 == 0) by (bit_vector);
        MemoryRegionPermissions { bits: (flags.bits & 0xf) as u8 }
    }

    /// The access flags of this set, as mapping flags.
    pub fn access(self) -> (flags: VmFlags)
        ensures
            flags.bits == access_of(self),
    {
        VmFlags { bits: (self.bits & 7) as u32 }
    }
}

impl CreatePagesFlags {
    /// Force the mapping to the given address.
    pub const FIXED_ADDR: u8 = 0x1;

    /// The mapping is used for a stack.
    pub const IS_STACK: u8 = 0x2;

    /// Populate the pages immediately.
    pub const POPULATE_PAGES_IMMEDIATELY: u8 = 0x4;

    /// Leave room after the mapping so that it can grow later.
    pub const ENSURE_SPACE_AFTER: u8 = 0x8;

    /// The mapping is backed by a file.
    pub const MAP_FILE: u8 = 0x10;

    /// With a fixed address: fail if any part of the range is mapped.
    pub const NOREPLACE: u8 = 0x20;

    /// The mapping is shared.
    pub const SHARED: u8 = 0x40;

    pub fn empty() -> (flags: Self)
        ensures
            flags.bits == 0,
    {
        CreatePagesFlags { bits: 0 }
    }

    pub fn contains(self, mask: u8) -> (all: bool)
        ensures
            all == carries8(self.bits, mask),
    {
        self.bits & mask == mask
    }

    pub fn intersects(self, mask: u8) -> (any: bool)
        ensures
            any == (self.bits & mask != 0),
    {
        self.bits & mask != 0
    }

    pub fn union(self, mask: u8) -> (flags: Self)
        ensures
            flags.bits == self.bits | mask,
    {
        CreatePagesFlags { bits: self.bits | mask }
    }
}

/// Turning a flag on or off is seen by exactly that flag: every other flag keeps its state.
pub proof fn lemma_set_bits(bits: u32, mask: u32, other: u32, on: bool)
    requires
        mask & other == 0,
        mask != 0,
    ensures
        carries(set_bits(bits, mask, on), mask) == on,
        carries(set_bits(bits, mask, on), other) == carries(bits, other),
{
    if on {
        assert((bits | mask) & mask == mask && ((bits | mask) & other == bits & other)) by (bit_vector)
            requires
                mask & other == 0,
        ;
    } else {
        assert((bits & !mask) & mask == 0 && ((bits & !mask) & other == bits & other)) by (bit_vector)
            requires
                mask & other == 0,
        ;
    }
}

/// Permissions survive the way into mapping flags and back.
pub proof fn lemma_permissions_round_trip(permissions: MemoryRegionPermissions)
    requires
        permissions.wf(),
        !carries8(permissions.bits, MemoryRegionPermissions::SHARED),
    ensures
        permissions_of(VmFlags { bits: access_of(permissions) }) == permissions,
{
    let bits: u8 = permissions.bits;
    assert(((((bits & 7) as u32) & 0xf) as u8) == bits) by (bit_vector)
        requires
            bits & !0xfu8 == 0,
            !(bits & 8 == 8),
    ;
}

} // verus!
