# litebox

The memory and device core of a library operating system, verified with Verus.

Guest programs share one host address space. What keeps them apart, and what lets a forked child
see its parent's pages and nobody else's, is bookkeeping; this crate is that bookkeeping, with
every operation stated over a mathematical model and proved.

## Layout

- `src/mm/` - the memory manager.
  - `vmem` is the table of mappings: placement, insertion, protection, resizing, moving, and what a
    caller's initialization still owns.
  - `domain` is the domain of guest addresses: fork families, their views, who has custody of an
    address, what a descendant inherits, drain and poison.
  - `manager` joins the two: creating, protecting, releasing and remapping pages on behalf of a
    view, page faults, and what a forked child must not see.
  - `session` is one task's exclusive right to change the domain, and what happens when it is
    given up half way.
- `src/platform/` - what a platform has to provide, and guest pointers that only ever reach what a
  view may reach.
- `src/fs/proc/` - the tree of `/proc`: walking, listing, opening, reading, status.
- `src/net/phy.rs` - the network device with its loopback queue.
- `src/range_map.rs`, `src/id_map.rs` - the interval map and the hash map of outside crates, with
  what is believed of them.
- `app/` - ordinary Rust around the library: locks and guards, error messages, flag types, the
  device and pointer traits of outside crates.
- `tests/` - scenarios on concrete values.

Properties that span several operations are the public proof functions, most of them in the
`laws.rs` files under `src/`.
