//! Identities, flags, page arithmetic, backtraces, the flip ledger and the small range containers.
use litebox::id_map::IdMap;
use litebox::ids::{IdCounter, VmViewId};
use litebox::mm::addr::{is_multiple_of, NonZeroAddress, NonZeroPageSize, PageRange};
use litebox::mm::custody::{Custody, SpanKind};
use litebox::mm::flags::{CreatePagesFlags, MemoryRegionPermissions, VmFlags};
use litebox::mm::range_set::RangeSet;
use litebox::mm::wx_ledger::{WxLedger, WxLedgerEntry};
use litebox::range_table::{Extent, RangeTable};
use litebox::shim::FrameBacktrace;

#[test]
fn counters_start_at_one_and_never_repeat() {
    let mut counter = IdCounter::new();
    assert_eq!(counter.next(), Some(1));
    assert_eq!(counter.next(), Some(2));
    assert_eq!(counter.next(), Some(3));
    let mut block = counter.block(2);
    assert_eq!(counter.next(), Some(6));
    assert_eq!((block.left(), block.next(), block.next(), block.next()), (2, Some(4), Some(5), None));
    assert_eq!(counter.left(), u64::MAX - 6);
}

#[test]
fn id_map_keeps_what_was_inserted() {
    let mut map: IdMap<&str> = IdMap::new();
    map.insert(7, "seven");
    map.insert(9, "nine");
    map.insert(11, "eleven");
    assert_eq!(map.len(), 3);
    assert_eq!(map.get(9), Some(&"nine"));
    assert_eq!(map.get(8), None);
    map.insert(9, "NINE");
    assert_eq!(map.len(), 3);
    assert_eq!(map.remove(7), Some("seven"));
    assert_eq!(map.remove(7), None);
    assert!(!map.contains(7));
    assert_eq!(map.get(9), Some(&"NINE"));
    assert_eq!(map.get(11), Some(&"eleven"));
    *map.get_mut(11) = "elf";
    assert_eq!(map.get(11), Some(&"elf"));
}

#[test]
fn id_map_survives_many_removals() {
    let mut map: IdMap<u64> = IdMap::new();
    for id in 1..200u64 {
        map.insert(id, id * id);
    }
    for id in (1..200u64).step_by(3) {
        assert_eq!(map.remove(id), Some(id * id));
    }
    for id in 1..200u64 {
        let expected = if id % 3 == 1 { None } else { Some(id * id) };
        assert_eq!(map.get(id).copied(), expected);
    }
}

#[test]
fn range_table_joins_equal_neighbours() {
    let mut table: RangeTable<VmViewId> = RangeTable::new();
    let (a, b) = (VmViewId { raw: 1 }, VmViewId { raw: 2 });
    table.insert(10, 20, &a);
    table.insert(20, 30, &a);
    table.insert(40, 50, &b);
    assert_eq!(table.get_key_value(15), Some((10, 30, a)));
    assert_eq!(table.get(35), None);
    assert_eq!(table.overlapping(25, 45), vec![(10, 30, a), (40, 50, b)]);
    assert_eq!(table.pieces(25, 45), vec![(25, 30, a), (40, 45, b)]);
    assert_eq!(table.iter(), vec![(10, 30, a), (40, 50, b)]);
    assert!(table.has_gap(10, 45));
    assert!(!table.has_gap(10, 30));
    assert!(table.overlaps(29, 31));
    assert!(!table.overlaps(30, 40));
}

#[test]
fn range_table_splits_on_overwrite_and_removal() {
    let mut table: RangeTable<SpanKind> = RangeTable::new();
    table.insert(0, 100, &SpanKind::Present);
    table.insert(40, 60, &SpanKind::Reserved);
    table.remove(10, 20);
    assert_eq!(
        table.iter(),
        vec![
            (0, 10, SpanKind::Present),
            (20, 40, SpanKind::Present),
            (40, 60, SpanKind::Reserved),
            (60, 100, SpanKind::Present),
        ]
    );
}

#[test]
fn range_table_tells_uniform_from_mixed() {
    let mut table: RangeTable<Custody> = RangeTable::new();
    let views = vec![VmViewId { raw: 3 }, VmViewId { raw: 5 }];
    table.insert(0, 10, &Custody::Reserved { views });
    assert!(matches!(table.extent(20, 30), Extent::Uncovered));
    assert!(matches!(table.extent(5, 15), Extent::Mixed));
    match table.extent(2, 8) {
        Extent::Uniform(Custody::Reserved { views }) => {
            assert_eq!(views, vec![VmViewId { raw: 3 }, VmViewId { raw: 5 }]);
        }
        _ => panic!("one reservation covers the range"),
    }
}

#[test]
fn range_set_joins_and_cuts() {
    let mut set = RangeSet::new();
    assert!(set.is_empty());
    set.insert(10, 20);
    set.insert(30, 40);
    assert!(set.overlaps(15, 16));
    assert!(!set.overlaps(20, 30));
    set.insert(20, 30);
    assert!(set.overlaps(25, 26));
    set.remove(12, 38);
    assert!(set.overlaps(11, 13));
    assert!(!set.overlaps(12, 38));
    assert!(set.overlaps(38, 39));
    set.remove(0, 100);
    assert!(set.is_empty());
}

#[test]
fn permissions_survive_the_way_through_flags() {
    for bits in 0..8u8 {
        let permissions = MemoryRegionPermissions::from_bits(bits).unwrap();
        let flags = VmFlags::from_permissions(permissions);
        assert_eq!(flags.bits(), u32::from(bits));
        assert_eq!(MemoryRegionPermissions::from_flags(flags), permissions);
    }
    assert_eq!(MemoryRegionPermissions::from_bits(0x10), None);
    assert_eq!(VmFlags::from_bits(0x1000), None);
}

#[test]
fn may_flags_name_the_ceiling() {
    assert_eq!(VmFlags::may_flags_for_mapping(false, false).bits(), 0x70);
    assert_eq!(VmFlags::may_flags_for_mapping(true, true).bits(), 0x78);
}

#[test]
fn one_flag_is_set_and_cleared_alone() {
    let mut flags = VmFlags::from_bits(VmFlags::VM_READ | VmFlags::VM_SHARED).unwrap();
    flags.set(VmFlags::VM_WIPEONFORK, true);
    assert_eq!(flags.bits(), 0x409);
    flags.set(VmFlags::VM_READ, false);
    assert_eq!(flags.bits(), 0x408);
    assert!(flags.contains(VmFlags::VM_SHARED));
    assert!(!flags.contains(VmFlags::VM_READ));
}

#[test]
fn create_flags_are_independent_bits() {
    let flags = CreatePagesFlags::empty()
        .union(CreatePagesFlags::FIXED_ADDR)
        .union(CreatePagesFlags::SHARED);
    assert!(flags.contains(CreatePagesFlags::FIXED_ADDR));
    assert!(!flags.contains(CreatePagesFlags::NOREPLACE));
    assert!(flags.intersects(CreatePagesFlags::NOREPLACE | CreatePagesFlags::SHARED));
}

#[test]
fn page_ranges_are_aligned_and_not_empty() {
    assert!(PageRange::<4096>::new(0x1000, 0x3000).is_some());
    assert!(PageRange::<4096>::new(0x1000, 0x1000).is_none());
    assert!(PageRange::<4096>::new(0x3000, 0x1000).is_none());
    assert!(PageRange::<4096>::new(0x1001, 0x3000).is_none());
    let range = PageRange::<4096>::new(0x1000, 0x4000).unwrap();
    assert_eq!(range.len(), 0x3000);
    assert!(!range.is_empty());
    assert_eq!(range.pages(), vec![0x1000, 0x2000, 0x3000]);
    let (start, length) = range.start_and_length();
    assert_eq!((start.as_usize(), length.as_usize()), (0x1000, 0x3000));
}

#[test]
fn sizes_and_addresses_are_not_zero() {
    assert!(NonZeroPageSize::<4096>::new(0).is_none());
    assert!(NonZeroPageSize::<4096>::new(100).is_none());
    let size = NonZeroPageSize::<4096>::new(0x2000).unwrap();
    assert_eq!(size.plus(0x1000).map(|s| s.as_usize()), Some(0x3000));
    assert!(size.plus(1).is_none());
    assert!(NonZeroAddress::<4096>::new(0).is_none());
    assert_eq!(NonZeroAddress::<4096>::new(0x5000).unwrap().as_usize(), 0x5000);
    assert!(is_multiple_of(8192, 4096));
    assert!(!is_multiple_of(8191, 4096));
}

#[test]
fn backtrace_keeps_at_most_eight_frames() {
    assert_eq!(FrameBacktrace::empty().as_slice(), &[] as &[u64]);
    assert_eq!(FrameBacktrace::from_frames(&[1, 2, 3]).as_slice(), &[1, 2, 3]);
    let many: Vec<u64> = (0..20).collect();
    assert_eq!(FrameBacktrace::from_frames(&many).as_slice(), &[0, 1, 2, 3, 4, 5, 6, 7]);
}

fn entry(page: usize, duration_nanos: u64) -> WxLedgerEntry {
    WxLedgerEntry { view: VmViewId { raw: 1 }, page, executable: true, mutation: 4, duration_nanos }
}

#[test]
fn ledger_keeps_the_newest_entries_oldest_first() {
    let mut ledger = WxLedger::new();
    assert!(ledger.snapshot().is_empty());
    for page in 0..70usize {
        ledger.record(entry(page, 0));
    }
    let pages: Vec<usize> = ledger.snapshot().iter().map(|e| e.page).collect();
    let expected: Vec<usize> = (6..70).collect();
    assert_eq!(pages, expected);
}

#[test]
fn ledger_counts_latencies_by_power_of_two() {
    let mut ledger = WxLedger::new();
    ledger.record(entry(0, 0));
    ledger.record(entry(1, 1023));
    ledger.record(entry(2, 1024));
    ledger.record(entry(3, 5000));
    ledger.record(entry(4, u64::MAX));
    let (buckets, samples) = ledger.latency_histogram();
    assert_eq!(samples, 5);
    assert_eq!(buckets, vec![3, 0, 1, 0, 0, 0, 0, 0, 0, 0, 0, 1]);
    assert_eq!(buckets.iter().sum::<u64>(), samples);
}
