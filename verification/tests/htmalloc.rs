use htmos::htmalloc::HTMAlloc;
use htmos::htmalloc::LEDGER_TABLE_BYTES;
use htmos::memory_map::MemoryMap;

/// An allocator over one large free region starting at zero.
fn booted(total: usize) -> HTMAlloc {
    let mut map = MemoryMap::new();
    assert!(map.glue_section(0, total).is_ok());
    let mut alloc = HTMAlloc::ginit();
    alloc.update(map);
    alloc
}

#[test]
fn ginit_is_dormant() {
    let alloc = HTMAlloc::ginit();
    assert_eq!(alloc.ledger_len(), 0);
    assert_eq!(alloc.free_map().len(), 0);
}

#[test]
fn update_bootstraps_self_referential_entry() {
    let alloc = booted(1_000_000);
    assert_eq!(alloc.ledger_len(), 1);
    // the first large-enough free section donates its head to the ledger
    assert_eq!(alloc.ledger_entry(0), (0, LEDGER_TABLE_BYTES));
}

#[test]
fn update_skips_small_sections_for_the_table() {
    let mut map = MemoryMap::new();
    assert!(map.glue_section(4096, 8192).is_ok());
    assert!(map.glue_section(1 << 20, 1 << 20).is_ok());
    let mut alloc = HTMAlloc::ginit();
    alloc.update(map);
    assert_eq!(alloc.ledger_entry(0), (1 << 20, LEDGER_TABLE_BYTES));
}

#[test]
fn update_without_room_leaves_allocator_dormant() {
    let alloc = booted(1000);
    assert_eq!(alloc.ledger_len(), 0);
    let mut alloc = alloc;
    assert_eq!(alloc.allocate(10), 0);
}

#[test]
fn allocate_is_lowest_address_first() {
    let mut alloc = booted(1_000_000);
    let table_end = LEDGER_TABLE_BYTES;
    let a1 = alloc.allocate(100);
    assert_eq!(a1, table_end);
    let a2 = alloc.allocate(100);
    assert_eq!(a2, table_end + 100);
    let a3 = alloc.allocate(100);
    assert_eq!(a3, table_end + 200);
    // free the middle block: the next allocation takes the first gap, not
    // the space past the last block
    alloc.free(a2, 100);
    assert_eq!(alloc.allocate(50), a2);
}

#[test]
fn allocate_zero_returns_sentinel() {
    let mut alloc = booted(1_000_000);
    assert_eq!(alloc.allocate(0), 0);
}

#[test]
fn allocate_exhaustion_returns_sentinel_and_keeps_ledger() {
    let mut alloc = booted(1_000_000);
    let before = alloc.ledger_len();
    assert_eq!(alloc.allocate(2_000_000), 0);
    assert_eq!(alloc.ledger_len(), before);
}

#[test]
fn free_then_reallocate_reuses_space() {
    let mut alloc = booted(1_000_000);
    let a = alloc.allocate(100);
    assert!(a != 0);
    alloc.free(a, 100);
    let b = alloc.allocate(100);
    assert_eq!(b, a);
}

#[test]
fn free_requires_exact_match() {
    let mut alloc = booted(1_000_000);
    let a = alloc.allocate(100);
    // mismatched size is treated as not-found, not as partial free
    alloc.free(a, 50);
    assert_eq!(alloc.ledger_len(), 2);
    alloc.free(a, 100);
    assert_eq!(alloc.ledger_len(), 1);
}

#[test]
fn resize_shrink_keeps_address() {
    let mut alloc = booted(1_000_000);
    let a = alloc.allocate(100);
    let r = alloc.resize(a, 100, 40);
    assert_eq!(r, a);
    assert_eq!(alloc.ledger_entry(1), (a, 40));
}

#[test]
fn resize_grows_in_place_when_successor_is_free() {
    let mut alloc = booted(1_000_000);
    let a = alloc.allocate(100);
    let r = alloc.resize(a, 100, 250);
    assert_eq!(r, a);
    assert_eq!(alloc.ledger_entry(1), (a, 250));
}

#[test]
fn resize_relocates_when_successor_is_taken() {
    let mut alloc = booted(1_000_000);
    let a = alloc.allocate(100);
    let b = alloc.allocate(100);
    assert_eq!(b, a + 100);
    let r = alloc.resize(a, 100, 200);
    assert!(r != a);
    // first fit lands past the last ledger entry
    assert_eq!(r, b + 100);
    // the old entry is gone, the new one is recorded
    assert_eq!(alloc.taken_match(a, 100), None);
    assert!(alloc.taken_match(r, 200).is_some());
}

#[test]
fn resize_of_ledger_table_relocates_it() {
    let mut alloc = booted(1_000_000);
    let (t0, tsize) = alloc.ledger_entry(0);
    assert_eq!((t0, tsize), (0, LEDGER_TABLE_BYTES));
    let r = alloc.resize(t0, tsize, tsize + 4096);
    // the table moves past the last ledger entry, into free memory
    assert_eq!(r, tsize);
    assert_eq!(alloc.ledger_entry(0), (r, tsize + 4096));
}

#[test]
fn valid_memory_check_tests_containment() {
    let alloc = booted(1_000_000);
    assert!(alloc.valid_memory_check(0, 1_000_000));
    assert!(alloc.valid_memory_check(4096, 4096));
    assert!(!alloc.valid_memory_check(999_999, 2));
    assert!(!alloc.valid_memory_check(2_000_000, 1));
}

#[test]
fn next_valid_memory_ptr_prefers_the_given_pointer() {
    let alloc = booted(1_000_000);
    assert_eq!(alloc.next_valid_memory_ptr(4096, 100), 4096);
    // nothing fits past the end of the region: falls back to its start
    assert_eq!(alloc.next_valid_memory_ptr(2_000_000, 100), 0);
    assert_eq!(alloc.next_valid_memory_ptr(100, 0), 0);
}

#[test]
fn next_available_slot_respects_ledger_gaps() {
    let mut alloc = booted(1_000_000);
    let a = alloc.allocate(100);
    assert_eq!(alloc.next_available_slot(100), a + 100);
    assert_eq!(alloc.next_available_slot(0), 0);
}

#[test]
fn reduce_size_fit_clamps_to_the_free_section() {
    let mut map = MemoryMap::new();
    assert!(map.glue_section(1000, 1000).is_ok());
    let mut alloc = HTMAlloc::ginit();
    alloc.update(map);
    // tail sticks out past the section: clamped to its end
    assert_eq!(alloc.reduce_size_fit_next_available_slot(1500, 1000), (1500, 500));
    // head sticks out below the section: clamped to its start
    assert_eq!(alloc.reduce_size_fit_next_available_slot(500, 1000), (1000, 500));
    // fully inside: unchanged
    assert_eq!(alloc.reduce_size_fit_next_available_slot(1200, 100), (1200, 100));
    // fully outside: nothing
    assert_eq!(alloc.reduce_size_fit_next_available_slot(5000, 10), (0, 0));
}

#[test]
fn taken_bookkeeping_matches_exactly() {
    let mut alloc = booted(1_000_000);
    let a = alloc.allocate(100);
    let b = alloc.allocate(200);
    assert_eq!(alloc.taken_match(a, 100), Some(1));
    assert_eq!(alloc.taken_match(a, 99), None);
    assert_eq!(alloc.taken_match_start(b), Some(2));
    assert_eq!(alloc.taken_match_start(b + 1), None);
    // entry 0, the table itself, is never matched
    assert_eq!(alloc.taken_match(0, LEDGER_TABLE_BYTES), None);
}

#[test]
fn taken_more_size_available_stops_at_next_entry() {
    let mut alloc = booted(1_000_000);
    let a = alloc.allocate(100);
    let b = alloc.allocate(100);
    // nothing between a and b
    assert_eq!(alloc.taken_more_size_available(a, 100), 0);
    // past b everything up to the end of the free region is open
    assert_eq!(alloc.taken_more_size_available(b, 100), 1_000_000 - (b + 100));
}

#[test]
fn taken_organize_reports_no_change_on_sorted_ledger() {
    let mut alloc = booted(1_000_000);
    alloc.allocate(100);
    alloc.allocate(200);
    assert!(!alloc.taken_organize());
    assert_eq!(alloc.taken_match(LEDGER_TABLE_BYTES, 100), Some(1));
}
