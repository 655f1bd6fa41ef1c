use htmos::memory_map::MemoryMap;
use htmos::pattern::MemoryPattern;
use htmos::pattern::cmp_mem_sct;
use htmos::pattern::end;
use htmos::pattern::endt;

fn sections(map: &MemoryMap) -> Vec<(usize, usize)> {
    let mut v = Vec::new();
    let mut i = 0;
    while i < map.len() {
        v.push(map.section(i));
        i += 1;
    }
    v
}

#[test]
fn classify_exact_equal_is_nochange() {
    assert!(matches!(cmp_mem_sct(0, 10, 0, 10), MemoryPattern::NoChange));
}

#[test]
fn classify_touch_at_end_is_startbranch() {
    assert!(matches!(cmp_mem_sct(0, 10, 10, 5), MemoryPattern::StartBranch));
}

#[test]
fn classify_touch_at_start_is_endbranch() {
    assert!(matches!(cmp_mem_sct(10, 5, 0, 10), MemoryPattern::EndBranch));
}

#[test]
fn classify_strictly_inside_is_nochange() {
    assert!(matches!(cmp_mem_sct(0, 10, 2, 3), MemoryPattern::NoChange));
}

#[test]
fn classify_larger_given_is_overwrite() {
    assert!(matches!(cmp_mem_sct(2, 3, 0, 10), MemoryPattern::Overwrite));
    assert!(matches!(cmp_mem_sct(0, 10, 0, 12), MemoryPattern::Overwrite));
}

#[test]
fn classify_disjoint_is_separate() {
    assert!(matches!(cmp_mem_sct(0, 10, 20, 5), MemoryPattern::Separate));
    assert!(matches!(cmp_mem_sct(20, 5, 0, 10), MemoryPattern::Separate));
}

#[test]
fn end_and_endt_add_up() {
    assert_eq!(end(100, 28), 128);
    assert_eq!(endt((4096, 4096)), 8192);
}

#[test]
fn union_into_empty_map() {
    let mut map = MemoryMap::new();
    assert!(map.glue_section(100, 50).is_ok());
    assert_eq!(sections(&map), vec![(100, 50)]);
}

#[test]
fn union_merges_touching_and_overlapping() {
    let mut map = MemoryMap::new();
    assert!(map.glue_section(0, 10).is_ok());
    assert!(map.glue_section(20, 5).is_ok());
    assert_eq!(sections(&map), vec![(0, 10), (20, 5)]);
    // bridges the gap, touching the first and overlapping the second
    assert!(map.glue_section(10, 12).is_ok());
    assert_eq!(sections(&map), vec![(0, 25)]);
}

#[test]
fn union_is_idempotent() {
    let mut map = MemoryMap::new();
    assert!(map.glue_section(0, 10).is_ok());
    assert!(map.glue_section(30, 10).is_ok());
    assert!(map.glue_section(5, 10).is_ok());
    let once = sections(&map);
    assert!(map.glue_section(5, 10).is_ok());
    assert_eq!(sections(&map), once);
}

#[test]
fn union_of_duplicate_is_noop() {
    let mut map = MemoryMap::new();
    assert!(map.glue_section(40, 8).is_ok());
    assert!(map.glue_section(40, 8).is_ok());
    assert_eq!(sections(&map), vec![(40, 8)]);
}

#[test]
fn union_of_empty_range_is_noop() {
    let mut map = MemoryMap::new();
    assert!(map.glue_section(40, 8).is_ok());
    assert!(map.glue_section(100, 0).is_ok());
    assert_eq!(sections(&map), vec![(40, 8)]);
}

#[test]
fn subtract_undoes_union_on_fresh_map() {
    let mut map = MemoryMap::new();
    assert!(map.glue_section(0, 100).is_ok());
    assert!(map.rip_section(0, 100).is_ok());
    assert_eq!(map.len(), 0);
}

#[test]
fn subtract_interior_splits() {
    let mut map = MemoryMap::new();
    assert!(map.glue_section(0, 100).is_ok());
    assert!(map.rip_section(40, 20).is_ok());
    assert_eq!(sections(&map), vec![(0, 40), (60, 40)]);
}

#[test]
fn subtract_trims_edges() {
    let mut map = MemoryMap::new();
    assert!(map.glue_section(10, 30).is_ok());
    assert!(map.rip_section(10, 5).is_ok());
    assert_eq!(sections(&map), vec![(15, 25)]);
    assert!(map.rip_section(30, 10).is_ok());
    assert_eq!(sections(&map), vec![(15, 15)]);
}

#[test]
fn subtract_spanning_multiple_sections() {
    let mut map = MemoryMap::new();
    assert!(map.glue_section(0, 10).is_ok());
    assert!(map.glue_section(20, 10).is_ok());
    assert!(map.glue_section(40, 10).is_ok());
    assert!(map.rip_section(5, 40).is_ok());
    assert_eq!(sections(&map), vec![(0, 5), (45, 5)]);
}

#[test]
fn subtract_of_unrelated_range_is_noop() {
    let mut map = MemoryMap::new();
    assert!(map.glue_section(0, 10).is_ok());
    assert!(map.rip_section(50, 10).is_ok());
    assert_eq!(sections(&map), vec![(0, 10)]);
}

#[test]
fn disjointness_holds_after_mixed_operations() {
    let mut map = MemoryMap::new();
    assert!(map.glue_section(0, 64).is_ok());
    assert!(map.glue_section(128, 64).is_ok());
    assert!(map.rip_section(32, 16).is_ok());
    assert!(map.glue_section(60, 70).is_ok());
    assert!(map.rip_section(0, 8).is_ok());
    let secs = sections(&map);
    let mut i = 1;
    while i < secs.len() {
        // sorted, disjoint, not even touching
        assert!(secs[i - 1].0 + secs[i - 1].1 < secs[i].0);
        i += 1;
    }
    for s in &secs {
        assert!(s.1 > 0);
    }
}

#[test]
fn union_capacity_exhaustion_fails() {
    let mut map = MemoryMap::new();
    for i in 0..256 {
        assert!(map.glue_section(i * 10, 5).is_ok());
    }
    assert_eq!(map.len(), 256);
    // separate from everything: would need a 257th slot
    assert!(map.glue_section(5000, 2).is_err());
    assert_eq!(map.len(), 256);
    // merging into an existing section still works at full capacity
    assert!(map.glue_section(0, 7).is_ok());
    assert_eq!(map.len(), 256);
}

#[test]
fn subtract_capacity_exhaustion_fails() {
    let mut map = MemoryMap::new();
    for i in 0..256 {
        assert!(map.glue_section(i * 10, 5).is_ok());
    }
    // splitting one section would need a 257th slot
    assert!(map.rip_section(1, 2).is_err());
    assert_eq!(sections(&map)[0], (0, 5));
    // trimming works at full capacity
    assert!(map.rip_section(0, 2).is_ok());
    assert_eq!(sections(&map)[0], (2, 3));
}

#[test]
fn organize_drops_contained_sections() {
    let raw = vec![(0, 100), (10, 20), (40, 60)];
    let mut map = MemoryMap::from_sections(raw);
    assert!(map.organize());
    assert_eq!(sections(&map), vec![(0, 100)]);
}

#[test]
fn organize_restores_normal_form() {
    let raw = vec![(50, 10), (0, 10), (5, 10), (30, 0)];
    let mut map = MemoryMap::from_sections(raw);
    let changed = map.organize();
    assert!(changed);
    assert_eq!(sections(&map), vec![(0, 15), (50, 10)]);
    // idempotent: a second pass changes nothing
    let changed_again = map.organize();
    assert!(!changed_again);
    assert_eq!(sections(&map), vec![(0, 15), (50, 10)]);
}
