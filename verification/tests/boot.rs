use htmos::boot::BOOT_SERVICES_DATA;
use htmos::boot::CONVENTIONAL_MEMORY;
use htmos::boot::LOADER_CODE;
use htmos::boot::MemoryDescriptor;
use htmos::boot::PAGE_SIZE;
use htmos::boot::get_mmap;
use htmos::htmalloc::HTMAlloc;

fn overlaps(a: (usize, usize), b: (usize, usize)) -> bool {
    a.0 < b.0 + b.1 && b.0 < a.0 + a.1
}

#[test]
fn get_mmap_unions_allocatable_and_subtracts_reserved() {
    let descriptors = vec![
        MemoryDescriptor { kind: CONVENTIONAL_MEMORY, physical_start: 0, number_of_pages: 256 },
        // reserved firmware region: never unioned in
        MemoryDescriptor { kind: 0, physical_start: 1 << 24, number_of_pages: 16 },
        MemoryDescriptor { kind: LOADER_CODE, physical_start: 1 << 25, number_of_pages: 1 },
    ];
    let kernel = (16 * PAGE_SIZE, 4 * PAGE_SIZE);
    let stack = (64 * PAGE_SIZE, 2 * PAGE_SIZE);
    let reserved = vec![kernel, stack];
    let map = get_mmap(&descriptors, &reserved).unwrap();

    let mut secs = Vec::new();
    let mut i = 0;
    while i < map.len() {
        secs.push(map.section(i));
        i += 1;
    }
    assert_eq!(
        secs,
        vec![
            // null page and the two reserved ranges are carved out
            (PAGE_SIZE, 15 * PAGE_SIZE),
            (20 * PAGE_SIZE, 44 * PAGE_SIZE),
            (66 * PAGE_SIZE, 190 * PAGE_SIZE),
            (1 << 25, PAGE_SIZE),
        ]
    );
}

#[test]
fn get_mmap_skips_non_allocatable_descriptors() {
    let descriptors = vec![
        MemoryDescriptor { kind: 9, physical_start: 0, number_of_pages: 10 },
        MemoryDescriptor { kind: 10, physical_start: 1 << 20, number_of_pages: 10 },
    ];
    let map = get_mmap(&descriptors, &vec![]).unwrap();
    assert_eq!(map.len(), 0);
}

#[test]
fn get_mmap_fails_when_the_map_overflows() {
    // 300 disjoint one-page regions cannot fit in the fixed-capacity map
    let mut descriptors = Vec::new();
    for i in 0..300 {
        descriptors.push(MemoryDescriptor {
            kind: CONVENTIONAL_MEMORY,
            physical_start: i * 2 * PAGE_SIZE,
            number_of_pages: 1,
        });
    }
    assert!(get_mmap(&descriptors, &vec![]).is_err());
}

#[test]
fn allocator_never_hands_out_reserved_memory() {
    let descriptors = vec![
        MemoryDescriptor { kind: BOOT_SERVICES_DATA, physical_start: 0, number_of_pages: 1024 },
    ];
    let kernel = (32 * PAGE_SIZE, 8 * PAGE_SIZE);
    let stack = (48 * PAGE_SIZE, 2 * PAGE_SIZE);
    let boot_info = (52 * PAGE_SIZE, 256);
    let mmap_buffer = (53 * PAGE_SIZE, PAGE_SIZE);
    let reserved = vec![kernel, stack, boot_info, mmap_buffer];
    let map = get_mmap(&descriptors, &reserved).unwrap();

    let mut alloc = HTMAlloc::ginit();
    alloc.update(map);
    for request in [1usize, 100, 4096, 40_000] {
        let a = alloc.allocate(request);
        assert!(a != 0);
        for r in &reserved {
            assert!(!overlaps((a, request), *r));
        }
        assert!(!overlaps((a, request), (0, PAGE_SIZE)));
    }
}
