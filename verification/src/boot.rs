//! Reconciliation of the firmware memory map against the regions that must
//! never be handed out.
//!
//! The firmware hand-off is modelled by plain data: [`BootInfo`] carries the
//! hand-off description, and each entry of the raw descriptor array is read
//! into a [`MemoryDescriptor`]. `get_mmap` unions every allocatable
//! descriptor into a free-memory map, then subtracts each reserved region
//! (kernel image, stack, boot-information structure, framebuffer, the memory
//! map itself, firmware tables) and the null page.

use vstd::prelude::*;

use crate::memory_map::CapacityError;
use crate::memory_map::MemoryMap;
use crate::memory_map::SECTION_CAPACITY;
use crate::memory_map::covers;
use crate::memory_map::lemma_covers_push;
use crate::htmalloc::range_in_free;

verus! {

/// Bytes of one physical page.
pub const PAGE_SIZE: usize = 4096;

/// Firmware region type tag: code loaded by the boot loader.
pub const LOADER_CODE: u32 = 1;

/// Firmware region type tag: data of the boot loader.
pub const LOADER_DATA: u32 = 2;

/// Firmware region type tag: boot-services code.
pub const BOOT_SERVICES_CODE: u32 = 3;

/// Firmware region type tag: boot-services data.
pub const BOOT_SERVICES_DATA: u32 = 4;

/// Firmware region type tag: conventional memory.
pub const CONVENTIONAL_MEMORY: u32 = 7;

/// The boot information handed over by the boot loader, read-only after
/// hand-off: where the firmware memory map and the framebuffer live, and
/// which firmware family produced them.
#[derive(Clone, Copy, Debug)]
pub struct BootInfo {
    /// Physical address of the memory map (a packed array of descriptors).
    pub memory_map_addr: u64,
    /// Total byte length of the memory map.
    pub memory_map_len: u64,
    /// Byte stride of one descriptor inside the memory map.
    pub memory_desc_size: u64,
    /// Framebuffer base address, zero if absent.
    pub framebuffer_addr: u64,
    /// Framebuffer width in pixels.
    pub framebuffer_width: u32,
    /// Framebuffer height in pixels.
    pub framebuffer_height: u32,
    /// Framebuffer row stride in bytes.
    pub framebuffer_pitch: u32,
    /// Framebuffer bits per pixel.
    pub framebuffer_bpp: u32,
    /// Which firmware family booted the machine: 0 for legacy BIOS, 1 for
    /// UEFI.
    pub boot_mode: u32,
    /// Reserved for future extensions.
    pub reserved: u32,
}

/// One entry of the firmware memory map, reduced to what the reconciliation
/// reads: the region type tag, the physical start address, and the page
/// count.
#[derive(Clone, Copy, Debug)]
pub struct MemoryDescriptor {
    /// The firmware's region type tag.
    pub kind: u32,
    /// Physical address where the region starts.
    pub physical_start: usize,
    /// Length of the region in pages.
    pub number_of_pages: usize,
}

/// Region types whose memory may be allocated once boot services are gone:
/// loader code and data, boot-services code and data, and conventional
/// memory.
pub open spec fn allocatable(kind: u32) -> bool {
    kind == LOADER_CODE || kind == LOADER_DATA || kind == BOOT_SERVICES_CODE || kind
        == BOOT_SERVICES_DATA || kind == CONVENTIONAL_MEMORY
}

/// Address `a` lies in some allocatable descriptor's region.
pub open spec fn desc_free(ds: Seq<MemoryDescriptor>, a: int) -> bool {
    exists|i: int|
        0 <= i < ds.len() && allocatable((#[trigger] ds[i]).kind) && ds[i].physical_start <= a
            < ds[i].physical_start + ds[i].number_of_pages * PAGE_SIZE
}

/// Taking one more descriptor into view adds exactly its own region (when
/// allocatable) to the addresses counted free.
proof fn lemma_desc_free_extend(ds: Seq<MemoryDescriptor>, i: int, a: int)
    requires
        0 <= i < ds.len(),
    ensures
        desc_free(ds.subrange(0, i + 1), a) <==> (desc_free(ds.subrange(0, i), a) || (allocatable(
            ds[i].kind,
        ) && ds[i].physical_start <= a < ds[i].physical_start + ds[i].number_of_pages
            * PAGE_SIZE)),
{
    let pre = ds.subrange(0, i);
    let ext = ds.subrange(0, i + 1);
    if desc_free(ext, a) {
        let w = choose|w: int|
            0 <= w < ext.len() && allocatable((#[trigger] ext[w]).kind) && ext[w].physical_start
                <= a < ext[w].physical_start + ext[w].number_of_pages * PAGE_SIZE;
        if w < i {
            assert(pre[w] == ext[w]);
            assert(desc_free(pre, a));
        }
    }
    if desc_free(pre, a) {
        let w = choose|w: int|
            0 <= w < pre.len() && allocatable((#[trigger] pre[w]).kind) && pre[w].physical_start
                <= a < pre[w].physical_start + pre[w].number_of_pages * PAGE_SIZE;
        assert(ext[w] == pre[w]);
        assert(desc_free(ext, a));
    }
    if allocatable(ds[i].kind) && ds[i].physical_start <= a < ds[i].physical_start
        + ds[i].number_of_pages * PAGE_SIZE {
        assert(ext[i] == ds[i]);
        assert(desc_free(ext, a));
    }
}

/// Builds the free-memory map from the firmware descriptors: every
/// allocatable region is marked free, then every reserved region and the
/// null page are taken back out. The result covers exactly the allocatable
/// addresses that no reserved region and not the null page claims. With one
/// spare slot per descriptor and reserved region the map's capacity cannot
/// be exceeded and the reconciliation is guaranteed to succeed.
#[verifier::loop_isolation(false)]
#[verifier::rlimit(30)]
pub fn get_mmap(descriptors: &Vec<MemoryDescriptor>, reserved: &Vec<(usize, usize)>) -> (res:
    Result<MemoryMap, CapacityError>)
    requires
        forall|k: int|
            0 <= k < descriptors@.len() ==> (allocatable((#[trigger] descriptors@[k]).kind)
                ==> descriptors@[k].physical_start + descriptors@[k].number_of_pages * PAGE_SIZE
                <= usize::MAX),
        forall|k: int|
            0 <= k < reserved@.len() ==> (#[trigger] reserved@[k]).0 + reserved@[k].1
                <= usize::MAX,
    ensures
        res is Ok ==> res->Ok_0.wf(),
        res is Ok ==> forall|a: int|
            #![trigger covers(res->Ok_0@, a)]
            covers(res->Ok_0@, a) <==> (desc_free(descriptors@, a) && !covers(reserved@, a) && !(0
                <= a < PAGE_SIZE)),
        descriptors@.len() + reserved@.len() + 1 <= SECTION_CAPACITY ==> res is Ok,
{
    let mut map = MemoryMap::new();
    let n = descriptors.len();
    let mut i: usize = 0;
    while i < n
        invariant
            i <= n,
            map.wf(),
            map@.len() <= i,
            forall|a: int|
                #![trigger covers(map@, a)]
                covers(map@, a) <==> desc_free(descriptors@.subrange(0, i as int), a),
        decreases n - i,
    {
        let d = descriptors[i];
        let ghost prev = map@;
        if d.kind == LOADER_CODE || d.kind == LOADER_DATA || d.kind == BOOT_SERVICES_CODE
            || d.kind == BOOT_SERVICES_DATA || d.kind == CONVENTIONAL_MEMORY {
            let size = d.number_of_pages * PAGE_SIZE;
            match map.glue_section(d.physical_start, size) {
                Ok(()) => {},
                Err(e) => {
                    proof {
                        assert(prev.len() == SECTION_CAPACITY);
                        assert(descriptors@.len() + reserved@.len() + 1 > SECTION_CAPACITY);
                    }
                    return Err(e);
                },
            }
        }
        proof {
            assert forall|a: int| #![trigger covers(map@, a)] covers(map@, a) <==> desc_free(
                descriptors@.subrange(0, i + 1),
                a,
            ) by {
                lemma_desc_free_extend(descriptors@, i as int, a);
                assert(covers(prev, a) <==> desc_free(descriptors@.subrange(0, i as int), a));
            }
        }
        i += 1;
    }
    proof {
        assert(descriptors@.subrange(0, n as int) == descriptors@);
    }

    let rn = reserved.len();
    let mut j: usize = 0;
    while j < rn
        invariant
            j <= rn,
            map.wf(),
            map@.len() <= n + j,
            forall|a: int|
                #![trigger covers(map@, a)]
                covers(map@, a) <==> (desc_free(descriptors@, a) && !covers(
                    reserved@.subrange(0, j as int),
                    a,
                )),
        decreases rn - j,
    {
        let (rs, rl) = reserved[j];
        let ghost prev = map@;
        match map.rip_section(rs, rl) {
            Ok(()) => {},
            Err(e) => {
                proof {
                    assert(prev.len() == SECTION_CAPACITY);
                    assert(descriptors@.len() + reserved@.len() + 1 > SECTION_CAPACITY);
                }
                return Err(e);
            },
        }
        proof {
            assert forall|a: int| #![trigger covers(map@, a)] covers(map@, a) <==> (desc_free(
                descriptors@,
                a,
            ) && !covers(reserved@.subrange(0, j + 1), a)) by {
                assert(covers(prev, a) <==> (desc_free(descriptors@, a) && !covers(
                    reserved@.subrange(0, j as int),
                    a,
                )));
                assert(reserved@.subrange(0, j + 1) =~= reserved@.subrange(0, j as int).push(
                    (rs, rl),
                ));
                lemma_covers_push(reserved@.subrange(0, j as int), (rs, rl), a);
            }
        }
        j += 1;
    }
    proof {
        assert(reserved@.subrange(0, rn as int) == reserved@);
    }

    // never hand out the null page, even if the firmware reported it free
    let ghost prev = map@;
    match map.rip_section(0, PAGE_SIZE) {
        Ok(()) => {},
        Err(e) => {
            proof {
                assert(prev.len() == SECTION_CAPACITY);
                assert(descriptors@.len() + reserved@.len() + 1 > SECTION_CAPACITY);
            }
            return Err(e);
        },
    }
    Ok(map)
}

/// An address handed out of the reconciled free map never overlaps a
/// reserved region: every allocated byte is free, and no free byte is
/// reserved.
pub proof fn lemma_reserved_excluded(
    m: Seq<(usize, usize)>,
    reserved: Seq<(usize, usize)>,
    p: int,
    size: int,
)
    requires
        forall|a: int| #![trigger covers(m, a)] covers(m, a) ==> !covers(reserved, a),
        range_in_free(m, p, size),
    ensures
        forall|a: int| #![trigger covers(reserved, a)] p <= a < p + size ==> !covers(reserved, a),
{
    let w = choose|w: int|
        0 <= w < m.len() && (#[trigger] m[w]).0 <= p && p + size <= m[w].0 + m[w].1;
    assert forall|a: int| p <= a < p + size implies !covers(reserved, a) by {
        assert(m[w].0 <= a < m[w].0 + m[w].1);
        assert(covers(m, a));
    }
}

} // verus!
