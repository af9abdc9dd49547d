//! The domain boot orchestrator: takes a freshly created, paused domain and
//! a raw kernel image, and drives it to the running state — set resource
//! ceilings, populate guest-physical memory, map it as a foreign window,
//! copy the image in, replace the CPU bootstrap state in the HVM save
//! buffer, write it back, unpause, and unmap.
//!
//! Any step's failure aborts the remainder and surfaces that step with the
//! underlying session error; nothing is retried and nothing is rolled back,
//! except that the foreign mapping is always released before returning.

use vstd::prelude::*;
use crate::hvm;
use crate::xenctrl;
use crate::xenctrl::{mem_view, spec_has, spec_idx, DomainEntry, Error, ErrorCode, Xenctrl};

verus! {

/// Guest page size in bytes.
pub const PAGE_SIZE: usize = 4096;

/// First populated guest-physical frame: the 1 MiB boundary.
pub const BOOT_FIRST_FRAME: u64 = 256;

/// Number of frames populated for the minimal boot profile.
pub const BOOT_FRAME_COUNT: usize = 16;

/// Bytes of guest memory the boot profile populates.
pub const BOOT_MEMORY_SIZE: usize = 65536;

/// The step of the boot sequence at which a failure surfaced.
#[derive(Clone, Copy, PartialEq, Eq, Structural, Debug)]
pub enum BootStep {
    SetLimits,
    Populate,
    MapForeign,
    CopyImage,
    FetchContext,
    BuildContext,
    SetContext,
    Unpause,
}

/// A boot-sequence failure: the first failing step, wrapping the
/// underlying session error.
#[derive(Debug)]
pub struct BootError {
    pub step: BootStep,
    pub error: Error,
}

/// The fixed extent list of the boot profile: sixteen contiguous frames
/// from the 1 MiB guest-physical boundary.
pub open spec fn spec_boot_extents() -> Seq<u64> {
    Seq::new(16, |i: int| (256 + i) as u64)
}

/// Builds the fixed extent list of the boot profile.
pub fn boot_extents() -> (r: Vec<u64>)
    ensures
        r@ == spec_boot_extents(),
{
    let mut out: Vec<u64> = Vec::new();
    let mut i: usize = 0;
    while i < BOOT_FRAME_COUNT
        invariant
            i <= 16,
            out@.len() == i,
            forall|j: int| 0 <= j < i ==> out@[j] == (256 + j) as u64,
        decreases 16 - i,
    {
        out.push(BOOT_FIRST_FRAME + (i as u64));
        i = i + 1;
    }
    proof {
        assert(out@ =~= spec_boot_extents());
    }
    out
}

/// The populated region after the image is copied in: the image bytes,
/// then zeroes up to the region size.
pub open spec fn spec_boot_memory(image: Seq<u8>) -> Seq<u8> {
    image + Seq::new((65536 - image.len()) as nat, |b: int| 0u8)
}

/// Copies the image verbatim into the start of the mapping, leaving the
/// rest of the mapped bytes as they were. The image must fit within the
/// mapping: a caller contract.
pub fn copy_into_mapping(mapping: &mut Vec<u8>, image: &Vec<u8>)
    requires
        image@.len() <= old(mapping)@.len(),
    ensures
        final(mapping)@.len() == old(mapping)@.len(),
        final(mapping)@ == image@ + old(mapping)@.skip(image@.len() as int),
{
    let n = image.len();
    let mut i: usize = 0;
    while i < n
        invariant
            n == image@.len(),
            n <= mapping@.len(),
            i <= n,
            mapping@.len() == old(mapping)@.len(),
            forall|j: int| 0 <= j < i ==> mapping@[j] == image@[j],
            forall|j: int| i <= j < mapping@.len() ==> mapping@[j] == old(mapping)@[j],
        decreases n - i,
    {
        mapping[i] = image[i];
        i = i + 1;
    }
    proof {
        assert(mapping@ =~= image@ + old(mapping)@.skip(image@.len() as int));
    }
}

/// The entry after only the ceilings were set: one virtual CPU, unbounded
/// memory, everything else untouched.
pub open spec fn boot_limits_entry(e0: DomainEntry, e1: DomainEntry) -> bool {
    &&& xenctrl::same_but_limits(e0, e1)
    &&& e1.max_vcpus == 1
    &&& e1.max_mem_kb == u64::MAX
}

/// The entry of a booted (or partially booted) domain: ceilings set to one
/// virtual CPU and unbounded memory, the boot extents populated, and the
/// image copied to the start of the region.
pub open spec fn boot_populated_entry(e0: DomainEntry, e1: DomainEntry, image: Seq<u8>) -> bool {
    &&& e1.id == e0.id
    &&& e1.handle@ == e0.handle@
    &&& e1.max_vcpus == 1
    &&& e1.max_mem_kb == u64::MAX
    &&& e1.populated@ == spec_boot_extents()
    &&& mem_view(e1) == Some(spec_boot_memory(image))
}

/// Boots a freshly created, paused domain from a raw kernel image held in
/// memory: strictly in order, sets the resource ceilings (one virtual CPU,
/// unbounded memory), populates the fixed boot extents with zeroed pages,
/// maps them as a foreign window, copies the image to its start, fetches
/// the domain's HVM save buffer, rebuilds it with the fixed CPU bootstrap
/// record, writes it back, unpauses the domain, and unmaps the window.
///
/// The first failing step aborts the remainder and surfaces in the result;
/// the domain keeps whatever state the last successful step produced, and
/// the foreign mapping is always released before returning.
pub fn start_domain(xc: &mut Xenctrl, dom_id: u32, image: &Vec<u8>) -> (r: Result<(), BootError>)
    requires
        old(xc).wf(),
        image@.len() <= 65536,
    ensures
        final(xc).wf(),
        !spec_has(old(xc)@, dom_id) ==> (r matches Err(be) && be.step == BootStep::SetLimits
            && be.error.code == ErrorCode::InvalidParam) && final(xc)@ == old(xc)@,
        spec_has(old(xc)@, dom_id) ==> ({
            let i = spec_idx(old(xc)@, dom_id);
            let e0 = old(xc)@[i];
            let e1 = final(xc)@[i];
            &&& final(xc)@ == old(xc)@.update(i, e1)
            &&& (mem_view(e0) is None ==> (r matches Err(be) && be.step == BootStep::Populate
                && be.error.code == ErrorCode::InternalError) && boot_limits_entry(e0, e1))
            &&& (mem_view(e0) is Some && hvm::spec_bootstrap(e0.context@) is None ==> (
            r matches Err(be) && be.step == BootStep::BuildContext && be.error.code
                == ErrorCode::InternalError) && boot_populated_entry(e0, e1, image@)
                && e1.paused == e0.paused && e1.context@ == e0.context@)
            &&& (mem_view(e0) is Some && hvm::spec_bootstrap(e0.context@) is Some ==> r is Ok
                && boot_populated_entry(e0, e1, image@) && e1.paused == false && Some(e1.context@)
                == hvm::spec_bootstrap(e0.context@))
        }),
{
    let ghost s0 = xc@;
    let ghost i = spec_idx(old(xc)@, dom_id);

    // Step 1: resource ceilings — one virtual CPU, unbounded memory.
    match xc.set_max_vcpus(dom_id, 1) {
        Ok(_) => {},
        Err(e) => {
            return Err(BootError { step: BootStep::SetLimits, error: e });
        },
    }
    proof {
        assert(xc@[i].id == dom_id);
        lemma_entry_keeps_index(xc@, i, dom_id);
    }
    match xc.set_max_mem(dom_id, u64::MAX) {
        Ok(_) => {},
        Err(e) => {
            proof {
                assert(false);
            }
            return Err(BootError { step: BootStep::SetLimits, error: e });
        },
    }
    proof {
        lemma_entry_keeps_index(xc@, i, dom_id);
    }

    // Step 2: populate the fixed extents with zeroed guest pages.
    let extents = boot_extents();
    match xc.populate_physmap(dom_id, &extents) {
        Ok(_) => {},
        Err(e) => {
            proof {
                assert(xc@ =~= s0.update(i, xc@[i]));
            }
            return Err(BootError { step: BootStep::Populate, error: e });
        },
    }
    proof {
        lemma_entry_keeps_index(xc@, i, dom_id);
    }

    // Step 3: map the populated frames as a foreign read/write window.
    let mut mapping = match xc.map_foreign_pages(dom_id, &extents) {
        Ok(m) => m,
        Err(e) => {
            proof {
                assert(false);
            }
            return Err(BootError { step: BootStep::MapForeign, error: e });
        },
    };
    proof {
        lemma_entry_keeps_index(xc@, i, dom_id);
        assert(mapping@.len() == 65536);
    }

    // Step 4: copy the kernel image verbatim to the start of the window.
    copy_into_mapping(&mut mapping, image);

    // Step 5: fetch the domain's current HVM save buffer.
    let fetched = match xc.get_hvm_context(dom_id) {
        Ok(c) => c,
        Err(e) => {
            proof {
                assert(false);
            }
            return Err(BootError { step: BootStep::FetchContext, error: e });
        },
    };

    // Step 6: rebuild the buffer around the fixed CPU bootstrap record.
    let boot_ctx = match hvm::build_bootstrap_buffer(&fetched) {
        Some(b) => b,
        None => {
            // Release the mapping before surfacing the failure.
            let unmapped = xc.unmap_foreign_pages(dom_id, mapping);
            proof {
                assert(unmapped is Ok);
                lemma_entry_keeps_index(xc@, i, dom_id);
                assert(xc@ =~= s0.update(i, xc@[i]));
                assert(mem_view(xc@[i]).unwrap() =~= spec_boot_memory(image@));
            }
            return Err(
                BootError {
                    step: BootStep::BuildContext,
                    error: Error::new(ErrorCode::InternalError, ""),
                },
            );
        },
    };

    // Step 7: write the rebuilt buffer back.
    match xc.set_hvm_context(dom_id, &boot_ctx) {
        Ok(_) => {},
        Err(e) => {
            proof {
                assert(false);
            }
            return Err(BootError { step: BootStep::SetContext, error: e });
        },
    }
    proof {
        lemma_entry_keeps_index(xc@, i, dom_id);
    }

    // Step 8: unpause — the domain starts running at the load address.
    match xc.unpause_domain(dom_id) {
        Ok(_) => {},
        Err(e) => {
            proof {
                assert(false);
            }
            return Err(BootError { step: BootStep::Unpause, error: e });
        },
    }
    proof {
        lemma_entry_keeps_index(xc@, i, dom_id);
    }

    // Step 9: release the mapping; its bytes become the domain's memory.
    let unmapped = xc.unmap_foreign_pages(dom_id, mapping);
    proof {
        assert(unmapped is Ok);
        lemma_entry_keeps_index(xc@, i, dom_id);
        assert(xc@ =~= s0.update(i, xc@[i]));
        assert(mem_view(xc@[i]).unwrap() =~= spec_boot_memory(image@));
    }
    Ok(())
}

/// An entry list that still holds `dom_id` at `i` indexes it there.
proof fn lemma_entry_keeps_index(s1: Seq<DomainEntry>, i: int, dom_id: u32)
    requires
        xenctrl::sorted_by_id(s1),
        0 <= i < s1.len(),
        s1[i].id == dom_id,
    ensures
        spec_has(s1, dom_id),
        spec_idx(s1, dom_id) == i,
{
    xenctrl::lemma_idx_of(s1, i);
}

} // verus!
