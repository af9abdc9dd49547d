use xenops::boot::{boot_extents, start_domain, BootStep};
use xenops::xenctrl::{absorb_chunk, CreateDomain, Xenctrl};

fn session_with_domains(count: u32) -> Xenctrl {
    let mut xc = Xenctrl::new();
    let config = CreateDomain::hvm_default();
    let mut i: u32 = 0;
    while i < count {
        xc.create_domain(&config).unwrap();
        i += 1;
    }
    xc
}

#[test]
fn create_assigns_fresh_ascending_ids() {
    let mut xc = Xenctrl::new();
    let config = CreateDomain::hvm_default();
    assert_eq!(xc.create_domain(&config).unwrap(), 0);
    assert_eq!(xc.create_domain(&config).unwrap(), 1);
    assert_eq!(xc.create_domain(&config).unwrap(), 2);
}

#[test]
fn created_domain_is_paused_with_no_memory() {
    let mut xc = Xenctrl::new();
    let id = xc.create_domain(&CreateDomain::hvm_default()).unwrap();
    let info = xc.get_domain_info(id).unwrap();
    assert_eq!(info.domain, id);
    assert!(info.paused);
    assert!(!info.running);
    assert_eq!(info.nr_pages, 0);
    assert_eq!(info.max_vcpu_id, 0);
}

#[test]
fn hvm_default_is_the_fixed_creation_configuration() {
    let c = CreateDomain::hvm_default();
    assert_eq!(c.flags, xenops::xenctrl::XEN_DOMCTL_CDF_HVM | xenops::xenctrl::XEN_DOMCTL_CDF_HAP);
    assert_eq!(c.max_vcpus, 1);
    assert_eq!(c.max_evtchn_port, u32::MAX);
    assert_eq!(c.max_grant_frames, 64);
    assert_eq!(c.max_maptrack_frames, 1024);
    assert_eq!(c.arch.emulation_flags, xenops::xenctrl::XEN_X86_EMU_LAPIC);
    assert_eq!(c.handle, [0u8; 16]);
    assert_eq!(c.iommu_opts, 0);
    assert_eq!(c.ssidref, 0);
}

#[test]
fn get_domain_info_of_missing_domain_fails() {
    let xc = session_with_domains(2);
    assert!(xc.get_domain_info(7).is_err());
}

#[test]
fn enumeration_returns_every_domain_once() {
    let xc = session_with_domains(3);
    let infos = xc.get_domain_info_list().unwrap();
    assert_eq!(infos.len(), 3);
    for (t, info) in infos.iter().enumerate() {
        assert_eq!(info.domain, t as u32);
    }
}

#[test]
fn enumeration_of_empty_session_is_empty() {
    let xc = Xenctrl::new();
    let (infos, requests) = xc.enumerate_domains();
    assert_eq!(infos.len(), 0);
    assert_eq!(requests, 1);
}

#[test]
fn enumeration_request_count_is_bounded() {
    let xc = session_with_domains(3);
    let (infos, requests) = xc.enumerate_domains();
    assert_eq!(infos.len(), 3);
    assert_eq!(requests, 2);
}

#[test]
fn enumeration_spans_multiple_batches() {
    let xc = session_with_domains(1500);
    let (infos, requests) = xc.enumerate_domains();
    assert_eq!(infos.len(), 1500);
    assert!(requests <= (1500 + 1023) / 1024 + 1);
    for (t, info) in infos.iter().enumerate() {
        assert_eq!(info.domain, t as u32);
    }
    let mut seen = std::collections::HashSet::new();
    for info in infos.iter() {
        assert!(seen.insert(info.domain));
    }
}

#[test]
fn chunk_requests_page_through_the_domains() {
    let xc = session_with_domains(3);
    let chunk = xc.get_info_chunk(0, 2);
    assert_eq!(chunk.len(), 2);
    assert_eq!(chunk[0].domain, 0);
    assert_eq!(chunk[1].domain, 1);
    let rest = xc.get_info_chunk(2, 10);
    assert_eq!(rest.len(), 1);
    assert_eq!(rest[0].domain, 2);
    assert_eq!(xc.get_info_chunk(3, 10).len(), 0);
}

#[test]
fn absorb_chunk_deduplicates_and_advances_cursor() {
    let xc = session_with_domains(2);
    let chunk = xc.get_info_chunk(0, 10);
    let mut domains = Vec::new();
    let mut cursor: u64 = 0;
    absorb_chunk(&mut domains, &mut cursor, &chunk);
    assert_eq!(domains.len(), 2);
    assert_eq!(cursor, 2);
    // Absorbing the same chunk again adds nothing but keeps the cursor.
    absorb_chunk(&mut domains, &mut cursor, &chunk);
    assert_eq!(domains.len(), 2);
    assert_eq!(cursor, 2);
}

#[test]
fn pause_and_unpause_are_idempotent() {
    let mut xc = session_with_domains(1);
    xc.unpause_domain(0).unwrap();
    assert!(xc.get_domain_info(0).unwrap().running);
    // Unpausing a running domain changes nothing observable.
    xc.unpause_domain(0).unwrap();
    assert!(xc.get_domain_info(0).unwrap().running);
    xc.pause_domain(0).unwrap();
    assert!(xc.get_domain_info(0).unwrap().paused);
    // Pausing a paused domain changes nothing observable.
    xc.pause_domain(0).unwrap();
    let info = xc.get_domain_info(0).unwrap();
    assert!(info.paused);
    assert!(!info.running);
}

#[test]
fn pause_of_missing_domain_is_a_well_defined_error() {
    let mut xc = session_with_domains(1);
    assert!(xc.pause_domain(42).is_err());
    assert!(xc.unpause_domain(42).is_err());
    // The one real domain is untouched.
    assert!(xc.get_domain_info(0).unwrap().paused);
}

#[test]
fn boot_extents_start_at_the_load_address() {
    let extents = boot_extents();
    assert_eq!(extents.len(), 16);
    assert_eq!(extents[0], 256);
    assert_eq!(extents[15], 271);
}

#[test]
fn start_domain_drives_a_fresh_domain_to_running() {
    let mut xc = Xenctrl::new();
    let id = xc.create_domain(&CreateDomain::hvm_default()).unwrap();
    let image = vec![0xeb, 0xfe, 0x90, 0x90];
    start_domain(&mut xc, id, &image).unwrap();
    let info = xc.get_domain_info(id).unwrap();
    assert!(info.running);
    assert_eq!(info.nr_pages, 16);
    assert_eq!(info.max_vcpu_id, 0);
    // The image sits at the start of the populated region.
    let extents = boot_extents();
    let mapping = xc.map_foreign_pages(id, &extents).unwrap();
    assert_eq!(mapping.len(), 16 * 4096);
    assert_eq!(&mapping[0..4], &image[..]);
    assert!(mapping[4..].iter().all(|b| *b == 0));
    xc.unmap_foreign_pages(id, mapping).unwrap();
}

#[test]
fn start_domain_of_missing_domain_fails_at_the_first_step() {
    let mut xc = Xenctrl::new();
    let image = vec![0x90];
    let err = start_domain(&mut xc, 3, &image).unwrap_err();
    assert!(err.step == BootStep::SetLimits);
}

#[test]
fn start_domain_of_mapped_domain_fails_at_population() {
    let mut xc = Xenctrl::new();
    let id = xc.create_domain(&CreateDomain::hvm_default()).unwrap();
    let extents = boot_extents();
    xc.populate_physmap(id, &extents).unwrap();
    let mapping = xc.map_foreign_pages(id, &extents).unwrap();
    let err = start_domain(&mut xc, id, &vec![0x90]).unwrap_err();
    assert!(err.step == BootStep::Populate);
    // The mapping is still ours to return.
    xc.unmap_foreign_pages(id, mapping).unwrap();
}

#[test]
fn foreign_mapping_cycle_returns_written_bytes() {
    let mut xc = Xenctrl::new();
    let id = xc.create_domain(&CreateDomain::hvm_default()).unwrap();
    let extents = boot_extents();
    xc.populate_physmap(id, &extents).unwrap();
    let mut mapping = xc.map_foreign_pages(id, &extents).unwrap();
    // Mapping twice without an unmap fails.
    assert!(xc.map_foreign_pages(id, &extents).is_err());
    mapping[0] = 0x7f;
    xc.unmap_foreign_pages(id, mapping).unwrap();
    let again = xc.map_foreign_pages(id, &extents).unwrap();
    assert_eq!(again[0], 0x7f);
    xc.unmap_foreign_pages(id, again).unwrap();
}

#[test]
fn get_domain_handle_returns_the_creation_handle() {
    let mut xc = Xenctrl::new();
    let mut config = CreateDomain::hvm_default();
    config.handle = [7u8; 16];
    let id = xc.create_domain(&config).unwrap();
    assert_eq!(xc.get_domain_handle(id).unwrap(), [7u8; 16]);
    assert!(xc.get_domain_handle(id + 1).is_err());
}
