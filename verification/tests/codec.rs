use xenops::hvm::{
    build_bootstrap_buffer, fresh_header_context, parse_descriptor, parse_records, push_cpu_record,
    push_descriptor, write_u16_le, write_u32_le, write_u64_le, Descriptor, CPU_RECORD_SIZE,
    HEADER_PAYLOAD_SIZE, HVM_SAVE_CODE_CPU, HVM_SAVE_CODE_END, HVM_SAVE_CODE_HEADER,
};

#[test]
fn little_endian_encodings() {
    let mut out = Vec::new();
    write_u16_le(0x0102, &mut out);
    assert_eq!(out, vec![0x02, 0x01]);
    out.clear();
    write_u32_le(0x05060708, &mut out);
    assert_eq!(out, vec![0x08, 0x07, 0x06, 0x05]);
    out.clear();
    write_u64_le(0x0102030405060708, &mut out);
    assert_eq!(out, vec![0x08, 0x07, 0x06, 0x05, 0x04, 0x03, 0x02, 0x01]);
}

#[test]
fn descriptor_encoding_round_trips() {
    let d = Descriptor { typecode: 0x0102, instance: 0x0304, length: 0x05060708 };
    let mut out = Vec::new();
    push_descriptor(d, &mut out);
    assert_eq!(out, vec![0x02, 0x01, 0x04, 0x03, 0x08, 0x07, 0x06, 0x05]);
    let back = parse_descriptor(&out, 0);
    assert_eq!(back.typecode, 0x0102);
    assert_eq!(back.instance, 0x0304);
    assert_eq!(back.length, 0x05060708);
}

#[test]
fn fresh_context_is_a_header_record() {
    let ctx = fresh_header_context();
    assert_eq!(ctx.len(), 8 + HEADER_PAYLOAD_SIZE);
    let d = parse_descriptor(&ctx, 0);
    assert_eq!(d.typecode, HVM_SAVE_CODE_HEADER);
    assert_eq!(d.instance, 0);
    assert_eq!(d.length as usize, HEADER_PAYLOAD_SIZE);
    assert!(ctx[8..].iter().all(|b| *b == 0));
}

#[test]
fn cpu_record_has_the_fixed_bootstrap_values() {
    let mut cpu = Vec::new();
    push_cpu_record(&mut cpu);
    assert_eq!(cpu.len(), CPU_RECORD_SIZE);
    // Code segment: base 0, flat limit, executable/readable 32-bit rights.
    assert_eq!(&cpu[0..8], &[0u8; 8]);
    assert_eq!(&cpu[8..12], &[0xff, 0xff, 0xff, 0xff]);
    assert_eq!(&cpu[12..16], &[0x9b, 0xc0, 0x00, 0x00]);
    // Data segment: writable rights.
    assert_eq!(&cpu[28..32], &[0x93, 0xc0, 0x00, 0x00]);
    // Task segment: limit 0x67, busy 32-bit TSS rights.
    assert_eq!(&cpu[56..60], &[0x67, 0x00, 0x00, 0x00]);
    assert_eq!(&cpu[60..64], &[0x8b, 0x00, 0x00, 0x00]);
    // Control register 0: protection enabled, extension type, no paging.
    assert_eq!(&cpu[64..72], &[0x11, 0, 0, 0, 0, 0, 0, 0]);
    // Instruction pointer: the 1 MiB load address.
    assert_eq!(&cpu[72..80], &[0x00, 0x00, 0x10, 0, 0, 0, 0, 0]);
    // Debug registers 6 and 7: architectural power-on defaults.
    assert_eq!(&cpu[80..88], &[0xf0, 0x0f, 0xff, 0xff, 0, 0, 0, 0]);
    assert_eq!(&cpu[88..96], &[0x00, 0x04, 0, 0, 0, 0, 0, 0]);
}

#[test]
fn bootstrap_buffer_parses_as_header_cpu_end() {
    let fetched = fresh_header_context();
    let built = build_bootstrap_buffer(&fetched).unwrap();
    let records = parse_records(&built).unwrap();
    assert_eq!(records.len(), 3);
    assert_eq!(records[0].typecode, HVM_SAVE_CODE_HEADER);
    assert_eq!(records[0].payload, fetched[8..].to_vec());
    assert_eq!(records[1].typecode, HVM_SAVE_CODE_CPU);
    assert_eq!(records[1].payload.len(), CPU_RECORD_SIZE);
    assert_eq!(records[2].typecode, HVM_SAVE_CODE_END);
    assert_eq!(records[2].payload.len(), 0);
}

#[test]
fn bootstrap_discards_records_after_the_header() {
    // A fetched buffer holding HEADER, then some other record.
    let mut fetched = fresh_header_context();
    push_descriptor(Descriptor { typecode: 9, instance: 1, length: 2 }, &mut fetched);
    fetched.push(0xaa);
    fetched.push(0xbb);
    let built = build_bootstrap_buffer(&fetched).unwrap();
    let records = parse_records(&built).unwrap();
    assert_eq!(records.len(), 3);
    assert_eq!(records[0].typecode, HVM_SAVE_CODE_HEADER);
    assert_eq!(records[1].typecode, HVM_SAVE_CODE_CPU);
    assert_eq!(records[2].typecode, HVM_SAVE_CODE_END);
}

#[test]
fn bootstrap_rejects_malformed_buffers() {
    // Too short for a descriptor.
    assert!(build_bootstrap_buffer(&vec![1, 0, 0]).is_none());
    // Wrong leading typecode.
    let mut not_header = Vec::new();
    push_descriptor(Descriptor { typecode: HVM_SAVE_CODE_CPU, instance: 0, length: 0 }, &mut not_header);
    assert!(build_bootstrap_buffer(&not_header).is_none());
    // Header length pointing past the end.
    let mut truncated = Vec::new();
    push_descriptor(
        Descriptor { typecode: HVM_SAVE_CODE_HEADER, instance: 0, length: 100 },
        &mut truncated,
    );
    truncated.push(0);
    assert!(build_bootstrap_buffer(&truncated).is_none());
}

#[test]
fn parse_records_rejects_malformed_streams() {
    // A truncated descriptor.
    assert!(parse_records(&vec![1, 2, 3]).is_none());
    // A payload length past the end.
    let mut bad = Vec::new();
    push_descriptor(Descriptor { typecode: 0, instance: 0, length: 5 }, &mut bad);
    bad.push(1);
    assert!(parse_records(&bad).is_none());
    // The empty stream parses as no records.
    assert_eq!(parse_records(&Vec::new()).unwrap().len(), 0);
}
