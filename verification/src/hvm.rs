//! The HVM save-record binary codec.
//!
//! A save buffer is a sequence of `(descriptor, payload)` pairs, packed
//! little-endian: each descriptor holds a 16-bit typecode, a 16-bit
//! instance, and a 32-bit payload byte length (the descriptor itself
//! excluded). The boot path emits exactly three typecodes: a HEADER copied
//! verbatim from a fetched buffer (never synthesized), a freshly built CPU
//! record holding the fixed bootstrap register state, and a zero-length END
//! record terminating the stream.

use vstd::prelude::*;

verus! {

/// Typecode of the END record, terminating the stream.
pub const HVM_SAVE_CODE_END: u16 = 0;

/// Typecode of the leading HEADER record.
pub const HVM_SAVE_CODE_HEADER: u16 = 1;

/// Typecode of the CPU state record.
pub const HVM_SAVE_CODE_CPU: u16 = 2;

/// Byte length of a record descriptor.
pub const DESCRIPTOR_SIZE: usize = 8;

/// Byte length of the CPU bootstrap record payload: four segment blocks of
/// 16 bytes (base, limit, access rights), then control register 0, the
/// instruction pointer, and debug registers 6 and 7, 8 bytes each.
pub const CPU_RECORD_SIZE: usize = 96;

/// Payload length of the HEADER record a fresh domain reports.
pub const HEADER_PAYLOAD_SIZE: usize = 24;

/// Flat 4 GiB segment limit for the code, data and stack segments.
pub const SEGMENT_LIMIT_FLAT: u32 = 0xffff_ffff;

/// Access rights of the bootstrap code segment: present, executable,
/// readable, 32-bit, page-granular.
pub const CODE_SEGMENT_AR: u32 = 0xc09b;

/// Access rights of the bootstrap data and stack segments: present,
/// writable, 32-bit, page-granular.
pub const DATA_SEGMENT_AR: u32 = 0xc093;

/// Limit of the bootstrap task segment.
pub const TASK_SEGMENT_LIMIT: u32 = 0x67;

/// Access rights of the bootstrap task segment: present, busy 32-bit TSS.
pub const TASK_SEGMENT_AR: u32 = 0x8b;

/// Control register 0 at bootstrap: protection enabled, extension type,
/// no paging.
pub const BOOT_CR0: u64 = 0x11;

/// The guest-physical load address, and so the bootstrap instruction
/// pointer: the 1 MiB boundary.
pub const BOOT_ENTRY_GPA: u64 = 0x10_0000;

/// Architectural power-on value of debug register 6.
pub const BOOT_DR6: u64 = 0xffff_0ff0;

/// Architectural power-on value of debug register 7.
pub const BOOT_DR7: u64 = 0x400;

/// A record descriptor: typecode, instance, payload byte length.
#[derive(Clone, Copy, PartialEq, Eq, Structural, Debug)]
pub struct Descriptor {
    pub typecode: u16,
    pub instance: u16,
    pub length: u32,
}

/// A parsed record: its descriptor fields and its payload bytes.
pub struct Record {
    pub typecode: u16,
    pub instance: u16,
    pub payload: Vec<u8>,
}

/// The two little-endian bytes of a 16-bit value.
pub open spec fn spec_u16_le(v: u16) -> Seq<u8> {
    seq![(v & 0xff) as u8, ((v >> 8) & 0xff) as u8]
}

/// The four little-endian bytes of a 32-bit value.
pub open spec fn spec_u32_le(v: u32) -> Seq<u8> {
    seq![
        (v & 0xff) as u8,
        ((v >> 8) & 0xff) as u8,
        ((v >> 16) & 0xff) as u8,
        ((v >> 24) & 0xff) as u8,
    ]
}

/// The eight little-endian bytes of a 64-bit value.
pub open spec fn spec_u64_le(v: u64) -> Seq<u8> {
    seq![
        (v & 0xff) as u8,
        ((v >> 8) & 0xff) as u8,
        ((v >> 16) & 0xff) as u8,
        ((v >> 24) & 0xff) as u8,
        ((v >> 32) & 0xff) as u8,
        ((v >> 40) & 0xff) as u8,
        ((v >> 48) & 0xff) as u8,
        ((v >> 56) & 0xff) as u8,
    ]
}

/// The 16-bit value held little-endian at `at`.
pub open spec fn spec_le16(s: Seq<u8>, at: int) -> u16 {
    (s[at] as u16) | ((s[at + 1] as u16) << 8)
}

/// The 32-bit value held little-endian at `at`.
pub open spec fn spec_le32(s: Seq<u8>, at: int) -> u32 {
    (s[at] as u32) | ((s[at + 1] as u32) << 8) | ((s[at + 2] as u32) << 16) | ((s[at
        + 3] as u32) << 24)
}

/// The descriptor held in the first eight bytes of `s`.
pub open spec fn spec_parse_descriptor(s: Seq<u8>) -> Descriptor {
    Descriptor { typecode: spec_le16(s, 0), instance: spec_le16(s, 2), length: spec_le32(s, 4) }
}

/// The eight packed bytes of a descriptor.
pub open spec fn spec_encode_descriptor(d: Descriptor) -> Seq<u8> {
    spec_u16_le(d.typecode) + spec_u16_le(d.instance) + spec_u32_le(d.length)
}

/// Appends the two little-endian bytes of `v`.
pub fn write_u16_le(v: u16, out: &mut Vec<u8>)
    ensures
        final(out)@ == old(out)@ + spec_u16_le(v),
{
    assert((v & 0xff) < 256 && ((v >> 8) & 0xff) < 256) by (bit_vector);
    out.push((v & 0xff) as u8);
    out.push(((v >> 8) & 0xff) as u8);
    assert(out@ =~= old(out)@ + spec_u16_le(v));
}

/// Appends the four little-endian bytes of `v`.
pub fn write_u32_le(v: u32, out: &mut Vec<u8>)
    ensures
        final(out)@ == old(out)@ + spec_u32_le(v),
{
    assert((v & 0xff) < 256 && ((v >> 8) & 0xff) < 256 && ((v >> 16) & 0xff) < 256 && ((v >> 24)
        & 0xff) < 256) by (bit_vector);
    out.push((v & 0xff) as u8);
    out.push(((v >> 8) & 0xff) as u8);
    out.push(((v >> 16) & 0xff) as u8);
    out.push(((v >> 24) & 0xff) as u8);
    assert(out@ =~= old(out)@ + spec_u32_le(v));
}

/// Appends the eight little-endian bytes of `v`.
pub fn write_u64_le(v: u64, out: &mut Vec<u8>)
    ensures
        final(out)@ == old(out)@ + spec_u64_le(v),
{
    assert((v & 0xff) < 256 && ((v >> 8) & 0xff) < 256 && ((v >> 16) & 0xff) < 256 && ((v >> 24)
        & 0xff) < 256 && ((v >> 32) & 0xff) < 256 && ((v >> 40) & 0xff) < 256 && ((v >> 48) & 0xff)
        < 256 && ((v >> 56) & 0xff) < 256) by (bit_vector);
    out.push((v & 0xff) as u8);
    out.push(((v >> 8) & 0xff) as u8);
    out.push(((v >> 16) & 0xff) as u8);
    out.push(((v >> 24) & 0xff) as u8);
    out.push(((v >> 32) & 0xff) as u8);
    out.push(((v >> 40) & 0xff) as u8);
    out.push(((v >> 48) & 0xff) as u8);
    out.push(((v >> 56) & 0xff) as u8);
    assert(out@ =~= old(out)@ + spec_u64_le(v));
}

/// Appends the eight packed bytes of a descriptor.
pub fn push_descriptor(d: Descriptor, out: &mut Vec<u8>)
    ensures
        final(out)@ == old(out)@ + spec_encode_descriptor(d),
{
    write_u16_le(d.typecode, out);
    write_u16_le(d.instance, out);
    write_u32_le(d.length, out);
    assert(out@ =~= old(out)@ + spec_encode_descriptor(d));
}

/// Reads the 16-bit value held little-endian at `at`.
pub fn read_u16_le(buf: &Vec<u8>, at: usize) -> (r: u16)
    requires
        at + 2 <= buf.len(),
    ensures
        r == spec_le16(buf@, at as int),
{
    let b0 = buf[at];
    let b1 = buf[at + 1];
    (b0 as u16) | ((b1 as u16) << 8)
}

/// Reads the 32-bit value held little-endian at `at`.
pub fn read_u32_le(buf: &Vec<u8>, at: usize) -> (r: u32)
    requires
        at + 4 <= buf.len(),
    ensures
        r == spec_le32(buf@, at as int),
{
    let b0 = buf[at];
    let b1 = buf[at + 1];
    let b2 = buf[at + 2];
    let b3 = buf[at + 3];
    (b0 as u32) | ((b1 as u32) << 8) | ((b2 as u32) << 16) | ((b3 as u32) << 24)
}

/// Parses the descriptor held at `at`.
pub fn parse_descriptor(buf: &Vec<u8>, at: usize) -> (r: Descriptor)
    requires
        at + 8 <= buf.len(),
    ensures
        r == spec_parse_descriptor(buf@.skip(at as int)),
{
    let typecode = read_u16_le(buf, at);
    let instance = read_u16_le(buf, at + 2);
    let length = read_u32_le(buf, at + 4);
    proof {
        assert(buf@.skip(at as int)[0] == buf@[at as int]);
        assert(buf@.skip(at as int)[1] == buf@[at as int + 1]);
        assert(buf@.skip(at as int)[2] == buf@[at as int + 2]);
        assert(buf@.skip(at as int)[3] == buf@[at as int + 3]);
        assert(buf@.skip(at as int)[4] == buf@[at as int + 4]);
        assert(buf@.skip(at as int)[5] == buf@[at as int + 5]);
        assert(buf@.skip(at as int)[6] == buf@[at as int + 6]);
        assert(buf@.skip(at as int)[7] == buf@[at as int + 7]);
    }
    Descriptor { typecode, instance, length }
}

/// Encoding then parsing a 16-bit value gives it back.
proof fn lemma_u16_le_roundtrip(v: u16)
    ensures
        ((v & 0xff) as u8 as u16) | ((((v >> 8) & 0xff) as u8 as u16) << 8) == v,
{
    assert(((v & 0xff) as u8 as u16) | ((((v >> 8) & 0xff) as u8 as u16) << 8) == v)
        by (bit_vector);
}

/// Encoding then parsing a 32-bit value gives it back.
proof fn lemma_u32_le_roundtrip(v: u32)
    ensures
        ((v & 0xff) as u8 as u32) | ((((v >> 8) & 0xff) as u8 as u32) << 8) | ((((v >> 16)
            & 0xff) as u8 as u32) << 16) | ((((v >> 24) & 0xff) as u8 as u32) << 24) == v,
{
    assert(((v & 0xff) as u8 as u32) | ((((v >> 8) & 0xff) as u8 as u32) << 8) | ((((v >> 16)
        & 0xff) as u8 as u32) << 16) | ((((v >> 24) & 0xff) as u8 as u32) << 24) == v)
        by (bit_vector);
}

/// A record stream starting with a whole record parses as that record
/// followed by the stream of the remaining bytes.
pub proof fn lemma_records_cons(d: Descriptor, payload: Seq<u8>, rest: Seq<u8>)
    requires
        payload.len() == d.length,
    ensures
        spec_records(spec_encode_descriptor(d) + payload + rest) == (match spec_records(rest) {
            None => None::<Seq<(u16, u16, Seq<u8>)>>,
            Some(rs) => Some(seq![(d.typecode, d.instance, payload)] + rs),
        }),
{
    let s = spec_encode_descriptor(d) + payload + rest;
    assert(s =~= spec_encode_descriptor(d) + (payload + rest));
    lemma_descriptor_roundtrip(d, payload + rest);
    assert(spec_parse_descriptor(s) == d);
    assert(s.len() == 8 + payload.len() + rest.len());
    assert(s.subrange(8, 8 + d.length as int) =~= payload);
    assert(s.skip(8 + d.length as int) =~= rest);
}

/// A descriptor's encoding parses back to the descriptor, whatever follows.
pub proof fn lemma_descriptor_roundtrip(d: Descriptor, rest: Seq<u8>)
    ensures
        spec_parse_descriptor(spec_encode_descriptor(d) + rest) == d,
{
    let s = spec_encode_descriptor(d) + rest;
    assert(s[0] == (d.typecode & 0xff) as u8);
    assert(s[1] == ((d.typecode >> 8) & 0xff) as u8);
    assert(s[2] == (d.instance & 0xff) as u8);
    assert(s[3] == ((d.instance >> 8) & 0xff) as u8);
    assert(s[4] == (d.length & 0xff) as u8);
    assert(s[5] == ((d.length >> 8) & 0xff) as u8);
    assert(s[6] == ((d.length >> 16) & 0xff) as u8);
    assert(s[7] == ((d.length >> 24) & 0xff) as u8);
    lemma_u16_le_roundtrip(d.typecode);
    lemma_u16_le_roundtrip(d.instance);
    lemma_u32_le_roundtrip(d.length);
}

/// The record stream held by a buffer: each record's typecode, instance and
/// payload bytes, in order — or nothing, if the buffer is malformed. The
/// whole buffer must be consumed by whole records.
pub open spec fn spec_records(s: Seq<u8>) -> Option<Seq<(u16, u16, Seq<u8>)>>
    decreases s.len(),
{
    if s.len() == 0 {
        Some(Seq::empty())
    } else if s.len() < 8 {
        None
    } else {
        let d = spec_parse_descriptor(s);
        if 8 + d.length > s.len() {
            None
        } else {
            match spec_records(s.skip(8 + d.length as int)) {
                None => None,
                Some(rest) => Some(
                    seq![(d.typecode, d.instance, s.subrange(8, 8 + d.length as int))] + rest,
                ),
            }
        }
    }
}

/// The parsed records match the stream held by the bytes.
pub open spec fn records_match(rs: Seq<Record>, s: Seq<u8>) -> bool {
    match spec_records(s) {
        None => false,
        Some(specs) => rs.len() == specs.len() && forall|i: int|
            0 <= i < rs.len() ==> rs[i].typecode == specs[i].0 && rs[i].instance == specs[i].1
                && rs[i].payload@ == specs[i].2,
    }
}

/// Parses a whole buffer as a record stream. Fails exactly when the buffer
/// is malformed: a truncated descriptor or a payload length past the end.
pub fn parse_records(buf: &Vec<u8>) -> (r: Option<Vec<Record>>)
    ensures
        match r {
            Some(rs) => records_match(rs@, buf@),
            None => spec_records(buf@) is None,
        },
{
    let n = buf.len();
    let mut records: Vec<Record> = Vec::new();
    let mut off: usize = 0;
    proof {
        assert(buf@.skip(0) =~= buf@);
        assert(records@.map_values(|rec: Record| (rec.typecode, rec.instance, rec.payload@))
            =~= Seq::<(u16, u16, Seq<u8>)>::empty());
        if spec_records(buf@) is Some {
            assert(Seq::<(u16, u16, Seq<u8>)>::empty() + spec_records(buf@).unwrap()
                =~= spec_records(buf@).unwrap());
        }
    }
    while off < n
        invariant
            n == buf@.len(),
            off <= n,
            match spec_records(buf@.skip(off as int)) {
                None => spec_records(buf@) is None,
                Some(rest) => spec_records(buf@) == Some(
                    records@.map_values(|rec: Record| (rec.typecode, rec.instance, rec.payload@))
                        + rest,
                ),
            },
        decreases n - off,
    {
        let remaining = n - off;
        if remaining < 8 {
            proof {
                assert(buf@.skip(off as int).len() == remaining);
                assert(spec_records(buf@.skip(off as int)) is None);
            }
            return None;
        }
        let d = parse_descriptor(buf, off);
        let payload_len = d.length as usize;
        if payload_len > remaining - 8 {
            proof {
                assert(buf@.skip(off as int).len() == n - off);
                assert(spec_records(buf@.skip(off as int)) is None);
            }
            return None;
        }
        let body = off + 8;
        let mut payload: Vec<u8> = Vec::new();
        let mut t: usize = 0;
        while t < payload_len
            invariant
                n == buf@.len(),
                body + payload_len <= n,
                t <= payload_len,
                payload@ == buf@.subrange(body as int, body as int + t as int),
            decreases payload_len - t,
        {
            payload.push(buf[body + t]);
            proof {
                assert(payload@ =~= buf@.subrange(body as int, body as int + t as int + 1));
            }
            t = t + 1;
        }
        let ghost old_records = records@;
        let ghost tail = buf@.skip(off as int);
        records.push(Record { typecode: d.typecode, instance: d.instance, payload });
        proof {
            let newoff = off as int + 8 + payload_len as int;
            let triple = (
                d.typecode,
                d.instance,
                buf@.subrange(body as int, body as int + payload_len as int),
            );
            let acc0 = old_records.map_values(
                |rec: Record| (rec.typecode, rec.instance, rec.payload@),
            );
            assert(tail.len() == n - off);
            assert(8 + d.length as int <= tail.len());
            assert(tail.subrange(8, 8 + d.length as int) =~= buf@.subrange(
                body as int,
                body as int + payload_len as int,
            ));
            assert(tail.skip(8 + d.length as int) =~= buf@.skip(newoff));
            assert(spec_records(tail) == (match spec_records(buf@.skip(newoff)) {
                None => None::<Seq<(u16, u16, Seq<u8>)>>,
                Some(rest) => Some(seq![triple] + rest),
            }));
            assert(records@.map_values(
                |rec: Record| (rec.typecode, rec.instance, rec.payload@),
            ) =~= acc0 + seq![triple]);
            if let Some(rest) = spec_records(buf@.skip(newoff)) {
                assert(acc0 + (seq![triple] + rest) =~= (acc0 + seq![triple]) + rest);
            }
        }
        off = body + payload_len;
    }
    proof {
        assert(buf@.skip(off as int).len() == 0);
        assert(buf@.skip(off as int) =~= Seq::empty());
        assert(records@.map_values(|rec: Record| (rec.typecode, rec.instance, rec.payload@))
            + Seq::<(u16, u16, Seq<u8>)>::empty() =~= records@.map_values(
            |rec: Record| (rec.typecode, rec.instance, rec.payload@),
        ));
    }
    Some(records)
}

/// One 16-byte segment block of the CPU record: base, limit, access rights.
pub open spec fn spec_segment_block(base: u64, limit: u32, ar: u32) -> Seq<u8> {
    spec_u64_le(base) + spec_u32_le(limit) + spec_u32_le(ar)
}

/// The fixed CPU bootstrap record payload: flat code, data and stack
/// segments based at zero, the busy task segment, protection-enabled
/// control register 0, the instruction pointer at the guest-physical load
/// address, and the architectural reset values of debug registers 6 and 7.
pub open spec fn spec_cpu_record() -> Seq<u8> {
    spec_segment_block(0, SEGMENT_LIMIT_FLAT, CODE_SEGMENT_AR) + spec_segment_block(
        0,
        SEGMENT_LIMIT_FLAT,
        DATA_SEGMENT_AR,
    ) + spec_segment_block(0, SEGMENT_LIMIT_FLAT, DATA_SEGMENT_AR) + spec_segment_block(
        0,
        TASK_SEGMENT_LIMIT,
        TASK_SEGMENT_AR,
    ) + spec_u64_le(BOOT_CR0) + spec_u64_le(BOOT_ENTRY_GPA) + spec_u64_le(BOOT_DR6) + spec_u64_le(
        BOOT_DR7,
    )
}

/// Appends one segment block.
fn push_segment_block(base: u64, limit: u32, ar: u32, out: &mut Vec<u8>)
    ensures
        final(out)@ == old(out)@ + spec_segment_block(base, limit, ar),
{
    write_u64_le(base, out);
    write_u32_le(limit, out);
    write_u32_le(ar, out);
    assert(out@ =~= old(out)@ + spec_segment_block(base, limit, ar));
}

/// Appends the fixed CPU bootstrap record payload.
pub fn push_cpu_record(out: &mut Vec<u8>)
    ensures
        final(out)@ == old(out)@ + spec_cpu_record(),
{
    push_segment_block(0, SEGMENT_LIMIT_FLAT, CODE_SEGMENT_AR, out);
    push_segment_block(0, SEGMENT_LIMIT_FLAT, DATA_SEGMENT_AR, out);
    push_segment_block(0, SEGMENT_LIMIT_FLAT, DATA_SEGMENT_AR, out);
    push_segment_block(0, TASK_SEGMENT_LIMIT, TASK_SEGMENT_AR, out);
    write_u64_le(BOOT_CR0, out);
    write_u64_le(BOOT_ENTRY_GPA, out);
    write_u64_le(BOOT_DR6, out);
    write_u64_le(BOOT_DR7, out);
    assert(out@ =~= old(out)@ + spec_cpu_record());
}

/// The CPU record payload has its fixed size.
pub proof fn lemma_cpu_record_size()
    ensures
        spec_cpu_record().len() == CPU_RECORD_SIZE,
{
}

/// The context a freshly created domain reports: a HEADER record with a
/// zeroed payload and nothing else.
pub open spec fn spec_fresh_context() -> Seq<u8> {
    spec_encode_descriptor(
        Descriptor {
            typecode: HVM_SAVE_CODE_HEADER,
            instance: 0,
            length: HEADER_PAYLOAD_SIZE as u32,
        },
    ) + Seq::new(HEADER_PAYLOAD_SIZE as nat, |i: int| 0u8)
}

/// Builds the context a freshly created domain reports.
pub fn fresh_header_context() -> (r: Vec<u8>)
    ensures
        r@ == spec_fresh_context(),
{
    let mut out: Vec<u8> = Vec::new();
    push_descriptor(
        Descriptor {
            typecode: HVM_SAVE_CODE_HEADER,
            instance: 0,
            length: HEADER_PAYLOAD_SIZE as u32,
        },
        &mut out,
    );
    let mut i: usize = 0;
    while i < HEADER_PAYLOAD_SIZE
        invariant
            i <= HEADER_PAYLOAD_SIZE,
            out@ == spec_encode_descriptor(
                Descriptor {
                    typecode: HVM_SAVE_CODE_HEADER,
                    instance: 0,
                    length: HEADER_PAYLOAD_SIZE as u32,
                },
            ) + Seq::new(i as nat, |j: int| 0u8),
        decreases HEADER_PAYLOAD_SIZE - i,
    {
        out.push(0);
        proof {
            assert(out@ =~= spec_encode_descriptor(
                Descriptor {
                    typecode: HVM_SAVE_CODE_HEADER,
                    instance: 0,
                    length: HEADER_PAYLOAD_SIZE as u32,
                },
            ) + Seq::new(i as nat + 1, |j: int| 0u8));
        }
        i = i + 1;
    }
    assert(out@ =~= spec_fresh_context());
    out
}

/// The bootstrap save buffer built from a fetched buffer: the leading
/// HEADER descriptor and payload copied verbatim, then a fresh CPU
/// descriptor and record, then a zero-length END descriptor — or nothing,
/// if the fetched buffer does not start with a whole HEADER record.
pub open spec fn spec_bootstrap(fetched: Seq<u8>) -> Option<Seq<u8>> {
    if fetched.len() < 8 {
        None
    } else {
        let d = spec_parse_descriptor(fetched);
        if d.typecode != HVM_SAVE_CODE_HEADER || 8 + d.length > fetched.len() {
            None
        } else {
            Some(
                fetched.take(8 + d.length as int) + spec_encode_descriptor(
                    Descriptor {
                        typecode: HVM_SAVE_CODE_CPU,
                        instance: 0,
                        length: CPU_RECORD_SIZE as u32,
                    },
                ) + spec_cpu_record() + spec_encode_descriptor(
                    Descriptor { typecode: HVM_SAVE_CODE_END, instance: 0, length: 0 },
                ),
            )
        }
    }
}

/// Builds the bootstrap save buffer from a fetched one: copies the leading
/// HEADER descriptor and payload verbatim, appends the fixed CPU record,
/// and terminates with END — discarding every other record of the fetched
/// buffer. Fails exactly when the fetched buffer does not start with a
/// whole HEADER record.
pub fn build_bootstrap_buffer(fetched: &Vec<u8>) -> (r: Option<Vec<u8>>)
    ensures
        match r {
            Some(b) => spec_bootstrap(fetched@) == Some(b@),
            None => spec_bootstrap(fetched@) is None,
        },
{
    if fetched.len() < 8 {
        return None;
    }
    let d = parse_descriptor(fetched, 0);
    proof {
        assert(fetched@.skip(0) =~= fetched@);
    }
    if d.typecode != HVM_SAVE_CODE_HEADER {
        return None;
    }
    let payload_len = d.length as usize;
    if payload_len > fetched.len() - 8 {
        return None;
    }
    let total = 8 + payload_len;
    let mut out: Vec<u8> = Vec::new();
    let mut i: usize = 0;
    while i < total
        invariant
            total <= fetched@.len(),
            i <= total,
            out@ == fetched@.take(i as int),
        decreases total - i,
    {
        out.push(fetched[i]);
        proof {
            assert(out@ =~= fetched@.take(i as int + 1));
        }
        i = i + 1;
    }
    push_descriptor(
        Descriptor { typecode: HVM_SAVE_CODE_CPU, instance: 0, length: CPU_RECORD_SIZE as u32 },
        &mut out,
    );
    push_cpu_record(&mut out);
    push_descriptor(Descriptor { typecode: HVM_SAVE_CODE_END, instance: 0, length: 0 }, &mut out);
    proof {
        assert(spec_bootstrap(fetched@) == Some(out@)) by {
            assert(out@ =~= spec_bootstrap(fetched@).unwrap());
        }
    }
    Some(out)
}

/// The structural invariant of the bootstrap buffer: it parses as exactly
/// three records — the HEADER copied from the fetched buffer, a CPU record
/// of the fixed size, and an END record with an empty payload.
pub proof fn lemma_bootstrap_buffer_structure(fetched: Seq<u8>)
    requires
        spec_bootstrap(fetched) is Some,
    ensures
        ({
            let b = spec_bootstrap(fetched).unwrap();
            let d = spec_parse_descriptor(fetched);
            &&& spec_records(b) is Some
            &&& spec_records(b).unwrap().len() == 3
            &&& spec_records(b).unwrap()[0].0 == HVM_SAVE_CODE_HEADER
            &&& spec_records(b).unwrap()[0].2 == fetched.subrange(8, 8 + d.length as int)
            &&& spec_records(b).unwrap()[1].0 == HVM_SAVE_CODE_CPU
            &&& spec_records(b).unwrap()[1].2 == spec_cpu_record()
            &&& spec_records(b).unwrap()[1].2.len() == CPU_RECORD_SIZE
            &&& spec_records(b).unwrap()[2].0 == HVM_SAVE_CODE_END
            &&& spec_records(b).unwrap()[2].2.len() == 0
        }),
{
    let b = spec_bootstrap(fetched).unwrap();
    let d = spec_parse_descriptor(fetched);
    let cpu_desc = Descriptor {
        typecode: HVM_SAVE_CODE_CPU,
        instance: 0,
        length: CPU_RECORD_SIZE as u32,
    };
    let end_desc = Descriptor { typecode: HVM_SAVE_CODE_END, instance: 0, length: 0 };
    let tail1 = spec_encode_descriptor(cpu_desc) + spec_cpu_record() + spec_encode_descriptor(
        end_desc,
    );
    let tail2 = spec_encode_descriptor(end_desc);
    lemma_cpu_record_size();

    // The third record is the empty END record.
    lemma_records_cons(end_desc, Seq::empty(), Seq::empty());
    assert(spec_encode_descriptor(end_desc) + Seq::<u8>::empty() + Seq::<u8>::empty() =~= tail2);
    assert(spec_records(Seq::<u8>::empty()) == Some(Seq::<(u16, u16, Seq<u8>)>::empty()));
    assert(seq![(HVM_SAVE_CODE_END, 0u16, Seq::<u8>::empty())]
        + Seq::<(u16, u16, Seq<u8>)>::empty() =~= seq![(HVM_SAVE_CODE_END, 0u16, Seq::<
        u8,
    >::empty())]);
    assert(spec_records(tail2) == Some(seq![(HVM_SAVE_CODE_END, 0u16, Seq::<u8>::empty())]));

    // The second record is the CPU record.
    lemma_records_cons(cpu_desc, spec_cpu_record(), tail2);
    assert(spec_encode_descriptor(cpu_desc) + spec_cpu_record() + tail2 =~= tail1);
    assert(spec_records(tail1) == Some(
        seq![(HVM_SAVE_CODE_CPU, 0u16, spec_cpu_record())] + seq![(
            HVM_SAVE_CODE_END,
            0u16,
            Seq::<u8>::empty(),
        )],
    ));

    // The first record of `b` is the copied HEADER.
    assert(b.len() == 8 + d.length + tail1.len());
    assert(spec_parse_descriptor(b) == d) by {
        assert(b[0] == fetched[0]);
        assert(b[1] == fetched[1]);
        assert(b[2] == fetched[2]);
        assert(b[3] == fetched[3]);
        assert(b[4] == fetched[4]);
        assert(b[5] == fetched[5]);
        assert(b[6] == fetched[6]);
        assert(b[7] == fetched[7]);
    }
    assert(b.subrange(8, 8 + d.length as int) =~= fetched.subrange(8, 8 + d.length as int));
    assert(b.skip(8 + d.length as int) =~= tail1);
    assert(spec_records(b) == Some(
        seq![(d.typecode, d.instance, fetched.subrange(8, 8 + d.length as int))]
            + spec_records(tail1).unwrap(),
    ));

    // Index the three records of the concatenation.
    let rs = spec_records(b).unwrap();
    assert(rs.len() == 3);
    assert(rs[0] == (d.typecode, d.instance, fetched.subrange(8, 8 + d.length as int)));
    assert(rs[1] == (HVM_SAVE_CODE_CPU, 0u16, spec_cpu_record()));
    assert(rs[2] == (HVM_SAVE_CODE_END, 0u16, Seq::<u8>::empty()));
}

} // verus!
