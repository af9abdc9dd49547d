//! The hypervisor session: the typed error model, domain snapshot records,
//! the fixed creation configuration, and the privileged primitives —
//! enumeration, pause and unpause, creation, guest-memory population,
//! foreign mapping, and HVM context access.
//!
//! The session owns the hypervisor-side domain state as plain values and
//! is the exclusive owner of the control interface: at most one primitive
//! call is in flight per session at a time.

use vstd::prelude::*;
use vstd::string::StringExecFns;
use crate::hvm;
use crate::text;

verus! {

/// The closed set of hypervisor-reported error codes, plus a raw OS error
/// number for calls that failed without a hypervisor-reported code.
#[derive(Clone, Copy, PartialEq, Eq, Structural, Debug)]
pub enum ErrorCode {
    NoError,
    InternalError,
    InvalidKernel,
    InvalidParam,
    OutOfMemory,
    OsError(i32),
}

impl ErrorCode {
    /// The signed value of a code: the hypervisor's own numbering for the
    /// closed set, and the negated OS error number for the fallback.
    pub open spec fn spec_value(&self) -> int {
        match *self {
            ErrorCode::NoError => 0,
            ErrorCode::InternalError => 1,
            ErrorCode::InvalidKernel => 2,
            ErrorCode::InvalidParam => 3,
            ErrorCode::OutOfMemory => 4,
            ErrorCode::OsError(code) => -(code as int),
        }
    }

    pub fn value(&self) -> (r: i32)
        requires
            self matches ErrorCode::OsError(code) ==> code != i32::MIN,
        ensures
            r as int == self.spec_value(),
    {
        match *self {
            ErrorCode::NoError => 0,
            ErrorCode::InternalError => 1,
            ErrorCode::InvalidKernel => 2,
            ErrorCode::InvalidParam => 3,
            ErrorCode::OutOfMemory => 4,
            ErrorCode::OsError(code) => -code,
        }
    }

    /// The code a raw hypervisor-reported value stands for. Values outside
    /// the closed set are read as internal errors.
    pub open spec fn spec_from_value(value: i32) -> ErrorCode {
        if value == 0 {
            ErrorCode::NoError
        } else if value == 2 {
            ErrorCode::InvalidKernel
        } else if value == 3 {
            ErrorCode::InvalidParam
        } else if value == 4 {
            ErrorCode::OutOfMemory
        } else {
            ErrorCode::InternalError
        }
    }

    pub fn from_value(value: i32) -> (r: ErrorCode)
        ensures
            r == ErrorCode::spec_from_value(value),
    {
        if value == 0 {
            ErrorCode::NoError
        } else if value == 2 {
            ErrorCode::InvalidKernel
        } else if value == 3 {
            ErrorCode::InvalidParam
        } else if value == 4 {
            ErrorCode::OutOfMemory
        } else {
            ErrorCode::InternalError
        }
    }
}

/// The hypervisor's description of a positive error value: a closed static
/// table, with a fixed token for values outside it.
pub open spec fn spec_description(value: int) -> Seq<char> {
    if value == 1 {
        "Internal error"@
    } else if value == 2 {
        "Invalid kernel"@
    } else if value == 3 {
        "Invalid configuration"@
    } else if value == 4 {
        "Out of memory"@
    } else {
        "Unknown error"@
    }
}

/// Returns the table entry for a positive error value.
fn description(value: i32) -> (r: String)
    requires
        value > 0,
    ensures
        r@ == spec_description(value as int),
{
    if value == 1 {
        String::from_str("Internal error")
    } else if value == 2 {
        String::from_str("Invalid kernel")
    } else if value == 3 {
        String::from_str("Invalid configuration")
    } else if value == 4 {
        String::from_str("Out of memory")
    } else {
        String::from_str("Unknown error")
    }
}

/// A typed hypervisor failure: a code and the session's recorded detail
/// text, possibly empty.
#[derive(Debug)]
pub struct Error {
    pub code: ErrorCode,
    pub details: String,
}

/// The textual form of an error whose code value is `value`, given the
/// middle description part: `"<value>: <desc> (<details>)"`.
pub open spec fn spec_error_text_parts(value: int, desc: Seq<char>, details: Seq<char>) -> Seq<
    char,
> {
    text::spec_dec_signed(value) + ": "@ + desc + " ("@ + details + ")"@
}

/// The description part of an error's text: the fixed empty-error token for
/// value zero, the hypervisor's description table for positive values, and
/// the given OS error text for negative values.
pub open spec fn spec_error_desc(value: int, os_text: Seq<char>) -> Seq<char> {
    if value == 0 {
        "Empty error"@
    } else if value > 0 {
        spec_description(value)
    } else {
        os_text
    }
}

/// The full textual form of an error, given the OS error text used when the
/// code value is negative.
pub open spec fn spec_error_text(e: Error, os_text: Seq<char>) -> Seq<char> {
    spec_error_text_parts(e.code.spec_value(), spec_error_desc(e.code.spec_value(), os_text), e.details@)
}

/// Relies on `std::io::Error::from_raw_os_error` and its `Display` impl:
/// the platform's description of an OS error number. The text depends on
/// the platform, so nothing is claimed of it.
#[verifier::external_body]
fn os_error_text(code: i32) -> String {
    std::io::Error::from_raw_os_error(code).to_string()
}

impl Error {
    pub fn new(code: ErrorCode, details: &str) -> (r: Error)
        ensures
            r.code == code,
            r.details@ == details@,
    {
        Error { code, details: String::from_str(details) }
    }

    /// The no-error state: reported when a call was believed to have
    /// failed but neither the hypervisor nor the OS recorded an error —
    /// an internal invariant violation on the caller's side.
    pub fn empty() -> (r: Error)
        ensures
            r.code == ErrorCode::NoError,
            r.details@ == Seq::<char>::empty(),
    {
        Error { code: ErrorCode::NoError, details: String::new() }
    }

    /// Renders the error around a given description for its value: the
    /// fully deterministic part of the rendering.
    pub fn text_with_desc(&self, desc: &str) -> (r: String)
        requires
            self.code matches ErrorCode::OsError(code) ==> code != i32::MIN,
        ensures
            r@ == spec_error_text_parts(self.code.spec_value(), desc@, self.details@),
    {
        proof {
            reveal_strlit(": ");
            reveal_strlit(" (");
            reveal_strlit(")");
        }
        let value = self.code.value();
        let mut out = String::new();
        text::push_dec_signed(value as i64, &mut out);
        out.append(": ");
        out.append(desc);
        out.append(" (");
        out.append(self.details.as_str());
        out.append(")");
        assert(out@ =~= spec_error_text_parts(
            self.code.spec_value(),
            desc@,
            self.details@,
        ));
        out
    }

    /// The user-visible textual form: the value, then the hypervisor's
    /// description for positive values, the OS error string for negative
    /// ones, or a fixed token for the empty error, then the details.
    ///
    /// Same code and details give the same text, except that the OS error
    /// string of a negative value is the platform's.
    pub fn text(&self) -> (r: String)
        requires
            self.code matches ErrorCode::OsError(code) ==> code != i32::MIN,
        ensures
            self.code.spec_value() >= 0 ==> r@ == spec_error_text(*self, Seq::<char>::empty()),
            exists|os_text: Seq<char>| r@ == spec_error_text(*self, os_text),
    {
        proof {
            reveal_strlit("Empty error");
        }
        let value = self.code.value();
        if value == 0 {
            let r = self.text_with_desc("Empty error");
            assert(r@ == spec_error_text(*self, Seq::<char>::empty()));
            r
        } else if value > 0 {
            let desc = description(value);
            let r = self.text_with_desc(desc.as_str());
            assert(r@ == spec_error_text(*self, Seq::<char>::empty()));
            r
        } else {
            let os_text = os_error_text(-value);
            let r = self.text_with_desc(os_text.as_str());
            assert(r@ == spec_error_text(*self, os_text@));
            r
        }
    }
}

/// Error translation is deterministic: two errors with the same code and
/// the same details render to the same text, for any one OS error text.
pub proof fn lemma_error_text_deterministic(a: Error, b: Error, os_text: Seq<char>)
    requires
        a.code == b.code,
        a.details@ == b.details@,
    ensures
        spec_error_text(a, os_text) == spec_error_text(b, os_text),
{
}

/// Reads the hypervisor's last-error state into a typed error: a
/// hypervisor-reported code keeps its message; when the hypervisor reports
/// none but the OS call failed, the raw OS error number is carried; when
/// neither reports an error, the empty error surfaces.
pub fn classify_last_error(code_value: i32, message: &str, os_errno: i32) -> (r: Error)
    ensures
        ErrorCode::spec_from_value(code_value) != ErrorCode::NoError ==> r.code
            == ErrorCode::spec_from_value(code_value) && r.details@ == message@,
        ErrorCode::spec_from_value(code_value) == ErrorCode::NoError && os_errno != 0 ==> r.code
            == ErrorCode::OsError(os_errno) && r.details@ == Seq::<char>::empty(),
        ErrorCode::spec_from_value(code_value) == ErrorCode::NoError && os_errno == 0 ==> r.code
            == ErrorCode::NoError && r.details@ == Seq::<char>::empty(),
{
    proof {
        reveal_strlit("");
        assert(""@ =~= Seq::<char>::empty());
    }
    match ErrorCode::from_value(code_value) {
        ErrorCode::NoError => {
            if os_errno != 0 {
                Error::new(ErrorCode::OsError(os_errno), "")
            } else {
                Error::empty()
            }
        },
        code => Error::new(code, message),
    }
}

/// An opaque 16-byte domain handle, assigned by the hypervisor.
pub type DomainHandle = [u8; 16];

/// The lowercase hexadecimal digit for a value in `0 .. 16`.
pub open spec fn spec_hex_digit(d: int) -> char {
    if d < 10 {
        text::spec_digit(d)
    } else if d == 10 {
        'a'
    } else if d == 11 {
        'b'
    } else if d == 12 {
        'c'
    } else if d == 13 {
        'd'
    } else if d == 14 {
        'e'
    } else {
        'f'
    }
}

/// The two lowercase hexadecimal digits of a byte.
pub open spec fn spec_byte_hex(b: u8) -> Seq<char> {
    seq![spec_hex_digit(b as int / 16), spec_hex_digit(b as int % 16)]
}

/// The lowercase hexadecimal rendering of a byte sequence.
pub open spec fn spec_hex(s: Seq<u8>) -> Seq<char>
    decreases s.len(),
{
    if s.len() == 0 {
        Seq::empty()
    } else {
        spec_hex(s.drop_last()) + spec_byte_hex(s.last())
    }
}

/// The hyphenated lowercase UUID form of 16 bytes: hexadecimal groups of
/// 4, 2, 2, 2 and 6 bytes, in order.
pub open spec fn spec_uuid_str(bytes: Seq<u8>) -> Seq<char> {
    spec_hex(bytes.subrange(0, 4)) + "-"@ + spec_hex(bytes.subrange(4, 6)) + "-"@ + spec_hex(
        bytes.subrange(6, 8),
    ) + "-"@ + spec_hex(bytes.subrange(8, 10)) + "-"@ + spec_hex(bytes.subrange(10, 16))
}

/// Relies on `uuid::Uuid::from_bytes` and `Uuid`'s `Display` impl: the
/// hyphenated lowercase hexadecimal form of the 16 bytes, in order, in
/// groups of 4, 2, 2, 2 and 6.
#[verifier::external_body]
fn uuid_hyphenated(dom_handle: &DomainHandle) -> (r: String)
    ensures
        r@ == spec_uuid_str(dom_handle@),
{
    String::from_str(&uuid::Uuid::from_bytes(*dom_handle).to_string())
}

/// The display form of a domain handle: its hyphenated lowercase UUID.
pub fn get_uuid_from_domain_handle(dom_handle: &DomainHandle) -> (r: String)
    ensures
        r@ == spec_uuid_str(dom_handle@),
{
    uuid_hyphenated(dom_handle)
}

/// A snapshot record of one domain, immutable once returned; callers must
/// not assume freshness beyond the call that produced it.
#[derive(Clone, Copy, Debug)]
pub struct DomainInfo {
    /// The hypervisor-assigned domain id.
    pub domain: u32,
    /// The domain is schedulable (not paused).
    pub running: bool,
    /// The domain is paused.
    pub paused: bool,
    /// The domain has been asked to shut down.
    pub shutdown: bool,
    /// Guest-physical pages populated for the domain.
    pub nr_pages: u64,
    /// The highest virtual CPU id of the domain.
    pub max_vcpu_id: u32,
    /// The opaque handle (UUID) of the domain.
    pub handle: DomainHandle,
}

/// Creation flag: the domain runs in hardware-virtual-machine mode.
pub const XEN_DOMCTL_CDF_HVM: u32 = 1;

/// Creation flag: the domain uses hardware-assisted paging.
pub const XEN_DOMCTL_CDF_HAP: u32 = 2;

/// Emulation flag: emulate only the local APIC.
pub const XEN_X86_EMU_LAPIC: u32 = 1;

/// Architecture-specific part of a creation configuration.
#[derive(Clone, Copy, PartialEq, Eq, Structural, Debug)]
pub struct ArchDomainConfig {
    pub emulation_flags: u32,
}

/// A domain creation configuration.
#[derive(Clone, Copy, Debug)]
pub struct CreateDomain {
    pub flags: u32,
    pub max_vcpus: u32,
    pub max_evtchn_port: u32,
    pub max_grant_frames: u32,
    pub max_maptrack_frames: u32,
    pub arch: ArchDomainConfig,
    pub handle: DomainHandle,
    pub iommu_opts: u32,
    pub ssidref: u32,
}

impl CreateDomain {
    /// The fixed creation configuration of this control plane: an HVM
    /// domain with hardware-assisted paging, one virtual CPU, the all-ones
    /// event-channel sentinel, 64 grant frames, 1024 maptrack frames,
    /// local-APIC-only emulation, a zeroed handle, and zero IOMMU options
    /// and security label.
    pub fn hvm_default() -> (r: CreateDomain)
        ensures
            r.flags == XEN_DOMCTL_CDF_HVM | XEN_DOMCTL_CDF_HAP,
            r.max_vcpus == 1,
            r.max_evtchn_port == u32::MAX,
            r.max_grant_frames == 64,
            r.max_maptrack_frames == 1024,
            r.arch.emulation_flags == XEN_X86_EMU_LAPIC,
            r.handle@ =~= Seq::new(16, |i: int| 0u8),
            r.iommu_opts == 0,
            r.ssidref == 0,
    {
        let handle: DomainHandle = [0, 0, 0, 0, 0, 0, 0, 0, 0, 0, 0, 0, 0, 0, 0, 0];
        assert(handle@ =~= Seq::new(16, |i: int| 0u8));
        CreateDomain {
            flags: XEN_DOMCTL_CDF_HVM | XEN_DOMCTL_CDF_HAP,
            max_vcpus: 1,
            max_evtchn_port: u32::MAX,
            max_grant_frames: 64,
            max_maptrack_frames: 1024,
            arch: ArchDomainConfig { emulation_flags: XEN_X86_EMU_LAPIC },
            handle,
            iommu_opts: 0,
            ssidref: 0,
        }
    }
}

/// The hypervisor-side state of one domain, as the session tracks it.
pub struct DomainEntry {
    /// The hypervisor-assigned id.
    pub id: u32,
    /// The opaque handle (UUID).
    pub handle: DomainHandle,
    /// Whether the domain is paused.
    pub paused: bool,
    /// The resource ceiling on virtual CPUs.
    pub max_vcpus: u32,
    /// The resource ceiling on memory, in KiB.
    pub max_mem_kb: u64,
    /// The guest-physical frame numbers populated for the domain.
    pub populated: Vec<u64>,
    /// The bytes backing the populated frames; `None` while the region is
    /// foreign-mapped, whose holder then owns the bytes exclusively.
    pub memory: Option<Vec<u8>>,
    /// The domain's HVM save buffer.
    pub context: Vec<u8>,
}

/// The bytes backing a domain's memory, or nothing while it is mapped.
pub open spec fn mem_view(e: DomainEntry) -> Option<Seq<u8>> {
    match e.memory {
        Some(m) => Some(m@),
        None => None::<Seq<u8>>,
    }
}

/// The snapshot record a domain entry reports.
pub open spec fn spec_info(e: DomainEntry) -> DomainInfo {
    DomainInfo {
        domain: e.id,
        running: !e.paused,
        paused: e.paused,
        shutdown: false,
        nr_pages: e.populated@.len() as u64,
        max_vcpu_id: if e.max_vcpus == 0 {
            0u32
        } else {
            (e.max_vcpus - 1) as u32
        },
        handle: e.handle,
    }
}

/// The two entries agree on everything but the pause flag.
pub open spec fn same_but_paused(e0: DomainEntry, e1: DomainEntry) -> bool {
    &&& e1.id == e0.id
    &&& e1.handle@ == e0.handle@
    &&& e1.max_vcpus == e0.max_vcpus
    &&& e1.max_mem_kb == e0.max_mem_kb
    &&& e1.populated@ == e0.populated@
    &&& mem_view(e1) == mem_view(e0)
    &&& e1.context@ == e0.context@
}

/// The two entries agree on everything but the resource ceilings.
pub open spec fn same_but_limits(e0: DomainEntry, e1: DomainEntry) -> bool {
    &&& e1.id == e0.id
    &&& e1.handle@ == e0.handle@
    &&& e1.paused == e0.paused
    &&& e1.populated@ == e0.populated@
    &&& mem_view(e1) == mem_view(e0)
    &&& e1.context@ == e0.context@
}

/// The two entries agree on everything but the populated frames and their
/// backing bytes.
pub open spec fn same_but_population(e0: DomainEntry, e1: DomainEntry) -> bool {
    &&& e1.id == e0.id
    &&& e1.handle@ == e0.handle@
    &&& e1.paused == e0.paused
    &&& e1.max_vcpus == e0.max_vcpus
    &&& e1.max_mem_kb == e0.max_mem_kb
    &&& e1.context@ == e0.context@
}

/// The two entries agree on everything but the backing bytes.
pub open spec fn same_but_memory(e0: DomainEntry, e1: DomainEntry) -> bool {
    &&& e1.id == e0.id
    &&& e1.handle@ == e0.handle@
    &&& e1.paused == e0.paused
    &&& e1.max_vcpus == e0.max_vcpus
    &&& e1.max_mem_kb == e0.max_mem_kb
    &&& e1.populated@ == e0.populated@
    &&& e1.context@ == e0.context@
}

/// The two entries agree on everything but the HVM save buffer.
pub open spec fn same_but_context(e0: DomainEntry, e1: DomainEntry) -> bool {
    &&& e1.id == e0.id
    &&& e1.handle@ == e0.handle@
    &&& e1.paused == e0.paused
    &&& e1.max_vcpus == e0.max_vcpus
    &&& e1.max_mem_kb == e0.max_mem_kb
    &&& e1.populated@ == e0.populated@
    &&& mem_view(e1) == mem_view(e0)
}

/// The entries are sorted strictly by id: ids are unique and ascending.
pub open spec fn sorted_by_id(s: Seq<DomainEntry>) -> bool {
    forall|i: int, j: int| 0 <= i < j < s.len() ==> s[i].id < s[j].id
}

/// Some entry holds the id.
pub open spec fn spec_has(s: Seq<DomainEntry>, dom_id: u32) -> bool {
    exists|i: int| 0 <= i < s.len() && s[i].id == dom_id
}

/// The index of the entry holding the id (meaningful under `spec_has`).
pub open spec fn spec_idx(s: Seq<DomainEntry>, dom_id: u32) -> int {
    choose|i: int| 0 <= i < s.len() && s[i].id == dom_id
}

/// In a sorted entry list, ids pin indices.
pub proof fn lemma_id_unique(s: Seq<DomainEntry>)
    requires
        sorted_by_id(s),
    ensures
        forall|i: int, j: int|
            0 <= i < s.len() && 0 <= j < s.len() && s[i].id == s[j].id ==> i == j,
{
    assert forall|i: int, j: int|
        0 <= i < s.len() && 0 <= j < s.len() && s[i].id == s[j].id implies i == j by {
        if i < j {
            assert(s[i].id < s[j].id);
        }
        if j < i {
            assert(s[j].id < s[i].id);
        }
    }
}

/// In a sorted entry list, the index of an entry's id is that entry's index.
pub proof fn lemma_idx_of(s: Seq<DomainEntry>, i: int)
    requires
        sorted_by_id(s),
        0 <= i < s.len(),
    ensures
        spec_has(s, s[i].id),
        spec_idx(s, s[i].id) == i,
{
    assert(spec_has(s, s[i].id));
    lemma_id_unique(s);
}

/// Copies a byte buffer.
fn copy_bytes(src: &Vec<u8>) -> (r: Vec<u8>)
    ensures
        r@ == src@,
{
    let mut out: Vec<u8> = Vec::new();
    let n = src.len();
    let mut i: usize = 0;
    while i < n
        invariant
            n == src@.len(),
            i <= n,
            out@ == src@.take(i as int),
        decreases n - i,
    {
        out.push(src[i]);
        proof {
            assert(out@ =~= src@.take(i as int + 1));
        }
        i = i + 1;
    }
    proof {
        assert(src@.take(n as int) =~= src@);
    }
    out
}

/// Copies a frame-number list.
fn copy_frames(src: &Vec<u64>) -> (r: Vec<u64>)
    ensures
        r@ == src@,
{
    let mut out: Vec<u64> = Vec::new();
    let n = src.len();
    let mut i: usize = 0;
    while i < n
        invariant
            n == src@.len(),
            i <= n,
            out@ == src@.take(i as int),
        decreases n - i,
    {
        out.push(src[i]);
        proof {
            assert(out@ =~= src@.take(i as int + 1));
        }
        i = i + 1;
    }
    proof {
        assert(src@.take(n as int) =~= src@);
    }
    out
}

/// Compares two frame-number lists.
fn same_frames(a: &Vec<u64>, b: &Vec<u64>) -> (r: bool)
    ensures
        r == (a@ == b@),
{
    if a.len() != b.len() {
        return false;
    }
    let n = a.len();
    let mut i: usize = 0;
    while i < n
        invariant
            n == a@.len(),
            n == b@.len(),
            i <= n,
            forall|j: int| 0 <= j < i ==> a@[j] == b@[j],
        decreases n - i,
    {
        if a[i] != b[i] {
            return false;
        }
        i = i + 1;
    }
    proof {
        assert(a@ =~= b@);
    }
    true
}

/// The length of the leading run of entries whose ids are below `first`.
/// In a sorted entry list this counts every entry below `first`.
pub open spec fn count_below(s: Seq<DomainEntry>, first: u64) -> int
    decreases s.len(),
{
    if s.len() == 0 {
        0
    } else if (s[0].id as u64) < first {
        1 + count_below(s.drop_first(), first)
    } else {
        0
    }
}

/// In a sorted entry list, an index is below `count_below` exactly when its
/// entry's id is below `first`.
pub proof fn lemma_count_below(s: Seq<DomainEntry>, first: u64)
    requires
        sorted_by_id(s),
    ensures
        0 <= count_below(s, first) <= s.len(),
        forall|i: int|
            0 <= i < s.len() ==> ((i < count_below(s, first)) <==> ((s[i].id as u64) < first)),
    decreases s.len(),
{
    if s.len() == 0 {
    } else {
        let t = s.drop_first();
        assert forall|a: int, b: int| 0 <= a < b < t.len() implies t[a].id < t[b].id by {
            assert(t[a] == s[a + 1]);
            assert(t[b] == s[b + 1]);
        }
        lemma_count_below(t, first);
        assert forall|i: int|
            0 <= i < s.len() implies ((i < count_below(s, first)) <==> ((s[i].id as u64)
            < first)) by {
            if (s[0].id as u64) < first {
                if i > 0 {
                    assert(t[i - 1] == s[i]);
                }
            } else {
                if i > 0 {
                    assert(s[0].id < s[i].id);
                }
            }
        }
    }
}

/// Some record carries the id.
pub open spec fn spec_has_info_id(s: Seq<DomainInfo>, dom_id: u32) -> bool {
    exists|i: int| 0 <= i < s.len() && s[i].domain == dom_id
}

/// One step of chunk absorption: a record whose id was already seen is
/// dropped, any other is appended.
pub open spec fn spec_absorb_one(doms: Seq<DomainInfo>, info: DomainInfo) -> Seq<DomainInfo> {
    if spec_has_info_id(doms, info.domain) {
        doms
    } else {
        doms.push(info)
    }
}

/// The records accumulated after absorbing a whole chunk, in order,
/// deduplicated by domain id against everything seen so far.
pub open spec fn spec_absorb(doms: Seq<DomainInfo>, chunk: Seq<DomainInfo>) -> Seq<DomainInfo>
    decreases chunk.len(),
{
    if chunk.len() == 0 {
        doms
    } else {
        spec_absorb(spec_absorb_one(doms, chunk.first()), chunk.drop_first())
    }
}

/// One step of cursor advance: past the record's id.
pub open spec fn spec_cursor_one(cursor: int, info: DomainInfo) -> int {
    if info.domain as int + 1 > cursor {
        info.domain as int + 1
    } else {
        cursor
    }
}

/// The scan cursor after absorbing a whole chunk: one past the highest id
/// seen, never moving backward.
pub open spec fn spec_cursor_after(cursor: int, chunk: Seq<DomainInfo>) -> int
    decreases chunk.len(),
{
    if chunk.len() == 0 {
        cursor
    } else {
        spec_cursor_after(spec_cursor_one(cursor, chunk.first()), chunk.drop_first())
    }
}

proof fn lemma_absorb_snoc(doms: Seq<DomainInfo>, chunk: Seq<DomainInfo>, x: DomainInfo)
    ensures
        spec_absorb(doms, chunk.push(x)) == spec_absorb_one(spec_absorb(doms, chunk), x),
    decreases chunk.len(),
{
    let snoc = chunk.push(x);
    assert(snoc.len() == chunk.len() + 1);
    if chunk.len() == 0 {
        assert(snoc.first() == x);
        assert(snoc.drop_first() =~= chunk);
        assert(spec_absorb(doms, snoc) == spec_absorb(spec_absorb_one(doms, x), chunk));
        assert(spec_absorb(spec_absorb_one(doms, x), chunk) == spec_absorb_one(doms, x));
        assert(spec_absorb(doms, chunk) == doms);
    } else {
        assert(snoc.first() == chunk.first());
        assert(snoc.drop_first() =~= chunk.drop_first().push(x));
        let d1 = spec_absorb_one(doms, chunk.first());
        assert(spec_absorb(doms, snoc) == spec_absorb(d1, chunk.drop_first().push(x)));
        lemma_absorb_snoc(d1, chunk.drop_first(), x);
        assert(spec_absorb(doms, chunk) == spec_absorb(d1, chunk.drop_first()));
    }
}

proof fn lemma_cursor_snoc(cursor: int, chunk: Seq<DomainInfo>, x: DomainInfo)
    ensures
        spec_cursor_after(cursor, chunk.push(x)) == spec_cursor_one(
            spec_cursor_after(cursor, chunk),
            x,
        ),
    decreases chunk.len(),
{
    let snoc = chunk.push(x);
    assert(snoc.len() == chunk.len() + 1);
    if chunk.len() == 0 {
        assert(snoc.first() == x);
        assert(snoc.drop_first() =~= chunk);
        assert(spec_cursor_after(cursor, snoc) == spec_cursor_after(
            spec_cursor_one(cursor, x),
            chunk,
        ));
        assert(spec_cursor_after(spec_cursor_one(cursor, x), chunk) == spec_cursor_one(
            cursor,
            x,
        ));
        assert(spec_cursor_after(cursor, chunk) == cursor);
    } else {
        assert(snoc.first() == chunk.first());
        assert(snoc.drop_first() =~= chunk.drop_first().push(x));
        let c1 = spec_cursor_one(cursor, chunk.first());
        assert(spec_cursor_after(cursor, snoc) == spec_cursor_after(
            c1,
            chunk.drop_first().push(x),
        ));
        lemma_cursor_snoc(c1, chunk.drop_first(), x);
        assert(spec_cursor_after(cursor, chunk) == spec_cursor_after(c1, chunk.drop_first()));
    }
}

/// Absorbing a chunk of wholly new, pairwise distinct ids appends it.
proof fn lemma_absorb_append(doms: Seq<DomainInfo>, chunk: Seq<DomainInfo>)
    requires
        forall|t: int| 0 <= t < chunk.len() ==> !spec_has_info_id(doms, chunk[t].domain),
        forall|a: int, b: int| 0 <= a < b < chunk.len() ==> chunk[a].domain != chunk[b].domain,
    ensures
        spec_absorb(doms, chunk) == doms + chunk,
    decreases chunk.len(),
{
    if chunk.len() == 0 {
        assert(doms + chunk =~= doms);
    } else {
        let x = chunk.first();
        assert(!spec_has_info_id(doms, x.domain));
        let doms1 = doms.push(x);
        let rest = chunk.drop_first();
        assert forall|t: int| 0 <= t < rest.len() implies !spec_has_info_id(
            doms1,
            rest[t].domain,
        ) by {
            assert(rest[t] == chunk[t + 1]);
            assert(rest[t].domain != x.domain);
            if spec_has_info_id(doms1, rest[t].domain) {
                let w = choose|w: int| 0 <= w < doms1.len() && doms1[w].domain == rest[t].domain;
                assert(w < doms.len() || doms1[w] == x);
                assert(spec_has_info_id(doms, chunk[t + 1].domain));
            }
        }
        assert forall|a: int, b: int| 0 <= a < b < rest.len() implies rest[a].domain
            != rest[b].domain by {
            assert(rest[a] == chunk[a + 1]);
            assert(rest[b] == chunk[b + 1]);
        }
        lemma_absorb_append(doms1, rest);
        assert(doms1 + rest =~= doms + chunk);
    }
}

/// After absorbing an ascending chunk whose last id is at or past the
/// cursor, the cursor stands one past that last id.
proof fn lemma_cursor_after_ascending(cursor: int, chunk: Seq<DomainInfo>)
    requires
        chunk.len() > 0,
        forall|a: int, b: int| 0 <= a < b < chunk.len() ==> chunk[a].domain < chunk[b].domain,
        cursor <= chunk.last().domain as int,
    ensures
        spec_cursor_after(cursor, chunk) == chunk.last().domain as int + 1,
    decreases chunk.len(),
{
    let x = chunk.first();
    let rest = chunk.drop_first();
    let c1 = spec_cursor_one(cursor, x);
    assert(spec_cursor_after(cursor, chunk) == spec_cursor_after(c1, rest));
    if chunk.len() == 1 {
        assert(chunk.last() == x);
        assert(rest.len() == 0);
        assert(spec_cursor_after(c1, rest) == c1);
    } else {
        assert(rest.last() == chunk.last());
        assert(x.domain < chunk.last().domain);
        assert(c1 <= chunk.last().domain as int);
        assert forall|a: int, b: int| 0 <= a < b < rest.len() implies rest[a].domain
            < rest[b].domain by {
            assert(rest[a] == chunk[a + 1]);
            assert(rest[b] == chunk[b + 1]);
        }
        lemma_cursor_after_ascending(c1, rest);
    }
}

/// Whether some accumulated record carries the id.
fn contains_domain_id(doms: &Vec<DomainInfo>, dom_id: u32) -> (r: bool)
    ensures
        r == spec_has_info_id(doms@, dom_id),
{
    let n = doms.len();
    let mut i: usize = 0;
    while i < n
        invariant
            n == doms@.len(),
            i <= n,
            forall|j: int| 0 <= j < i ==> doms@[j].domain != dom_id,
        decreases n - i,
    {
        if doms[i].domain == dom_id {
            return true;
        }
        i = i + 1;
    }
    false
}

/// Absorbs one enumeration chunk into the accumulated records: each record
/// whose id was not seen yet is appended, duplicates are dropped, and the
/// scan cursor advances to one past the highest id seen — so the scan makes
/// forward progress even on a chunk the hypervisor reports spuriously.
pub fn absorb_chunk(domains: &mut Vec<DomainInfo>, cursor: &mut u64, chunk: &Vec<DomainInfo>)
    ensures
        final(domains)@ == spec_absorb(old(domains)@, chunk@),
        *final(cursor) as int == spec_cursor_after(*old(cursor) as int, chunk@),
{
    let m = chunk.len();
    let mut t: usize = 0;
    proof {
        assert(chunk@.take(0) =~= Seq::<DomainInfo>::empty());
    }
    while t < m
        invariant
            m == chunk@.len(),
            t <= m,
            domains@ == spec_absorb(old(domains)@, chunk@.take(t as int)),
            *cursor as int == spec_cursor_after(*old(cursor) as int, chunk@.take(t as int)),
        decreases m - t,
    {
        let info = chunk[t];
        proof {
            assert(chunk@.take(t as int + 1) =~= chunk@.take(t as int).push(chunk@[t as int]));
            lemma_absorb_snoc(old(domains)@, chunk@.take(t as int), chunk@[t as int]);
            lemma_cursor_snoc(*old(cursor) as int, chunk@.take(t as int), chunk@[t as int]);
        }
        if !contains_domain_id(domains, info.domain) {
            domains.push(info);
        }
        let next = (info.domain as u64) + 1;
        if next > *cursor {
            *cursor = next;
        }
        t = t + 1;
    }
    proof {
        assert(chunk@.take(m as int) =~= chunk@);
    }
}

/// The hypervisor session: the exclusive owner of the privileged control
/// interface and of the hypervisor-side domain state.
pub struct Xenctrl {
    doms: Vec<DomainEntry>,
}

impl View for Xenctrl {
    type V = Seq<DomainEntry>;

    closed spec fn view(&self) -> Seq<DomainEntry> {
        self.doms@
    }
}

impl Xenctrl {
    /// The tracked domains are sorted strictly by id.
    pub open spec fn wf(&self) -> bool {
        sorted_by_id(self@)
    }

    /// Opens the session: no domains yet.
    pub fn new() -> (r: Xenctrl)
        ensures
            r.wf(),
            r@ == Seq::<DomainEntry>::empty(),
    {
        Xenctrl { doms: Vec::new() }
    }

    /// The index of the entry holding the id, if any.
    fn find(&self, dom_id: u32) -> (r: Option<usize>)
        ensures
            match r {
                Some(i) => i < self@.len() && self@[i as int].id == dom_id,
                None => !spec_has(self@, dom_id),
            },
    {
        let n = self.doms.len();
        let mut i: usize = 0;
        while i < n
            invariant
                n == self@.len(),
                i <= n,
                forall|j: int| 0 <= j < i ==> self@[j].id != dom_id,
            decreases n - i,
        {
            if self.doms[i].id == dom_id {
                return Some(i);
            }
            i = i + 1;
        }
        None
    }

    /// A snapshot of one domain. Fails with an invalid-parameter error
    /// exactly when no domain holds the id.
    pub fn get_domain_info(&self, dom_id: u32) -> (r: Result<DomainInfo, Error>)
        requires
            self.wf(),
        ensures
            match r {
                Ok(info) => spec_has(self@, dom_id) && info == spec_info(
                    self@[spec_idx(self@, dom_id)],
                ),
                Err(e) => !spec_has(self@, dom_id) && e.code == ErrorCode::InvalidParam
                    && e.details@ == Seq::<char>::empty(),
            },
    {
        match self.find(dom_id) {
            Some(i) => {
                proof {
                    lemma_idx_of(self@, i as int);
                }
                let e = &self.doms[i];
                let max_vcpu_id = if e.max_vcpus == 0 {
                    0
                } else {
                    e.max_vcpus - 1
                };
                Ok(
                    DomainInfo {
                        domain: e.id,
                        running: !e.paused,
                        paused: e.paused,
                        shutdown: false,
                        nr_pages: e.populated.len() as u64,
                        max_vcpu_id,
                        handle: e.handle,
                    },
                )
            },
            None => {
                proof {
                    reveal_strlit("");
                    assert(""@ =~= Seq::<char>::empty());
                }
                Err(Error::new(ErrorCode::InvalidParam, ""))
            },
        }
    }

    /// The opaque handle of one domain. Fails with an invalid-parameter
    /// error exactly when no domain holds the id.
    pub fn get_domain_handle(&self, dom_id: u32) -> (r: Result<DomainHandle, Error>)
        requires
            self.wf(),
        ensures
            match r {
                Ok(handle) => spec_has(self@, dom_id) && handle@ == self@[spec_idx(
                    self@,
                    dom_id,
                )].handle@,
                Err(e) => !spec_has(self@, dom_id) && e.code == ErrorCode::InvalidParam
                    && e.details@ == Seq::<char>::empty(),
            },
    {
        match self.find(dom_id) {
            Some(i) => {
                proof {
                    lemma_idx_of(self@, i as int);
                }
                Ok(self.doms[i].handle)
            },
            None => {
                proof {
                    reveal_strlit("");
                    assert(""@ =~= Seq::<char>::empty());
                }
                Err(Error::new(ErrorCode::InvalidParam, ""))
            },
        }
    }

    /// Pauses a domain: idempotent at the hypervisor level. Succeeds
    /// exactly when the domain exists; on success only that domain's pause
    /// flag changes (to paused), and pausing an already-paused domain
    /// leaves every entry exactly as it was.
    pub fn pause_domain(&mut self, dom_id: u32) -> (r: Result<(), Error>)
        requires
            old(self).wf(),
        ensures
            final(self).wf(),
            r is Ok <==> spec_has(old(self)@, dom_id),
            r is Ok ==> ({
                let i = spec_idx(old(self)@, dom_id);
                final(self)@ == old(self)@.update(i, final(self)@[i]) && same_but_paused(
                    old(self)@[i],
                    final(self)@[i],
                ) && final(self)@[i].paused == true
            }),
            spec_has(old(self)@, dom_id) && old(self)@[spec_idx(old(self)@, dom_id)].paused
                == true ==> final(self)@ == old(self)@,
            r is Err ==> final(self)@ == old(self)@,
            match r {
                Err(e) => e.code == ErrorCode::InvalidParam && e.details@ == Seq::<char>::empty(),
                _ => true,
            },
    {
        match self.find(dom_id) {
            Some(i) => {
                proof {
                    lemma_idx_of(self@, i as int);
                }
                self.doms[i].paused = true;
                proof {
                    assert(self@ =~= old(self)@.update(i as int, self@[i as int]));
                    if old(self)@[i as int].paused == true {
                        assert(self@[i as int] == old(self)@[i as int]);
                        assert(self@ =~= old(self)@);
                    }
                    assert forall|a: int, b: int|
                        0 <= a < b < self@.len() implies self@[a].id < self@[b].id by {
                        assert(old(self)@[a].id < old(self)@[b].id);
                    }
                }
                Ok(())
            },
            None => {
                proof {
                    reveal_strlit("");
                    assert(""@ =~= Seq::<char>::empty());
                }
                Err(Error::new(ErrorCode::InvalidParam, ""))
            },
        }
    }

    /// Unpauses a domain: idempotent at the hypervisor level. Succeeds
    /// exactly when the domain exists; on success only that domain's pause
    /// flag changes (to running), and unpausing an already-running domain
    /// leaves every entry exactly as it was.
    pub fn unpause_domain(&mut self, dom_id: u32) -> (r: Result<(), Error>)
        requires
            old(self).wf(),
        ensures
            final(self).wf(),
            r is Ok <==> spec_has(old(self)@, dom_id),
            r is Ok ==> ({
                let i = spec_idx(old(self)@, dom_id);
                final(self)@ == old(self)@.update(i, final(self)@[i]) && same_but_paused(
                    old(self)@[i],
                    final(self)@[i],
                ) && final(self)@[i].paused == false
            }),
            spec_has(old(self)@, dom_id) && old(self)@[spec_idx(old(self)@, dom_id)].paused
                == false ==> final(self)@ == old(self)@,
            r is Err ==> final(self)@ == old(self)@,
            match r {
                Err(e) => e.code == ErrorCode::InvalidParam && e.details@ == Seq::<char>::empty(),
                _ => true,
            },
    {
        match self.find(dom_id) {
            Some(i) => {
                proof {
                    lemma_idx_of(self@, i as int);
                }
                self.doms[i].paused = false;
                proof {
                    assert(self@ =~= old(self)@.update(i as int, self@[i as int]));
                    if old(self)@[i as int].paused == false {
                        assert(self@[i as int] == old(self)@[i as int]);
                        assert(self@ =~= old(self)@);
                    }
                    assert forall|a: int, b: int|
                        0 <= a < b < self@.len() implies self@[a].id < self@[b].id by {
                        assert(old(self)@[a].id < old(self)@[b].id);
                    }
                }
                Ok(())
            },
            None => {
                proof {
                    reveal_strlit("");
                    assert(""@ =~= Seq::<char>::empty());
                }
                Err(Error::new(ErrorCode::InvalidParam, ""))
            },
        }
    }

    /// Sets the virtual-CPU ceiling of a domain.
    pub fn set_max_vcpus(&mut self, dom_id: u32, max: u32) -> (r: Result<(), Error>)
        requires
            old(self).wf(),
        ensures
            final(self).wf(),
            r is Ok <==> spec_has(old(self)@, dom_id),
            r is Ok ==> ({
                let i = spec_idx(old(self)@, dom_id);
                final(self)@ == old(self)@.update(i, final(self)@[i]) && same_but_limits(
                    old(self)@[i],
                    final(self)@[i],
                ) && final(self)@[i].max_vcpus == max && final(self)@[i].max_mem_kb == old(
                    self,
                )@[i].max_mem_kb
            }),
            r is Err ==> final(self)@ == old(self)@,
            match r {
                Err(e) => e.code == ErrorCode::InvalidParam && e.details@ == Seq::<char>::empty(),
                _ => true,
            },
    {
        match self.find(dom_id) {
            Some(i) => {
                proof {
                    lemma_idx_of(self@, i as int);
                }
                self.doms[i].max_vcpus = max;
                proof {
                    assert(self@ =~= old(self)@.update(i as int, self@[i as int]));
                    assert forall|a: int, b: int|
                        0 <= a < b < self@.len() implies self@[a].id < self@[b].id by {
                        assert(old(self)@[a].id < old(self)@[b].id);
                    }
                }
                Ok(())
            },
            None => {
                proof {
                    reveal_strlit("");
                    assert(""@ =~= Seq::<char>::empty());
                }
                Err(Error::new(ErrorCode::InvalidParam, ""))
            },
        }
    }

    /// Sets the memory ceiling of a domain, in KiB.
    pub fn set_max_mem(&mut self, dom_id: u32, max_kb: u64) -> (r: Result<(), Error>)
        requires
            old(self).wf(),
        ensures
            final(self).wf(),
            r is Ok <==> spec_has(old(self)@, dom_id),
            r is Ok ==> ({
                let i = spec_idx(old(self)@, dom_id);
                final(self)@ == old(self)@.update(i, final(self)@[i]) && same_but_limits(
                    old(self)@[i],
                    final(self)@[i],
                ) && final(self)@[i].max_mem_kb == max_kb && final(self)@[i].max_vcpus == old(
                    self,
                )@[i].max_vcpus
            }),
            r is Err ==> final(self)@ == old(self)@,
            match r {
                Err(e) => e.code == ErrorCode::InvalidParam && e.details@ == Seq::<char>::empty(),
                _ => true,
            },
    {
        match self.find(dom_id) {
            Some(i) => {
                proof {
                    lemma_idx_of(self@, i as int);
                }
                self.doms[i].max_mem_kb = max_kb;
                proof {
                    assert(self@ =~= old(self)@.update(i as int, self@[i as int]));
                    assert forall|a: int, b: int|
                        0 <= a < b < self@.len() implies self@[a].id < self@[b].id by {
                        assert(old(self)@[a].id < old(self)@[b].id);
                    }
                }
                Ok(())
            },
            None => {
                proof {
                    reveal_strlit("");
                    assert(""@ =~= Seq::<char>::empty());
                }
                Err(Error::new(ErrorCode::InvalidParam, ""))
            },
        }
    }

    /// Creates a domain under the given configuration: the hypervisor — not
    /// the caller — chooses the id. The new domain is paused, with no
    /// populated memory and a fresh header-only HVM context: creation and
    /// boot are two distinct phases. Fails with an out-of-memory error
    /// exactly when no id is left.
    pub fn create_domain(&mut self, config: &CreateDomain) -> (r: Result<u32, Error>)
        requires
            old(self).wf(),
        ensures
            final(self).wf(),
            match r {
                Ok(dom_id) => !spec_has(old(self)@, dom_id) && final(self)@.len() == old(
                    self,
                )@.len() + 1 && final(self)@.drop_last() == old(self)@ && (old(self)@.len() == 0
                    ==> dom_id == 0) && (old(self)@.len() > 0 ==> dom_id == old(
                    self,
                )@.last().id + 1) && ({
                    let e = final(self)@.last();
                    &&& e.id == dom_id
                    &&& e.handle@ == config.handle@
                    &&& e.paused == true
                    &&& e.max_vcpus == config.max_vcpus
                    &&& e.max_mem_kb == 0
                    &&& e.populated@ == Seq::<u64>::empty()
                    &&& mem_view(e) == Some(Seq::<u8>::empty())
                    &&& e.context@ == hvm::spec_fresh_context()
                }),
                Err(e) => final(self)@ == old(self)@ && e.code == ErrorCode::OutOfMemory && old(
                    self,
                )@.len() > 0 && old(self)@.last().id == u32::MAX,
            },
    {
        let n = self.doms.len();
        let dom_id: u32;
        if n == 0 {
            dom_id = 0;
        } else {
            let last_id = self.doms[n - 1].id;
            if last_id == u32::MAX {
                proof {
                    reveal_strlit("");
                    assert(""@ =~= Seq::<char>::empty());
                }
                return Err(Error::new(ErrorCode::OutOfMemory, ""));
            }
            dom_id = last_id + 1;
        }
        let entry = DomainEntry {
            id: dom_id,
            handle: config.handle,
            paused: true,
            max_vcpus: config.max_vcpus,
            max_mem_kb: 0,
            populated: Vec::new(),
            memory: Some(Vec::new()),
            context: hvm::fresh_header_context(),
        };
        proof {
            assert forall|j: int| 0 <= j < old(self)@.len() implies old(self)@[j].id
                < dom_id by {
                if j < old(self)@.len() - 1 {
                    assert(old(self)@[j].id < old(self)@[old(self)@.len() - 1].id);
                }
            }
        }
        self.doms.push(entry);
        proof {
            assert(self@.drop_last() =~= old(self)@);
            assert forall|a: int, b: int|
                0 <= a < b < self@.len() implies self@[a].id < self@[b].id by {
                if b < self@.len() - 1 {
                    assert(old(self)@[a].id < old(self)@[b].id);
                } else {
                    assert(self@[a] == old(self)@[a]);
                }
            }
            assert(!spec_has(old(self)@, dom_id)) by {
                if spec_has(old(self)@, dom_id) {
                    let w = spec_idx(old(self)@, dom_id);
                    assert(0 <= w < old(self)@.len() && old(self)@[w].id == dom_id);
                }
            }
        }
        Ok(dom_id)
    }

    /// Populates guest-physical memory: an exact-population request for
    /// the given frame list, replacing any previous population with
    /// zeroed pages. Fails with an invalid-parameter error when no domain
    /// holds the id, and with an internal error when the domain's memory
    /// is currently foreign-mapped; a failure changes nothing.
    pub fn populate_physmap(&mut self, dom_id: u32, extents: &Vec<u64>) -> (r: Result<(), Error>)
        requires
            old(self).wf(),
            extents@.len() * 4096 <= usize::MAX,
        ensures
            final(self).wf(),
            r is Ok <==> spec_has(old(self)@, dom_id) && mem_view(
                old(self)@[spec_idx(old(self)@, dom_id)],
            ) is Some,
            r is Ok ==> ({
                let i = spec_idx(old(self)@, dom_id);
                final(self)@ == old(self)@.update(i, final(self)@[i]) && same_but_population(
                    old(self)@[i],
                    final(self)@[i],
                ) && final(self)@[i].populated@ == extents@ && mem_view(final(self)@[i]) == Some(
                    Seq::new(extents@.len() * 4096, |b: int| 0u8),
                )
            }),
            r is Err ==> final(self)@ == old(self)@,
            match r {
                Err(e) => e.details@ == Seq::<char>::empty() && (if spec_has(old(self)@, dom_id) {
                    e.code == ErrorCode::InternalError
                } else {
                    e.code == ErrorCode::InvalidParam
                }),
                _ => true,
            },
    {
        proof {
            reveal_strlit("");
            assert(""@ =~= Seq::<char>::empty());
        }
        match self.find(dom_id) {
            Some(i) => {
                proof {
                    lemma_idx_of(self@, i as int);
                }
                if self.doms[i].memory.is_none() {
                    return Err(Error::new(ErrorCode::InternalError, ""));
                }
                let size = extents.len() * 4096;
                let zeroed: Vec<u8> = vec![0u8; size];
                self.doms[i].populated = copy_frames(extents);
                self.doms[i].memory = Some(zeroed);
                proof {
                    assert(self@ =~= old(self)@.update(i as int, self@[i as int]));
                    assert(mem_view(self@[i as int]).unwrap() =~= Seq::new(
                        extents@.len() * 4096,
                        |b: int| 0u8,
                    ));
                    assert forall|a: int, b: int|
                        0 <= a < b < self@.len() implies self@[a].id < self@[b].id by {
                        assert(old(self)@[a].id < old(self)@[b].id);
                    }
                }
                Ok(())
            },
            None => Err(Error::new(ErrorCode::InvalidParam, "")),
        }
    }

    /// Maps the domain's populated frames as a foreign read/write window:
    /// the caller takes exclusive ownership of the backing bytes until it
    /// unmaps them. Fails with an invalid-parameter error — changing
    /// nothing — when no domain holds the id, when the frame list is not
    /// exactly the populated list, or when the memory is already mapped.
    pub fn map_foreign_pages(&mut self, dom_id: u32, frames: &Vec<u64>) -> (r: Result<
        Vec<u8>,
        Error,
    >)
        requires
            old(self).wf(),
        ensures
            final(self).wf(),
            r is Ok <==> spec_has(old(self)@, dom_id) && mem_view(
                old(self)@[spec_idx(old(self)@, dom_id)],
            ) is Some && old(self)@[spec_idx(old(self)@, dom_id)].populated@ == frames@,
            match r {
                Ok(mapping) => ({
                    let i = spec_idx(old(self)@, dom_id);
                    final(self)@ == old(self)@.update(i, final(self)@[i]) && same_but_memory(
                        old(self)@[i],
                        final(self)@[i],
                    ) && mem_view(final(self)@[i]) is None && Some(mapping@) == mem_view(
                        old(self)@[i],
                    )
                }),
                Err(e) => final(self)@ == old(self)@ && e.code == ErrorCode::InvalidParam
                    && e.details@ == Seq::<char>::empty(),
            },
    {
        proof {
            reveal_strlit("");
            assert(""@ =~= Seq::<char>::empty());
        }
        match self.find(dom_id) {
            Some(i) => {
                proof {
                    lemma_idx_of(self@, i as int);
                }
                if !same_frames(frames, &self.doms[i].populated) {
                    return Err(Error::new(ErrorCode::InvalidParam, ""));
                }
                let taken = self.doms[i].memory.take();
                match taken {
                    Some(mapping) => {
                        proof {
                            assert(self@ =~= old(self)@.update(i as int, self@[i as int]));
                            assert forall|a: int, b: int|
                                0 <= a < b < self@.len() implies self@[a].id < self@[b].id by {
                                assert(old(self)@[a].id < old(self)@[b].id);
                            }
                        }
                        Ok(mapping)
                    },
                    None => {
                        proof {
                            assert(self@ =~= old(self)@.update(i as int, self@[i as int]));
                            assert(self@[i as int] == old(self)@[i as int]);
                            assert(self@ =~= old(self)@);
                        }
                        Err(Error::new(ErrorCode::InvalidParam, ""))
                    },
                }
            },
            None => Err(Error::new(ErrorCode::InvalidParam, "")),
        }
    }

    /// Returns a foreign mapping: the backing bytes — with every write the
    /// holder made through the window — become the domain's memory again.
    /// Succeeds exactly when the domain exists and its memory is mapped
    /// out; a failure changes nothing and surfaces an invalid parameter.
    pub fn unmap_foreign_pages(&mut self, dom_id: u32, mapping: Vec<u8>) -> (r: Result<(), Error>)
        requires
            old(self).wf(),
        ensures
            final(self).wf(),
            r is Ok <==> spec_has(old(self)@, dom_id) && mem_view(
                old(self)@[spec_idx(old(self)@, dom_id)],
            ) is None,
            r is Ok ==> ({
                let i = spec_idx(old(self)@, dom_id);
                final(self)@ == old(self)@.update(i, final(self)@[i]) && same_but_memory(
                    old(self)@[i],
                    final(self)@[i],
                ) && mem_view(final(self)@[i]) == Some(mapping@)
            }),
            r is Err ==> final(self)@ == old(self)@,
            match r {
                Err(e) => e.code == ErrorCode::InvalidParam && e.details@ == Seq::<char>::empty(),
                _ => true,
            },
    {
        proof {
            reveal_strlit("");
            assert(""@ =~= Seq::<char>::empty());
        }
        match self.find(dom_id) {
            Some(i) => {
                proof {
                    lemma_idx_of(self@, i as int);
                }
                if self.doms[i].memory.is_some() {
                    return Err(Error::new(ErrorCode::InvalidParam, ""));
                }
                self.doms[i].memory = Some(mapping);
                proof {
                    assert(self@ =~= old(self)@.update(i as int, self@[i as int]));
                    assert forall|a: int, b: int|
                        0 <= a < b < self@.len() implies self@[a].id < self@[b].id by {
                        assert(old(self)@[a].id < old(self)@[b].id);
                    }
                }
                Ok(())
            },
            None => Err(Error::new(ErrorCode::InvalidParam, "")),
        }
    }

    /// The byte length of a domain's HVM save buffer: the zero-length
    /// probe that discovers the size before the full fetch.
    pub fn get_hvm_context_len(&self, dom_id: u32) -> (r: Result<usize, Error>)
        requires
            self.wf(),
        ensures
            match r {
                Ok(n) => spec_has(self@, dom_id) && n == self@[spec_idx(
                    self@,
                    dom_id,
                )].context@.len(),
                Err(e) => !spec_has(self@, dom_id) && e.code == ErrorCode::InvalidParam
                    && e.details@ == Seq::<char>::empty(),
            },
    {
        proof {
            reveal_strlit("");
            assert(""@ =~= Seq::<char>::empty());
        }
        match self.find(dom_id) {
            Some(i) => {
                proof {
                    lemma_idx_of(self@, i as int);
                }
                Ok(self.doms[i].context.len())
            },
            None => Err(Error::new(ErrorCode::InvalidParam, "")),
        }
    }

    /// Fetches a domain's HVM save buffer.
    pub fn get_hvm_context(&self, dom_id: u32) -> (r: Result<Vec<u8>, Error>)
        requires
            self.wf(),
        ensures
            match r {
                Ok(ctx) => spec_has(self@, dom_id) && ctx@ == self@[spec_idx(
                    self@,
                    dom_id,
                )].context@,
                Err(e) => !spec_has(self@, dom_id) && e.code == ErrorCode::InvalidParam
                    && e.details@ == Seq::<char>::empty(),
            },
    {
        proof {
            reveal_strlit("");
            assert(""@ =~= Seq::<char>::empty());
        }
        match self.find(dom_id) {
            Some(i) => {
                proof {
                    lemma_idx_of(self@, i as int);
                }
                Ok(copy_bytes(&self.doms[i].context))
            },
            None => Err(Error::new(ErrorCode::InvalidParam, "")),
        }
    }

    /// Writes a domain's HVM save buffer back via set-context.
    pub fn set_hvm_context(&mut self, dom_id: u32, ctx: &Vec<u8>) -> (r: Result<(), Error>)
        requires
            old(self).wf(),
        ensures
            final(self).wf(),
            r is Ok <==> spec_has(old(self)@, dom_id),
            r is Ok ==> ({
                let i = spec_idx(old(self)@, dom_id);
                final(self)@ == old(self)@.update(i, final(self)@[i]) && same_but_context(
                    old(self)@[i],
                    final(self)@[i],
                ) && final(self)@[i].context@ == ctx@
            }),
            r is Err ==> final(self)@ == old(self)@,
            match r {
                Err(e) => e.code == ErrorCode::InvalidParam && e.details@ == Seq::<char>::empty(),
                _ => true,
            },
    {
        proof {
            reveal_strlit("");
            assert(""@ =~= Seq::<char>::empty());
        }
        match self.find(dom_id) {
            Some(i) => {
                proof {
                    lemma_idx_of(self@, i as int);
                }
                self.doms[i].context = copy_bytes(ctx);
                proof {
                    assert(self@ =~= old(self)@.update(i as int, self@[i as int]));
                    assert forall|a: int, b: int|
                        0 <= a < b < self@.len() implies self@[a].id < self@[b].id by {
                        assert(old(self)@[a].id < old(self)@[b].id);
                    }
                }
                Ok(())
            },
            None => Err(Error::new(ErrorCode::InvalidParam, "")),
        }
    }

    /// One bounded enumeration request, as the hypervisor answers it:
    /// snapshots of up to `max` domains whose ids are at or past `first`,
    /// in ascending id order.
    pub fn get_info_chunk(&self, first: u64, max: usize) -> (r: Vec<DomainInfo>)
        requires
            self.wf(),
        ensures
            ({
                let cb = count_below(self@, first);
                let avail = self@.len() - cb;
                let k = if max <= avail {
                    max as int
                } else {
                    avail
                };
                r@.len() == k && (forall|t: int| 0 <= t < k ==> r@[t] == spec_info(self@[cb + t]))
            }),
    {
        proof {
            lemma_count_below(self@, first);
        }
        let ghost cb = count_below(self@, first);
        let n = self.doms.len();
        let mut i: usize = 0;
        while i < n && (self.doms[i].id as u64) < first
            invariant
                n == self@.len(),
                i <= n,
                forall|j: int| 0 <= j < i ==> (self@[j].id as u64) < first,
                forall|j: int|
                    0 <= j < n ==> ((j < cb) <==> ((self@[j].id as u64) < first)),
                i <= cb,
            decreases n - i,
        {
            i = i + 1;
        }
        proof {
            if i < n {
                assert(!((self@[i as int].id as u64) < first));
                assert(i as int == cb);
            } else {
                assert(cb <= n);
                assert(i as int == cb);
            }
        }
        let mut out: Vec<DomainInfo> = Vec::new();
        while i < n && out.len() < max
            invariant
                n == self@.len(),
                cb <= i <= n,
                out@.len() == i - cb,
                out@.len() <= max,
                forall|t: int| 0 <= t < out@.len() ==> out@[t] == spec_info(self@[cb + t]),
            decreases n - i,
        {
            let e = &self.doms[i];
            let max_vcpu_id = if e.max_vcpus == 0 {
                0
            } else {
                e.max_vcpus - 1
            };
            out.push(
                DomainInfo {
                    domain: e.id,
                    running: !e.paused,
                    paused: e.paused,
                    shutdown: false,
                    nr_pages: e.populated.len() as u64,
                    max_vcpu_id,
                    handle: e.handle,
                },
            );
            i = i + 1;
        }
        out
    }

    /// Enumerates every domain by paginated chunk requests of batch size
    /// 1024, each starting one past the highest id seen so far, absorbing
    /// each chunk with deduplication by id; a zero-length chunk ends the
    /// scan. Returns the snapshots — exactly one per domain, ids unique,
    /// ascending — and the number of chunk requests made, at most
    /// one more than the number of full-or-partial batches the domains
    /// fill.
    pub fn enumerate_domains(&self) -> (r: (Vec<DomainInfo>, usize))
        requires
            self.wf(),
        ensures
            r.0@.len() == self@.len(),
            forall|t: int| 0 <= t < r.0@.len() ==> r.0@[t] == spec_info(self@[t as int]),
            forall|a: int, b: int|
                0 <= a < b < r.0@.len() ==> r.0@[a].domain != r.0@[b].domain,
            r.1 as int <= (self@.len() + 1023) / 1024 + 1,
    {
        let n = self.doms.len();
        let mut domains: Vec<DomainInfo> = Vec::new();
        let mut cursor: u64 = 0;
        let mut chunks: usize = 0;
        proof {
            lemma_count_below(self@, 0);
        }
        loop
            invariant_except_break
                self.wf(),
                n == self@.len(),
                domains@.len() <= n,
                forall|t: int|
                    0 <= t < domains@.len() ==> domains@[t] == spec_info(self@[t as int]),
                count_below(self@, cursor) == domains@.len(),
                domains@.len() < n ==> domains@.len() == chunks as int * 1024,
                chunks as int * 1024 <= n + 1023,
                chunks as int <= (n as int + 1023) / 1024,
            ensures
                n == self@.len(),
                domains@.len() == n,
                forall|t: int|
                    0 <= t < domains@.len() ==> domains@[t] == spec_info(self@[t as int]),
                chunks as int <= (n as int + 1023) / 1024,
                chunks < usize::MAX,
            decreases n - domains@.len(),
        {
            let ghost p = domains@.len() as int;
            let ghost cur0 = cursor as int;
            proof {
                lemma_count_below(self@, cursor);
            }
            let chunk = self.get_info_chunk(cursor, 1024);
            let ghost k = chunk@.len() as int;
            if chunk.len() == 0 {
                proof {
                    // an empty chunk: nothing remained past the cursor
                    assert(p == n);
                    assert(chunks < usize::MAX) by {
                        vstd::arithmetic::div_mod::lemma_multiply_divide_lt(
                            n as int + 1023,
                            1024,
                            usize::MAX as int,
                        );
                    }
                }
                break;
            }
            proof {
                // the chunk is the next run of entries, so its ids are new,
                // pairwise distinct and ascending
                assert(p < n);
                assert(forall|t: int| 0 <= t < k ==> chunk@[t] == spec_info(self@[p + t]));
                assert forall|a: int, b: int| 0 <= a < b < k implies chunk@[a].domain
                    < chunk@[b].domain by {
                    assert(self@[p + a].id < self@[p + b].id);
                }
                assert forall|t: int| 0 <= t < k implies !spec_has_info_id(
                    domains@,
                    chunk@[t].domain,
                ) by {
                    if spec_has_info_id(domains@, chunk@[t].domain) {
                        let w = choose|w: int|
                            0 <= w < domains@.len() && domains@[w].domain == chunk@[t].domain;
                        assert(domains@[w] == spec_info(self@[w]));
                        assert(self@[w].id < self@[p + t].id);
                    }
                }
                lemma_absorb_append(domains@, chunk@);
                // the chunk's ids all lie at or past the cursor
                assert((chunk@.last().domain as u64) >= cursor);
                lemma_cursor_after_ascending(cur0, chunk@);
            }
            let ghost doms0 = domains@;
            chunks = chunks + 1;
            absorb_chunk(&mut domains, &mut cursor, &chunk);
            proof {
                assert(domains@ == doms0 + chunk@);
                assert(domains@.len() == p + k);
                assert forall|t: int| 0 <= t < p + k implies domains@[t] == spec_info(
                    self@[t as int],
                ) by {
                    if t < p {
                        assert(domains@[t] == doms0[t]);
                    } else {
                        assert(domains@[t] == chunk@[t - p]);
                    }
                }
                // the new cursor sits one past the last collected entry
                assert(cursor as int == self@[p + k - 1].id as int + 1);
                lemma_count_below(self@, cursor);
                assert forall|j: int|
                    0 <= j < n implies ((j < p + k) <==> ((self@[j].id as u64) < cursor)) by {
                    if j <= p + k - 1 {
                        if j < p + k - 1 {
                            assert(self@[j].id < self@[p + k - 1].id);
                        }
                    } else {
                        assert(self@[p + k - 1].id < self@[j].id);
                    }
                }
                assert(count_below(self@, cursor) == p + k) by {
                    let cb = count_below(self@, cursor);
                    if cb < p + k {
                        assert((self@[cb].id as u64) < cursor);
                    }
                    if cb > p + k {
                        assert(p + k < cb <= n);
                        assert((self@[p + k].id as u64) < cursor);
                    }
                }
                // the chunk-count bound is maintained
                if p + k < n {
                    assert(k == 1024);
                } else {
                    assert(p + k == n);
                    assert(k >= 1);
                    assert(chunks as int * 1024 <= n + 1023);
                }
                assert(chunks as int <= (n as int + 1023) / 1024) by {
                    vstd::arithmetic::div_mod::lemma_div_by_multiple(chunks as int, 1024);
                    vstd::arithmetic::div_mod::lemma_div_is_ordered(
                        chunks as int * 1024,
                        n as int + 1023,
                        1024,
                    );
                }
            }
        }
        proof {
            // the collected ids are the entry ids, hence unique
            lemma_id_unique(self@);
            assert forall|a: int, b: int|
                0 <= a < b < domains@.len() implies domains@[a].domain != domains@[b].domain by {
                assert(self@[a].id < self@[b].id);
            }
        }
        let total = chunks + 1;
        (domains, total)
    }

    /// The full set of domain snapshots, by paginated enumeration: exactly
    /// one record per domain, ids unique, in ascending id order.
    pub fn get_domain_info_list(&self) -> (r: Result<Vec<DomainInfo>, Error>)
        requires
            self.wf(),
        ensures
            match r {
                Ok(infos) => infos@.len() == self@.len() && (forall|t: int|
                    0 <= t < infos@.len() ==> infos@[t] == spec_info(self@[t as int])) && (
                forall|a: int, b: int|
                    0 <= a < b < infos@.len() ==> infos@[a].domain != infos@[b].domain),
                Err(_) => false,
            },
    {
        let (infos, _) = self.enumerate_domains();
        Ok(infos)
    }
}

} // verus!
