//! The domain lifecycle facade: shutdown signalling and name lookup, built
//! on the control-store session.

use vstd::prelude::*;
use vstd::string::StringExecFns;
use crate::text;
use crate::xenstore;
use crate::xenstore::{Transaction, Xenstore};

verus! {

/// The reason written to a domain's shutdown-signal path. The closed set is
/// extended by an escape variant carrying an unrecognized integer code, for
/// hypervisor-defined codes not yet named here.
pub enum ShutdownReason {
    PowerOff,
    Reboot,
    Suspend,
    Crash,
    Halt,
    S3Suspend,
    Unknown(i32),
}

/// The canonical lowercase token for a shutdown reason.
pub open spec fn spec_reason_token(reason: ShutdownReason) -> Seq<char> {
    match reason {
        ShutdownReason::PowerOff => "poweroff"@,
        ShutdownReason::Reboot => "reboot"@,
        ShutdownReason::Suspend => "suspend"@,
        ShutdownReason::Crash => "crash"@,
        ShutdownReason::Halt => "halt"@,
        ShutdownReason::S3Suspend => "s3"@,
        ShutdownReason::Unknown(code) => "(unknown "@ + text::spec_dec_signed(code as int) + ")"@,
    }
}

impl ShutdownReason {
    /// The canonical token, as written to the store.
    pub fn token(&self) -> (r: String)
        ensures
            r@ == spec_reason_token(*self),
    {
        match *self {
            ShutdownReason::PowerOff => String::from_str("poweroff"),
            ShutdownReason::Reboot => String::from_str("reboot"),
            ShutdownReason::Suspend => String::from_str("suspend"),
            ShutdownReason::Crash => String::from_str("crash"),
            ShutdownReason::Halt => String::from_str("halt"),
            ShutdownReason::S3Suspend => String::from_str("s3"),
            ShutdownReason::Unknown(code) => {
                proof {
                    reveal_strlit("(unknown ");
                    reveal_strlit(")");
                }
                let mut out = String::from_str("(unknown ");
                text::push_dec_signed(code as i64, &mut out);
                out.append(")");
                assert(out@ =~= spec_reason_token(*self));
                out
            },
        }
    }
}

/// The shutdown-signal path of a domain.
pub open spec fn spec_shutdown_path(dom_id: u32) -> Seq<char> {
    xenstore::spec_domain_path(dom_id) + "/control/shutdown"@
}

/// The display-name path of a domain.
pub open spec fn spec_name_path(dom_id: u32) -> Seq<char> {
    xenstore::spec_domain_path(dom_id) + "/name"@
}

/// Signals a shutdown: within one transaction, reads the domain's root path
/// (a domain that has raced to non-existence surfaces as a failed read, and
/// the transaction is discarded), clears any stale signal, writes the new
/// reason token at the signal path, and commits.
///
/// On success the store holds exactly the old contents with the reason token
/// bound at the signal path; on failure the store is untouched.
pub fn shutdown(xs: &mut Xenstore, dom_id: u32, reason: ShutdownReason) -> (r: Result<
    (),
    xenstore::Error,
>)
    requires
        old(xs).wf(),
    ensures
        final(xs).wf(),
        r is Ok <==> old(xs)@.contains_key(xenstore::spec_domain_path(dom_id)),
        r is Ok ==> final(xs)@ == old(xs)@.insert(
            spec_shutdown_path(dom_id),
            spec_reason_token(reason),
        ),
        r is Err ==> final(xs)@ == old(xs)@,
{
    proof {
        reveal_strlit("/control/shutdown");
    }
    let domain_path = xs.get_domain_path(dom_id);
    let mut shutdown_path = domain_path.clone();
    shutdown_path.append("/control/shutdown");

    let mut transaction = Transaction::new(xs);

    match transaction.read(domain_path.as_str()) {
        Ok(_) => {},
        Err(e) => {
            // Discarded without a commit: the store state is untouched.
            return Err(e);
        },
    }
    let _ = transaction.rm(shutdown_path.as_str());
    let token = reason.token();
    match transaction.write(shutdown_path.as_str(), token.as_str()) {
        Ok(_) => {},
        Err(e) => {
            return Err(e);
        },
    }
    let r = transaction.commit(xs);
    proof {
        assert(old(xs)@.remove(spec_shutdown_path(dom_id)).insert(
            spec_shutdown_path(dom_id),
            spec_reason_token(reason),
        ) =~= old(xs)@.insert(spec_shutdown_path(dom_id), spec_reason_token(reason)));
    }
    r
}

/// Reads a domain's display name from its name sub-path. Absence surfaces
/// as an error, which callers may substitute with a placeholder for display.
pub fn get_name(xs: &Xenstore, dom_id: u32) -> (r: Result<String, xenstore::Error>)
    requires
        xs.wf(),
    ensures
        match r {
            Ok(v) => xs@.contains_key(spec_name_path(dom_id)) && v@ == xs@[spec_name_path(
                dom_id,
            )],
            Err(_) => !xs@.contains_key(spec_name_path(dom_id)),
        },
{
    proof {
        reveal_strlit("/name");
    }
    let mut name_path = xs.get_domain_path(dom_id);
    name_path.append("/name");
    xs.read(name_path.as_str())
}

/// The shutdown round trip: after a successful `shutdown`, reading the
/// domain's shutdown-signal path returns exactly the reason's token.
pub proof fn lemma_shutdown_round_trip(
    before: Map<Seq<char>, Seq<char>>,
    after: Map<Seq<char>, Seq<char>>,
    dom_id: u32,
    reason: ShutdownReason,
)
    requires
        after == before.insert(spec_shutdown_path(dom_id), spec_reason_token(reason)),
    ensures
        after.contains_key(spec_shutdown_path(dom_id)),
        after[spec_shutdown_path(dom_id)] == spec_reason_token(reason),
{
}

} // verus!
