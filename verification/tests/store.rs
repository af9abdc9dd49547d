use xenops::vm::{get_name, shutdown, ShutdownReason};
use xenops::xenstore::{Transaction, TransactionStatus, Xenstore};

#[test]
fn domain_path_derivation() {
    let xs = Xenstore::new();
    assert_eq!(xs.get_domain_path(0), "/local/domain/0");
    assert_eq!(xs.get_domain_path(7), "/local/domain/7");
    assert_eq!(xs.get_domain_path(1042), "/local/domain/1042");
    assert_eq!(xs.get_domain_path(u32::MAX), "/local/domain/4294967295");
}

#[test]
fn read_write_rm() {
    let mut xs = Xenstore::new();
    assert!(xs.read("/a").is_err());
    xs.write("/a", "1").unwrap();
    assert_eq!(xs.read("/a").unwrap(), "1");
    xs.write("/a", "2").unwrap();
    assert_eq!(xs.read("/a").unwrap(), "2");
    xs.rm("/a").unwrap();
    assert!(xs.read("/a").is_err());
    assert!(xs.rm("/a").is_err());
}

#[test]
fn transaction_commit_publishes_all_writes() {
    let mut xs = Xenstore::new();
    xs.write("/keep", "old").unwrap();
    let mut t = Transaction::new(&xs);
    t.write("/w1", "v1").unwrap();
    t.write("/w2", "v2").unwrap();
    // Nothing is visible before the commit.
    assert!(xs.read("/w1").is_err());
    assert!(xs.read("/w2").is_err());
    t.commit(&mut xs).unwrap();
    // Everything is visible after the commit.
    assert_eq!(xs.read("/w1").unwrap(), "v1");
    assert_eq!(xs.read("/w2").unwrap(), "v2");
    assert_eq!(xs.read("/keep").unwrap(), "old");
}

#[test]
fn transaction_dropped_without_commit_publishes_nothing() {
    let mut xs = Xenstore::new();
    xs.write("/keep", "old").unwrap();
    {
        let mut t = Transaction::new(&xs);
        t.write("/w1", "v1").unwrap();
        t.rm("/keep").unwrap();
        // Dropped here without a commit: an implicit abort.
    }
    assert!(xs.read("/w1").is_err());
    assert_eq!(xs.read("/keep").unwrap(), "old");
}

#[test]
fn transaction_reads_its_own_isolated_view() {
    let mut xs = Xenstore::new();
    xs.write("/a", "before").unwrap();
    let mut t = Transaction::new(&xs);
    assert_eq!(t.read("/a").unwrap(), "before");
    t.write("/a", "after").unwrap();
    assert_eq!(t.read("/a").unwrap(), "after");
    assert_eq!(xs.read("/a").unwrap(), "before");
    t.rm("/a").unwrap();
    assert!(t.read("/a").is_err());
    assert!(t.rm("/a").is_err());
    assert_eq!(xs.read("/a").unwrap(), "before");
}

#[test]
fn transaction_status_lifecycle() {
    let mut xs = Xenstore::new();
    let mut t = Transaction::new(&xs);
    assert!(t.get_status() == TransactionStatus::Pending);
    t.commit(&mut xs).unwrap();
    assert!(t.get_status() == TransactionStatus::Committed);

    let mut t2 = Transaction::new(&xs);
    t2.abort();
    assert!(t2.get_status() == TransactionStatus::Aborted);
}

#[test]
fn shutdown_round_trip_reboot() {
    let mut xs = Xenstore::new();
    let root = xs.get_domain_path(5);
    xs.write(&root, "").unwrap();
    shutdown(&mut xs, 5, ShutdownReason::Reboot).unwrap();
    assert_eq!(xs.read("/local/domain/5/control/shutdown").unwrap(), "reboot");
}

#[test]
fn shutdown_clears_stale_signal_and_rewrites() {
    let mut xs = Xenstore::new();
    xs.write("/local/domain/3", "").unwrap();
    xs.write("/local/domain/3/control/shutdown", "halt").unwrap();
    shutdown(&mut xs, 3, ShutdownReason::PowerOff).unwrap();
    assert_eq!(xs.read("/local/domain/3/control/shutdown").unwrap(), "poweroff");
}

#[test]
fn shutdown_of_missing_domain_fails_and_changes_nothing() {
    let mut xs = Xenstore::new();
    xs.write("/other", "x").unwrap();
    assert!(shutdown(&mut xs, 9, ShutdownReason::Halt).is_err());
    assert!(xs.read("/local/domain/9/control/shutdown").is_err());
    assert_eq!(xs.read("/other").unwrap(), "x");
}

#[test]
fn reason_tokens() {
    assert_eq!(ShutdownReason::PowerOff.token(), "poweroff");
    assert_eq!(ShutdownReason::Reboot.token(), "reboot");
    assert_eq!(ShutdownReason::Suspend.token(), "suspend");
    assert_eq!(ShutdownReason::Crash.token(), "crash");
    assert_eq!(ShutdownReason::Halt.token(), "halt");
    assert_eq!(ShutdownReason::S3Suspend.token(), "s3");
    assert_eq!(ShutdownReason::Unknown(12).token(), "(unknown 12)");
    assert_eq!(ShutdownReason::Unknown(-3).token(), "(unknown -3)");
}

#[test]
fn get_name_reads_name_sub_path() {
    let mut xs = Xenstore::new();
    assert!(get_name(&xs, 4).is_err());
    xs.write("/local/domain/4/name", "guest").unwrap();
    assert_eq!(get_name(&xs, 4).unwrap(), "guest");
}
