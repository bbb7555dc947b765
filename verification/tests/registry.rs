//! Behaviour of the ban registry through its public operations.

use ban_registry::ban_service::{BanReason, BanService, UnbanReason};
use ban_registry::endpoint::{Endpoint, Role, StatsSink};

fn replica(id: u64, shard: usize) -> Endpoint {
    Endpoint { id, shard, role: Role::Replica, error_count: 0, stat_error_count: 0 }
}

fn primary(id: u64, shard: usize) -> Endpoint {
    Endpoint { id, shard, role: Role::Primary, error_count: 0, stat_error_count: 0 }
}

/// One-shard topology holding the given endpoints.
fn one_shard_pool(endpoints: &[Endpoint]) -> Vec<Vec<Endpoint>> {
    vec![endpoints.to_vec()]
}

#[test]
fn new_registry_is_empty() {
    let svc = BanService::new(true, 60, 3);
    assert_eq!(svc.shard_count(), 3);
    assert!(svc.replica_to_primary_failover_enabled());
    assert_eq!(svc.ban_time(), 60);
    assert!(svc.get_bans().is_empty());
    assert!(!svc.is_banned(&replica(1, 0)));
    assert!(!svc.is_banned(&replica(1, 2)));
}

#[test]
fn primary_is_never_banned() {
    let mut svc = BanService::new(false, 60, 1);
    let mut p = primary(7, 0);
    svc.ban_at(&mut p, BanReason::FailedHealthCheck, 1000);
    assert!(!svc.is_banned(&p));
    svc.ban_at(&mut p, BanReason::AdminBan(30), 1000);
    assert!(!svc.is_banned(&p));
    svc.ban(&mut p, BanReason::StatementTimeout);
    assert!(!svc.is_banned(&p));
    assert!(svc.get_bans().is_empty());
}

#[test]
fn ban_then_lookup_and_snapshot() {
    let mut svc = BanService::new(false, 60, 1);
    let mut r = replica(1, 0);
    svc.ban_at(&mut r, BanReason::MessageSendFailed, 1234);
    assert!(svc.is_banned(&r));
    let bans = svc.get_bans();
    assert_eq!(bans.len(), 1);
    let (endpoint, (reason, ts)) = bans[0];
    assert_eq!(endpoint.id, 1);
    assert_eq!(endpoint.shard, 0);
    assert_eq!(reason, BanReason::MessageSendFailed);
    assert_eq!(ts, 1234);
}

#[test]
fn ban_at_wall_clock_window() {
    let mut svc = BanService::new(false, 60, 1);
    let mut r = replica(1, 0);
    let before = chrono::Utc::now().timestamp();
    svc.ban(&mut r, BanReason::FailedCheckout);
    let after = chrono::Utc::now().timestamp();
    assert!(svc.is_banned(&r));
    let bans = svc.get_bans();
    assert_eq!(bans.len(), 1);
    let (_, (reason, ts)) = bans[0];
    assert_eq!(reason, BanReason::FailedCheckout);
    assert!(before <= ts && ts <= after);
}

#[test]
fn last_write_wins() {
    let mut svc = BanService::new(false, 60, 1);
    let mut r = replica(1, 0);
    svc.ban_at(&mut r, BanReason::FailedHealthCheck, 1000);
    svc.ban_at(&mut r, BanReason::StatementTimeout, 1005);
    let bans = svc.get_bans();
    assert_eq!(bans.len(), 1);
    let (endpoint, (reason, ts)) = bans[0];
    assert_eq!(endpoint.id, 1);
    assert_eq!(reason, BanReason::StatementTimeout);
    assert_eq!(ts, 1005);
}

#[test]
fn unban_is_idempotent() {
    let mut svc = BanService::new(false, 60, 1);
    let mut r = replica(1, 0);
    svc.ban_at(&mut r, BanReason::FailedHealthCheck, 1000);
    assert!(svc.is_banned(&r));
    svc.unban(&r);
    assert!(!svc.is_banned(&r));
    assert!(svc.get_bans().is_empty());
    svc.unban(&r);
    assert!(!svc.is_banned(&r));
    assert!(svc.get_bans().is_empty());
}

#[test]
fn unban_of_absent_endpoint_is_a_no_op() {
    let mut svc = BanService::new(false, 60, 2);
    let mut other = replica(2, 1);
    svc.ban_at(&mut other, BanReason::FailedCheckout, 50);
    svc.unban(&replica(1, 1));
    assert!(svc.is_banned(&other));
    assert_eq!(svc.get_bans().len(), 1);
}

#[test]
fn admin_ban_expires_by_its_own_duration() {
    let mut svc = BanService::new(true, 60, 1);
    let mut r = replica(1, 0);
    let pool = one_shard_pool(&[r]);
    let t0 = 10_000;
    svc.ban_at(&mut r, BanReason::AdminBan(30), t0);
    assert_eq!(svc.should_unban_at(&pool, &r, t0 + 10), None);
    assert_eq!(svc.should_unban_at(&pool, &r, t0 + 30), None);
    assert_eq!(svc.should_unban_at(&pool, &r, t0 + 31), Some(UnbanReason::BanTimeExceeded));
}

#[test]
fn automatic_ban_expires_by_the_default_duration() {
    let mut svc = BanService::new(true, 60, 1);
    let mut r = replica(1, 0);
    let pool = one_shard_pool(&[r]);
    let t0 = 10_000;
    svc.ban_at(&mut r, BanReason::FailedCheckout, t0);
    assert_eq!(svc.should_unban_at(&pool, &r, t0 + 60), None);
    assert_eq!(svc.should_unban_at(&pool, &r, t0 + 61), Some(UnbanReason::BanTimeExceeded));
}

#[test]
fn all_replicas_banned_without_failover() {
    let mut svc = BanService::new(false, 60, 1);
    let mut r1 = replica(1, 0);
    let mut r2 = replica(2, 0);
    let pool = one_shard_pool(&[r1, r2]);
    let t0 = 10_000;
    svc.ban_at(&mut r1, BanReason::FailedHealthCheck, t0);
    svc.ban_at(&mut r2, BanReason::MessageReceiveFailed, t0);
    // The ban-time threshold has not elapsed, yet the verdict recovers
    // the shard wholesale.
    assert_eq!(svc.should_unban_at(&pool, &r1, t0 + 1), Some(UnbanReason::AllReplicasBanned));
    assert_eq!(svc.should_unban_at(&pool, &r2, t0 + 1), Some(UnbanReason::AllReplicasBanned));
}

#[test]
fn unban_all_replicas_clears_the_whole_shard() {
    let mut svc = BanService::new(false, 60, 1);
    let mut r1 = replica(1, 0);
    let mut r2 = replica(2, 0);
    let t0 = 10_000;
    svc.ban_at(&mut r1, BanReason::FailedHealthCheck, t0);
    svc.ban_at(&mut r2, BanReason::MessageReceiveFailed, t0);
    svc.unban_all_replicas(&r1);
    assert!(!svc.is_banned(&r1));
    assert!(!svc.is_banned(&r2));
    assert!(svc.get_bans().is_empty());
}

#[test]
fn unban_all_replicas_leaves_other_shards_alone() {
    let mut svc = BanService::new(false, 60, 3);
    let mut a = replica(1, 1);
    let mut b = replica(2, 2);
    svc.ban_at(&mut a, BanReason::FailedCheckout, 10);
    svc.ban_at(&mut b, BanReason::FailedCheckout, 10);
    svc.unban_all_replicas(&b);
    assert!(svc.is_banned(&a));
    assert!(!svc.is_banned(&b));
    assert_eq!(svc.get_bans().len(), 1);
}

#[test]
fn not_banned_verdict() {
    let mut svc = BanService::new(false, 60, 1);
    let mut r1 = replica(1, 0);
    let r2 = replica(2, 0);
    let pool = one_shard_pool(&[r1, r2]);
    svc.ban_at(&mut r1, BanReason::FailedHealthCheck, 10_000);
    // One of two replicas banned: the whole-shard rule does not fire,
    // and the unbanned replica's premise no longer holds.
    assert_eq!(svc.should_unban_at(&pool, &r2, 10_001), Some(UnbanReason::NotBanned));
}

#[test]
fn not_banned_verdict_with_failover() {
    let svc = BanService::new(true, 60, 1);
    let r = replica(1, 0);
    let pool = one_shard_pool(&[r]);
    assert_eq!(svc.should_unban_at(&pool, &r, 10_000), Some(UnbanReason::NotBanned));
    assert_eq!(svc.should_unban(&pool, &r), Some(UnbanReason::NotBanned));
}

#[test]
fn primary_banned_verdict() {
    let svc = BanService::new(true, 60, 1);
    let p = primary(1, 0);
    let pool = one_shard_pool(&[p]);
    assert_eq!(svc.should_unban_at(&pool, &p, 10_000), Some(UnbanReason::PrimaryBanned));
    assert_eq!(svc.should_unban(&pool, &p), Some(UnbanReason::PrimaryBanned));
}

#[test]
fn empty_shard_with_no_replicas_counts_as_all_banned() {
    // With failover disabled, a shard with zero configured replicas and
    // zero bans satisfies the whole-shard rule (0 == 0), so even an
    // endpoint without a record gets the bulk-recovery verdict rather
    // than `NotBanned`.
    let svc = BanService::new(false, 60, 1);
    let r = replica(1, 0);
    let pool = one_shard_pool(&[primary(9, 0)]);
    assert_eq!(svc.should_unban_at(&pool, &r, 10_000), Some(UnbanReason::AllReplicasBanned));
}

#[test]
fn stay_banned_before_expiry_with_real_clock() {
    let mut svc = BanService::new(true, 10_000_000, 1);
    let mut r = replica(1, 0);
    let pool = one_shard_pool(&[r]);
    svc.ban(&mut r, BanReason::MessageSendFailed);
    assert!(svc.is_banned(&r));
    assert_eq!(svc.should_unban(&pool, &r), None);
    svc.unban(&r);
    assert_eq!(svc.should_unban(&pool, &r), Some(UnbanReason::NotBanned));
}

#[test]
fn error_counter_incremented_only_for_automatic_failures() {
    let mut svc = BanService::new(false, 60, 1);
    let mut r = replica(1, 0);
    svc.ban_at(&mut r, BanReason::FailedHealthCheck, 10);
    assert_eq!(r.error_count, 1);
    svc.ban_at(&mut r, BanReason::FailedCheckout, 11);
    assert_eq!(r.error_count, 2);
    svc.ban_at(&mut r, BanReason::MessageSendFailed, 12);
    assert_eq!(r.error_count, 3);
    svc.ban_at(&mut r, BanReason::MessageReceiveFailed, 13);
    assert_eq!(r.error_count, 4);
    svc.ban_at(&mut r, BanReason::StatementTimeout, 14);
    assert_eq!(r.error_count, 4);
    svc.ban_at(&mut r, BanReason::AdminBan(5), 15);
    assert_eq!(r.error_count, 4);
}

#[test]
fn error_counter_incremented_even_for_a_primary() {
    let mut svc = BanService::new(false, 60, 1);
    let mut p = primary(1, 0);
    svc.ban_at(&mut p, BanReason::FailedCheckout, 10);
    assert_eq!(p.error_count, 1);
    assert!(!svc.is_banned(&p));
}

#[test]
fn stats_sink_notified_on_replica_ban() {
    let mut svc = BanService::new(false, 60, 1);
    let mut r = replica(1, 0);
    let mut sink = StatsSink { ban_errors: 0 };
    svc.ban_with_stats_at(&mut r, BanReason::MessageReceiveFailed, &mut sink, 100);
    assert_eq!(sink.ban_errors, 1);
    assert_eq!(r.stat_error_count, 1);
    assert_eq!(r.error_count, 1);
    assert!(svc.is_banned(&r));
}

#[test]
fn stats_sink_untouched_on_primary_ban() {
    let mut svc = BanService::new(false, 60, 1);
    let mut p = primary(1, 0);
    let mut sink = StatsSink { ban_errors: 0 };
    svc.ban_with_stats_at(&mut p, BanReason::StatementTimeout, &mut sink, 100);
    assert_eq!(sink.ban_errors, 0);
    assert_eq!(p.stat_error_count, 0);
    assert!(!svc.is_banned(&p));
}

#[test]
fn stats_sink_notified_with_real_clock() {
    let mut svc = BanService::new(false, 60, 1);
    let mut r = replica(1, 0);
    let mut sink = StatsSink { ban_errors: 3 };
    svc.ban_with_stats(&mut r, BanReason::FailedHealthCheck, &mut sink);
    assert_eq!(sink.ban_errors, 4);
    assert!(svc.is_banned(&r));
}

#[test]
fn bans_are_partitioned_by_shard() {
    let mut svc = BanService::new(false, 60, 2);
    let mut a = replica(1, 0);
    // Same identity number in another shard is a different endpoint.
    let b = replica(1, 1);
    svc.ban_at(&mut a, BanReason::FailedCheckout, 10);
    assert!(svc.is_banned(&a));
    assert!(!svc.is_banned(&b));
}

#[test]
fn snapshot_spans_all_shards() {
    let mut svc = BanService::new(false, 60, 3);
    let mut a = replica(1, 0);
    let mut b = replica(2, 2);
    svc.ban_at(&mut a, BanReason::FailedCheckout, 10);
    svc.ban_at(&mut b, BanReason::AdminBan(90), 20);
    let mut bans = svc.get_bans();
    bans.sort_by_key(|(endpoint, _)| endpoint.shard);
    assert_eq!(bans.len(), 2);
    assert_eq!(bans[0].0.id, 1);
    assert_eq!(bans[0].1, (BanReason::FailedCheckout, 10));
    assert_eq!(bans[1].0.id, 2);
    assert_eq!(bans[1].1, (BanReason::AdminBan(90), 20));
}
