//! Laws of the ban registry, stated over the table's mathematical view
//! and the transition functions of `ban_service`, and proved once for
//! all tables, endpoints, reasons and timestamps.

use vstd::prelude::*;

use crate::ban_service::{
    ban_threshold, count_replicas, key_of, no_primary_banned, spec_ban, spec_is_banned,
    spec_should_unban, spec_unban, spec_unban_all_replicas, BanReason, UnbanReason,
};
use crate::endpoint::{Endpoint, Role};

verus! {

/// Banning a primary endpoint, for any reason, leaves the table
/// unchanged, and the primary remains unbanned afterwards.
pub proof fn lemma_primary_immunity(
    bans: Seq<Map<(u64, Role), (BanReason, int)>>,
    e: Endpoint,
    reason: BanReason,
    now: int,
)
    requires
        e.role == Role::Primary,
        e.shard < bans.len(),
        no_primary_banned(bans),
    ensures
        spec_ban(bans, e, reason, now) == bans,
        !spec_is_banned(spec_ban(bans, e, reason, now), e),
{
    assert(key_of(e).1 == Role::Primary);
}

/// After banning a replica it is banned, and its record carries exactly
/// the given reason and timestamp.
pub proof fn lemma_ban_lookup(
    bans: Seq<Map<(u64, Role), (BanReason, int)>>,
    e: Endpoint,
    reason: BanReason,
    now: int,
)
    requires
        e.role == Role::Replica,
        e.shard < bans.len(),
    ensures
        spec_is_banned(spec_ban(bans, e, reason, now), e),
        spec_ban(bans, e, reason, now)[e.shard as int][key_of(e)] == (reason, now),
{
}

/// Banning the same endpoint twice leaves exactly the record of the
/// second ban, as if the first ban had never happened.
pub proof fn lemma_ban_last_write_wins(
    bans: Seq<Map<(u64, Role), (BanReason, int)>>,
    e: Endpoint,
    reason1: BanReason,
    time1: int,
    reason2: BanReason,
    time2: int,
)
    requires
        e.shard < bans.len(),
    ensures
        spec_ban(spec_ban(bans, e, reason1, time1), e, reason2, time2) == spec_ban(
            bans,
            e,
            reason2,
            time2,
        ),
{
    if e.role != Role::Primary {
        let s = e.shard as int;
        assert(spec_ban(spec_ban(bans, e, reason1, time1), e, reason2, time2)[s] =~= spec_ban(
            bans,
            e,
            reason2,
            time2,
        )[s]);
        assert(spec_ban(spec_ban(bans, e, reason1, time1), e, reason2, time2) =~= spec_ban(
            bans,
            e,
            reason2,
            time2,
        ));
    }
}

/// A second unban of the same endpoint changes nothing, and the
/// endpoint is unbanned after either.
pub proof fn lemma_unban_idempotent(bans: Seq<Map<(u64, Role), (BanReason, int)>>, e: Endpoint)
    requires
        e.shard < bans.len(),
    ensures
        spec_unban(spec_unban(bans, e), e) == spec_unban(bans, e),
        !spec_is_banned(spec_unban(bans, e), e),
{
    let s = e.shard as int;
    assert(spec_unban(spec_unban(bans, e), e)[s] =~= spec_unban(bans, e)[s]);
    assert(spec_unban(spec_unban(bans, e), e) =~= spec_unban(bans, e));
}

/// Clearing a shard unbans every endpoint of that shard at once.
pub proof fn lemma_unban_all_replicas_clears(
    bans: Seq<Map<(u64, Role), (BanReason, int)>>,
    e: Endpoint,
    other: Endpoint,
)
    requires
        e.shard < bans.len(),
        other.shard == e.shard,
    ensures
        !spec_is_banned(spec_unban_all_replicas(bans, e), other),
{
}

/// With failover disabled and as many bans in the shard as configured
/// replicas, the verdict for any replica of that shard is
/// `AllReplicasBanned`, regardless of elapsed time.
pub proof fn lemma_all_replicas_banned(
    bans: Seq<Map<(u64, Role), (BanReason, int)>>,
    ban_time: i64,
    pool: Seq<Seq<Endpoint>>,
    e: Endpoint,
    now: int,
)
    requires
        e.role == Role::Replica,
        e.shard < bans.len(),
        bans[e.shard as int].dom().len() == count_replicas(pool[e.shard as int]),
    ensures
        spec_should_unban(bans, false, ban_time, pool, e, now) == Some(
            UnbanReason::AllReplicasBanned,
        ),
{
}

/// A replica without a ban record gets `NotBanned`, provided the
/// whole-shard recovery rule does not fire first: with failover
/// disabled and the shard's ban count equal to its configured replica
/// count, `AllReplicasBanned` takes precedence even over an endpoint
/// that holds no record.
pub proof fn lemma_not_banned_verdict(
    bans: Seq<Map<(u64, Role), (BanReason, int)>>,
    failover_enabled: bool,
    ban_time: i64,
    pool: Seq<Seq<Endpoint>>,
    e: Endpoint,
    now: int,
)
    requires
        e.role == Role::Replica,
        e.shard < bans.len(),
        !spec_is_banned(bans, e),
        failover_enabled || bans[e.shard as int].dom().len() != count_replicas(
            pool[e.shard as int],
        ),
    ensures
        spec_should_unban(bans, failover_enabled, ban_time, pool, e, now) == Some(
            UnbanReason::NotBanned,
        ),
{
}

/// A banned replica's verdict is `BanTimeExceeded` exactly when the
/// elapsed seconds exceed its record's threshold — the carried duration
/// for an admin ban, the global default for every automatic reason —
/// provided the whole-shard recovery rule does not fire first.
pub proof fn lemma_ban_expiry(
    bans: Seq<Map<(u64, Role), (BanReason, int)>>,
    failover_enabled: bool,
    ban_time: i64,
    pool: Seq<Seq<Endpoint>>,
    e: Endpoint,
    now: int,
)
    requires
        e.role == Role::Replica,
        e.shard < bans.len(),
        spec_is_banned(bans, e),
        failover_enabled || bans[e.shard as int].dom().len() != count_replicas(
            pool[e.shard as int],
        ),
    ensures
        spec_should_unban(bans, failover_enabled, ban_time, pool, e, now) == (if now
            - bans[e.shard as int][key_of(e)].1 > ban_threshold(
            bans[e.shard as int][key_of(e)].0,
            ban_time,
        ) {
            Some(UnbanReason::BanTimeExceeded)
        } else {
            None
        }),
{
}

} // verus!

