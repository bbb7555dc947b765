//! The ban registry: a shard-partitioned table from endpoint identity to
//! a ban record, together with the decision logic that determines ban,
//! unban, and should-unban outcomes.
//!
//! Each shard's bans are held in a vector of entries with pairwise
//! distinct keys; the table's mathematical view is one `Map` per shard
//! from endpoint identity to `(reason, timestamp)`.

use vstd::prelude::*;

use crate::clock::utc_now_seconds;
use crate::endpoint::{Endpoint, Role, StatsSink};

verus! {

/// Why an endpoint was banned. All variants except `AdminBan` are
/// "automatic" and governed by the registry's global ban duration;
/// `AdminBan` carries its own expiry duration in seconds.
#[derive(Clone, Copy, Debug, PartialEq, Eq, Structural)]
pub enum BanReason {
    FailedHealthCheck,
    MessageSendFailed,
    MessageReceiveFailed,
    FailedCheckout,
    StatementTimeout,
    AdminBan(i64),
}

/// Why a banned endpoint should be returned to service. Produced only by
/// the decision function, never stored.
#[derive(Clone, Copy, Debug, PartialEq, Eq, Structural)]
pub enum UnbanReason {
    AllReplicasBanned,
    BanTimeExceeded,
    PrimaryBanned,
    NotBanned,
}

/// One row of the ban table: a banned endpoint with the reason and the
/// UTC timestamp (seconds) of the ban.
#[derive(Clone, Copy, Debug)]
pub struct BanEntry {
    pub endpoint: Endpoint,
    pub reason: BanReason,
    pub banned_at: i64,
}

/// Identity under which an endpoint is keyed in the ban table.
pub open spec fn key_of(e: Endpoint) -> (u64, Role) {
    (e.id, e.role)
}

/// Mathematical view of one shard's entries: the map from endpoint
/// identity to ban record, later entries winning over earlier ones.
pub open spec fn shard_map(entries: Seq<BanEntry>) -> Map<(u64, Role), (BanReason, int)>
    decreases entries.len(),
{
    if entries.len() == 0 {
        Map::empty()
    } else {
        shard_map(entries.drop_last()).insert(
            key_of(entries.last().endpoint),
            (entries.last().reason, entries.last().banned_at as int),
        )
    }
}

/// Well-formedness of one shard's entries: every stored endpoint is a
/// replica of this very shard, and keys are pairwise distinct.
pub open spec fn shard_wf(entries: Seq<BanEntry>, shard: int) -> bool {
    &&& forall|i: int|
        0 <= i < entries.len() ==> #[trigger] entries[i].endpoint.role == Role::Replica
            && entries[i].endpoint.shard == shard
    &&& forall|i: int, j: int|
        0 <= i < j < entries.len() ==> key_of(#[trigger] entries[i].endpoint)
            != key_of(#[trigger] entries[j].endpoint)
}

/// The ban registry. One table slot per shard of the topology; the two
/// policy settings are immutable after construction.
#[derive(Clone, Debug)]
pub struct BanService {
    /// Banned endpoints, one list per shard, keyed by endpoint identity.
    banlist: Vec<Vec<BanEntry>>,
    /// Whether traffic may fail over to the primary when replicas are
    /// unavailable.
    failover_to_primary: bool,
    /// Default ban duration in seconds for automatic ban reasons.
    ban_secs: i64,
}

impl BanService {
    /// Number of shards the table was sized for.
    pub closed spec fn num_shards(self) -> nat {
        self.banlist@.len()
    }

    /// Whether traffic may fail over to the primary when replicas are
    /// unavailable (immutable policy).
    pub closed spec fn spec_failover_enabled(&self) -> bool {
        self.failover_to_primary
    }

    /// Default ban duration in seconds for automatic ban reasons
    /// (immutable policy).
    pub closed spec fn spec_ban_time(&self) -> i64 {
        self.ban_secs
    }

    /// Number of shards the table was sized for, as constructed.
    pub fn shard_count(&self) -> (r: usize)
        ensures
            r == self.num_shards(),
    {
        self.banlist.len()
    }

    /// Read-only policy accessor: replica-to-primary failover.
    #[verifier::when_used_as_spec(spec_failover_enabled)]
    pub fn replica_to_primary_failover_enabled(&self) -> (r: bool)
        ensures
            r == self.spec_failover_enabled(),
    {
        self.failover_to_primary
    }

    /// Read-only policy accessor: the default ban duration in seconds.
    #[verifier::when_used_as_spec(spec_ban_time)]
    pub fn ban_time(&self) -> (r: i64)
        ensures
            r == self.spec_ban_time(),
    {
        self.ban_secs
    }

    /// Mathematical view of the table: per shard, the map from endpoint
    /// identity to `(reason, timestamp)`.
    pub closed spec fn bans(self) -> Seq<Map<(u64, Role), (BanReason, int)>> {
        self.banlist@.map_values(|entries: Vec<BanEntry>| shard_map(entries@))
    }

    /// Internal invariant: every shard's entry list is well formed.
    pub closed spec fn wf(self) -> bool {
        forall|s: int| 0 <= s < self.banlist@.len() ==> shard_wf(#[trigger] self.banlist@[s]@, s)
    }

    /// Creates a registry with one empty slot per shard of the topology
    /// and the two policy settings.
    pub fn new(replica_to_primary_failover_enabled: bool, ban_time: i64, num_shards: usize) -> (r:
        Self)
        ensures
            r.wf(),
            r.num_shards() == num_shards,
            forall|s: int| 0 <= s < num_shards ==> #[trigger] r.bans()[s] === Map::empty(),
            r.spec_failover_enabled() == replica_to_primary_failover_enabled,
            r.spec_ban_time() == ban_time,
    {
        let mut banlist: Vec<Vec<BanEntry>> = Vec::new();
        let mut s: usize = 0;
        while s < num_shards
            invariant
                s <= num_shards,
                banlist@.len() == s,
                forall|i: int| 0 <= i < s ==> #[trigger] banlist@[i]@.len() == 0,
            decreases num_shards - s,
        {
            banlist.push(Vec::new());
            s += 1;
        }
        BanService { banlist, failover_to_primary: replica_to_primary_failover_enabled, ban_secs: ban_time }
    }

    /// True iff an entry exists for the endpoint in its shard's mapping.
    /// In a well-formed table a primary endpoint is never banned.
    pub fn is_banned(&self, endpoint: &Endpoint) -> (r: bool)
        requires
            self.wf(),
            endpoint.shard < self.num_shards(),
        ensures
            r == spec_is_banned(self.bans(), *endpoint),
            endpoint.role == Role::Primary ==> !r,
    {
        let entries = &self.banlist[endpoint.shard];
        proof {
            assert(self.bans()[endpoint.shard as int] == shard_map(entries@));
            lemma_shard_map_contains(entries@);
        }
        match find_entry(entries, endpoint) {
            Some(i) => {
                proof {
                    assert(key_of(entries@[i as int].endpoint) == key_of(*endpoint));
                    assert(shard_map(entries@).contains_key(key_of(*endpoint)));
                }
                true
            },
            None => {
                proof {
                    assert(!shard_map(entries@).contains_key(key_of(*endpoint)));
                }
                false
            },
        }
    }

    /// Inserts or overwrites the ban record of a replica endpoint in its
    /// shard's mapping; shared tail of the `ban` operations.
    fn insert_ban(&mut self, endpoint: &Endpoint, reason: BanReason, now: i64)
        requires
            old(self).wf(),
            endpoint.shard < old(self).num_shards(),
            endpoint.role == Role::Replica,
        ensures
            final(self).wf(),
            final(self).num_shards() == old(self).num_shards(),
            final(self).spec_failover_enabled() == old(self).spec_failover_enabled(),
            final(self).spec_ban_time() == old(self).spec_ban_time(),
            final(self).bans() == spec_ban(old(self).bans(), *endpoint, reason, now as int),
    {
        let ghost old_bans = self.bans();
        let shard = endpoint.shard;
        let ghost k = key_of(*endpoint);
        proof {
            assert(shard_wf(self.banlist@[shard as int]@, shard as int));
            assert(old_bans[shard as int] == shard_map(self.banlist@[shard as int]@));
        }
        let entries = &mut self.banlist[shard];
        let ghost old_entries = entries@;
        match find_entry(entries, endpoint) {
            Some(i) => {
                entries.remove(i);
                proof {
                    lemma_shard_map_remove_at(old_entries, i as int);
                    lemma_shard_wf_remove(old_entries, shard as int, i as int);
                    assert forall|j: int| 0 <= j < entries@.len() implies key_of(
                        #[trigger] entries@[j].endpoint,
                    ) != k by {
                        if j < i as int {
                            assert(entries@[j] == old_entries[j]);
                            assert(key_of(old_entries[j].endpoint) != key_of(
                                old_entries[i as int].endpoint,
                            ));
                        } else {
                            assert(entries@[j] == old_entries[j + 1]);
                            assert(key_of(old_entries[i as int].endpoint) != key_of(
                                old_entries[j + 1].endpoint,
                            ));
                        }
                    }
                }
            },
            None => {},
        }
        let ghost mid_entries = entries@;
        let new_entry = BanEntry { endpoint: *endpoint, reason, banned_at: now };
        entries.push(new_entry);
        proof {
            lemma_shard_map_push(mid_entries, new_entry);
            lemma_shard_wf_push(mid_entries, new_entry, shard as int);
            assert(shard_map(mid_entries).insert(k, (reason, now as int)) =~= shard_map(
                old_entries,
            ).insert(k, (reason, now as int)));
            assert forall|s: int| 0 <= s < self.banlist@.len() implies shard_wf(
                #[trigger] self.banlist@[s]@,
                s,
            ) by {
                if s != shard as int {
                    assert(self.banlist@[s] == old(self).banlist@[s]);
                    assert(shard_wf(old(self).banlist@[s]@, s));
                }
            }
            assert(self.bans() =~= spec_ban(old_bans, *endpoint, reason, now as int));
        }
    }

    /// Bans the endpoint at the given UTC timestamp (seconds). The
    /// endpoint's error counter is incremented for the automatic failure
    /// reasons, a primary endpoint is never banned (the table is left
    /// unchanged), and otherwise the endpoint's ban record is inserted
    /// into its shard's mapping, overwriting any earlier record.
    pub fn ban_at(&mut self, endpoint: &mut Endpoint, reason: BanReason, now: i64)
        requires
            old(self).wf(),
            old(endpoint).shard < old(self).num_shards(),
            counts_checkout_error(reason) ==> old(endpoint).error_count < u64::MAX,
        ensures
            final(self).wf(),
            final(self).num_shards() == old(self).num_shards(),
            final(self).spec_failover_enabled() == old(self).spec_failover_enabled(),
            final(self).spec_ban_time() == old(self).spec_ban_time(),
            final(self).bans() == spec_ban(old(self).bans(), *old(endpoint), reason, now as int),
            *final(endpoint) == spec_after_error_count(*old(endpoint), reason),
    {
        match reason {
            BanReason::FailedHealthCheck
            | BanReason::FailedCheckout
            | BanReason::MessageSendFailed
            | BanReason::MessageReceiveFailed => {
                endpoint.error_count = endpoint.error_count + 1;
            },
            _ => {},
        }
        if endpoint.role == Role::Primary {
            return ;
        }
        self.insert_ban(endpoint, reason, now);
    }

    /// Bans the endpoint at the current wall-clock time. The table
    /// changes exactly as `ban_at` describes for some timestamp; a
    /// primary endpoint is never banned, and a replica is banned
    /// afterwards whatever the clock returned.
    pub fn ban(&mut self, endpoint: &mut Endpoint, reason: BanReason)
        requires
            old(self).wf(),
            old(endpoint).shard < old(self).num_shards(),
            counts_checkout_error(reason) ==> old(endpoint).error_count < u64::MAX,
        ensures
            final(self).wf(),
            final(self).num_shards() == old(self).num_shards(),
            final(self).spec_failover_enabled() == old(self).spec_failover_enabled(),
            final(self).spec_ban_time() == old(self).spec_ban_time(),
            *final(endpoint) == spec_after_error_count(*old(endpoint), reason),
            exists|now: int|
                final(self).bans() == spec_ban(old(self).bans(), *old(endpoint), reason, now),
            old(endpoint).role == Role::Primary ==> final(self).bans() == old(self).bans(),
            old(endpoint).role != Role::Primary ==> spec_is_banned(
                final(self).bans(),
                *old(endpoint),
            ),
    {
        let now = utc_now_seconds();
        self.ban_at(endpoint, reason, now);
        proof {
            assert(self.bans() == spec_ban(old(self).bans(), *old(endpoint), reason, now as int));
        }
    }

    /// Bans the endpoint at the given timestamp on behalf of a client:
    /// before the record is inserted, the ban-caused error is recorded
    /// with the client's stats sink and the endpoint's own statistics.
    /// A primary endpoint is neither banned nor reported.
    pub fn ban_with_stats_at(
        &mut self,
        endpoint: &mut Endpoint,
        reason: BanReason,
        sink: &mut StatsSink,
        now: i64,
    )
        requires
            old(self).wf(),
            old(endpoint).shard < old(self).num_shards(),
            counts_checkout_error(reason) ==> old(endpoint).error_count < u64::MAX,
            old(endpoint).role != Role::Primary ==> old(endpoint).stat_error_count < u64::MAX,
            old(endpoint).role != Role::Primary ==> old(sink).ban_errors < u64::MAX,
        ensures
            final(self).wf(),
            final(self).num_shards() == old(self).num_shards(),
            final(self).spec_failover_enabled() == old(self).spec_failover_enabled(),
            final(self).spec_ban_time() == old(self).spec_ban_time(),
            final(self).bans() == spec_ban(old(self).bans(), *old(endpoint), reason, now as int),
            old(endpoint).role == Role::Primary ==> *final(endpoint) == spec_after_error_count(
                *old(endpoint),
                reason,
            ) && *final(sink) == *old(sink),
            old(endpoint).role != Role::Primary ==> *final(endpoint) == spec_notify_stats(
                spec_after_error_count(*old(endpoint), reason),
            ) && final(sink).ban_errors == old(sink).ban_errors + 1,
    {
        match reason {
            BanReason::FailedHealthCheck
            | BanReason::FailedCheckout
            | BanReason::MessageSendFailed
            | BanReason::MessageReceiveFailed => {
                endpoint.error_count = endpoint.error_count + 1;
            },
            _ => {},
        }
        if endpoint.role == Role::Primary {
            return ;
        }
        sink.ban_errors = sink.ban_errors + 1;
        endpoint.stat_error_count = endpoint.stat_error_count + 1;
        self.insert_ban(endpoint, reason, now);
    }

    /// Bans the endpoint at the current wall-clock time on behalf of a
    /// client, recording the ban-caused error with the client's stats
    /// sink as `ban_with_stats_at` describes.
    pub fn ban_with_stats(&mut self, endpoint: &mut Endpoint, reason: BanReason, sink: &mut StatsSink)
        requires
            old(self).wf(),
            old(endpoint).shard < old(self).num_shards(),
            counts_checkout_error(reason) ==> old(endpoint).error_count < u64::MAX,
            old(endpoint).role != Role::Primary ==> old(endpoint).stat_error_count < u64::MAX,
            old(endpoint).role != Role::Primary ==> old(sink).ban_errors < u64::MAX,
        ensures
            final(self).wf(),
            final(self).num_shards() == old(self).num_shards(),
            final(self).spec_failover_enabled() == old(self).spec_failover_enabled(),
            final(self).spec_ban_time() == old(self).spec_ban_time(),
            exists|now: int|
                final(self).bans() == spec_ban(old(self).bans(), *old(endpoint), reason, now),
            old(endpoint).role == Role::Primary ==> final(self).bans() == old(self).bans()
                && *final(endpoint) == spec_after_error_count(*old(endpoint), reason)
                && *final(sink) == *old(sink),
            old(endpoint).role != Role::Primary ==> spec_is_banned(
                final(self).bans(),
                *old(endpoint),
            ) && *final(endpoint) == spec_notify_stats(
                spec_after_error_count(*old(endpoint), reason),
            ) && final(sink).ban_errors == old(sink).ban_errors + 1,
    {
        let now = utc_now_seconds();
        self.ban_with_stats_at(endpoint, reason, sink, now);
        proof {
            assert(self.bans() == spec_ban(old(self).bans(), *old(endpoint), reason, now as int));
        }
    }

    /// Unconditionally removes the endpoint's entry from its shard's
    /// mapping; a silent, idempotent no-op if it was absent.
    pub fn unban(&mut self, endpoint: &Endpoint)
        requires
            old(self).wf(),
            endpoint.shard < old(self).num_shards(),
        ensures
            final(self).wf(),
            final(self).num_shards() == old(self).num_shards(),
            final(self).spec_failover_enabled() == old(self).spec_failover_enabled(),
            final(self).spec_ban_time() == old(self).spec_ban_time(),
            final(self).bans() == spec_unban(old(self).bans(), *endpoint),
    {
        let ghost old_bans = self.bans();
        let shard = endpoint.shard;
        proof {
            assert(shard_wf(self.banlist@[shard as int]@, shard as int));
            assert(old_bans[shard as int] == shard_map(self.banlist@[shard as int]@));
        }
        let entries = &mut self.banlist[shard];
        let ghost old_entries = entries@;
        match find_entry(entries, endpoint) {
            Some(i) => {
                entries.remove(i);
                proof {
                    lemma_shard_map_remove_at(old_entries, i as int);
                    lemma_shard_wf_remove(old_entries, shard as int, i as int);
                }
            },
            None => {
                proof {
                    lemma_shard_map_contains(old_entries);
                    assert(shard_map(old_entries).remove(key_of(*endpoint)) =~= shard_map(
                        old_entries,
                    ));
                }
            },
        }
        proof {
            assert forall|s: int| 0 <= s < self.banlist@.len() implies shard_wf(
                #[trigger] self.banlist@[s]@,
                s,
            ) by {
                if s != shard as int {
                    assert(self.banlist@[s] == old(self).banlist@[s]);
                    assert(shard_wf(old(self).banlist@[s]@, s));
                }
            }
            assert(self.bans() =~= spec_unban(old_bans, *endpoint));
        }
    }

    /// Clears every entry in the mapping of the endpoint's shard: a
    /// bulk-recovery action after all of a shard's replicas were banned.
    pub fn unban_all_replicas(&mut self, endpoint: &Endpoint)
        requires
            old(self).wf(),
            endpoint.shard < old(self).num_shards(),
        ensures
            final(self).wf(),
            final(self).num_shards() == old(self).num_shards(),
            final(self).spec_failover_enabled() == old(self).spec_failover_enabled(),
            final(self).spec_ban_time() == old(self).spec_ban_time(),
            final(self).bans() == spec_unban_all_replicas(old(self).bans(), *endpoint),
    {
        let ghost old_bans = self.bans();
        let shard = endpoint.shard;
        let entries = &mut self.banlist[shard];
        entries.clear();
        proof {
            assert forall|s: int| 0 <= s < self.banlist@.len() implies shard_wf(
                #[trigger] self.banlist@[s]@,
                s,
            ) by {
                if s != shard as int {
                    assert(self.banlist@[s] == old(self).banlist@[s]);
                    assert(shard_wf(old(self).banlist@[s]@, s));
                }
            }
            assert(self.bans() =~= spec_unban_all_replicas(old_bans, *endpoint));
        }
    }
}

impl BanService {
    /// Snapshot of all ban records across all shards, for reporting: one
    /// element per current record, each being a banned endpoint with its
    /// reason and timestamp. No ordering is promised.
    #[verifier::rlimit(30)]
    pub fn get_bans(&self) -> (r: Vec<(Endpoint, (BanReason, i64))>)
        requires
            self.wf(),
        ensures
            forall|i: int|
                0 <= i < r@.len() ==> {
                    &&& (#[trigger] r@[i]).0.shard < self.num_shards()
                    &&& self.bans()[r@[i].0.shard as int].contains_key(key_of(r@[i].0))
                    &&& self.bans()[r@[i].0.shard as int][key_of(r@[i].0)] == (
                        r@[i].1.0,
                        r@[i].1.1 as int,
                    )
                },
            forall|s: int, k: (u64, Role)|
                0 <= s < self.num_shards() && #[trigger] self.bans()[s].contains_key(k)
                    ==> exists|i: int|
                    0 <= i < r@.len() && (#[trigger] r@[i]).0.shard == s && key_of(r@[i].0) == k,
            forall|i: int, j: int|
                0 <= i < j < r@.len() ==> !((#[trigger] r@[i]).0.shard == (
                #[trigger] r@[j]).0.shard && key_of(r@[i].0) == key_of(r@[j].0)),
    {
        let mut bans: Vec<(Endpoint, (BanReason, i64))> = Vec::new();
        let num = self.banlist.len();
        let mut s: usize = 0;
        while s < num
            invariant
                s <= num,
                num == self.banlist@.len(),
                self.wf(),
                forall|i: int|
                    0 <= i < bans@.len() ==> {
                        &&& (#[trigger] bans@[i]).0.shard < s
                        &&& self.bans()[bans@[i].0.shard as int].contains_key(key_of(bans@[i].0))
                        &&& self.bans()[bans@[i].0.shard as int][key_of(bans@[i].0)] == (
                            bans@[i].1.0,
                            bans@[i].1.1 as int,
                        )
                    },
                forall|s2: int, k: (u64, Role)|
                    0 <= s2 < s && #[trigger] self.bans()[s2].contains_key(k) ==> exists|i: int|
                        0 <= i < bans@.len() && (#[trigger] bans@[i]).0.shard == s2 && key_of(
                            bans@[i].0,
                        ) == k,
                forall|i: int, j: int|
                    0 <= i < j < bans@.len() ==> !((#[trigger] bans@[i]).0.shard == (
                    #[trigger] bans@[j]).0.shard && key_of(bans@[i].0) == key_of(bans@[j].0)),
            decreases num - s,
        {
            let entries = &self.banlist[s];
            let ghost prev = bans@;
            push_shard_rows(&mut bans, entries);
            proof {
                assert(shard_wf(entries@, s as int));
                assert(self.bans()[s as int] == shard_map(entries@));
                lemma_shard_map_contains(entries@);
                assert forall|i: int| 0 <= i < bans@.len() implies {
                    &&& (#[trigger] bans@[i]).0.shard < s + 1
                    &&& self.bans()[bans@[i].0.shard as int].contains_key(key_of(bans@[i].0))
                    &&& self.bans()[bans@[i].0.shard as int][key_of(bans@[i].0)] == (
                        bans@[i].1.0,
                        bans@[i].1.1 as int,
                    )
                } by {
                    if i < prev.len() {
                        assert(bans@[i] == prev[i]);
                    } else {
                        let t = i - prev.len();
                        assert(bans@[prev.len() + t] == (
                            entries@[t].endpoint,
                            (entries@[t].reason, entries@[t].banned_at),
                        ));
                        assert(bans@[i] == (
                            entries@[t].endpoint,
                            (entries@[t].reason, entries@[t].banned_at),
                        ));
                        assert(key_of(entries@[t].endpoint) == key_of(bans@[i].0));
                        assert(shard_map(entries@).contains_key(key_of(entries@[t].endpoint)));
                        assert(shard_map(entries@)[key_of(entries@[t].endpoint)] == (
                            entries@[t].reason,
                            entries@[t].banned_at as int,
                        ));
                    }
                }
                assert forall|s2: int, k: (u64, Role)|
                    0 <= s2 < s + 1 && #[trigger] self.bans()[s2].contains_key(k) implies exists|
                    i: int,
                |
                    0 <= i < bans@.len() && (#[trigger] bans@[i]).0.shard == s2 && key_of(
                        bans@[i].0,
                    ) == k by {
                    if s2 < s {
                        let i0 = choose|i: int|
                            0 <= i < prev.len() && (#[trigger] prev[i]).0.shard == s2 && key_of(
                                prev[i].0,
                            ) == k;
                        assert(bans@[i0] == prev[i0]);
                    } else {
                        let t = choose|t: int|
                            0 <= t < entries@.len() && key_of(#[trigger] entries@[t].endpoint) == k;
                        let i0 = prev.len() + t;
                        assert(bans@[i0] == (
                            entries@[t].endpoint,
                            (entries@[t].reason, entries@[t].banned_at),
                        ));
                        assert(bans@[i0].0.shard == s2 && key_of(bans@[i0].0) == k);
                    }
                }
                assert forall|i: int, j: int| 0 <= i < j < bans@.len() implies !((
                #[trigger] bans@[i]).0.shard == (#[trigger] bans@[j]).0.shard && key_of(bans@[i].0)
                    == key_of(bans@[j].0)) by {
                    if i < prev.len() && j < prev.len() {
                        assert(bans@[i] == prev[i]);
                        assert(bans@[j] == prev[j]);
                    } else if i < prev.len() {
                        let tj = j - prev.len();
                        assert(bans@[prev.len() + tj] == (
                            entries@[tj].endpoint,
                            (entries@[tj].reason, entries@[tj].banned_at),
                        ));
                        assert(bans@[i] == prev[i]);
                        assert(bans@[i].0.shard < s);
                        assert(bans@[j].0.shard == s);
                    } else {
                        let ti = i - prev.len();
                        let tj = j - prev.len();
                        assert(bans@[prev.len() + ti] == (
                            entries@[ti].endpoint,
                            (entries@[ti].reason, entries@[ti].banned_at),
                        ));
                        assert(bans@[prev.len() + tj] == (
                            entries@[tj].endpoint,
                            (entries@[tj].reason, entries@[tj].banned_at),
                        ));
                        assert(bans@[i].0 == entries@[ti].endpoint);
                        assert(bans@[j].0 == entries@[tj].endpoint);
                        assert(key_of(entries@[ti].endpoint) != key_of(entries@[tj].endpoint));
                    }
                }
            }
            s += 1;
        }
        bans
    }

    /// Decision function, evaluated at the given UTC timestamp: whether
    /// the endpoint should be unbanned, and why. `pool_endpoints` is the
    /// topology's per-shard list of configured endpoints; it must be
    /// sized to the same shard count as the table.
    pub fn should_unban_at(
        &self,
        pool_endpoints: &Vec<Vec<Endpoint>>,
        endpoint: &Endpoint,
        now: i64,
    ) -> (r: Option<UnbanReason>)
        requires
            self.wf(),
            endpoint.shard < self.num_shards(),
            pool_endpoints@.len() == self.num_shards(),
        ensures
            r == spec_should_unban(
                self.bans(),
                self.spec_failover_enabled(),
                self.spec_ban_time(),
                pool_view(*pool_endpoints),
                *endpoint,
                now as int,
            ),
    {
        if endpoint.role == Role::Primary {
            return Some(UnbanReason::PrimaryBanned);
        }
        if !self.replica_to_primary_failover_enabled() {
            let shard_endpoints = &pool_endpoints[endpoint.shard];
            let n = shard_endpoints.len();
            let mut replicas_available: usize = 0;
            let mut i: usize = 0;
            while i < n
                invariant
                    i <= n,
                    n == shard_endpoints@.len(),
                    replicas_available <= i,
                    replicas_available == count_replicas(shard_endpoints@.take(i as int)),
                decreases n - i,
            {
                let is_replica = shard_endpoints[i].role == Role::Replica;
                proof {
                    assert(shard_endpoints@.take(i + 1 as int).drop_last() =~= shard_endpoints@.take(
                        i as int,
                    ));
                    assert(shard_endpoints@.take(i + 1 as int).last() == shard_endpoints@[i as int]);
                }
                if is_replica {
                    replicas_available += 1;
                }
                i += 1;
            }
            proof {
                assert(shard_endpoints@.take(n as int) =~= shard_endpoints@);
                assert(pool_view(*pool_endpoints)[endpoint.shard as int] == shard_endpoints@);
            }
            let entries = &self.banlist[endpoint.shard];
            let banned_count = entries.len();
            proof {
                assert(shard_wf(entries@, endpoint.shard as int));
                lemma_shard_map_len(entries@);
                assert(self.bans()[endpoint.shard as int] == shard_map(entries@));
            }
            if banned_count == replicas_available {
                return Some(UnbanReason::AllReplicasBanned);
            }
        }
        let entries = &self.banlist[endpoint.shard];
        proof {
            assert(self.bans()[endpoint.shard as int] == shard_map(entries@));
            assert(shard_wf(entries@, endpoint.shard as int));
            lemma_shard_map_contains(entries@);
        }
        match find_entry(entries, endpoint) {
            Some(i) => {
                let entry = &entries[i];
                proof {
                    assert(key_of(entries@[i as int].endpoint) == key_of(*endpoint));
                    assert(shard_map(entries@).contains_key(key_of(*endpoint)));
                    assert(shard_map(entries@)[key_of(entries@[i as int].endpoint)] == (
                        entries@[i as int].reason,
                        entries@[i as int].banned_at as int,
                    ));
                }
                let threshold: i64 = match entry.reason {
                    BanReason::AdminBan(duration) => duration,
                    _ => self.ban_time(),
                };
                if (now as i128) - (entry.banned_at as i128) > (threshold as i128) {
                    Some(UnbanReason::BanTimeExceeded)
                } else {
                    None
                }
            },
            None => {
                proof {
                    assert(!shard_map(entries@).contains_key(key_of(*endpoint)));
                }
                Some(UnbanReason::NotBanned)
            },
        }
    }

    /// Decision function at the current wall-clock time. The verdicts
    /// that do not depend on the clock are promised outright; the expiry
    /// verdict holds for whatever timestamp the clock returned.
    pub fn should_unban(&self, pool_endpoints: &Vec<Vec<Endpoint>>, endpoint: &Endpoint) -> (r:
        Option<UnbanReason>)
        requires
            self.wf(),
            endpoint.shard < self.num_shards(),
            pool_endpoints@.len() == self.num_shards(),
        ensures
            exists|now: int|
                r == spec_should_unban(
                    self.bans(),
                    self.spec_failover_enabled(),
                    self.spec_ban_time(),
                    pool_view(*pool_endpoints),
                    *endpoint,
                    now,
                ),
            endpoint.role == Role::Primary ==> r == Some(UnbanReason::PrimaryBanned),
            endpoint.role != Role::Primary && !self.spec_failover_enabled() && self.bans()[endpoint.shard as int].dom().len() == count_replicas(
                pool_view(*pool_endpoints)[endpoint.shard as int],
            ) ==> r == Some(UnbanReason::AllReplicasBanned),
            endpoint.role != Role::Primary && (self.spec_failover_enabled() || self.bans()[endpoint.shard as int].dom().len() != count_replicas(
                pool_view(*pool_endpoints)[endpoint.shard as int],
            )) && !spec_is_banned(self.bans(), *endpoint) ==> r == Some(UnbanReason::NotBanned),
            endpoint.role != Role::Primary && (self.spec_failover_enabled() || self.bans()[endpoint.shard as int].dom().len() != count_replicas(
                pool_view(*pool_endpoints)[endpoint.shard as int],
            )) && spec_is_banned(self.bans(), *endpoint) ==> (r == Some(
                UnbanReason::BanTimeExceeded,
            ) || r is None),
    {
        let now = utc_now_seconds();
        let r = self.should_unban_at(pool_endpoints, endpoint, now);
        proof {
            assert(r == spec_should_unban(
                self.bans(),
                self.spec_failover_enabled(),
                self.spec_ban_time(),
                pool_view(*pool_endpoints),
                *endpoint,
                now as int,
            ));
        }
        r
    }
}

impl BanService {
    /// The view has exactly one map per shard.
    pub proof fn lemma_bans_len(self)
        ensures
            self.bans().len() == self.num_shards(),
    {
    }

    /// In a well-formed registry no primary endpoint is ever banned.
    pub proof fn lemma_wf_no_primary(self)
        requires
            self.wf(),
        ensures
            no_primary_banned(self.bans()),
    {
        assert forall|s: int, k: (u64, Role)|
            0 <= s < self.bans().len() && #[trigger] self.bans()[s].contains_key(k) implies k.1
            == Role::Replica by {
            lemma_shard_map_contains(self.banlist@[s]@);
            assert(self.bans()[s] == shard_map(self.banlist@[s]@));
            let j = choose|j: int|
                0 <= j < self.banlist@[s]@.len() && key_of(
                    #[trigger] self.banlist@[s]@[j].endpoint,
                ) == k;
            assert(shard_wf(self.banlist@[s]@, s));
            assert(self.banlist@[s]@[j].endpoint.role == Role::Replica);
        }
    }
}

/// Appends one snapshot row per entry of a shard, in table order.
fn push_shard_rows(out: &mut Vec<(Endpoint, (BanReason, i64))>, entries: &Vec<BanEntry>)
    ensures
        final(out)@.len() == old(out)@.len() + entries@.len(),
        forall|i: int| 0 <= i < old(out)@.len() ==> #[trigger] final(out)@[i] == old(out)@[i],
        forall|t: int|
            0 <= t < entries@.len() ==> #[trigger] final(out)@[old(out)@.len() + t] == (
                entries@[t].endpoint,
                (entries@[t].reason, entries@[t].banned_at),
            ),
{
    let n = entries.len();
    let mut j: usize = 0;
    while j < n
        invariant
            j <= n,
            n == entries@.len(),
            out@.len() == old(out)@.len() + j,
            forall|i: int| 0 <= i < old(out)@.len() ==> #[trigger] out@[i] == old(out)@[i],
            forall|t: int|
                0 <= t < j ==> #[trigger] out@[old(out)@.len() + t] == (
                    entries@[t].endpoint,
                    (entries@[t].reason, entries@[t].banned_at),
                ),
        decreases n - j,
    {
        let entry = &entries[j];
        out.push((entry.endpoint, (entry.reason, entry.banned_at)));
        j += 1;
    }
}

/// Index of the entry keyed by the given endpoint's identity, if any.
fn find_entry(entries: &Vec<BanEntry>, endpoint: &Endpoint) -> (r: Option<usize>)
    ensures
        match r {
            Some(i) => i < entries@.len() && key_of(entries@[i as int].endpoint) == key_of(
                *endpoint,
            ),
            None => forall|j: int|
                0 <= j < entries@.len() ==> key_of(#[trigger] entries@[j].endpoint) != key_of(
                    *endpoint,
                ),
        },
{
    let n = entries.len();
    let mut i: usize = 0;
    while i < n
        invariant
            i <= n,
            n == entries@.len(),
            forall|j: int|
                0 <= j < i ==> key_of(#[trigger] entries@[j].endpoint) != key_of(*endpoint),
        decreases n - i,
    {
        let entry = &entries[i];
        if entry.endpoint.id == endpoint.id && entry.endpoint.role == endpoint.role {
            return Some(i);
        }
        i += 1;
    }
    None
}

/// Whether the given endpoint is banned in the given table.
pub open spec fn spec_is_banned(
    bans: Seq<Map<(u64, Role), (BanReason, int)>>,
    e: Endpoint,
) -> bool {
    bans[e.shard as int].contains_key(key_of(e))
}

/// Effect of `ban` on the table: a primary endpoint is never banned;
/// otherwise the endpoint's record is inserted into its shard's map,
/// overwriting any earlier record (last write wins).
pub open spec fn spec_ban(
    bans: Seq<Map<(u64, Role), (BanReason, int)>>,
    e: Endpoint,
    reason: BanReason,
    now: int,
) -> Seq<Map<(u64, Role), (BanReason, int)>> {
    if e.role == Role::Primary {
        bans
    } else {
        bans.update(e.shard as int, bans[e.shard as int].insert(key_of(e), (reason, now)))
    }
}

/// No primary endpoint holds a record anywhere in the table. Every
/// well-formed registry's view satisfies this; see
/// `BanService::lemma_wf_no_primary`.
pub open spec fn no_primary_banned(bans: Seq<Map<(u64, Role), (BanReason, int)>>) -> bool {
    forall|s: int, k: (u64, Role)|
        0 <= s < bans.len() && #[trigger] bans[s].contains_key(k) ==> k.1 == Role::Replica
}

/// The "automatic failure" reasons whose arrival increments the
/// endpoint's error counter; `StatementTimeout` and `AdminBan` do not.
pub open spec fn counts_checkout_error(reason: BanReason) -> bool {
    match reason {
        BanReason::FailedHealthCheck => true,
        BanReason::FailedCheckout => true,
        BanReason::MessageSendFailed => true,
        BanReason::MessageReceiveFailed => true,
        BanReason::StatementTimeout => false,
        BanReason::AdminBan(_) => false,
    }
}

/// Endpoint as `ban` leaves its counters: the error counter is
/// incremented exactly for the automatic failure reasons.
pub open spec fn spec_after_error_count(e: Endpoint, reason: BanReason) -> Endpoint {
    if counts_checkout_error(reason) {
        Endpoint { error_count: (e.error_count + 1) as u64, ..e }
    } else {
        e
    }
}

/// Endpoint as a stats notification leaves it: one more error recorded
/// against the endpoint's own statistics.
pub open spec fn spec_notify_stats(e: Endpoint) -> Endpoint {
    Endpoint { stat_error_count: (e.stat_error_count + 1) as u64, ..e }
}

/// Effect of `unban` on the table: the endpoint's record is removed from
/// its shard's map; a no-op if it was absent.
pub open spec fn spec_unban(
    bans: Seq<Map<(u64, Role), (BanReason, int)>>,
    e: Endpoint,
) -> Seq<Map<(u64, Role), (BanReason, int)>> {
    bans.update(e.shard as int, bans[e.shard as int].remove(key_of(e)))
}

/// Effect of `unban_all_replicas` on the table: the whole mapping of the
/// endpoint's shard is cleared.
pub open spec fn spec_unban_all_replicas(
    bans: Seq<Map<(u64, Role), (BanReason, int)>>,
    e: Endpoint,
) -> Seq<Map<(u64, Role), (BanReason, int)>> {
    bans.update(e.shard as int, Map::empty())
}

/// Number of replica-role endpoints among a shard's configured endpoints.
pub open spec fn count_replicas(endpoints: Seq<Endpoint>) -> nat
    decreases endpoints.len(),
{
    if endpoints.len() == 0 {
        0
    } else {
        count_replicas(endpoints.drop_last()) + if endpoints.last().role == Role::Replica {
            1nat
        } else {
            0nat
        }
    }
}

/// Seconds a ban of this reason may last before it is lifted: `AdminBan`
/// carries its own duration, every other reason is governed by the
/// global default.
pub open spec fn ban_threshold(reason: BanReason, ban_time: i64) -> int {
    match reason {
        BanReason::AdminBan(duration) => duration as int,
        _ => ban_time as int,
    }
}

/// View of the topology handed to the decision function: per shard, the
/// configured endpoints.
pub open spec fn pool_view(pool: Vec<Vec<Endpoint>>) -> Seq<Seq<Endpoint>> {
    pool@.map_values(|shard_endpoints: Vec<Endpoint>| shard_endpoints@)
}

/// The should-unban verdict, evaluated in order: a banned primary is a
/// should-never-happen state; with failover disabled, a shard whose ban
/// count equals its configured replica count is recovered wholesale; an
/// endpoint without a record was already unbanned; otherwise the record
/// expires once the elapsed seconds exceed its threshold.
pub open spec fn spec_should_unban(
    bans: Seq<Map<(u64, Role), (BanReason, int)>>,
    failover_enabled: bool,
    ban_time: i64,
    pool: Seq<Seq<Endpoint>>,
    e: Endpoint,
    now: int,
) -> Option<UnbanReason> {
    if e.role == Role::Primary {
        Some(UnbanReason::PrimaryBanned)
    } else if !failover_enabled && bans[e.shard as int].dom().len() == count_replicas(
        pool[e.shard as int],
    ) {
        Some(UnbanReason::AllReplicasBanned)
    } else if !bans[e.shard as int].contains_key(key_of(e)) {
        Some(UnbanReason::NotBanned)
    } else if now - bans[e.shard as int][key_of(e)].1 > ban_threshold(
        bans[e.shard as int][key_of(e)].0,
        ban_time,
    ) {
        Some(UnbanReason::BanTimeExceeded)
    } else {
        None
    }
}

/// A key is in a shard's map view exactly when some entry carries it, and
/// under distinct keys each entry's key maps to that entry's record.
pub proof fn lemma_shard_map_contains(entries: Seq<BanEntry>)
    ensures
        forall|k: (u64, Role)|
            #[trigger] shard_map(entries).contains_key(k) <==> exists|j: int|
                0 <= j < entries.len() && key_of(#[trigger] entries[j].endpoint) == k,
        (forall|i: int, j: int|
            0 <= i < j < entries.len() ==> key_of(#[trigger] entries[i].endpoint) != key_of(
                #[trigger] entries[j].endpoint,
            )) ==> forall|i: int|
            0 <= i < entries.len() ==> shard_map(entries)[key_of(#[trigger] entries[i].endpoint)]
                == (entries[i].reason, entries[i].banned_at as int),
    decreases entries.len(),
{
    if entries.len() > 0 {
        let prefix = entries.drop_last();
        let last = entries.last();
        lemma_shard_map_contains(prefix);
        assert forall|k: (u64, Role)| #[trigger] shard_map(entries).contains_key(k) implies exists|
            j: int,
        | 0 <= j < entries.len() && key_of(#[trigger] entries[j].endpoint) == k by {
            if k == key_of(last.endpoint) {
                assert(key_of(entries[entries.len() - 1].endpoint) == k);
            } else {
                assert(shard_map(prefix).contains_key(k));
                let j = choose|j: int|
                    0 <= j < prefix.len() && key_of(#[trigger] prefix[j].endpoint) == k;
                assert(prefix[j] == entries[j]);
                assert(key_of(entries[j].endpoint) == k);
            }
        }
        assert forall|k: (u64, Role)|
            (exists|j: int|
                0 <= j < entries.len() && key_of(#[trigger] entries[j].endpoint)
                    == k) implies #[trigger] shard_map(entries).contains_key(k) by {
            let j = choose|j: int|
                0 <= j < entries.len() && key_of(#[trigger] entries[j].endpoint) == k;
            if j < entries.len() - 1 {
                assert(prefix[j] == entries[j]);
                assert(key_of(prefix[j].endpoint) == k);
                assert(shard_map(prefix).contains_key(k));
            }
        }
        if forall|i: int, j: int|
            0 <= i < j < entries.len() ==> key_of(#[trigger] entries[i].endpoint) != key_of(
                #[trigger] entries[j].endpoint,
            ) {
            assert forall|i: int| 0 <= i < entries.len() implies shard_map(entries)[key_of(
                #[trigger] entries[i].endpoint,
            )] == (entries[i].reason, entries[i].banned_at as int) by {
                if i < entries.len() - 1 {
                    assert(entries[i] == prefix[i]);
                    assert(key_of(entries[i].endpoint) != key_of(last.endpoint));
                    assert(shard_map(prefix)[key_of(prefix[i].endpoint)] == (
                        prefix[i].reason,
                        prefix[i].banned_at as int,
                    ));
                }
            }
        }
    }
}

/// Under pairwise distinct keys, the shard's map view has exactly one
/// key per entry.
pub proof fn lemma_shard_map_len(entries: Seq<BanEntry>)
    requires
        forall|a: int, b: int|
            0 <= a < b < entries.len() ==> key_of(#[trigger] entries[a].endpoint) != key_of(
                #[trigger] entries[b].endpoint,
            ),
    ensures
        shard_map(entries).dom().finite(),
        shard_map(entries).dom().len() == entries.len(),
    decreases entries.len(),
{
    if entries.len() > 0 {
        let prefix = entries.drop_last();
        let k = key_of(entries.last().endpoint);
        assert forall|a: int, b: int| 0 <= a < b < prefix.len() implies key_of(
            #[trigger] prefix[a].endpoint,
        ) != key_of(#[trigger] prefix[b].endpoint) by {
            assert(prefix[a] == entries[a]);
            assert(prefix[b] == entries[b]);
        }
        lemma_shard_map_len(prefix);
        lemma_shard_map_contains(prefix);
        assert forall|j: int| 0 <= j < prefix.len() implies key_of(
            #[trigger] prefix[j].endpoint,
        ) != k by {
            assert(prefix[j] == entries[j]);
            assert(key_of(entries[j].endpoint) != key_of(entries[entries.len() - 1].endpoint));
        }
        assert(!shard_map(prefix).contains_key(k));
        assert(shard_map(entries).dom() =~= shard_map(prefix).dom().insert(k));
    }
}

/// Appending an entry inserts its record into the shard's map view.
pub proof fn lemma_shard_map_push(entries: Seq<BanEntry>, e: BanEntry)
    ensures
        shard_map(entries.push(e)) == shard_map(entries).insert(
            key_of(e.endpoint),
            (e.reason, e.banned_at as int),
        ),
{
    assert(entries.push(e).drop_last() =~= entries);
    assert(entries.push(e).last() == e);
}

/// Under pairwise distinct keys, removing the entry at an index removes
/// exactly its key from the shard's map view.
pub proof fn lemma_shard_map_remove_at(entries: Seq<BanEntry>, i: int)
    requires
        0 <= i < entries.len(),
        forall|a: int, b: int|
            0 <= a < b < entries.len() ==> key_of(#[trigger] entries[a].endpoint) != key_of(
                #[trigger] entries[b].endpoint,
            ),
    ensures
        shard_map(entries.remove(i)) == shard_map(entries).remove(key_of(entries[i].endpoint)),
    decreases entries.len(),
{
    let k = key_of(entries[i].endpoint);
    let prefix = entries.drop_last();
    let last = entries.last();
    let v = (last.reason, last.banned_at as int);
    if i == entries.len() - 1 {
        assert(entries.remove(i) =~= prefix);
        lemma_shard_map_contains(prefix);
        assert forall|j: int| 0 <= j < prefix.len() implies key_of(
            #[trigger] prefix[j].endpoint,
        ) != k by {
            assert(prefix[j] == entries[j]);
        }
        assert(!shard_map(prefix).contains_key(k));
        assert(shard_map(entries) == shard_map(prefix).insert(k, v));
        assert(shard_map(prefix).insert(k, v).remove(k) =~= shard_map(prefix));
    } else {
        assert forall|a: int, b: int| 0 <= a < b < prefix.len() implies key_of(
            #[trigger] prefix[a].endpoint,
        ) != key_of(#[trigger] prefix[b].endpoint) by {
            assert(prefix[a] == entries[a]);
            assert(prefix[b] == entries[b]);
        }
        assert(prefix[i] == entries[i]);
        lemma_shard_map_remove_at(prefix, i);
        assert(entries.remove(i).drop_last() =~= prefix.remove(i));
        assert(entries.remove(i).last() == last);
        assert(shard_map(entries.remove(i)) == shard_map(prefix.remove(i)).insert(
            key_of(last.endpoint),
            v,
        ));
        assert(key_of(last.endpoint) != k);
        assert(shard_map(prefix).remove(k).insert(key_of(last.endpoint), v) =~= shard_map(
            prefix,
        ).insert(key_of(last.endpoint), v).remove(k));
    }
}

/// Appending a replica entry of this shard with a fresh key preserves a
/// shard's well-formedness.
pub proof fn lemma_shard_wf_push(entries: Seq<BanEntry>, e: BanEntry, shard: int)
    requires
        shard_wf(entries, shard),
        e.endpoint.role == Role::Replica,
        e.endpoint.shard == shard,
        forall|j: int|
            0 <= j < entries.len() ==> key_of(#[trigger] entries[j].endpoint) != key_of(e.endpoint),
    ensures
        shard_wf(entries.push(e), shard),
{
    let new = entries.push(e);
    assert forall|j: int| 0 <= j < new.len() implies #[trigger] new[j].endpoint.role
        == Role::Replica && new[j].endpoint.shard == shard by {
        if j < entries.len() {
            assert(new[j] == entries[j]);
        } else {
            assert(new[j] == e);
        }
    }
    assert forall|a: int, b: int| 0 <= a < b < new.len() implies key_of(
        #[trigger] new[a].endpoint,
    ) != key_of(#[trigger] new[b].endpoint) by {
        assert(new[a] == entries[a]);
        if b < entries.len() {
            assert(new[b] == entries[b]);
        } else {
            assert(new[b] == e);
        }
    }
}

/// Removing an entry preserves a shard's well-formedness.
pub proof fn lemma_shard_wf_remove(entries: Seq<BanEntry>, shard: int, i: int)
    requires
        shard_wf(entries, shard),
        0 <= i < entries.len(),
    ensures
        shard_wf(entries.remove(i), shard),
{
    let new = entries.remove(i);
    assert forall|j: int| 0 <= j < new.len() implies #[trigger] new[j].endpoint.role
        == Role::Replica && new[j].endpoint.shard == shard by {
        if j < i {
            assert(new[j] == entries[j]);
        } else {
            assert(new[j] == entries[j + 1]);
        }
    }
    assert forall|a: int, b: int| 0 <= a < b < new.len() implies key_of(
        #[trigger] new[a].endpoint,
    ) != key_of(#[trigger] new[b].endpoint) by {
        let a0: int = if a < i {
            a
        } else {
            a + 1
        };
        let b0: int = if b < i {
            b
        } else {
            b + 1
        };
        assert(new[a] == entries[a0]);
        assert(new[b] == entries[b0]);
    }
}

} // verus!
