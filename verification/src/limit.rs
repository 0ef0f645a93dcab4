//! Limits on how often one address may ask.
//!
//! Times are nanoseconds since a moment that the caller fixes once. The level of a bucket is
//! counted in units of which a token has [`TOKEN`]; one unit flows in per nanosecond, so half a
//! token per second.

use dashmap::DashMap;
use vstd::prelude::*;

use crate::net::Ip;

verus! {

/// The concurrent map of the `dashmap` crate.
#[verifier::external_type_specification]
#[verifier::external_body]
#[verifier::reject_recursive_types(K)]
#[verifier::reject_recursive_types(V)]
#[verifier::reject_recursive_types(S)]
pub struct ExDashMap<K, V, S>(DashMap<K, V, S>);

/// A map from addresses to levels and times.
pub type Table = DashMap<(u8, u128), (u64, u64)>;

/// What a map from addresses to levels and times holds.
pub uninterp spec fn entries(t: Table) -> Map<(u8, u128), (u64, u64)>;

/// The map without entries.
pub open spec fn no_entries() -> Map<(u8, u128), (u64, u64)> {
    Map::empty()
}

/// Calls `DashMap::new`: the map is empty.
#[verifier::external_body]
fn new_table() -> (res: Table)
    ensures
        entries(res) == no_entries(),
{
    DashMap::new()
}

/// Calls `DashMap::get` and copies the value out: the value under the key, if there is one.
#[verifier::external_body]
fn table_get(t: &Table, key: (u8, u128)) -> (res: Option<(u64, u64)>)
    ensures
        res == (if entries(*t).contains_key(key) {
            Some(entries(*t)[key])
        } else {
            None
        }),
{
    t.get(&key).map(|v| *v)
}

/// Calls `DashMap::insert`: the value stands under the key, and nothing else changes.
#[verifier::external_body]
fn table_put(t: &mut Table, key: (u8, u128), value: (u64, u64))
    ensures
        entries(*final(t)) == entries(*old(t)).insert(key, value),
{
    t.insert(key, value);
}

/// Calls `DashMap::retain` with [`fresh`]: the entries of which it holds stay as they are, the
/// others go.
#[verifier::external_body]
fn table_keep_fresh(t: &mut Table, now: u64)
    ensures
        entries(*final(t)) == only_fresh(entries(*old(t)), now),
{
    t.retain(|_, v| fresh(v.1, now));
}

/// How long an entry may be idle before it may go: five minutes.
pub const IDLE: u64 = 300_000_000_000;

/// One token, in units.
pub const TOKEN: u64 = 2_000_000_000;

/// A full bucket, in units: five tokens.
pub const FULL: u64 = 10_000_000_000;

/// A second, in nanoseconds.
pub const SECOND: u64 = 1_000_000_000;

/// The nanoseconds from `then` to `now`, zero if `then` is the later.
pub open spec fn since(then: u64, now: u64) -> nat {
    if now >= then {
        (now - then) as nat
    } else {
        0
    }
}

/// Whether an entry last touched at `stamp` has not been idle for [`IDLE`].
pub fn fresh(stamp: u64, now: u64) -> (res: bool)
    ensures
        res == (since(stamp, now) < IDLE),
{
    now.saturating_sub(stamp) < IDLE
}

/// The entries that have not been idle for [`IDLE`].
pub open spec fn only_fresh(m: Map<(u8, u128), (u64, u64)>, now: u64) -> Map<
    (u8, u128),
    (u64, u64),
> {
    Map::new(
        |k: (u8, u128)| m.contains_key(k) && since(m[k].1, now) < IDLE,
        |k: (u8, u128)| m[k],
    )
}

/// The key of an address: its family and its bits.
pub open spec fn key_of(ip: Ip) -> (u8, u128) {
    match ip {
        Ip::V4(a) => (4, a as u128),
        Ip::V6(a) => (6, a),
    }
}

/// The key of an address.
fn key(ip: Ip) -> (res: (u8, u128))
    ensures
        res == key_of(ip),
{
    match ip {
        Ip::V4(a) => (4, a as u128),
        Ip::V6(a) => (6, a),
    }
}

/// The bucket of one address.
#[derive(Debug, Clone, Copy, PartialEq, Eq, Structural)]
pub struct RateLimitState {
    /// The level of the bucket.
    pub tokens: u64,
    /// When the level was last brought up to date.
    pub last_update: u64,
}

impl RateLimitState {
    /// No bucket holds more than [`FULL`].
    pub open spec fn wf(self) -> bool {
        self.tokens <= FULL
    }

    /// The level at `now`.
    pub open spec fn level(self, now: u64) -> nat {
        if self.tokens + since(self.last_update, now) <= FULL {
            (self.tokens + since(self.last_update, now)) as nat
        } else {
            FULL as nat
        }
    }

    /// Whether a request at `now` finds a token.
    pub open spec fn admits(self, now: u64) -> bool {
        self.level(now) >= TOKEN
    }

    /// The bucket after a request at `now`.
    pub open spec fn after(self, now: u64) -> RateLimitState {
        RateLimitState {
            tokens: if self.admits(now) {
                (self.level(now) - TOKEN) as u64
            } else {
                self.level(now) as u64
            },
            last_update: now,
        }
    }

    /// Takes a token for a request at `now`, if there is one.
    pub fn take(&mut self, now: u64) -> (res: bool)
        requires
            old(self).wf(),
        ensures
            final(self).wf(),
            res == old(self).admits(now),
            *final(self) == old(self).after(now),
    {
        let elapsed: u64 = now.saturating_sub(self.last_update);
        let level: u64 = if elapsed >= FULL - self.tokens {
            FULL
        } else {
            self.tokens + elapsed
        };
        self.last_update = now;
        if level >= TOKEN {
            self.tokens = level - TOKEN;
            true
        } else {
            self.tokens = level;
            false
        }
    }
}

/// A bucket that no request has touched before `now`.
pub open spec fn full_bucket(now: u64) -> RateLimitState {
    RateLimitState { tokens: FULL, last_update: now }
}

/// The buckets of all addresses.
pub struct IpRateLimiter {
    general: Table,
}

impl IpRateLimiter {
    /// What is held of each address.
    pub closed spec fn view(&self) -> Map<(u8, u128), (u64, u64)> {
        entries(self.general)
    }

    /// No bucket holds more than [`FULL`].
    pub open spec fn wf(&self) -> bool {
        forall|k: (u8, u128)| #[trigger] self@.contains_key(k) ==> self@[k].0 <= FULL
    }

    /// The bucket of an address at `now`: the one held, or else a full one.
    pub open spec fn bucket(&self, ip: Ip, now: u64) -> RateLimitState {
        if self@.contains_key(key_of(ip)) {
            RateLimitState {
                tokens: self@[key_of(ip)].0,
                last_update: self@[key_of(ip)].1,
            }
        } else {
            full_bucket(now)
        }
    }

    /// A limiter that has seen no request.
    pub fn new() -> (res: Self)
        ensures
            res.wf(),
            res@ == no_entries(),
    {
        IpRateLimiter { general: new_table() }
    }

    /// Decides on a request of `ip` at `now`: it is admitted if the address's bucket holds a
    /// token, which it then costs. The buckets of other addresses stay as they are.
    pub fn check(&mut self, ip: Ip, now: u64) -> (res: bool)
        requires
            old(self).wf(),
        ensures
            final(self).wf(),
            res == old(self).bucket(ip, now).admits(now),
            final(self)@ == old(self)@.insert(
                key_of(ip),
                (
                    old(self).bucket(ip, now).after(now).tokens,
                    old(self).bucket(ip, now).after(now).last_update,
                ),
            ),
    {
        let k = key(ip);
        assert(self@.contains_key(k) ==> self@[k].0 <= FULL);
        let mut state = match table_get(&self.general, k) {
            Some(v) => RateLimitState { tokens: v.0, last_update: v.1 },
            None => RateLimitState { tokens: FULL, last_update: now },
        };
        let res = state.take(now);
        table_put(&mut self.general, k, (state.tokens, state.last_update));
        assert forall|j: (u8, u128)| #[trigger] self@.contains_key(j) implies self@[j].0
            <= FULL by {
            if j != k {
                assert(old(self)@.contains_key(j));
            }
        }
        res
    }

    /// Forgets the addresses that have been idle.
    pub fn evict(&mut self, now: u64)
        requires
            old(self).wf(),
        ensures
            final(self).wf(),
            final(self)@ == only_fresh(old(self)@, now),
    {
        table_keep_fresh(&mut self.general, now);
        assert forall|k: (u8, u128)| #[trigger] self@.contains_key(k) implies self@[k].0 <= FULL by {
            assert(old(self)@.contains_key(k));
        }
    }
}

/// When each address last registered.
pub struct RegisterLimiter {
    last: Table,
}

/// The nanoseconds that must lie between two registrations of one address, for a configured
/// number of registrations per minute; zero switches the limit off.
pub open spec fn register_gap(per_min: u32) -> nat {
    if per_min > 0 {
        (60nat / per_min as nat) * SECOND as nat
    } else {
        0
    }
}

impl RegisterLimiter {
    /// What is held of each address; the second number is the time of its last registration.
    pub closed spec fn view(&self) -> Map<(u8, u128), (u64, u64)> {
        entries(self.last)
    }

    /// Whether an address registered less than the gap before `now`.
    pub open spec fn too_soon(&self, per_min: u32, ip: Ip, now: u64) -> bool {
        &&& self@.contains_key(key_of(ip))
        &&& since(self@[key_of(ip)].1, now) < register_gap(per_min)
    }

    /// A limiter that has seen no registration.
    pub fn new() -> (res: Self)
        ensures
            res@ == no_entries(),
    {
        RegisterLimiter { last: new_table() }
    }

    /// Decides on a registration of `ip` at `now`. One that is admitted is noted, unless the
    /// limit is off; one that is refused changes nothing.
    pub fn allow(&mut self, per_min: u32, ip: Ip, now: u64) -> (res: bool)
        ensures
            res == !old(self).too_soon(per_min, ip, now),
            final(self)@ == (if register_gap(per_min) > 0 && res {
                old(self)@.insert(key_of(ip), (0, now))
            } else {
                old(self)@
            }),
    {
        if per_min == 0 {
            return true;
        }
        let secs: u64 = (60 / per_min) as u64;
        assert(secs <= 60) by {
            assert(60int / per_min as int <= 60) by (nonlinear_arith)
                requires
                    per_min > 0,
            ;
        }
        let gap: u64 = secs * SECOND;
        if gap == 0 {
            return true;
        }
        let k = key(ip);
        if let Some(v) = table_get(&self.last, k) {
            if now.saturating_sub(v.1) < gap {
                return false;
            }
        }
        table_put(&mut self.last, k, (0, now));
        true
    }

    /// Forgets the addresses that have been idle.
    pub fn evict(&mut self, now: u64)
        ensures
            final(self)@ == only_fresh(old(self)@, now),
    {
        table_keep_fresh(&mut self.last, now);
    }
}

/// How many of the requests of one address, at the given times, its bucket admits.
pub open spec fn admitted(state: RateLimitState, times: Seq<u64>) -> nat
    decreases times.len(),
{
    if times.len() == 0 {
        0
    } else {
        let s = bucket_after(state, times.drop_last());
        admitted(state, times.drop_last()) + if s.admits(times.last()) {
            1nat
        } else {
            0nat
        }
    }
}

/// The bucket of one address after its requests at the given times.
pub open spec fn bucket_after(state: RateLimitState, times: Seq<u64>) -> RateLimitState
    decreases times.len(),
{
    if times.len() == 0 {
        state
    } else {
        bucket_after(state, times.drop_last()).after(times.last())
    }
}

/// Times in the order in which they pass.
pub open spec fn in_order(times: Seq<u64>) -> bool {
    forall|i: int, j: int| 0 <= i <= j < times.len() ==> times[i] <= times[j]
}

/// Whatever the bucket of an address held, of its requests within any stretch of time no more
/// are admitted than a full bucket and the tokens that flow in during the stretch pay for: five,
/// and one more per two seconds.
pub proof fn law_rate_is_bounded(state: RateLimitState, times: Seq<u64>)
    requires
        state.wf(),
        times.len() > 0,
        in_order(times),
    ensures
        admitted(state, times) * TOKEN <= FULL + (times.last() - times[0]),
        bucket_after(state, times).wf(),
        bucket_after(state, times).last_update == times.last(),
        admitted(state, times) * TOKEN + bucket_after(state, times).tokens <= FULL + (times.last()
            - times[0]),
    decreases times.len(),
{
    let before = times.drop_last();
    if before.len() > 0 {
        law_rate_is_bounded(state, before);
        assert(times[before.len() - 1] <= times[before.len() as int]);
        let n = admitted(state, before);
        assert((n + 1) * TOKEN == n * TOKEN + TOKEN) by (nonlinear_arith);
    } else {
        assert(bucket_after(state, before) == state);
        assert(admitted(state, before) == 0);
    }
}

/// A request that comes two seconds or more after the last one of its address is admitted.
pub proof fn law_patient_client_is_served(state: RateLimitState, now: u64)
    requires
        since(state.last_update, now) >= 2 * SECOND,
    ensures
        state.admits(now),
{
}

/// To forget an idle address changes no decision: its bucket is full again by the time that it
/// may be forgotten, as that of an address never seen is, and whatever gap is configured has
/// passed since it last registered.
pub proof fn law_eviction_is_invisible(
    m: Map<(u8, u128), (u64, u64)>,
    k: (u8, u128),
    evicted_at: u64,
    now: u64,
    per_min: u32,
)
    requires
        m.contains_key(k),
        m[k].0 <= FULL,
        !only_fresh(m, evicted_at).contains_key(k),
        evicted_at <= now,
    ensures
        ({
            let held = RateLimitState { tokens: m[k].0, last_update: m[k].1 };
            &&& held.admits(now) == full_bucket(now).admits(now)
            &&& held.after(now) == full_bucket(now).after(now)
        }),
        since(m[k].1, now) >= register_gap(per_min),
{
    if per_min > 0 {
        assert(60nat / per_min as nat <= 60) by (nonlinear_arith)
            requires
                per_min > 0,
        ;
    }
}

/// An address that registered is not let in again before the configured gap has passed.
pub proof fn law_registrations_are_spaced(
    before: RegisterLimiter,
    after: RegisterLimiter,
    per_min: u32,
    ip: Ip,
    first: u64,
    second: u64,
)
    requires
        register_gap(per_min) > 0,
        after@ == before@.insert(key_of(ip), (0, first)),
        first <= second,
    ensures
        after.too_soon(per_min, ip, second) <==> second - first < register_gap(per_min),
{
}

/// A request leaves in the bucket what it held before and one unit for each nanosecond since, but no
/// more than a full bucket, less a token if there was one; and it is admitted if and only if there
/// was one. A token is two seconds' worth, and a full bucket ten.
pub proof fn law_bucket_fills_and_empties(s: &mut RateLimitState, now: u64, res: bool)
    requires
        old(s).wf(),
        call_ensures(RateLimitState::take, (s, now), res),
    ensures
        final(s).last_update == now,
        ({
            let elapsed = if now >= old(s).last_update {
                now - old(s).last_update
            } else {
                0
            };
            let paid: int = if res {
                2_000_000_000
            } else {
                0
            };
            let level = final(s).tokens + paid;
            &&& level <= 10_000_000_000
            &&& level <= old(s).tokens + elapsed
            &&& level == 10_000_000_000 || level == old(s).tokens + elapsed
            &&& res <==> level >= 2_000_000_000
        }),
{
}

/// The same moment over and over.
pub open spec fn burst(now: u64, k: nat) -> Seq<u64> {
    Seq::new(k, |i: int| now)
}

/// Requests at one moment are admitted as long as the bucket has tokens for them.
proof fn lemma_burst(s: RateLimitState, now: u64, k: nat)
    requires
        s.wf(),
        s.level(now) >= k * TOKEN,
    ensures
        admitted(s, burst(now, k)) == k,
        k > 0 ==> bucket_after(s, burst(now, k)).last_update == now,
        k > 0 ==> bucket_after(s, burst(now, k)).tokens == s.level(now) - k * TOKEN,
    decreases k,
{
    if k > 0 {
        let j = (k - 1) as nat;
        assert(j * TOKEN == k * TOKEN - TOKEN) by (nonlinear_arith)
            requires
                j == k - 1,
        ;
        lemma_burst(s, now, j);
        let times = burst(now, k);
        assert(times.drop_last() =~= burst(now, j));
        assert(times.last() == now);
        if j == 0 {
            assert(bucket_after(s, burst(now, j)) == s);
        }
    }
}

/// Whatever happened before, an address that was silent for `2 * k` seconds may ask `k` times at
/// once, for up to five times; and at any moment no more than five requests at once are admitted.
pub proof fn law_silence_refills(s: RateLimitState, now: u64, k: nat, n: nat)
    requires
        s.wf(),
    ensures
        k <= 5 && now >= s.last_update && now - s.last_update >= 2_000_000_000 * k ==> admitted(
            s,
            burst(now, k),
        ) == k,
        admitted(s, burst(now, n)) <= 5,
        admitted(full_bucket(now), burst(now, 5)) == 5,
{
    if k <= 5 && now >= s.last_update && now - s.last_update >= 2_000_000_000 * k {
        lemma_burst(s, now, k);
    }
    lemma_burst(full_bucket(now), now, 5);
    if n > 0 {
        let times = burst(now, n);
        assert(in_order(times));
        law_rate_is_bounded(s, times);
        assert(times.last() == now && times[0] == now);
    }
}

/// Two addresses are counted together only if they are the same.
pub proof fn law_addresses_are_counted_apart(a: Ip, b: Ip)
    ensures
        key_of(a) == key_of(b) <==> a == b,
{
}

/// A request counts for its own address: it is decided as its bucket decides, which it changes as
/// [`RateLimitState::take`] does, it leaves the bucket of every other address as it was, and the
/// first request of an address is admitted.
pub proof fn law_requests_count_for_their_address(
    l: &mut IpRateLimiter,
    s: &mut RateLimitState,
    ip: Ip,
    other: Ip,
    now: u64,
    later: u64,
    res: bool,
    taken: bool,
)
    requires
        old(l).wf(),
        call_ensures(IpRateLimiter::check, (l, ip, now), res),
        *old(s) == old(l).bucket(ip, now),
        call_ensures(RateLimitState::take, (s, now), taken),
        other != ip,
    ensures
        res == taken,
        final(l).bucket(ip, later) == *final(s),
        final(l).bucket(other, later) == old(l).bucket(other, later),
        !old(l)@.contains_key(key_of(ip)) ==> res,
{
    law_addresses_are_counted_apart(ip, other);
}

/// Registrations of one address: with no limit, or more than sixty a minute, every one is let in;
/// otherwise the first is, and after one that was, the next is let in if and only if as many whole
/// seconds have passed as the minute has for each. What one address does changes nothing for
/// another.
pub proof fn law_registrations_keep_their_distance(
    a: &mut RegisterLimiter,
    b: &mut RegisterLimiter,
    per_min: u32,
    ip: Ip,
    other: Ip,
    first: u64,
    second: u64,
    gap: nat,
    in_first: bool,
    in_second: bool,
    in_other: bool,
)
    requires
        call_ensures(RegisterLimiter::allow, (a, per_min, ip, first), in_first),
        *final(a) == *old(b),
        call_ensures(RegisterLimiter::allow, (b, per_min, ip, second), in_second),
        first <= second,
        gap * per_min <= 60 < (gap + 1) * per_min,
        other != ip,
    ensures
        !old(a)@.contains_key(key_of(ip)) ==> in_first,
        in_first ==> (in_second <==> second - first >= gap * 1_000_000_000),
        final(a).too_soon(per_min, other, second) == old(a).too_soon(per_min, other, second),
        !in_first ==> final(a)@ == old(a)@,
{
    law_addresses_are_counted_apart(ip, other);
    assert(per_min > 0) by (nonlinear_arith)
        requires
            60 < (gap + 1) * per_min,
    ;
    assert(60nat / per_min as nat == gap) by (nonlinear_arith)
        requires
            per_min > 0,
            gap * per_min <= 60 < (gap + 1) * per_min,
    ;
}

/// Where there is no limit on registrations, every one is let in and nothing is noted.
pub proof fn law_no_limit_lets_everyone_in(
    l: &mut RegisterLimiter,
    per_min: u32,
    ip: Ip,
    now: u64,
    res: bool,
)
    requires
        call_ensures(RegisterLimiter::allow, (l, per_min, ip, now), res),
        per_min == 0 || per_min > 60,
    ensures
        res,
        final(l)@ == old(l)@,
{
    if per_min > 60 {
        assert(60nat / per_min as nat == 0) by (nonlinear_arith)
            requires
                per_min > 60,
        ;
    }
}

/// What was touched less than five minutes ago is kept as it is, all else is forgotten, and nothing
/// is made up.
pub proof fn law_only_the_idle_are_forgotten(
    l: &mut IpRateLimiter,
    r: &mut RegisterLimiter,
    now: u64,
    k: (u8, u128),
    res: (),
)
    requires
        old(l).wf(),
        call_ensures(IpRateLimiter::evict, (l, now), res),
        call_ensures(RegisterLimiter::evict, (r, now), res),
    ensures
        final(l)@.contains_key(k) <==> old(l)@.contains_key(k) && now - old(l)@[k].1
            < 300_000_000_000,
        final(l)@.contains_key(k) ==> final(l)@[k] == old(l)@[k],
        final(r)@.contains_key(k) <==> old(r)@.contains_key(k) && now - old(r)@[k].1
            < 300_000_000_000,
        final(r)@.contains_key(k) ==> final(r)@[k] == old(r)@[k],
{
}

/// What is held of an address decides on its next request, and an address of which nothing is held
/// has five tokens, of which its first request leaves four. New limiters hold nothing of anyone.
pub proof fn law_what_is_held_decides(
    l: &mut IpRateLimiter,
    s: &mut RateLimitState,
    ip: Ip,
    now: u64,
    res: bool,
    taken: bool,
    fresh: IpRateLimiter,
    unused: RegisterLimiter,
)
    requires
        old(l).wf(),
        call_ensures(IpRateLimiter::new, (), fresh),
        call_ensures(RegisterLimiter::new, (), unused),
        call_ensures(IpRateLimiter::check, (l, ip, now), res),
        old(l)@.contains_key(key_of(ip)) ==> old(s).tokens == old(l)@[key_of(ip)].0 && old(
            s,
        ).last_update == old(l)@[key_of(ip)].1,
        call_ensures(RateLimitState::take, (s, now), taken),
    ensures
        old(l)@.contains_key(key_of(ip)) ==> res == taken && final(l)@[key_of(ip)] == (
            final(s).tokens,
            final(s).last_update,
        ),
        !old(l)@.contains_key(key_of(ip)) ==> res && final(l)@[key_of(ip)] == (
            8_000_000_000u64,
            now,
        ),
        final(l)@.dom() == old(l)@.dom().insert(key_of(ip)),
        !fresh@.contains_key(key_of(ip)),
        !unused@.contains_key(key_of(ip)),
{
}

} // verus!
