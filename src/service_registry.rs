use crate::service_address::ServiceAddress;
use std::collections::HashMap;
use vstd::prelude::*;

verus! {

/// What a service entry holds, as mathematical values.
pub ghost struct EntryView {
    pub id: Seq<char>,
    pub service_name: Seq<char>,
    pub environment: Seq<char>,
    pub address: Seq<char>,
    pub tags: Map<String, String>,
    pub registered_at: u64,
    pub last_heartbeat: u64,
}

/// One running instance of a named service in a named environment.
///
/// `id` is the identity of the entry; several entries may share a
/// `service_name` and an `environment`. Timestamps are milliseconds since
/// the Unix epoch.
#[derive(Debug, Clone)]
pub struct ServiceEntry {
    pub id: String,
    pub service_name: String,
    pub environment: String,
    pub address: ServiceAddress,
    pub tags: HashMap<String, String>,
    pub registered_at: u64,
    pub last_heartbeat: u64,
}

impl View for ServiceEntry {
    type V = EntryView;

    open spec fn view(&self) -> EntryView {
        EntryView {
            id: self.id@,
            service_name: self.service_name@,
            environment: self.environment@,
            address: self.address@,
            tags: self.tags@,
            registered_at: self.registered_at,
            last_heartbeat: self.last_heartbeat,
        }
    }
}

/// How recently an entry was heard from.
#[derive(Debug, Clone, Copy, PartialEq, Eq, Structural)]
pub enum HealthStatus {
    /// A heartbeat came in within the freshness window.
    Healthy,
    /// Registered recently, and no heartbeat has come in since.
    Unknown,
    /// The last sign of life is older than the freshness window.
    Stale,
    /// The last sign of life is older than the eviction window.
    Unhealthy,
}

/// Why a registry operation did not take effect.
#[derive(Debug)]
pub enum RegistryError {
    /// An entry with the same identity is already stored.
    AlreadyExists,
    /// No stored entry matched the name (and environment).
    NotFound,
    /// A failure inside a storage engine; the operation changed nothing.
    InternalError(String),
}

/// Age in milliseconds after which an entry without heartbeats is stale.
pub const STALE_AFTER_MS: u64 = 30000;

/// Age in milliseconds after which an entry without heartbeats is unhealthy.
pub const UNHEALTHY_AFTER_MS: u64 = 90000;

/// Milliseconds from `earlier` to `later`, and 0 if `later` comes first.
pub open spec fn elapsed(earlier: u64, later: u64) -> u64 {
    if later >= earlier {
        (later - earlier) as u64
    } else {
        0
    }
}

/// The health of an entry at time `now`.
pub open spec fn health_at(e: EntryView, now: u64) -> HealthStatus {
    let age = elapsed(e.last_heartbeat, now);
    if age >= UNHEALTHY_AFTER_MS {
        HealthStatus::Unhealthy
    } else if age >= STALE_AFTER_MS {
        HealthStatus::Stale
    } else if e.last_heartbeat == e.registered_at {
        HealthStatus::Unknown
    } else {
        HealthStatus::Healthy
    }
}

pub open spec fn max_u64(a: u64, b: u64) -> u64 {
    if a >= b {
        a
    } else {
        b
    }
}

/// The entry after a heartbeat read at time `now`: the timestamp moves to
/// `now`, and never back before the previous heartbeat or the registration.
pub open spec fn beat(e: EntryView, now: u64) -> EntryView {
    EntryView { last_heartbeat: max_u64(now, max_u64(e.last_heartbeat, e.registered_at)), ..e }
}

/// The views of a sequence of entries.
pub open spec fn views(v: Seq<ServiceEntry>) -> Seq<EntryView> {
    v.map_values(|e: ServiceEntry| e@)
}

/// Whether an entry with identity `id` is in `s`.
pub open spec fn has_id(s: Seq<EntryView>, id: Seq<char>) -> bool {
    exists|i: int| 0 <= i < s.len() && (#[trigger] s[i]).id == id
}

/// No two entries of `s` share an identity.
pub open spec fn ids_distinct(s: Seq<EntryView>) -> bool {
    forall|i: int, j: int| 0 <= i < s.len() && 0 <= j < s.len() && i != j ==> (#[trigger] s[i]).id
        != (#[trigger] s[j]).id
}

/// Entries of the service `name` in the environment `env`.
pub open spec fn in_group(name: Seq<char>, env: Seq<char>) -> spec_fn(EntryView) -> bool {
    |e: EntryView| e.service_name == name && e.environment == env
}

/// Entries of the service `name`, in the environment `env` if one is given,
/// else in any environment.
pub open spec fn in_scope(name: Seq<char>, env: Option<Seq<char>>) -> spec_fn(EntryView) -> bool {
    |e: EntryView|
        e.service_name == name && match env {
            Some(v) => e.environment == v,
            None => true,
        }
}

/// Entries outside the scope of a deregistration.
pub open spec fn out_of_scope(name: Seq<char>, env: Option<Seq<char>>) -> spec_fn(EntryView) -> bool {
    |e: EntryView| !in_scope(name, env)(e)
}

/// What resolving `name` in `env` returns from the entries `s`.
pub open spec fn resolved(s: Seq<EntryView>, name: Seq<char>, env: Seq<char>) -> Seq<EntryView> {
    s.filter(in_group(name, env))
}

/// The outcome of registering `e` on the entries `s`.
pub open spec fn register_result(s: Seq<EntryView>, e: EntryView) -> (
    Result<(), RegistryError>,
    Seq<EntryView>,
) {
    if has_id(s, e.id) {
        (Err(RegistryError::AlreadyExists), s)
    } else {
        (Ok(()), s.push(e))
    }
}

/// The outcome of deregistering `name` (in `env`, if given) from `s`.
pub open spec fn deregister_result(s: Seq<EntryView>, name: Seq<char>, env: Option<Seq<char>>) -> (
    Result<(), RegistryError>,
    Seq<EntryView>,
) {
    if s.filter(in_scope(name, env)).len() == 0 {
        (Err(RegistryError::NotFound), s)
    } else {
        (Ok(()), s.filter(out_of_scope(name, env)))
    }
}

/// The entries `s` after a heartbeat for `name` in `env` read at `now`.
pub open spec fn beat_group(s: Seq<EntryView>, name: Seq<char>, env: Seq<char>, now: u64) -> Seq<
    EntryView,
> {
    s.map_values(
        |e: EntryView|
            if in_group(name, env)(e) {
                beat(e, now)
            } else {
                e
            },
    )
}

/// The outcome of a heartbeat for `name` in `env` read at `now`.
pub open spec fn heartbeat_result(s: Seq<EntryView>, name: Seq<char>, env: Seq<char>, now: u64) -> (
    Result<(), RegistryError>,
    Seq<EntryView>,
) {
    if resolved(s, name, env).len() == 0 {
        (Err(RegistryError::NotFound), s)
    } else {
        (Ok(()), beat_group(s, name, env, now))
    }
}

/// A failure of the storage engine itself, which leaves the entries as they were.
pub open spec fn engine_failure(
    old: Seq<EntryView>,
    new: Seq<EntryView>,
    r: Result<(), RegistryError>,
) -> bool {
    r matches Err(RegistryError::InternalError(_)) && new == old
}

pub open spec fn opt_view(env: Option<&str>) -> Option<Seq<char>> {
    match env {
        Some(v) => Some(v@),
        None => None,
    }
}

/// The operations of a service directory.
///
/// `entries` is what the directory holds, in the order in which `list`
/// returns it. Each operation takes effect as a whole or not at all: an
/// engine may fail with `InternalError`, and then nothing changed.
pub trait ServiceRegistry {
    /// The stored entries, in listing order.
    spec fn entries(&self) -> Seq<EntryView>;

    /// Every stored entry.
    fn list(&self) -> (r: Vec<ServiceEntry>)
        ensures
            views(r@) == self.entries(),
    ;

    /// Stores `entry`, unless an entry with the same identity is stored.
    fn register(&mut self, entry: ServiceEntry) -> (r: Result<(), RegistryError>)
        ensures
            (r, final(self).entries()) == register_result(old(self).entries(), entry@)
                || engine_failure(old(self).entries(), final(self).entries(), r),
            ids_distinct(final(self).entries()),
    ;

    /// The stored entries of the service `service_name` in `environment`;
    /// empty where none matches.
    fn resolve(&self, service_name: &str, environment: &str) -> (r: Vec<ServiceEntry>)
        ensures
            views(r@) == resolved(self.entries(), service_name@, environment@),
    ;

    /// Removes every entry of `service_name` in `environment`, or in every
    /// environment where none is given; `NotFound` where none matches.
    fn deregister(&mut self, service_name: &str, environment: Option<&str>) -> (r: Result<
        (),
        RegistryError,
    >)
        ensures
            (r, final(self).entries()) == deregister_result(
                old(self).entries(),
                service_name@,
                opt_view(environment),
            ) || engine_failure(old(self).entries(), final(self).entries(), r),
            ids_distinct(final(self).entries()),
    ;

    /// Records a heartbeat on every entry of `service_name` in
    /// `environment`, at the current time; `NotFound` where none matches.
    fn heartbeat(&mut self, service_name: &str, environment: &str) -> (r: Result<
        (),
        RegistryError,
    >)
        ensures
            exists|now: u64|
                (r, final(self).entries()) == #[trigger] heartbeat_result(
                    old(self).entries(),
                    service_name@,
                    environment@,
                    now,
                ),
            ids_distinct(final(self).entries()),
    ;
}

/// `std::time::SystemTime`, carried through opaquely.
#[verifier::external_type_specification]
#[verifier::external_body]
pub struct ExSystemTime(std::time::SystemTime);

/// `std::time::SystemTimeError`, carried through opaquely.
#[verifier::external_type_specification]
#[verifier::external_body]
pub struct ExSystemTimeError(std::time::SystemTimeError);

/// Relies on `SystemTime::now`: reads the system clock, which promises nothing
/// about the value read.
pub assume_specification[ std::time::SystemTime::now ]() -> std::time::SystemTime;

/// Relies on `SystemTime::duration_since`: the time from `earlier` to
/// `self`, or an error where `earlier` comes later.
pub assume_specification[ std::time::SystemTime::duration_since ](
    t: &std::time::SystemTime,
    earlier: std::time::SystemTime,
) -> Result<core::time::Duration, std::time::SystemTimeError>;

/// Relies on `Duration::as_millis`: the whole milliseconds of a duration.
pub assume_specification[ core::time::Duration::as_millis ](d: &core::time::Duration) -> u128;

/// Relies on `std::time::UNIX_EPOCH`, the origin of the timestamps.
#[verifier::external_body]
fn unix_epoch() -> std::time::SystemTime {
    std::time::UNIX_EPOCH
}

/// The current time in milliseconds since the Unix epoch; 0 where the clock
/// reads a time before the epoch.
pub fn now() -> u64 {
    let t = std::time::SystemTime::now();
    match t.duration_since(unix_epoch()) {
        Ok(d) => {
            let ms = d.as_millis();
            if ms > u64::MAX as u128 {
                u64::MAX
            } else {
                ms as u64
            }
        },
        Err(_) => 0,
    }
}

/// Relies on `uuid::Uuid::new_v4` and its `Display`: a fresh random
/// identifier in the 36-character hyphenated form. The call panics only
/// where the system's random source fails.
#[verifier::external_body]
fn fresh_id() -> (r: String)
    ensures
        r@.len() == 36,
{
    uuid::Uuid::new_v4().to_string()
}

fn copy_address(a: &ServiceAddress) -> (r: ServiceAddress)
    ensures
        r@ == a@,
{
    match a {
        ServiceAddress::String(s) => ServiceAddress::String(s.clone()),
    }
}

impl ServiceEntry {
    /// A new entry with a fresh random identity, registered now; its last
    /// heartbeat is its registration time.
    pub fn new(
        service_name: String,
        environment: String,
        address: String,
        tags: HashMap<String, String>,
    ) -> (r: ServiceEntry)
        ensures
            r@.id.len() == 36,
            r@.service_name == service_name@,
            r@.environment == environment@,
            r@.address == address@,
            r@.tags == tags@,
            r@.last_heartbeat == r@.registered_at,
    {
        let id = fresh_id();
        let registered_at = now();
        ServiceEntry::from_parts(id, service_name, environment, address, tags, registered_at)
    }

    /// An entry with the given identity, registered at `registered_at`
    /// and not heard from since.
    pub fn from_parts(
        id: String,
        service_name: String,
        environment: String,
        address: String,
        tags: HashMap<String, String>,
        registered_at: u64,
    ) -> (r: ServiceEntry)
        ensures
            r@ == (EntryView {
                id: id@,
                service_name: service_name@,
                environment: environment@,
                address: address@,
                tags: tags@,
                registered_at,
                last_heartbeat: registered_at,
            }),
    {
        ServiceEntry {
            id,
            service_name,
            environment,
            address: ServiceAddress::String(address),
            tags,
            registered_at,
            last_heartbeat: registered_at,
        }
    }

    /// A copy of the entry.
    pub fn copied(&self) -> (r: ServiceEntry)
        ensures
            r@ == self@,
    {
        ServiceEntry {
            id: self.id.clone(),
            service_name: self.service_name.clone(),
            environment: self.environment.clone(),
            address: copy_address(&self.address),
            tags: self.tags.clone(),
            registered_at: self.registered_at,
            last_heartbeat: self.last_heartbeat,
        }
    }

    /// The address as text.
    pub fn address_str(&self) -> (r: &str)
        ensures
            r@ == self.address@,
    {
        self.address.as_str()
    }

    /// The health of the entry at time `now_ms`: unhealthy once its last
    /// heartbeat is `UNHEALTHY_AFTER_MS` old, stale once it is
    /// `STALE_AFTER_MS` old, else unknown while no heartbeat came in since
    /// registration, and healthy otherwise.
    pub fn health_status_at(&self, now_ms: u64) -> (r: HealthStatus)
        ensures
            r == health_at(self@, now_ms),
    {
        let age = self.time_since_last_heartbeat_at(now_ms);
        if age >= UNHEALTHY_AFTER_MS {
            HealthStatus::Unhealthy
        } else if age >= STALE_AFTER_MS {
            HealthStatus::Stale
        } else if self.last_heartbeat == self.registered_at {
            HealthStatus::Unknown
        } else {
            HealthStatus::Healthy
        }
    }

    /// The health of the entry now.
    pub fn health_status(&self) -> (r: HealthStatus)
        ensures
            exists|t: u64| r == #[trigger] health_at(self@, t),
    {
        self.health_status_at(now())
    }

    /// Milliseconds from the last heartbeat to `now_ms`; 0 where `now_ms`
    /// comes first.
    pub fn time_since_last_heartbeat_at(&self, now_ms: u64) -> (r: u64)
        ensures
            r == elapsed(self.last_heartbeat, now_ms),
    {
        if now_ms >= self.last_heartbeat {
            now_ms - self.last_heartbeat
        } else {
            0
        }
    }

    /// Milliseconds since the last heartbeat.
    pub fn time_since_last_heartbeat(&self) -> (r: u64)
        ensures
            exists|t: u64| r == #[trigger] elapsed(self.last_heartbeat, t),
    {
        self.time_since_last_heartbeat_at(now())
    }
}

} // verus!

verus! {

/// Keeping some entries of a table whose identities are distinct leaves
/// identities that are distinct.
pub(crate) proof fn lemma_filter_keeps_ids_distinct(s: Seq<EntryView>, p: spec_fn(EntryView) -> bool)
    requires
        ids_distinct(s),
    ensures
        ids_distinct(s.filter(p)),
    decreases s.len(),
{
    if s.len() > 0 {
        let rest = s.drop_last();
        let last = s.last();
        assert(ids_distinct(rest)) by {
            assert forall|a: int, b: int|
                0 <= a < rest.len() && 0 <= b < rest.len() && a != b implies (#[trigger] rest[a]).id
                != (#[trigger] rest[b]).id by {
                assert(rest[a] == s[a] && rest[b] == s[b]);
            }
        }
        lemma_filter_keeps_ids_distinct(rest, p);
        assert(s =~= rest.push(last));
        rest.lemma_filter_push(last, p);
        if p(last) {
            let f = rest.filter(p);
            let g = f.push(last);
            assert forall|a: int, b: int|
                0 <= a < g.len() && 0 <= b < g.len() && a != b implies (#[trigger] g[a]).id != (
            #[trigger] g[b]).id by {
                if a < f.len() && b < f.len() {
                    assert(g[a] == f[a] && g[b] == f[b]);
                } else {
                    let k = if a < f.len() {
                        a
                    } else {
                        b
                    };
                    assert(g[k] == f[k]);
                    assert(f.contains(f[k]));
                    rest.lemma_filter_contains_rev(p, f[k]);
                    let j = choose|j: int| 0 <= j < rest.len() && rest[j] == f[k];
                    assert(s[j] == rest[j]);
                    assert(s[s.len() - 1] == last);
                }
            }
        }
    }
}

} // verus!
