use crate::service_registry::{
    beat, beat_group, deregister_result, heartbeat_result, ids_distinct, in_group, in_scope,
    lemma_filter_keeps_ids_distinct, now, opt_view, out_of_scope, register_result, views,
    EntryView, RegistryError, ServiceEntry, ServiceRegistry,
};
use vstd::prelude::*;

verus! {

broadcast use vstd::seq_lib::group_filter_ensures;

/// A registry held in process memory: a table of entries whose identities
/// are distinct, searched by a full scan.
pub struct InMemoryRegistry {
    services: Vec<ServiceEntry>,
}

impl View for InMemoryRegistry {
    type V = Seq<EntryView>;

    closed spec fn view(&self) -> Seq<EntryView> {
        views(self.services@)
    }
}

proof fn lemma_views_push(v: Seq<ServiceEntry>, e: ServiceEntry)
    ensures
        views(v.push(e)) == views(v).push(e@),
{
    assert(views(v.push(e)) =~= views(v).push(e@));
}

proof fn lemma_take_next<A>(s: Seq<A>, i: int)
    requires
        0 <= i < s.len(),
    ensures
        s.take(i + 1) == s.take(i).push(s[i]),
{
    assert(s.take(i + 1) =~= s.take(i).push(s[i]));
}

/// Whether `e` is an entry of `name` in `env`.
fn in_group_exec(e: &ServiceEntry, name: &String, env: &String) -> (r: bool)
    ensures
        r == in_group(name@, env@)(e@),
{
    e.service_name == *name && e.environment == *env
}

/// Whether `e` is an entry of `name`, in `env` where one is given.
fn in_scope_exec(e: &ServiceEntry, name: &String, env: &Option<String>) -> (r: bool)
    ensures
        r == in_scope(
            name@,
            match env {
                Some(v) => Some(v@),
                None => None,
            },
        )(e@),
{
    if e.service_name != *name {
        return false;
    }
    match env {
        Some(v) => e.environment == *v,
        None => true,
    }
}

fn owned_env(environment: Option<&str>) -> (r: Option<String>)
    ensures
        match r {
            Some(v) => Some(v@),
            None => None::<Seq<char>>,
        } == opt_view(environment),
{
    match environment {
        Some(v) => Some(v.to_owned()),
        None => None,
    }
}

impl InMemoryRegistry {
    #[verifier::type_invariant]
    spec fn unique_ids(self) -> bool {
        ids_distinct(views(self.services@))
    }

    /// An empty registry.
    pub fn new() -> (r: InMemoryRegistry)
        ensures
            r@ == Seq::<EntryView>::empty(),
    {
        let r = InMemoryRegistry { services: Vec::new() };
        assert(views(r.services@) =~= Seq::<EntryView>::empty());
        r
    }

    /// Whether an entry with identity `id` is stored.
    fn holds_id(&self, id: &String) -> (r: bool)
        ensures
            r == (exists|j: int| 0 <= j < self@.len() && (#[trigger] self@[j]).id == id@),
    {
        let mut i: usize = 0;
        while i < self.services.len()
            invariant
                0 <= i <= self.services.len(),
                forall|j: int| 0 <= j < i ==> (#[trigger] self@[j]).id != id@,
            decreases self.services.len() - i,
        {
            if self.services[i].id == *id {
                assert(self@[i as int].id == id@);
                return true;
            }
            i = i + 1;
        }
        false
    }

    /// Records a heartbeat read at `now_ms` on every entry of `service_name`
    /// in `environment`: each one's last heartbeat becomes the latest of
    /// `now_ms`, its previous heartbeat and its registration time.
    /// `NotFound`, with nothing changed, where none matches.
    pub fn heartbeat_at(&mut self, service_name: &str, environment: &str, now_ms: u64) -> (r:
        Result<(), RegistryError>)
        ensures
            (r, final(self)@) == heartbeat_result(
                old(self)@,
                service_name@,
                environment@,
                now_ms,
            ),
            ids_distinct(final(self)@),
    {
        proof {
            use_type_invariant(&*self);
        }
        let name = service_name.to_owned();
        let env = environment.to_owned();
        let ghost s = self@;
        let ghost p = in_group(name@, env@);
        let mut beaten: Vec<ServiceEntry> = Vec::new();
        let mut found = false;
        let mut i: usize = 0;
        while i < self.services.len()
            invariant
                s == self@,
                s == views(self.services@),
                p == in_group(name@, env@),
                0 <= i <= self.services.len(),
                beaten@.len() == i,
                forall|j: int|
                    0 <= j < i ==> (#[trigger] views(beaten@)[j]) == (if p(s[j]) {
                        beat(s[j], now_ms)
                    } else {
                        s[j]
                    }),
                found == (s.take(i as int).filter(p).len() > 0),
            decreases self.services.len() - i,
        {
            let e = &self.services[i];
            let hit = in_group_exec(e, &name, &env);
            let mut copy = e.copied();
            if hit {
                let mut latest = e.last_heartbeat;
                if e.registered_at > latest {
                    latest = e.registered_at;
                }
                if now_ms > latest {
                    latest = now_ms;
                }
                copy.last_heartbeat = latest;
            }
            proof {
                lemma_take_next(s, i as int);
                s.take(i as int).lemma_filter_push(s[i as int], p);
                lemma_views_push(beaten@, copy);
                assert(copy@ == if p(s[i as int]) {
                    beat(s[i as int], now_ms)
                } else {
                    s[i as int]
                });
            }
            beaten.push(copy);
            found = found || hit;
            i = i + 1;
        }
        assert(s.take(s.len() as int) =~= s);
        if !found {
            return Err(RegistryError::NotFound);
        }
        assert(views(beaten@) =~= beat_group(s, name@, env@, now_ms));
        assert(ids_distinct(views(beaten@))) by {
            assert forall|a: int, b: int|
                0 <= a < views(beaten@).len() && 0 <= b < views(beaten@).len() && a != b implies (
            #[trigger] views(beaten@)[a]).id != (#[trigger] views(beaten@)[b]).id by {
                assert(views(beaten@)[a].id == s[a].id);
                assert(views(beaten@)[b].id == s[b].id);
            }
        }
        self.services = beaten;
        Ok(())
    }
}

impl ServiceRegistry for InMemoryRegistry {
    open spec fn entries(&self) -> Seq<EntryView> {
        self@
    }

    fn list(&self) -> (r: Vec<ServiceEntry>) {
        let mut out: Vec<ServiceEntry> = Vec::new();
        let mut i: usize = 0;
        while i < self.services.len()
            invariant
                0 <= i <= self.services.len(),
                views(out@) == self@.take(i as int),
            decreases self.services.len() - i,
        {
            let copy = self.services[i].copied();
            proof {
                lemma_take_next(self@, i as int);
                lemma_views_push(out@, copy);
            }
            out.push(copy);
            i = i + 1;
        }
        assert(self@.take(self@.len() as int) =~= self@);
        out
    }

    fn register(&mut self, entry: ServiceEntry) -> (r: Result<(), RegistryError>)
        ensures
            (r, final(self)@) == register_result(old(self)@, entry@),
    {
        proof {
            use_type_invariant(&*self);
        }
        if self.holds_id(&entry.id) {
            return Err(RegistryError::AlreadyExists);
        }
        proof {
            lemma_views_push(self.services@, entry);
            let t = views(self.services@).push(entry@);
            assert forall|a: int, b: int|
                0 <= a < t.len() && 0 <= b < t.len() && a != b implies (#[trigger] t[a]).id != (
            #[trigger] t[b]).id by {
                if a < t.len() - 1 && b < t.len() - 1 {
                    assert(t[a] == self@[a] && t[b] == self@[b]);
                } else if a < t.len() - 1 {
                    assert(t[a] == self@[a]);
                } else {
                    assert(t[b] == self@[b]);
                }
            }
        }
        let mut table: Vec<ServiceEntry> = Vec::new();
        proof {
            assert(views(table@) =~= Seq::<EntryView>::empty());
        }
        std::mem::swap(&mut self.services, &mut table);
        table.push(entry);
        self.services = table;
        Ok(())
    }

    fn resolve(&self, service_name: &str, environment: &str) -> (r: Vec<ServiceEntry>) {
        let name = service_name.to_owned();
        let env = environment.to_owned();
        let ghost p = in_group(name@, env@);
        let mut out: Vec<ServiceEntry> = Vec::new();
        let mut i: usize = 0;
        while i < self.services.len()
            invariant
                p == in_group(name@, env@),
                0 <= i <= self.services.len(),
                views(out@) == self@.take(i as int).filter(p),
            decreases self.services.len() - i,
        {
            let e = &self.services[i];
            proof {
                lemma_take_next(self@, i as int);
                self@.take(i as int).lemma_filter_push(self@[i as int], p);
            }
            if in_group_exec(e, &name, &env) {
                let copy = e.copied();
                proof {
                    lemma_views_push(out@, copy);
                }
                out.push(copy);
            }
            i = i + 1;
        }
        assert(self@.take(self@.len() as int) =~= self@);
        out
    }

    fn deregister(&mut self, service_name: &str, environment: Option<&str>) -> (r: Result<
        (),
        RegistryError,
    >)
        ensures
            (r, final(self)@) == deregister_result(
                old(self)@,
                service_name@,
                opt_view(environment),
            ),
    {
        proof {
            use_type_invariant(&*self);
        }
        let name = service_name.to_owned();
        let env = owned_env(environment);
        let ghost s = self@;
        let ghost hit = in_scope(name@, opt_view(environment));
        let ghost keep = out_of_scope(name@, opt_view(environment));
        let mut kept: Vec<ServiceEntry> = Vec::new();
        let mut found = false;
        let mut i: usize = 0;
        while i < self.services.len()
            invariant
                s == self@,
                hit == in_scope(name@, opt_view(environment)),
                keep == out_of_scope(name@, opt_view(environment)),
                match env {
                    Some(v) => Some(v@),
                    None => None::<Seq<char>>,
                } == opt_view(environment),
                0 <= i <= self.services.len(),
                views(kept@) == s.take(i as int).filter(keep),
                found == (s.take(i as int).filter(hit).len() > 0),
            decreases self.services.len() - i,
        {
            let e = &self.services[i];
            proof {
                lemma_take_next(s, i as int);
                s.take(i as int).lemma_filter_push(s[i as int], keep);
                s.take(i as int).lemma_filter_push(s[i as int], hit);
            }
            if in_scope_exec(e, &name, &env) {
                found = true;
            } else {
                let copy = e.copied();
                proof {
                    lemma_views_push(kept@, copy);
                }
                kept.push(copy);
            }
            i = i + 1;
        }
        assert(s.take(s.len() as int) =~= s);
        if !found {
            return Err(RegistryError::NotFound);
        }
        proof {
            lemma_filter_keeps_ids_distinct(s, keep);
        }
        self.services = kept;
        Ok(())
    }

    fn heartbeat(&mut self, service_name: &str, environment: &str) -> (r: Result<(), RegistryError>) {
        let t = now();
        let r = self.heartbeat_at(service_name, environment, t);
        assert(heartbeat_result(old(self).entries(), service_name@, environment@, t) == (
        r,
        self.entries(),
        ));
        r
    }
}

} // verus!
