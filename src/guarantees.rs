//! What holds of the registry operations across calls, stated over the
//! outcome functions that the operations' contracts use.
use crate::service_registry::{
    beat, beat_group, deregister_result, has_id, heartbeat_result, ids_distinct, in_group, in_scope,
    out_of_scope, register_result, resolved, EntryView, RegistryError,
};
use vstd::prelude::*;

verus! {

broadcast use vstd::seq_lib::group_filter_ensures;

/// Filtering twice keeps what both predicates accept.
proof fn lemma_filter_twice(
    s: Seq<EntryView>,
    p: spec_fn(EntryView) -> bool,
    q: spec_fn(EntryView) -> bool,
    pq: spec_fn(EntryView) -> bool,
)
    requires
        forall|e: EntryView| #[trigger] pq(e) == (p(e) && q(e)),
    ensures
        s.filter(p).filter(q) == s.filter(pq),
    decreases s.len(),
{
    if s.len() > 0 {
        let rest = s.drop_last();
        let last = s.last();
        lemma_filter_twice(rest, p, q, pq);
        assert(s =~= rest.push(last));
        rest.lemma_filter_push(last, p);
        rest.lemma_filter_push(last, pq);
        rest.filter(p).lemma_filter_push(last, q);
    } else {
        assert(s.filter(p) =~= s);
        assert(s.filter(pq) =~= s);
        assert(s.filter(p).filter(q) =~= s);
    }
}

/// A predicate that accepts nothing filters everything out.
proof fn lemma_filter_nothing(s: Seq<EntryView>, p: spec_fn(EntryView) -> bool)
    requires
        forall|e: EntryView| !#[trigger] p(e),
    ensures
        s.filter(p) == Seq::<EntryView>::empty(),
{
    if s.filter(p).len() > 0 {
        assert(p(s.filter(p)[0]));
    }
    assert(s.filter(p) =~= Seq::<EntryView>::empty());
}

/// Predicates that agree everywhere filter alike.
proof fn lemma_filter_alike(s: Seq<EntryView>, p: spec_fn(EntryView) -> bool, q: spec_fn(EntryView) -> bool)
    requires
        forall|e: EntryView| #[trigger] p(e) == q(e),
    ensures
        s.filter(p) == s.filter(q),
{
    assert(p =~= q);
}

/// A successful registration keeps identities distinct, and registering
/// the identical entry a second time fails with `AlreadyExists` and changes
/// nothing.
pub proof fn lemma_register_twice(s: Seq<EntryView>, e: EntryView)
    requires
        ids_distinct(s),
    ensures
        ids_distinct(register_result(s, e).1),
        register_result(register_result(s, e).1, e) == (
            Err::<(), RegistryError>(RegistryError::AlreadyExists),
            register_result(s, e).1,
        ),
{
    let t = register_result(s, e).1;
    if !has_id(s, e.id) {
        assert forall|a: int, b: int|
            0 <= a < t.len() && 0 <= b < t.len() && a != b implies (#[trigger] t[a]).id != (
        #[trigger] t[b]).id by {
            if a < s.len() && b < s.len() {
                assert(t[a] == s[a] && t[b] == s[b]);
            } else if a < s.len() {
                assert(t[a] == s[a]);
            } else {
                assert(t[b] == s[b]);
            }
        }
        assert(t[s.len() as int].id == e.id);
    }
}

/// Two entries of one service in one environment, with distinct fresh
/// identities, both register; resolving then returns exactly the two, in
/// the order of registration.
pub proof fn lemma_two_instances(s: Seq<EntryView>, e1: EntryView, e2: EntryView)
    requires
        e1.service_name == e2.service_name,
        e1.environment == e2.environment,
        e1.id != e2.id,
        !has_id(s, e1.id),
        !has_id(s, e2.id),
        resolved(s, e1.service_name, e1.environment).len() == 0,
    ensures
        register_result(s, e1).0 is Ok,
        register_result(register_result(s, e1).1, e2).0 is Ok,
        resolved(
            register_result(register_result(s, e1).1, e2).1,
            e1.service_name,
            e1.environment,
        ) == seq![e1, e2],
{
    let p = in_group(e1.service_name, e1.environment);
    let s1 = s.push(e1);
    assert(!has_id(s1, e2.id)) by {
        if has_id(s1, e2.id) {
            let i = choose|i: int| 0 <= i < s1.len() && (#[trigger] s1[i]).id == e2.id;
            if i < s.len() {
                assert(s1[i] == s[i]);
            }
        }
    }
    s.lemma_filter_push(e1, p);
    s1.lemma_filter_push(e2, p);
    assert(s.filter(p) =~= Seq::<EntryView>::empty());
    assert(s1.push(e2).filter(p) =~= seq![e1, e2]);
}

/// Resolving a name and environment that no entry has returns nothing.
pub proof fn lemma_resolve_unmatched(s: Seq<EntryView>, name: Seq<char>, env: Seq<char>)
    requires
        forall|i: int| 0 <= i < s.len() ==> !in_group(name, env)(#[trigger] s[i]),
    ensures
        resolved(s, name, env) == Seq::<EntryView>::empty(),
{
    let p = in_group(name, env);
    if s.filter(p).len() > 0 {
        s.lemma_filter_contains_rev(p, s.filter(p)[0]);
        assert(s.filter(p).contains(s.filter(p)[0]));
    }
    assert(s.filter(p) =~= Seq::<EntryView>::empty());
}

/// Deregistering a service in one environment removes its entries there,
/// succeeding where there were some, and leaves its entries in every other
/// environment, and the entries of every other service, as they were.
pub proof fn lemma_deregister_in_environment(
    s: Seq<EntryView>,
    name: Seq<char>,
    env: Seq<char>,
    other_name: Seq<char>,
    other_env: Seq<char>,
)
    requires
        other_name != name || other_env != env,
    ensures
        resolved(s, name, env).len() > 0 ==> deregister_result(s, name, Some(env)).0 is Ok,
        resolved(deregister_result(s, name, Some(env)).1, name, env).len() == 0,
        resolved(deregister_result(s, name, Some(env)).1, other_name, other_env) == resolved(
            s,
            other_name,
            other_env,
        ),
{
    let scope = in_scope(name, Some(env));
    let keep = out_of_scope(name, Some(env));
    let p = in_group(name, env);
    let q = in_group(other_name, other_env);
    lemma_filter_alike(s, scope, p);
    if s.filter(scope).len() > 0 {
        lemma_filter_twice(s, keep, p, |e: EntryView| keep(e) && p(e));
        lemma_filter_nothing(s, |e: EntryView| keep(e) && p(e));
        lemma_filter_twice(s, keep, q, |e: EntryView| keep(e) && q(e));
        lemma_filter_alike(s, |e: EntryView| keep(e) && q(e), q);
    }
}

/// Deregistering a service in every environment removes all its entries,
/// leaves the entries of every other service as they were, and a second
/// call fails with `NotFound`.
pub proof fn lemma_deregister_everywhere(
    s: Seq<EntryView>,
    name: Seq<char>,
    env: Seq<char>,
    other_name: Seq<char>,
)
    requires
        other_name != name,
    ensures
        s.filter(in_scope(name, None)).len() > 0 ==> deregister_result(s, name, None).0 is Ok,
        resolved(deregister_result(s, name, None).1, name, env).len() == 0,
        resolved(deregister_result(s, name, None).1, other_name, env) == resolved(
            s,
            other_name,
            env,
        ),
        deregister_result(deregister_result(s, name, None).1, name, None) == (
            Err::<(), RegistryError>(RegistryError::NotFound),
            deregister_result(s, name, None).1,
        ),
{
    let scope = in_scope(name, None);
    let keep = out_of_scope(name, None);
    let p = in_group(name, env);
    let q = in_group(other_name, env);
    if s.filter(scope).len() > 0 {
        lemma_filter_twice(s, keep, p, |e: EntryView| keep(e) && p(e));
        lemma_filter_nothing(s, |e: EntryView| keep(e) && p(e));
        lemma_filter_twice(s, keep, q, |e: EntryView| keep(e) && q(e));
        lemma_filter_alike(s, |e: EntryView| keep(e) && q(e), q);
        lemma_filter_twice(s, keep, scope, |e: EntryView| keep(e) && scope(e));
        lemma_filter_nothing(s, |e: EntryView| keep(e) && scope(e));
    } else {
        lemma_filter_twice(s, scope, p, p);
        assert(s.filter(scope) =~= Seq::<EntryView>::empty());
    }
}

/// A heartbeat never moves an entry's last heartbeat back, nor before its
/// registration; it moves it to the time read whenever that time is the
/// latest; and it changes nothing else.
pub proof fn lemma_heartbeat_monotone(
    s: Seq<EntryView>,
    name: Seq<char>,
    env: Seq<char>,
    now: u64,
    i: int,
)
    requires
        0 <= i < s.len(),
        in_group(name, env)(s[i]),
    ensures
        heartbeat_result(s, name, env, now).0 is Ok,
        heartbeat_result(s, name, env, now).1.len() == s.len(),
        heartbeat_result(s, name, env, now).1[i].last_heartbeat >= s[i].last_heartbeat,
        heartbeat_result(s, name, env, now).1[i].last_heartbeat >= s[i].registered_at,
        now >= s[i].last_heartbeat && now >= s[i].registered_at ==> heartbeat_result(
            s,
            name,
            env,
            now,
        ).1[i].last_heartbeat == now,
        heartbeat_result(s, name, env, now).1[i] == (EntryView {
            last_heartbeat: heartbeat_result(s, name, env, now).1[i].last_heartbeat,
            ..s[i]
        }),
{
    let p = in_group(name, env);
    assert(s.filter(p).contains(s[i]));
    assert(beat_group(s, name, env, now)[i] == beat(s[i], now));
}

/// The entries `s` after registering each of `es` in turn, and whether
/// every registration succeeded.
pub open spec fn register_each(s: Seq<EntryView>, es: Seq<EntryView>) -> (bool, Seq<EntryView>)
    decreases es.len(),
{
    if es.len() == 0 {
        (true, s)
    } else {
        let (ok, t) = register_each(s, es.drop_last());
        let (r, u) = register_result(t, es.last());
        (ok && r is Ok, u)
    }
}

/// Registrations of entries with distinct fresh identities, taken one at a
/// time in any order, all succeed, and the directory then holds exactly
/// those entries besides what it held before: none is lost or doubled.
pub proof fn lemma_register_each(s: Seq<EntryView>, es: Seq<EntryView>)
    requires
        ids_distinct(es),
        forall|i: int| 0 <= i < es.len() ==> !has_id(s, (#[trigger] es[i]).id),
    ensures
        register_each(s, es) == (true, s + es),
        register_each(s, es).1.len() == s.len() + es.len(),
    decreases es.len(),
{
    if es.len() > 0 {
        let front = es.drop_last();
        let last = es.last();
        assert(ids_distinct(front)) by {
            assert forall|a: int, b: int|
                0 <= a < front.len() && 0 <= b < front.len() && a != b implies (
            #[trigger] front[a]).id != (#[trigger] front[b]).id by {
                assert(front[a] == es[a] && front[b] == es[b]);
            }
        }
        assert forall|i: int| 0 <= i < front.len() implies !has_id(s, (#[trigger] front[i]).id) by {
            assert(front[i] == es[i]);
        }
        lemma_register_each(s, front);
        let t = s + front;
        assert(!has_id(t, last.id)) by {
            if has_id(t, last.id) {
                let j = choose|j: int| 0 <= j < t.len() && (#[trigger] t[j]).id == last.id;
                if j < s.len() {
                    assert(t[j] == s[j]);
                    assert(!has_id(s, es[es.len() - 1].id));
                } else {
                    assert(t[j] == es[j - s.len()]);
                }
            }
        }
        assert(t.push(last) =~= s + es);
    }
}

} // verus!
