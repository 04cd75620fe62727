//! Reconciliation of the registry against a desired state: a three-way diff
//! by name, and its application.

use vstd::prelude::*;

use crate::registry::{
    has_name, index_of_name, lemma_index_of_name_unique, lemma_pool_map_registered,
    lemma_pool_map_unregistered, lemma_registered_keeps_names_unique,
    lemma_unregistered_keeps_names_unique, names_unique, pool_map, pool_of, registered,
    unregistered, views, EntryView, ServiceEntry, ServiceRegistry,
};

verus! {

broadcast use vstd::seq_lib::group_filter_ensures;

/// One mutation of the registry that a reconciliation pass asks for.
pub enum SyncAction {
    /// Register (add, or replace by name) this entry.
    Register(ServiceEntry),
    /// Remove the entry of this name.
    Unregister(String),
}

/// The mathematical value of a [`SyncAction`].
pub enum ActionView {
    Register(EntryView),
    Unregister(Seq<char>),
}

impl View for SyncAction {
    type V = ActionView;

    open spec fn view(&self) -> ActionView {
        match self {
            SyncAction::Register(e) => ActionView::Register(e@),
            SyncAction::Unregister(n) => ActionView::Unregister(n@),
        }
    }
}

/// The views of a sequence of actions.
pub open spec fn action_views(a: Seq<SyncAction>) -> Seq<ActionView> {
    a.map_values(|x: SyncAction| x@)
}

/// Holds of desired entries whose name the current pool lacks.
pub open spec fn missing_from(current: Seq<EntryView>) -> spec_fn(EntryView) -> bool {
    |x: EntryView| !has_name(current, x.name)
}

/// Holds of current entries whose name the desired pool lacks.
pub open spec fn stale_in(desired: Seq<EntryView>) -> spec_fn(EntryView) -> bool {
    |x: EntryView| !has_name(desired, x.name)
}

/// Holds of desired entries whose name the current pool has with other values.
pub open spec fn changed_in(current: Seq<EntryView>) -> spec_fn(EntryView) -> bool {
    |x: EntryView| has_name(current, x.name) && current[index_of_name(current, x.name)] != x
}

/// The action that registers an entry.
pub open spec fn register_action() -> spec_fn(EntryView) -> ActionView {
    |x: EntryView| ActionView::Register(x)
}

/// The action that unregisters an entry's name.
pub open spec fn unregister_action() -> spec_fn(EntryView) -> ActionView {
    |x: EntryView| ActionView::Unregister(x.name)
}

/// Entries of the desired pool that the current one lacks, to be added.
pub open spec fn additions(desired: Seq<EntryView>, current: Seq<EntryView>) -> Seq<ActionView> {
    desired.filter(missing_from(current)).map_values(register_action())
}

/// Entries of the current pool that the desired one lacks, to be removed.
pub open spec fn removals(desired: Seq<EntryView>, current: Seq<EntryView>) -> Seq<ActionView> {
    current.filter(stale_in(desired)).map_values(unregister_action())
}

/// Entries of both pools whose values differ, to be registered anew.
pub open spec fn updates(desired: Seq<EntryView>, current: Seq<EntryView>) -> Seq<ActionView> {
    desired.filter(changed_in(current)).map_values(register_action())
}

/// The actions of one reconciliation pass of the desired entries `d` against
/// the current pool: additions, then removals, then updates. Of desired
/// entries that share a name the last one counts.
pub open spec fn sync_plan(d: Seq<EntryView>, current: Seq<EntryView>) -> Seq<ActionView> {
    let desired = pool_of(d);
    additions(desired, current) + removals(desired, current) + updates(desired, current)
}

/// The effect of one action on a pool.
pub open spec fn apply_action(s: Seq<EntryView>, a: ActionView) -> Seq<EntryView> {
    match a {
        ActionView::Register(e) => registered(s, e),
        ActionView::Unregister(n) => unregistered(s, n),
    }
}

/// The pool after the actions `a`, in order.
pub open spec fn applied(s: Seq<EntryView>, a: Seq<ActionView>) -> Seq<EntryView>
    decreases a.len(),
{
    if a.len() == 0 {
        s
    } else {
        apply_action(applied(s, a.drop_last()), a.last())
    }
}

proof fn lemma_filter_map_step<A, B>(s: Seq<A>, p: spec_fn(A) -> bool, f: spec_fn(A) -> B, i: int)
    requires
        0 <= i < s.len(),
    ensures
        s.take(i + 1).filter(p).map_values(f) == if p(s[i]) {
            s.take(i).filter(p).map_values(f).push(f(s[i]))
        } else {
            s.take(i).filter(p).map_values(f)
        },
{
    assert(s.take(i + 1) =~= s.take(i).push(s[i]));
    s.take(i).lemma_filter_push(s[i], p);
    assert(s.take(i).filter(p).push(s[i]).map_values(f) =~= s.take(i).filter(p).map_values(f).push(
        f(s[i]),
    ));
}

/// Whether two entries hold the same values.
fn same_entry(a: &ServiceEntry, b: &ServiceEntry) -> (r: bool)
    ensures
        r == (a@ == b@),
{
    a.weight == b.weight && a.port == b.port && a.name == b.name && a.ip == b.ip
}

/// The actions that bring `current` to the desired entries: register what is
/// missing, unregister what is stale, register anew what has changed.
pub fn plan_sync(desired: &[ServiceEntry], current: &ServiceRegistry) -> (r: Vec<SyncAction>)
    requires
        current.wf(),
    ensures
        action_views(r@) == sync_plan(views(desired@), current@),
{
    let wanted = ServiceRegistry::from_entries(desired);
    let want = wanted.list_services();
    let have = current.list_services();
    let ghost dv = wanted@;
    let ghost cv = current@;
    let mut r: Vec<SyncAction> = Vec::new();

    let mut i: usize = 0;
    assert(dv.take(0) =~= Seq::<EntryView>::empty());
    while i < want.len()
        invariant
            i <= want.len(),
            views(want@) == dv,
            cv == current@,
            current.wf(),
            action_views(r@) == dv.take(i as int).filter(missing_from(cv)).map_values(
                register_action(),
            ),
        decreases want.len() - i,
    {
        proof {
            lemma_filter_map_step(dv, missing_from(cv), register_action(), i as int);
        }
        if current.get(want[i].name.as_str()).is_none() {
            r.push(SyncAction::Register(want[i].clone()));
        }
        assert(action_views(r@) =~= dv.take(i + 1).filter(missing_from(cv)).map_values(
            register_action(),
        ));
        i = i + 1;
    }
    assert(dv.take(i as int) =~= dv);
    let ghost adds = action_views(r@);

    let mut r2: Vec<SyncAction> = Vec::new();
    let mut j: usize = 0;
    assert(cv.take(0) =~= Seq::<EntryView>::empty());
    while j < have.len()
        invariant
            j <= have.len(),
            views(have@) == cv,
            dv == wanted@,
            wanted.wf(),
            action_views(r2@) == cv.take(j as int).filter(stale_in(dv)).map_values(
                unregister_action(),
            ),
        decreases have.len() - j,
    {
        proof {
            lemma_filter_map_step(cv, stale_in(dv), unregister_action(), j as int);
        }
        if wanted.get(have[j].name.as_str()).is_none() {
            r2.push(SyncAction::Unregister(have[j].name.clone()));
        }
        assert(action_views(r2@) =~= cv.take(j + 1).filter(stale_in(dv)).map_values(
            unregister_action(),
        ));
        j = j + 1;
    }
    assert(cv.take(j as int) =~= cv);
    let ghost rems = action_views(r2@);

    let mut r3: Vec<SyncAction> = Vec::new();
    let mut k: usize = 0;
    while k < want.len()
        invariant
            k <= want.len(),
            views(want@) == dv,
            cv == current@,
            current.wf(),
            action_views(r3@) == dv.take(k as int).filter(changed_in(cv)).map_values(
                register_action(),
            ),
        decreases want.len() - k,
    {
        proof {
            lemma_filter_map_step(dv, changed_in(cv), register_action(), k as int);
        }
        match current.get(want[k].name.as_str()) {
            Some(e) => {
                if !same_entry(e, &want[k]) {
                    r3.push(SyncAction::Register(want[k].clone()));
                }
            },
            None => {},
        }
        assert(action_views(r3@) =~= dv.take(k + 1).filter(changed_in(cv)).map_values(
            register_action(),
        ));
        k = k + 1;
    }
    assert(dv.take(k as int) =~= dv);
    let ghost ups = action_views(r3@);

    r.append(&mut r2);
    r.append(&mut r3);
    assert(action_views(r@) =~= adds + rems + ups);
    r
}

/// Performs `actions` on the registry, in order.
pub fn apply_sync(registry: &mut ServiceRegistry, actions: &[SyncAction])
    requires
        old(registry).wf(),
    ensures
        final(registry).wf(),
        final(registry)@ == applied(old(registry)@, action_views(actions@)),
{
    let ghost a = action_views(actions@);
    let ghost start = registry@;
    let mut i: usize = 0;
    assert(a.take(0) =~= Seq::<ActionView>::empty());
    while i < actions.len()
        invariant
            i <= actions.len(),
            a == action_views(actions@),
            registry.wf(),
            registry@ == applied(start, a.take(i as int)),
        decreases actions.len() - i,
    {
        assert(a.take(i + 1).drop_last() =~= a.take(i as int));
        match &actions[i] {
            SyncAction::Register(e) => {
                registry.register_service(e.clone());
            },
            SyncAction::Unregister(n) => {
                registry.unregister_service(n.as_str());
            },
        }
        i = i + 1;
    }
    assert(a.take(i as int) =~= a);
}

/// One reconciliation pass on a registry held in this process: plans the
/// actions against the registry's current entries, performs them, and hands
/// them back.
pub fn reconcile(registry: &mut ServiceRegistry, desired: &[ServiceEntry]) -> (r: Vec<SyncAction>)
    requires
        old(registry).wf(),
    ensures
        final(registry).wf(),
        action_views(r@) == sync_plan(views(desired@), old(registry)@),
        final(registry)@ == applied(old(registry)@, action_views(r@)),
{
    let actions = plan_sync(desired, registry);
    apply_sync(registry, actions.as_slice());
    actions
}

/// A change that the cluster reports about a watched service.
pub enum ClusterEvent {
    /// A service was added or changed; its entry, where its address resolved.
    Applied(Option<ServiceEntry>),
    /// The service of this name was deleted.
    Deleted(String),
    /// Any other notice (a restart of the watch, say).
    Other,
}

/// What to do on a cluster event: the action to send to the balancer, and
/// whether a reconciliation pass follows once it has been delivered.
pub struct EventStep {
    pub action: Option<SyncAction>,
    pub resync: bool,
}

/// The step for a cluster event: an applied service is registered, a deleted
/// one unregistered, and either is followed by a full pass, which also makes
/// up for notices that were lost, repeated or reordered.
pub fn event_step(event: ClusterEvent) -> (r: EventStep)
    ensures
        match event {
            ClusterEvent::Applied(Some(e)) => r.resync && (r.action matches Some(a) && a@
                == ActionView::Register(e@)),
            ClusterEvent::Applied(None) => r.resync && r.action is None,
            ClusterEvent::Deleted(n) => r.resync && (r.action matches Some(a) && a@
                == ActionView::Unregister(n@)),
            ClusterEvent::Other => !r.resync && r.action is None,
        },
{
    match event {
        ClusterEvent::Applied(Some(e)) => EventStep { action: Some(SyncAction::Register(e)), resync: true },
        ClusterEvent::Applied(None) => EventStep { action: None, resync: true },
        ClusterEvent::Deleted(n) => EventStep { action: Some(SyncAction::Unregister(n)), resync: true },
        ClusterEvent::Other => EventStep { action: None, resync: false },
    }
}

/// The name an action is about.
pub open spec fn action_name(a: ActionView) -> Seq<char> {
    match a {
        ActionView::Register(e) => e.name,
        ActionView::Unregister(n) => n,
    }
}

/// Some action of `a` is about the name `k`.
pub open spec fn touches(a: Seq<ActionView>, k: Seq<char>) -> bool {
    exists|j: int| 0 <= j < a.len() && #[trigger] action_name(a[j]) == k
}

/// What a map holds under `k`.
pub open spec fn entry_at(m: Map<Seq<char>, EntryView>, k: Seq<char>) -> Option<EntryView> {
    if m.contains_key(k) {
        Some(m[k])
    } else {
        None
    }
}

/// What an action leaves under its name.
pub open spec fn effect(a: ActionView) -> Option<EntryView> {
    match a {
        ActionView::Register(e) => Some(e),
        ActionView::Unregister(n) => None,
    }
}

/// Applying actions keeps names unique.
pub proof fn lemma_applied_keeps_names_unique(s: Seq<EntryView>, a: Seq<ActionView>)
    requires
        names_unique(s),
    ensures
        names_unique(applied(s, a)),
    decreases a.len(),
{
    if a.len() > 0 {
        lemma_applied_keeps_names_unique(s, a.drop_last());
        match a.last() {
            ActionView::Register(e) => lemma_registered_keeps_names_unique(
                applied(s, a.drop_last()),
                e,
            ),
            ActionView::Unregister(n) => lemma_unregistered_keeps_names_unique(
                applied(s, a.drop_last()),
                n,
            ),
        }
    }
}

/// Where every action about `k` is `act`, what the pool holds under `k`
/// afterwards is the effect of `act`, or what it held before if no action is
/// about `k`.
proof fn lemma_applied_at(s: Seq<EntryView>, a: Seq<ActionView>, k: Seq<char>, act: ActionView)
    requires
        names_unique(s),
        forall|j: int| 0 <= j < a.len() && action_name(#[trigger] a[j]) == k ==> a[j] == act,
    ensures
        entry_at(pool_map(applied(s, a)), k) == if touches(a, k) {
            effect(act)
        } else {
            entry_at(pool_map(s), k)
        },
    decreases a.len(),
{
    if a.len() > 0 {
        let a0 = a.drop_last();
        assert forall|j: int| 0 <= j < a0.len() && action_name(#[trigger] a0[j]) == k implies a0[j]
            == act by {
            assert(a0[j] == a[j]);
        }
        lemma_applied_at(s, a0, k, act);
        lemma_applied_keeps_names_unique(s, a0);
        let t = applied(s, a0);
        match a.last() {
            ActionView::Register(e) => lemma_pool_map_registered(t, e),
            ActionView::Unregister(n) => lemma_pool_map_unregistered(t, n),
        }
        let last = a.len() - 1;
        assert(a[last] == a.last());
        if touches(a0, k) {
            let j = choose|j: int| 0 <= j < a0.len() && #[trigger] action_name(a0[j]) == k;
            assert(a[j] == a0[j]);
            assert(action_name(a[j]) == k);
        }
        if touches(a, k) && !touches(a0, k) {
            let j = choose|j: int| 0 <= j < a.len() && #[trigger] action_name(a[j]) == k;
            if j < last {
                assert(a0[j] == a[j]);
                assert(action_name(a0[j]) == k);
            }
        }
        if action_name(a.last()) == k {
            assert(action_name(a[last]) == k);
        }
    }
}

/// Registering each entry in turn leaves names unique.
pub proof fn lemma_pool_of_names_unique(d: Seq<EntryView>)
    ensures
        names_unique(pool_of(d)),
    decreases d.len(),
{
    if d.len() > 0 {
        lemma_pool_of_names_unique(d.drop_last());
        lemma_registered_keeps_names_unique(pool_of(d.drop_last()), d.last());
    }
}

/// An element of a filtered sequence meets the filter and comes from the
/// sequence.
proof fn lemma_filter_elem<A>(s: Seq<A>, p: spec_fn(A) -> bool, j: int)
    requires
        0 <= j < s.filter(p).len(),
    ensures
        p(s.filter(p)[j]),
        s.contains(s.filter(p)[j]),
{
    assert(s.filter(p).contains(s.filter(p)[j]));
    s.lemma_filter_contains_rev(p, s.filter(p)[j]);
}

/// An action that a diff of `desired` against `current` may hold.
pub open spec fn plausible(desired: Seq<EntryView>, current: Seq<EntryView>, a: ActionView) -> bool {
    match a {
        ActionView::Register(x) => desired.contains(x) && !(has_name(current, x.name)
            && current[index_of_name(current, x.name)] == x),
        ActionView::Unregister(n) => has_name(current, n) && !has_name(desired, n),
    }
}

proof fn lemma_diff_elems(desired: Seq<EntryView>, current: Seq<EntryView>)
    ensures
        ({
            let plan = additions(desired, current) + removals(desired, current) + updates(
                desired,
                current,
            );
            forall|j: int| 0 <= j < plan.len() ==> plausible(desired, current, #[trigger] plan[j])
        }),
{
    let adds = additions(desired, current);
    let rems = removals(desired, current);
    let ups = updates(desired, current);
    let plan = adds + rems + ups;
    let fa = desired.filter(missing_from(current));
    let fr = current.filter(stale_in(desired));
    let fu = desired.filter(changed_in(current));
    assert forall|j: int| 0 <= j < plan.len() implies plausible(desired, current, #[trigger] plan[j]) by {
        if j < adds.len() {
            lemma_filter_elem(desired, missing_from(current), j);
            assert(plan[j] == ActionView::Register(fa[j]));
        } else if j < adds.len() + rems.len() {
            let m = j - adds.len();
            lemma_filter_elem(current, stale_in(desired), m);
            assert(plan[j] == ActionView::Unregister(fr[m].name));
            let i = choose|i: int| 0 <= i < current.len() && current[i] == fr[m];
            assert(current[i].name == fr[m].name);
        } else {
            let m = j - adds.len() - rems.len();
            lemma_filter_elem(desired, changed_in(current), m);
            assert(plan[j] == ActionView::Register(fu[m]));
        }
    }
}

/// Of unique names, an entry found in the pool is the one under its name.
proof fn lemma_contained_is_named(s: Seq<EntryView>, x: EntryView)
    requires
        names_unique(s),
        s.contains(x),
    ensures
        has_name(s, x.name),
        s[index_of_name(s, x.name)] == x,
{
    let i = choose|i: int| 0 <= i < s.len() && s[i] == x;
    lemma_index_of_name_unique(s, i);
}

/// One reconciliation pass brings the registry to the desired state: the same
/// entries under the same names, names still unique.
pub proof fn lemma_sync_converges(d: Seq<EntryView>, r: Seq<EntryView>)
    requires
        names_unique(r),
    ensures
        names_unique(applied(r, sync_plan(d, r))),
        pool_map(applied(r, sync_plan(d, r))) == pool_map(pool_of(d)),
{
    let dd = pool_of(d);
    lemma_pool_of_names_unique(d);
    let adds = additions(dd, r);
    let rems = removals(dd, r);
    let ups = updates(dd, r);
    let plan = adds + rems + ups;
    assert(plan == sync_plan(d, r));
    lemma_applied_keeps_names_unique(r, plan);
    lemma_diff_elems(dd, r);
    let out = applied(r, plan);
    let fa = dd.filter(missing_from(r));
    let fr = r.filter(stale_in(dd));
    let fu = dd.filter(changed_in(r));
    assert forall|k: Seq<char>| entry_at(pool_map(out), k) == entry_at(pool_map(dd), k) by {
        if has_name(dd, k) {
            let i = index_of_name(dd, k);
            let dk = dd[i];
            let act = ActionView::Register(dk);
            assert forall|j: int| 0 <= j < plan.len() && action_name(#[trigger] plan[j]) == k implies plan[j]
                == act by {
                assert(plausible(dd, r, plan[j]));
                match plan[j] {
                    ActionView::Register(x) => {
                        lemma_contained_is_named(dd, x);
                    },
                    ActionView::Unregister(n) => {},
                }
            }
            lemma_applied_at(r, plan, k, act);
            if !has_name(r, k) || r[index_of_name(r, k)] != dk {
                if !has_name(r, k) {
                    assert(missing_from(r)(dd[i]));
                    assert(fa.contains(dd[i]));
                    let m = choose|m: int| 0 <= m < fa.len() && fa[m] == dd[i];
                    assert(plan[m] == adds[m]);
                    assert(action_name(plan[m]) == k);
                } else {
                    assert(changed_in(r)(dd[i]));
                    assert(fu.contains(dd[i]));
                    let m = choose|m: int| 0 <= m < fu.len() && fu[m] == dd[i];
                    let j = adds.len() + rems.len() + m;
                    assert(plan[j] == ups[m]);
                    assert(action_name(plan[j]) == k);
                }
            } else {
                if touches(plan, k) {
                    let j = choose|j: int| 0 <= j < plan.len() && #[trigger] action_name(plan[j]) == k;
                    assert(plausible(dd, r, plan[j]));
                }
            }
        } else {
            let act = ActionView::Unregister(k);
            assert forall|j: int| 0 <= j < plan.len() && action_name(#[trigger] plan[j]) == k implies plan[j]
                == act by {
                assert(plausible(dd, r, plan[j]));
                match plan[j] {
                    ActionView::Register(x) => {
                        lemma_contained_is_named(dd, x);
                    },
                    ActionView::Unregister(n) => {},
                }
            }
            lemma_applied_at(r, plan, k, act);
            if has_name(r, k) {
                let i = index_of_name(r, k);
                assert(stale_in(dd)(r[i]));
                assert(fr.contains(r[i]));
                let m = choose|m: int| 0 <= m < fr.len() && fr[m] == r[i];
                let j = adds.len() + m;
                assert(plan[j] == rems[m]);
                assert(action_name(plan[j]) == k);
            } else {
                if touches(plan, k) {
                    let j = choose|j: int| 0 <= j < plan.len() && #[trigger] action_name(plan[j]) == k;
                    assert(plausible(dd, r, plan[j]));
                }
            }
        }
    }
    assert forall|k: Seq<char>| #[trigger] pool_map(out).contains_key(k) <==> pool_map(dd).contains_key(k) by {
        assert(entry_at(pool_map(out), k) == entry_at(pool_map(dd), k));
    }
    assert forall|k: Seq<char>| pool_map(out).contains_key(k) implies #[trigger] pool_map(out)[k]
        == pool_map(dd)[k] by {
        assert(entry_at(pool_map(out), k) == entry_at(pool_map(dd), k));
    }
    assert(pool_map(out) =~= pool_map(dd));
}

/// A pass leaves alone every name whose entry already holds the desired
/// values.
pub proof fn lemma_sync_leaves_matching_alone(d: Seq<EntryView>, r: Seq<EntryView>, k: Seq<char>)
    requires
        names_unique(r),
        has_name(r, k),
        has_name(pool_of(d), k),
        r[index_of_name(r, k)] == pool_of(d)[index_of_name(pool_of(d), k)],
    ensures
        !touches(sync_plan(d, r), k),
{
    let dd = pool_of(d);
    lemma_pool_of_names_unique(d);
    let plan = sync_plan(d, r);
    lemma_diff_elems(dd, r);
    if touches(plan, k) {
        let j = choose|j: int| 0 <= j < plan.len() && #[trigger] action_name(plan[j]) == k;
        assert(plausible(dd, r, plan[j]));
        match plan[j] {
            ActionView::Register(x) => {
                lemma_contained_is_named(dd, x);
            },
            ActionView::Unregister(n) => {},
        }
    }
}

/// A registry that already holds the desired state needs no action.
pub proof fn lemma_sync_fixed_point(d: Seq<EntryView>, r: Seq<EntryView>)
    requires
        names_unique(r),
        pool_map(r) == pool_map(pool_of(d)),
    ensures
        sync_plan(d, r) == Seq::<ActionView>::empty(),
{
    let dd = pool_of(d);
    lemma_pool_of_names_unique(d);
    let fa = dd.filter(missing_from(r));
    let fr = r.filter(stale_in(dd));
    let fu = dd.filter(changed_in(r));
    if fa.len() > 0 {
        lemma_filter_elem(dd, missing_from(r), 0);
        lemma_contained_is_named(dd, fa[0]);
        assert(pool_map(dd).contains_key(fa[0].name));
    }
    if fr.len() > 0 {
        lemma_filter_elem(r, stale_in(dd), 0);
        lemma_contained_is_named(r, fr[0]);
        assert(pool_map(r).contains_key(fr[0].name));
    }
    if fu.len() > 0 {
        lemma_filter_elem(dd, changed_in(r), 0);
        lemma_contained_is_named(dd, fu[0]);
        assert(pool_map(dd)[fu[0].name] == fu[0]);
        assert(pool_map(r)[fu[0].name] == r[index_of_name(r, fu[0].name)]);
    }
    assert(sync_plan(d, r) =~= Seq::<ActionView>::empty());
}

/// Reconciliation is idempotent: once one pass has run against an unchanged
/// desired state, the next pass plans no action and leaves the pool as it is.
pub proof fn lemma_sync_idempotent(d: Seq<EntryView>, r: Seq<EntryView>)
    requires
        names_unique(r),
    ensures
        sync_plan(d, applied(r, sync_plan(d, r))) == Seq::<ActionView>::empty(),
        applied(applied(r, sync_plan(d, r)), sync_plan(d, applied(r, sync_plan(d, r)))) == applied(
            r,
            sync_plan(d, r),
        ),
{
    lemma_sync_converges(d, r);
    lemma_sync_fixed_point(d, applied(r, sync_plan(d, r)));
}

} // verus!
