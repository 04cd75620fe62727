//! The pool of routable backends, keyed by name.

use vstd::prelude::*;

use crate::text::{host_port, join_host_port, str_eq};

verus! {

/// One routable backend: a unique name, a relative weight, and the endpoint
/// (host and port) that requests for it are sent to.
pub struct ServiceEntry {
    pub name: String,
    pub weight: u32,
    pub ip: String,
    pub port: u16,
}

/// The mathematical value of a [`ServiceEntry`].
pub struct EntryView {
    pub name: Seq<char>,
    pub weight: u32,
    pub ip: Seq<char>,
    pub port: u16,
}

impl View for ServiceEntry {
    type V = EntryView;

    open spec fn view(&self) -> EntryView {
        EntryView { name: self.name@, weight: self.weight, ip: self.ip@, port: self.port }
    }
}

impl Clone for ServiceEntry {
    fn clone(&self) -> (r: Self)
        ensures
            r@ == self@,
    {
        ServiceEntry {
            name: self.name.clone(),
            weight: self.weight,
            ip: self.ip.clone(),
            port: self.port,
        }
    }
}

impl ServiceEntry {
    pub fn new(name: String, weight: u32, ip: String, port: u16) -> (r: Self)
        ensures
            r@ == (EntryView { name: name@, weight, ip: ip@, port }),
    {
        ServiceEntry { name, weight, ip, port }
    }

    /// The address of the backend: `ip:port`.
    pub fn address(&self) -> (r: String)
        ensures
            r@ == host_port(self.ip@, self.port),
    {
        join_host_port(self.ip.as_str(), self.port)
    }
}

/// The views of a sequence of entries.
pub open spec fn views(s: Seq<ServiceEntry>) -> Seq<EntryView> {
    s.map_values(|e: ServiceEntry| e@)
}

/// No two entries of `s` share a name.
pub open spec fn names_unique(s: Seq<EntryView>) -> bool {
    forall|i: int, j: int|
        0 <= i < s.len() && 0 <= j < s.len() && i != j ==> #[trigger] s[i].name != #[trigger] s[j].name
}

/// Some entry of `s` is named `n`.
pub open spec fn has_name(s: Seq<EntryView>, n: Seq<char>) -> bool {
    exists|i: int| 0 <= i < s.len() && #[trigger] s[i].name == n
}

/// The position of an entry named `n` (the only one, where names are unique).
pub open spec fn index_of_name(s: Seq<EntryView>, n: Seq<char>) -> int {
    choose|i: int| 0 <= i < s.len() && #[trigger] s[i].name == n
}

/// The pool after registering `e`: an entry of the same name is replaced in
/// place, otherwise `e` is appended.
pub open spec fn registered(s: Seq<EntryView>, e: EntryView) -> Seq<EntryView> {
    if has_name(s, e.name) {
        s.update(index_of_name(s, e.name), e)
    } else {
        s.push(e)
    }
}

/// The pool after unregistering `n`: the entry of that name, if any, is
/// removed and the order of the others is kept.
pub open spec fn unregistered(s: Seq<EntryView>, n: Seq<char>) -> Seq<EntryView> {
    if has_name(s, n) {
        s.remove(index_of_name(s, n))
    } else {
        s
    }
}

/// The pool that registering each entry of `d` in turn builds from an empty
/// one: the last entry of each name wins, at the place of its name's first one.
pub open spec fn pool_of(d: Seq<EntryView>) -> Seq<EntryView>
    decreases d.len(),
{
    if d.len() == 0 {
        Seq::empty()
    } else {
        registered(pool_of(d.drop_last()), d.last())
    }
}

/// The registry of backends. Names are unique; insertion order is kept.
pub struct ServiceRegistry {
    services: Vec<ServiceEntry>,
}

impl View for ServiceRegistry {
    type V = Seq<EntryView>;

    closed spec fn view(&self) -> Seq<EntryView> {
        self.services@.map_values(|e: ServiceEntry| e@)
    }
}

impl ServiceRegistry {
    pub open spec fn wf(&self) -> bool {
        names_unique(self@)
    }

    pub fn new() -> (r: Self)
        ensures
            r.wf(),
            r@ == Seq::<EntryView>::empty(),
    {
        let r = ServiceRegistry { services: Vec::new() };
        assert(r@ =~= Seq::<EntryView>::empty());
        r
    }

    /// The registry that registering each of `entries` in turn builds.
    pub fn from_entries(entries: &[ServiceEntry]) -> (r: Self)
        ensures
            r.wf(),
            r@ == pool_of(views(entries@)),
    {
        let ghost d = views(entries@);
        let mut r = ServiceRegistry::new();
        let mut i: usize = 0;
        assert(d.take(0) =~= Seq::<EntryView>::empty());
        while i < entries.len()
            invariant
                i <= entries.len(),
                d == views(entries@),
                r.wf(),
                r@ == pool_of(d.take(i as int)),
            decreases entries.len() - i,
        {
            assert(d.take(i + 1).drop_last() =~= d.take(i as int));
            r.register_service(entries[i].clone());
            i = i + 1;
        }
        assert(d.take(i as int) =~= d);
        r
    }

    /// The entry named `name`, if there is one.
    pub fn get(&self, name: &str) -> (r: Option<&ServiceEntry>)
        requires
            self.wf(),
        ensures
            match r {
                Some(e) => has_name(self@, name@) && e@ == self@[index_of_name(self@, name@)],
                None => !has_name(self@, name@),
            },
    {
        match self.position_of(name) {
            Some(i) => {
                proof {
                    lemma_index_of_name_unique(self@, i as int);
                }
                Some(&self.services[i])
            },
            None => None,
        }
    }

    /// The position of the entry named `name`, if there is one.
    fn position_of(&self, name: &str) -> (r: Option<usize>)
        ensures
            match r {
                Some(i) => i < self@.len() && self@[i as int].name == name@,
                None => !has_name(self@, name@),
            },
    {
        let mut i: usize = 0;
        while i < self.services.len()
            invariant
                i <= self.services.len(),
                self@.len() == self.services@.len(),
                forall|k: int| 0 <= k < i ==> #[trigger] self@[k].name != name@,
            decreases self.services.len() - i,
        {
            if str_eq(self.services[i].name.as_str(), name) {
                return Some(i);
            }
            i = i + 1;
        }
        None
    }

    /// Inserts `entry`, or replaces in place the entry of the same name.
    pub fn register_service(&mut self, entry: ServiceEntry)
        requires
            old(self).wf(),
        ensures
            final(self).wf(),
            final(self)@ == registered(old(self)@, entry@),
    {
        let ghost before = self@;
        match self.position_of(entry.name.as_str()) {
            Some(i) => {
                proof {
                    lemma_index_of_name_unique(before, i as int);
                }
                self.services[i] = entry;
                assert(self@ =~= before.update(i as int, entry@));
            },
            None => {
                self.services.push(entry);
                assert(self@ =~= before.push(entry@));
            },
        }
        proof {
            lemma_registered_keeps_names_unique(before, entry@);
        }
    }

    /// Removes the entry named `name`; tells whether there was one.
    pub fn unregister_service(&mut self, name: &str) -> (removed: bool)
        requires
            old(self).wf(),
        ensures
            final(self).wf(),
            removed == has_name(old(self)@, name@),
            final(self)@ == unregistered(old(self)@, name@),
    {
        let ghost before = self@;
        match self.position_of(name) {
            Some(i) => {
                proof {
                    lemma_index_of_name_unique(before, i as int);
                }
                self.services.remove(i);
                assert(self@ =~= before.remove(i as int));
                proof {
                    lemma_unregistered_keeps_names_unique(before, name@);
                }
                true
            },
            None => false,
        }
    }

    /// The address (`ip:port`) of the entry named `name`, if there is one.
    pub fn get_service_address(&self, name: &str) -> (r: Option<String>)
        requires
            self.wf(),
        ensures
            match r {
                Some(a) => has_name(self@, name@) && a@ == host_port(
                    self@[index_of_name(self@, name@)].ip,
                    self@[index_of_name(self@, name@)].port,
                ),
                None => !has_name(self@, name@),
            },
    {
        match self.position_of(name) {
            Some(i) => {
                proof {
                    lemma_index_of_name_unique(self@, i as int);
                }
                Some(self.services[i].address())
            },
            None => None,
        }
    }

    /// A copy of the current pool, in insertion order.
    pub fn list_services(&self) -> (r: Vec<ServiceEntry>)
        ensures
            r@.map_values(|e: ServiceEntry| e@) == self@,
    {
        let mut r: Vec<ServiceEntry> = Vec::new();
        let mut i: usize = 0;
        while i < self.services.len()
            invariant
                i <= self.services.len(),
                self@.len() == self.services@.len(),
                r@.len() == i,
                forall|k: int| 0 <= k < i ==> #[trigger] r@[k]@ == self@[k],
            decreases self.services.len() - i,
        {
            r.push(self.services[i].clone());
            i = i + 1;
        }
        assert(r@.map_values(|e: ServiceEntry| e@) =~= self@);
        r
    }
}

/// Where names are unique, the entry at `i` is the one found by its name.
pub proof fn lemma_index_of_name_unique(s: Seq<EntryView>, i: int)
    requires
        names_unique(s),
        0 <= i < s.len(),
    ensures
        has_name(s, s[i].name),
        index_of_name(s, s[i].name) == i,
{
    assert(s[i].name == s[i].name);
    let j = index_of_name(s, s[i].name);
    assert(s[j].name == s[i].name);
}

/// Registering keeps names unique.
pub proof fn lemma_registered_keeps_names_unique(s: Seq<EntryView>, e: EntryView)
    requires
        names_unique(s),
    ensures
        names_unique(registered(s, e)),
{
    let r = registered(s, e);
    if has_name(s, e.name) {
        let k = index_of_name(s, e.name);
        assert forall|a: int, b: int|
            0 <= a < r.len() && 0 <= b < r.len() && a != b implies
            #[trigger] r[a].name != #[trigger] r[b].name by {
            if a != k && b != k {
                assert(r[a] == s[a] && r[b] == s[b]);
            } else if a == k {
                assert(r[b] == s[b]);
                assert(s[k].name == e.name);
            } else {
                assert(r[a] == s[a]);
                assert(s[k].name == e.name);
            }
        }
    } else {
        assert forall|a: int, b: int|
            0 <= a < r.len() && 0 <= b < r.len() && a != b implies
            #[trigger] r[a].name != #[trigger] r[b].name by {
            if a < s.len() && b < s.len() {
                assert(r[a] == s[a] && r[b] == s[b]);
            } else if a < s.len() {
                assert(r[a] == s[a]);
            } else {
                assert(r[b] == s[b]);
            }
        }
    }
}

/// Unregistering keeps names unique.
pub proof fn lemma_unregistered_keeps_names_unique(s: Seq<EntryView>, n: Seq<char>)
    requires
        names_unique(s),
    ensures
        names_unique(unregistered(s, n)),
{
    if has_name(s, n) {
        let k = index_of_name(s, n);
        let r = unregistered(s, n);
        assert forall|a: int, b: int|
            0 <= a < r.len() && 0 <= b < r.len() && a != b implies
            #[trigger] r[a].name != #[trigger] r[b].name by {
            let a0 = if a < k { a } else { a + 1 };
            let b0 = if b < k { b } else { b + 1 };
            assert(r[a] == s[a0]);
            assert(r[b] == s[b0]);
        }
    }
}

/// The pool as a map from each name to its entry.
pub open spec fn pool_map(s: Seq<EntryView>) -> Map<Seq<char>, EntryView> {
    Map::new(|n: Seq<char>| has_name(s, n), |n: Seq<char>| s[index_of_name(s, n)])
}

/// Registering puts the entry under its name in the map of the pool.
pub proof fn lemma_pool_map_registered(s: Seq<EntryView>, e: EntryView)
    requires
        names_unique(s),
    ensures
        pool_map(registered(s, e)) == pool_map(s).insert(e.name, e),
{
    let t = registered(s, e);
    lemma_register_idempotent(s, e);
    lemma_registered_keeps_names_unique(s, e);
    let k = if has_name(s, e.name) {
        index_of_name(s, e.name)
    } else {
        s.len() as int
    };
    assert forall|n: Seq<char>| has_name(t, n) <==> has_name(s, n) || n == e.name by {
        if has_name(t, n) && n != e.name {
            let p = index_of_name(t, n);
            assert(p != k);
            assert(t[p] == s[p]);
        }
        if has_name(s, n) && n != e.name {
            let p = index_of_name(s, n);
            assert(p != k);
            assert(t[p] == s[p]);
        }
    }
    assert forall|n: Seq<char>| has_name(t, n) && n != e.name implies t[index_of_name(t, n)]
        == s[index_of_name(s, n)] by {
        let p = index_of_name(t, n);
        assert(p != k);
        assert(t[p] == s[p]);
        lemma_index_of_name_unique(s, p);
    }
    assert(pool_map(t) =~= pool_map(s).insert(e.name, e));
}

/// Unregistering takes the name out of the map of the pool.
pub proof fn lemma_pool_map_unregistered(s: Seq<EntryView>, n: Seq<char>)
    requires
        names_unique(s),
    ensures
        pool_map(unregistered(s, n)) == pool_map(s).remove(n),
{
    let t = unregistered(s, n);
    lemma_unregistered_keeps_names_unique(s, n);
    if has_name(s, n) {
        let k = index_of_name(s, n);
        lemma_unregister_twice(s, n);
        assert forall|m: Seq<char>| m != n implies (has_name(t, m) <==> has_name(s, m)) by {
            if has_name(t, m) {
                let p = index_of_name(t, m);
                let p0 = if p < k { p } else { p + 1 };
                assert(t[p] == s[p0]);
            }
            if has_name(s, m) {
                let p = index_of_name(s, m);
                assert(p != k);
                let p1 = if p < k { p } else { p - 1 };
                assert(t[p1] == s[p]);
            }
        }
        assert forall|m: Seq<char>| has_name(t, m) implies t[index_of_name(t, m)] == s[index_of_name(
            s,
            m,
        )] by {
            let p = index_of_name(t, m);
            let p0 = if p < k { p } else { p + 1 };
            assert(t[p] == s[p0]);
            lemma_index_of_name_unique(s, p0);
        }
    }
    assert(pool_map(t) =~= pool_map(s).remove(n));
}

/// Registering the same entry again changes nothing, and leaves exactly one
/// entry of that name, holding the latest values.
pub proof fn lemma_register_idempotent(s: Seq<EntryView>, e: EntryView)
    requires
        names_unique(s),
    ensures
        registered(registered(s, e), e) == registered(s, e),
        has_name(registered(s, e), e.name),
        forall|i: int|
            0 <= i < registered(s, e).len() && #[trigger] registered(s, e)[i].name == e.name
                ==> registered(s, e)[i] == e,
{
    let r = registered(s, e);
    lemma_registered_keeps_names_unique(s, e);
    let k = if has_name(s, e.name) {
        index_of_name(s, e.name)
    } else {
        s.len() as int
    };
    assert(r[k] == e);
    lemma_index_of_name_unique(r, k);
    assert(r.update(k, e) =~= r);
    assert forall|i: int| 0 <= i < r.len() && #[trigger] r[i].name == e.name implies r[i] == e by {
        assert(i == k);
    }
}

/// Unregistering a present name succeeds once: afterwards the name is absent,
/// so a second attempt finds nothing to remove.
pub proof fn lemma_unregister_twice(s: Seq<EntryView>, n: Seq<char>)
    requires
        names_unique(s),
        has_name(s, n),
    ensures
        !has_name(unregistered(s, n), n),
        unregistered(unregistered(s, n), n) == unregistered(s, n),
{
    let k = index_of_name(s, n);
    let r = unregistered(s, n);
    assert(s[k].name == n);
    if has_name(r, n) {
        let j = choose|j: int| 0 <= j < r.len() && #[trigger] r[j].name == n;
        let j0 = if j < k { j } else { j + 1 };
        assert(r[j] == s[j0]);
    }
}

} // verus!
