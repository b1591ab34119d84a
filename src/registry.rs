use vstd::prelude::*;
use vstd::string::StringSliceAdditionalSpecFns;
use vstd::utf8::encode_utf8;

use crate::backends::{
    backend_at, backend_entries, backends_contain, backends_insert, backends_len,
    backends_remove, empty_backends, unique_ids, BackendSet,
};
use crate::config::{RouteView, Service, ServiceView};
use crate::matching::{compute_path_prefix_match, match_length};
use crate::net::Ipv4Address;
use crate::text::str_eq;

verus! {

/// The identifier that the container engine gave a container.
#[derive(Debug)]
pub struct ContainerId(pub String);

impl Clone for ContainerId {
    fn clone(&self) -> (r: ContainerId)
        ensures
            r.0@ == self.0@,
    {
        ContainerId(self.0.clone())
    }
}

impl PartialEq for ContainerId {
    fn eq(&self, other: &ContainerId) -> (r: bool) {
        self.0 == other.0
    }
}

impl vstd::std_specs::cmp::PartialEqSpecImpl for ContainerId {
    open spec fn obeys_eq_spec() -> bool {
        true
    }

    open spec fn eq_spec(&self, other: &ContainerId) -> bool {
        self.0@ == other.0@
    }
}

/// A running container of a service and its address on the shared network.
#[derive(Debug)]
pub struct StartedContainerDetails {
    pub id: ContainerId,
    pub addr: Ipv4Address,
}

impl View for StartedContainerDetails {
    type V = (Seq<char>, Ipv4Address);

    open spec fn view(&self) -> (Seq<char>, Ipv4Address) {
        (self.id.0@, self.addr)
    }
}

impl Clone for StartedContainerDetails {
    fn clone(&self) -> (r: StartedContainerDetails)
        ensures
            r@ == self@,
    {
        StartedContainerDetails { id: self.id.clone(), addr: self.addr }
    }
}

impl PartialEq for StartedContainerDetails {
    fn eq(&self, other: &StartedContainerDetails) -> (r: bool) {
        self.id == other.id && self.addr == other.addr
    }
}

impl vstd::std_specs::cmp::PartialEqSpecImpl for StartedContainerDetails {
    open spec fn obeys_eq_spec() -> bool {
        true
    }

    open spec fn eq_spec(&self, other: &StartedContainerDetails) -> bool {
        self@ == other@
    }
}

pub open spec fn details_view(s: Seq<StartedContainerDetails>) -> Seq<(Seq<char>, Ipv4Address)> {
    s.map_values(|d: StartedContainerDetails| d@)
}

/// A declared service and, once it has any, its running containers.
struct ServiceEntry {
    name: String,
    definition: Service,
    containers: Option<BackendSet>,
}

/// The view of one declared service of a registry.
pub struct EntryView {
    pub name: Seq<char>,
    pub definition: ServiceView,
    pub backends: Option<Seq<(Seq<char>, Ipv4Address)>>,
}

pub open spec fn opt_backends(c: Option<BackendSet>) -> Option<Seq<(Seq<char>, Ipv4Address)>> {
    match c {
        Some(m) => Some(backend_entries(m)),
        None => None,
    }
}

impl View for ServiceEntry {
    type V = EntryView;

    closed spec fn view(&self) -> EntryView {
        EntryView { name: self.name@, definition: self.definition@, backends: opt_backends(self.containers) }
    }
}

/// Whether `name` is declared.
pub open spec fn has_entry(es: Seq<EntryView>, name: Seq<char>) -> bool {
    exists|i: int| 0 <= i < es.len() && #[trigger] es[i].name == name
}

/// The position of a declared `name`.
pub open spec fn entry_pos(es: Seq<EntryView>, name: Seq<char>) -> int {
    choose|i: int| 0 <= i < es.len() && #[trigger] es[i].name == name
}

/// The bytes of a route's prefix.
pub open spec fn prefix_bytes(r: RouteView) -> Option<Seq<u8>> {
    match r.prefix {
        Some(p) => Some(encode_utf8(p)),
        None => None,
    }
}

/// The entry of `name`, if it is declared.
pub open spec fn lookup(es: Seq<EntryView>, name: Seq<char>) -> Option<EntryView> {
    if has_entry(es, name) {
        Some(es[entry_pos(es, name)])
    } else {
        None
    }
}

pub open spec fn unique_entry_names(es: Seq<EntryView>) -> bool {
    forall|i: int, j: int|
        0 <= i < es.len() && 0 <= j < es.len() && #[trigger] es[i].name == #[trigger] es[j].name
            ==> i == j
}

proof fn lemma_pos(es: Seq<EntryView>, i: int)
    requires
        unique_entry_names(es),
        0 <= i < es.len(),
    ensures
        has_entry(es, es[i].name),
        entry_pos(es, es[i].name) == i,
        lookup(es, es[i].name) == Some(es[i]),
{
    assert(es[i].name == es[i].name);
    let k = entry_pos(es, es[i].name);
    assert(es[k].name == es[i].name);
}

/// Replacing the entry at `p` by one of the same name changes the lookup of
/// that name only.
proof fn lemma_replace_entry(es: Seq<EntryView>, p: int, e: EntryView)
    requires
        unique_entry_names(es),
        0 <= p < es.len(),
        e.name == es[p].name,
    ensures
        unique_entry_names(es.update(p, e)),
        lookup(es.update(p, e), e.name) == Some(e),
        forall|n: Seq<char>| n != e.name ==> #[trigger] lookup(es.update(p, e), n) == lookup(es, n),
{
    let ns = es.update(p, e);
    assert forall|i: int, j: int|
        0 <= i < ns.len() && 0 <= j < ns.len() && #[trigger] ns[i].name == #[trigger] ns[j].name implies i == j by {
        assert(es[i].name == es[j].name);
    }
    lemma_pos(ns, p);
    assert forall|n: Seq<char>| n != e.name implies #[trigger] lookup(ns, n) == lookup(es, n) by {
        if has_entry(es, n) {
            let k = entry_pos(es, n);
            assert(ns[k].name == n);
            lemma_pos(ns, k);
            lemma_pos(es, k);
        }
        if has_entry(ns, n) {
            let k = entry_pos(ns, n);
            assert(es[k].name == n);
        }
    }
}

/// Appending an entry of a new name adds the lookup of that name only.
proof fn lemma_push_entry(es: Seq<EntryView>, e: EntryView)
    requires
        unique_entry_names(es),
        !has_entry(es, e.name),
    ensures
        unique_entry_names(es.push(e)),
        lookup(es.push(e), e.name) == Some(e),
        forall|n: Seq<char>| n != e.name ==> #[trigger] lookup(es.push(e), n) == lookup(es, n),
{
    let ns = es.push(e);
    assert forall|i: int, j: int|
        0 <= i < ns.len() && 0 <= j < ns.len() && #[trigger] ns[i].name == #[trigger] ns[j].name implies i == j by {
        if i < es.len() && j == es.len() {
            assert(es[i].name == e.name);
        }
        if j < es.len() && i == es.len() {
            assert(es[j].name == e.name);
        }
    }
    lemma_pos(ns, es.len() as int);
    assert forall|n: Seq<char>| n != e.name implies #[trigger] lookup(ns, n) == lookup(es, n) by {
        if has_entry(es, n) {
            let k = entry_pos(es, n);
            assert(ns[k].name == n);
            lemma_pos(ns, k);
            lemma_pos(es, k);
        }
        if has_entry(ns, n) {
            let k = entry_pos(ns, n);
            assert(es[k].name == n);
        }
    }
}

/// Removing the entry at `p` removes the lookup of its name only.
proof fn lemma_remove_entry(es: Seq<EntryView>, p: int)
    requires
        unique_entry_names(es),
        0 <= p < es.len(),
    ensures
        unique_entry_names(es.remove(p)),
        lookup(es.remove(p), es[p].name) is None,
        forall|n: Seq<char>| n != es[p].name ==> #[trigger] lookup(es.remove(p), n) == lookup(es, n),
{
    let ns = es.remove(p);
    assert forall|i: int, j: int|
        0 <= i < ns.len() && 0 <= j < ns.len() && #[trigger] ns[i].name == #[trigger] ns[j].name implies i == j by {
        let oi = if i < p { i } else { i + 1 };
        let oj = if j < p { j } else { j + 1 };
        assert(es[oi].name == es[oj].name);
    }
    if has_entry(ns, es[p].name) {
        let k = entry_pos(ns, es[p].name);
        let ok = if k < p { k } else { k + 1 };
        assert(es[ok].name == es[p].name);
    }
    assert forall|n: Seq<char>| n != es[p].name implies #[trigger] lookup(ns, n) == lookup(es, n) by {
        if has_entry(es, n) {
            let k = entry_pos(es, n);
            let nk = if k < p { k } else { k - 1 };
            assert(ns[nk].name == n);
            lemma_pos(ns, nk);
            lemma_pos(es, k);
        }
        if has_entry(ns, n) {
            let k = entry_pos(ns, n);
            let ok = if k < p { k } else { k + 1 };
            assert(es[ok].name == n);
        }
    }
}

/// Route `j` of service `i` serves `host`.
pub open spec fn is_candidate(es: Seq<EntryView>, host: Seq<char>, i: int, j: int) -> bool {
    0 <= i < es.len() && 0 <= j < es[i].definition.routes.len()
        && es[i].definition.routes[j].host == host
}

/// How far `path` is from route `j` of service `i`.
pub open spec fn cost(es: Seq<EntryView>, path: Seq<u8>, i: int, j: int) -> int {
    match_length(path, prefix_bytes(es[i].definition.routes[j]))
}

/// Route `j` of service `i` is the one chosen for `host` and `path`: it serves
/// the host, no route of the host matches the path more closely, and every
/// route that comes before it (by service, then by route) matches less closely.
pub open spec fn is_best(es: Seq<EntryView>, host: Seq<char>, path: Seq<u8>, i: int, j: int) -> bool {
    &&& is_candidate(es, host, i, j)
    &&& forall|i2: int, j2: int|
        #[trigger] is_candidate(es, host, i2, j2) ==> cost(es, path, i, j) <= cost(es, path, i2, j2)
    &&& forall|i2: int, j2: int|
        #[trigger] is_candidate(es, host, i2, j2) && (i2 < i || (i2 == i && j2 < j)) ==> cost(
            es,
            path,
            i2,
            j2,
        ) > cost(es, path, i, j)
}

/// `s` with `d` added last, unless a container of the same id is there.
pub open spec fn with_backend(s: Seq<(Seq<char>, Ipv4Address)>, d: (Seq<char>, Ipv4Address)) -> Seq<(Seq<char>, Ipv4Address)> {
    if exists|i: int| 0 <= i < s.len() && #[trigger] s[i].0 == d.0 {
        s
    } else {
        s.push(d)
    }
}

/// `s` without the container `id`.
pub open spec fn without_id(s: Seq<(Seq<char>, Ipv4Address)>, id: Seq<char>) -> Seq<(Seq<char>, Ipv4Address)> {
    if exists|i: int| 0 <= i < s.len() && #[trigger] s[i].0 == id {
        s.remove(choose|i: int| 0 <= i < s.len() && #[trigger] s[i].0 == id)
    } else {
        s
    }
}

/// `es` with the entry of `name` made `e`; a new name is appended.
pub open spec fn put_entry(es: Seq<EntryView>, e: EntryView) -> Seq<EntryView> {
    if has_entry(es, e.name) {
        es.update(entry_pos(es, e.name), e)
    } else {
        es.push(e)
    }
}

/// `es` with the containers of a declared `name` made `b`.
pub open spec fn put_backends(
    es: Seq<EntryView>,
    name: Seq<char>,
    b: Option<Seq<(Seq<char>, Ipv4Address)>>,
) -> Seq<EntryView> {
    if has_entry(es, name) {
        es.update(
            entry_pos(es, name),
            EntryView { name, definition: es[entry_pos(es, name)].definition, backends: b },
        )
    } else {
        es
    }
}

/// `es` without the entry of `name`.
pub open spec fn drop_entry(es: Seq<EntryView>, name: Seq<char>) -> Seq<EntryView> {
    if has_entry(es, name) {
        es.remove(entry_pos(es, name))
    } else {
        es
    }
}

/// The containers of `name` in `es`, none if it has no set.
pub open spec fn entry_backends(es: Seq<EntryView>, name: Seq<char>) -> Seq<(Seq<char>, Ipv4Address)> {
    if has_entry(es, name) && es[entry_pos(es, name)].backends is Some {
        es[entry_pos(es, name)].backends->Some_0
    } else {
        Seq::empty()
    }
}

/// The containers of `s`, in order, each id kept at its first occurrence.
pub open spec fn distinct_backends(s: Seq<(Seq<char>, Ipv4Address)>) -> Seq<(Seq<char>, Ipv4Address)>
    decreases s.len(),
{
    if s.len() == 0 {
        Seq::empty()
    } else {
        with_backend(distinct_backends(s.drop_last()), s.last())
    }
}

/// The containers of `name`, none if it has no set.
pub open spec fn backends_or_empty(m: Map<Seq<char>, Seq<(Seq<char>, Ipv4Address)>>, name: Seq<char>) -> Seq<(Seq<char>, Ipv4Address)> {
    if m.contains_key(name) {
        m[name]
    } else {
        Seq::empty()
    }
}

/// The entries of a backend set as container details.
fn collect_backends(set: &BackendSet) -> (r: Vec<StartedContainerDetails>)
    ensures
        details_view(r@) == backend_entries(*set),
{
    let n = backends_len(set);
    let mut r: Vec<StartedContainerDetails> = Vec::new();
    let mut i: usize = 0;
    while i < n
        invariant
            n == backend_entries(*set).len(),
            i <= n,
            details_view(r@) == backend_entries(*set).subrange(0, i as int),
        decreases n - i,
    {
        let (id, addr) = backend_at(set, i);
        let ghost prev = r@;
        r.push(StartedContainerDetails { id: ContainerId(id), addr });
        assert(details_view(r@) =~= details_view(prev).push(backend_entries(*set)[i as int]));
        assert(backend_entries(*set).subrange(0, i + 1) =~= backend_entries(*set).subrange(0, i as int).push(backend_entries(*set)[i as int]));
        i = i + 1;
    }
    assert(backend_entries(*set).subrange(0, n as int) =~= backend_entries(*set));
    r
}

/// The registry of declared services and their running containers.
pub struct ServiceRegistry {
    entries: Vec<ServiceEntry>,
}

impl ServiceRegistry {
    /// The declared services, in the order they were first declared.
    pub closed spec fn entries_view(&self) -> Seq<EntryView> {
        self.entries@.map_values(|e: ServiceEntry| e@)
    }

    /// Names are unique, and so are the container ids of each service.
    pub open spec fn wf(&self) -> bool {
        &&& unique_entry_names(self.entries_view())
        &&& forall|i: int|
            0 <= i < self.entries_view().len() && (#[trigger] self.entries_view()[i]).backends is Some
                ==> unique_ids(self.entries_view()[i].backends->Some_0)
    }

    /// The declarations, by name.
    pub open spec fn definitions(&self) -> Map<Seq<char>, ServiceView> {
        Map::new(
            |n: Seq<char>| lookup(self.entries_view(), n) is Some,
            |n: Seq<char>| lookup(self.entries_view(), n)->Some_0.definition,
        )
    }

    /// The running containers, by service name.
    pub open spec fn backends(&self) -> Map<Seq<char>, Seq<(Seq<char>, Ipv4Address)>> {
        Map::new(
            |n: Seq<char>|
                lookup(self.entries_view(), n) is Some && lookup(self.entries_view(), n)->Some_0.backends is Some,
            |n: Seq<char>| lookup(self.entries_view(), n)->Some_0.backends->Some_0,
        )
    }

    pub fn new() -> (r: ServiceRegistry)
        ensures
            r.wf(),
            r.entries_view() == Seq::<EntryView>::empty(),
            r.definitions() == Map::<Seq<char>, ServiceView>::empty(),
            r.backends() == Map::<Seq<char>, Seq<(Seq<char>, Ipv4Address)>>::empty(),
    {
        let r = ServiceRegistry { entries: Vec::new() };
        assert(r.entries_view() =~= Seq::<EntryView>::empty());
        assert(r.definitions() =~= Map::<Seq<char>, ServiceView>::empty());
        assert(r.backends() =~= Map::<Seq<char>, Seq<(Seq<char>, Ipv4Address)>>::empty());
        r
    }


    proof fn lemma_view_replace(self, other: Self, p: int, e: ServiceEntry)
        requires
            0 <= p < self.entries@.len(),
            other.entries@ == self.entries@.update(p, e),
        ensures
            other.entries_view() == self.entries_view().update(p, e@),
    {
        assert(other.entries_view() =~= self.entries_view().update(p, e@));
    }

    /// Declares `service`, or replaces its declaration; its containers stay.
    pub fn define(&mut self, service: &str, definition: Service)
        requires
            old(self).wf(),
        ensures
            final(self).entries_view() == put_entry(
                old(self).entries_view(),
                EntryView {
                    name: service@,
                    definition: definition@,
                    backends: if has_entry(old(self).entries_view(), service@) {
                        old(self).entries_view()[entry_pos(old(self).entries_view(), service@)].backends
                    } else {
                        None
                    },
                },
            ),
            final(self).wf(),
            final(self).definitions() == old(self).definitions().insert(service@, definition@),
            final(self).backends() == old(self).backends(),
    {
        let ghost es = self.entries_view();
        match self.position(service) {
            Some(p) => {
                let mut e = self.entries.remove(p);
                e.definition = definition;
                self.entries.insert(p, e);
                proof {
                    assert(self.entries@ =~= old(self).entries@.update(p as int, e));
                    old(self).lemma_view_replace(*self, p as int, e);
                    lemma_pos(es, p as int);
                    lemma_replace_entry(es, p as int, e@);
                }
            },
            None => {
                let e = ServiceEntry { name: service.to_owned(), definition, containers: None };
                self.entries.push(e);
                proof {
                    assert(self.entries_view() =~= es.push(e@));
                    lemma_push_entry(es, e@);
                }
            },
        }
        proof {
            let ns = self.entries_view();
            assert forall|i: int| 0 <= i < ns.len() && (#[trigger] ns[i]).backends is Some
                implies unique_ids(ns[i].backends->Some_0) by {
                lemma_pos(ns, i);
                if ns[i].name != service@ {
                    lemma_pos(es, entry_pos(es, ns[i].name));
                }
            }
            assert(self.definitions() =~= old(self).definitions().insert(service@, definition@));
            assert(self.backends() =~= old(self).backends());
        }
    }

    /// Removes the declaration of `service` together with its containers.
    pub fn undefine(&mut self, service: &str)
        requires
            old(self).wf(),
        ensures
            final(self).entries_view() == drop_entry(old(self).entries_view(), service@),
            final(self).wf(),
            final(self).definitions() == old(self).definitions().remove(service@),
            final(self).backends() == old(self).backends().remove(service@),
    {
        let ghost es = self.entries_view();
        match self.position(service) {
            Some(p) => {
                let _ = self.entries.remove(p);
                proof {
                    assert(self.entries_view() =~= es.remove(p as int));
                    lemma_pos(es, p as int);
                    lemma_remove_entry(es, p as int);
                    let ns = self.entries_view();
                    assert forall|i: int| 0 <= i < ns.len() && (#[trigger] ns[i]).backends is Some
                        implies unique_ids(ns[i].backends->Some_0) by {
                        let oi = if i < p { i } else { i + 1 };
                        assert(ns[i] == es[oi]);
                    }
                }
            },
            None => {},
        }
        assert(self.definitions() =~= old(self).definitions().remove(service@));
        assert(self.backends() =~= old(self).backends().remove(service@));
    }

    /// Adds a running container to a declared `service`, last in order. A
    /// container whose id is there already, or one of an undeclared service,
    /// is ignored.
    pub fn add_container(&mut self, service: &str, details: StartedContainerDetails)
        requires
            old(self).wf(),
        ensures
            final(self).entries_view() == put_backends(
                old(self).entries_view(),
                service@,
                Some(with_backend(entry_backends(old(self).entries_view(), service@), details@)),
            ),
            final(self).wf(),
            final(self).definitions() == old(self).definitions(),
            old(self).definitions().contains_key(service@) ==> final(self).backends()
                == old(self).backends().insert(
                service@,
                with_backend(backends_or_empty(old(self).backends(), service@), details@),
            ),
            !old(self).definitions().contains_key(service@) ==> final(self).backends()
                == old(self).backends(),
    {
        let ghost es = self.entries_view();
        match self.position(service) {
            Some(p) => {
                let mut e = self.entries.remove(p);
                let ghost before = opt_backends(e.containers);
                let mut set = match e.containers {
                    Some(c) => c,
                    None => empty_backends(),
                };
                let ghost s0 = backend_entries(set);
                if !backends_contain(&set, details.id.0.as_str()) {
                    backends_insert(&mut set, details.id.0, details.addr);
                }
                e.containers = Some(set);
                self.entries.insert(p, e);
                proof {
                    lemma_pos(es, p as int);
                    assert(s0 == backends_or_empty(old(self).backends(), service@));
                    assert(backend_entries(set) == with_backend(s0, details@));
                    if !(exists|i: int| 0 <= i < s0.len() && #[trigger] s0[i].0 == details@.0) {
                        assert forall|i: int, j: int|
                            0 <= i < backend_entries(set).len() && 0 <= j < backend_entries(set).len()
                                && #[trigger] backend_entries(set)[i].0 == #[trigger] backend_entries(set)[j].0
                            implies i == j by {
                            if i < s0.len() && j == s0.len() {
                                assert(s0[i].0 == details@.0);
                            }
                            if j < s0.len() && i == s0.len() {
                                assert(s0[j].0 == details@.0);
                            }
                        }
                    }
                    assert(unique_ids(backend_entries(set)));
                    assert(self.entries@ =~= old(self).entries@.update(p as int, e));
                    old(self).lemma_view_replace(*self, p as int, e);
                    lemma_replace_entry(es, p as int, e@);
                    let ns = self.entries_view();
                    assert forall|i: int| 0 <= i < ns.len() && (#[trigger] ns[i]).backends is Some
                        implies unique_ids(ns[i].backends->Some_0) by {
                        lemma_pos(ns, i);
                        if ns[i].name != service@ {
                            lemma_pos(es, entry_pos(es, ns[i].name));
                        }
                    }
                    assert(self.definitions() =~= old(self).definitions());
                    assert(self.backends() =~= old(self).backends().insert(
                        service@,
                        with_backend(backends_or_empty(old(self).backends(), service@), details@),
                    ));
                }
            },
            None => {
                assert(self.backends() =~= old(self).backends());
            },
        }
    }

    /// Forgets every container of `service`; its declaration stays.
    pub fn remove_all_containers(&mut self, service: &str)
        requires
            old(self).wf(),
        ensures
            final(self).entries_view() == put_backends(old(self).entries_view(), service@, None),
            final(self).wf(),
            final(self).definitions() == old(self).definitions(),
            final(self).backends() == old(self).backends().remove(service@),
    {
        let ghost es = self.entries_view();
        match self.position(service) {
            Some(p) => {
                let mut e = self.entries.remove(p);
                e.containers = None;
                self.entries.insert(p, e);
                proof {
                    lemma_pos(es, p as int);
                    assert(self.entries@ =~= old(self).entries@.update(p as int, e));
                    old(self).lemma_view_replace(*self, p as int, e);
                    lemma_replace_entry(es, p as int, e@);
                    let ns = self.entries_view();
                    assert forall|i: int| 0 <= i < ns.len() && (#[trigger] ns[i]).backends is Some
                        implies unique_ids(ns[i].backends->Some_0) by {
                        lemma_pos(ns, i);
                        if ns[i].name != service@ {
                            lemma_pos(es, entry_pos(es, ns[i].name));
                        }
                    }
                    assert(self.definitions() =~= old(self).definitions());
                    assert(self.backends() =~= old(self).backends().remove(service@));
                }
            },
            None => {
                assert(self.backends() =~= old(self).backends().remove(service@));
            },
        }
    }

    /// Forgets the container `id` of `service`; the others keep their order.
    pub fn remove_container_by_id(&mut self, service: &str, id: &ContainerId)
        requires
            old(self).wf(),
        ensures
            final(self).entries_view() == put_backends(
                old(self).entries_view(),
                service@,
                if has_entry(old(self).entries_view(), service@)
                    && old(self).entries_view()[entry_pos(old(self).entries_view(), service@)].backends is Some {
                    Some(without_id(entry_backends(old(self).entries_view(), service@), id.0@))
                } else {
                    None
                },
            ),
            final(self).wf(),
            final(self).definitions() == old(self).definitions(),
            old(self).backends().contains_key(service@) ==> final(self).backends()
                == old(self).backends().insert(
                service@,
                without_id(old(self).backends()[service@], id.0@),
            ),
            !old(self).backends().contains_key(service@) ==> final(self).backends()
                == old(self).backends(),
    {
        let ghost es = self.entries_view();
        match self.position(service) {
            Some(p) => {
                let mut e = self.entries.remove(p);
                let ghost was = e.containers;
                match e.containers {
                    Some(mut set) => {
                        let ghost s0 = backend_entries(set);
                        backends_remove(&mut set, id.0.as_str());
                        e.containers = Some(set);
                        proof {
                            lemma_pos(es, p as int);
                            assert(unique_ids(s0));
                            if exists|i: int| 0 <= i < s0.len() && #[trigger] s0[i].0 == id.0@ {
                                let k = choose|i: int| 0 <= i < s0.len() && #[trigger] s0[i].0 == id.0@;
                                assert(backend_entries(set) == s0.remove(k));
                                assert forall|i: int, j: int|
                                    0 <= i < backend_entries(set).len() && 0 <= j < backend_entries(set).len()
                                        && #[trigger] backend_entries(set)[i].0 == #[trigger] backend_entries(set)[j].0
                                    implies i == j by {
                                    let oi = if i < k { i } else { i + 1 };
                                    let oj = if j < k { j } else { j + 1 };
                                    assert(s0[oi].0 == s0[oj].0);
                                }
                            }
                            assert(backend_entries(set) == without_id(s0, id.0@));
                        }
                    },
                    None => {},
                }
                self.entries.insert(p, e);
                proof {
                    lemma_pos(es, p as int);
                    assert(self.entries@ =~= old(self).entries@.update(p as int, e));
                    old(self).lemma_view_replace(*self, p as int, e);
                    lemma_replace_entry(es, p as int, e@);
                    let ns = self.entries_view();
                    assert forall|i: int| 0 <= i < ns.len() && (#[trigger] ns[i]).backends is Some
                        implies unique_ids(ns[i].backends->Some_0) by {
                        lemma_pos(ns, i);
                        if ns[i].name != service@ {
                            lemma_pos(es, entry_pos(es, ns[i].name));
                        }
                    }
                    assert(self.definitions() =~= old(self).definitions());
                    if old(self).backends().contains_key(service@) {
                        assert(self.backends() =~= old(self).backends().insert(
                            service@,
                            without_id(old(self).backends()[service@], id.0@),
                        ));
                    } else {
                        assert(self.backends() =~= old(self).backends());
                    }
                }
            },
            None => {
                assert(self.backends() =~= old(self).backends());
            },
        }
    }

    /// The running containers of `service`, in the order they were added;
    /// `None` when it has no set of containers.
    pub fn get_running_containers(&self, service: &str) -> (r: Option<Vec<StartedContainerDetails>>)
        requires
            self.wf(),
        ensures
            r is Some <==> self.backends().contains_key(service@),
            r is Some ==> details_view(r->Some_0@) == self.backends()[service@],
    {
        match self.position(service) {
            Some(p) => {
                proof {
                    lemma_pos(self.entries_view(), p as int);
                    assert(self.entries_view()[p as int] == self.entries@[p as int]@);
                }
                match &self.entries[p].containers {
                    Some(set) => Some(collect_backends(set)),
                    None => None,
                }
            },
            None => None,
        }
    }

    /// The containers and port for a request to `host` and `path`. Among the
    /// routes of every service that serve `host`, the one with the longest
    /// matching prefix is chosen (a route without prefix matches every path,
    /// one whose prefix does not match comes last; the first in order wins a
    /// tie). The result is its service's running containers and the route's
    /// port, or `None` when no route serves the host or the chosen service has
    /// no running container.
    pub fn find_downstreams(&self, host: &str, path: &str) -> (r: Option<(Vec<StartedContainerDetails>, u16)>)
        requires
            self.wf(),
        ensures
            (exists|i: int, j: int| is_candidate(self.entries_view(), host@, i, j)) <==> (exists|i: int, j: int|
                is_best(self.entries_view(), host@, path.spec_bytes(), i, j)),
            (forall|i: int, j: int| !is_candidate(self.entries_view(), host@, i, j)) ==> r is None,
            forall|i: int, j: int|
                #[trigger] is_best(self.entries_view(), host@, path.spec_bytes(), i, j) ==> {
                    &&& (r is Some <==> (self.entries_view()[i].backends is Some
                        && self.entries_view()[i].backends->Some_0.len() > 0))
                    &&& (r is Some ==> details_view(r->Some_0.0@) == self.entries_view()[i].backends->Some_0
                        && r->Some_0.1 == self.entries_view()[i].definition.routes[j].port)
                },
    {
        let ghost es = self.entries_view();
        let ghost pb = path.spec_bytes();
        let mut best: Option<(usize, usize, usize)> = None;
        let mut i: usize = 0;
        while i < self.entries.len()
            invariant
                self.wf(),
                es == self.entries_view(),
                pb == path.spec_bytes(),
                i <= es.len(),
                best is None ==> forall|i2: int, j2: int| i2 < i ==> !is_candidate(es, host@, i2, j2),
                best is Some ==> {
                    let (bi, bj, bc) = best->Some_0;
                    &&& is_candidate(es, host@, bi as int, bj as int)
                    &&& bi < i
                    &&& bc == cost(es, pb, bi as int, bj as int)
                    &&& forall|i2: int, j2: int|
                        #[trigger] is_candidate(es, host@, i2, j2) && i2 < i ==> bc <= cost(es, pb, i2, j2)
                    &&& forall|i2: int, j2: int|
                        #[trigger] is_candidate(es, host@, i2, j2) && (i2 < bi || (i2 == bi && j2 < bj))
                            ==> cost(es, pb, i2, j2) > bc
                },
            decreases es.len() - i,
        {
            let routes = &self.entries[i].definition.routes;
            proof {
                assert(es[i as int] == self.entries@[i as int]@);
                assert(es[i as int].definition.routes == crate::config::routes_view(routes@));
            }
            let mut j: usize = 0;
            while j < routes.len()
                invariant
                    self.wf(),
                    es == self.entries_view(),
                    pb == path.spec_bytes(),
                    i < es.len(),
                    j <= routes@.len(),
                    routes == &self.entries@[i as int].definition.routes,
                    es[i as int].definition.routes == crate::config::routes_view(routes@),
                    best is None ==> forall|i2: int, j2: int|
                        (i2 < i || (i2 == i && j2 < j)) ==> !is_candidate(es, host@, i2, j2),
                    best is Some ==> {
                        let (bi, bj, bc) = best->Some_0;
                        &&& is_candidate(es, host@, bi as int, bj as int)
                        &&& (bi < i || (bi == i && bj < j))
                        &&& bc == cost(es, pb, bi as int, bj as int)
                        &&& forall|i2: int, j2: int|
                            #[trigger] is_candidate(es, host@, i2, j2) && (i2 < i || (i2 == i && j2 < j))
                                ==> bc <= cost(es, pb, i2, j2)
                        &&& forall|i2: int, j2: int|
                            #[trigger] is_candidate(es, host@, i2, j2) && (i2 < bi || (i2 == bi && j2 < bj))
                                ==> cost(es, pb, i2, j2) > bc
                    },
                decreases routes@.len() - j,
            {
                let route = &routes[j];
                proof {
                    assert(es[i as int].definition.routes[j as int] == route@);
                }
                if str_eq(route.host.as_str(), host) {
                    let prefix: Option<&str> = match &route.prefix {
                        Some(p) => Some(p.as_str()),
                        None => None,
                    };
                    let c = compute_path_prefix_match(path, prefix);
                    assert(c == cost(es, pb, i as int, j as int));
                    match best {
                        None => {
                            best = Some((i, j, c));
                        },
                        Some((_, _, bc)) => {
                            if c < bc {
                                best = Some((i, j, c));
                            }
                        },
                    }
                }
                j = j + 1;
            }
            i = i + 1;
        }
        match best {
            None => None,
            Some((bi, bj, _)) => {
                proof {
                    assert(is_best(es, host@, pb, bi as int, bj as int));
                    assert forall|i: int, j: int| #[trigger] is_best(es, host@, pb, i, j) implies i == bi
                        && j == bj by {
                        if i < bi || (i == bi && j < bj) {
                            assert(is_candidate(es, host@, i, j));
                        }
                        if bi < i || (bi == i && bj < j) {
                            assert(is_candidate(es, host@, bi as int, bj as int));
                        }
                    }
                    assert(es[bi as int] == self.entries@[bi as int]@);
                    assert(es[bi as int].definition.routes[bj as int] == self.entries@[bi as int].definition.routes@[bj as int]@);
                }
                match &self.entries[bi].containers {
                    Some(set) => {
                        if backends_len(set) > 0 {
                            Some((collect_backends(set), self.entries[bi].definition.routes[bj].port))
                        } else {
                            None
                        }
                    },
                    None => None,
                }
            },
        }
    }

    /// Declares `service` anew and makes `started` its only containers (a
    /// repeated id counts once), in one step; the containers it had before
    /// are returned.
    pub fn replace_containers(
        &mut self,
        service: &str,
        definition: Service,
        started: Vec<StartedContainerDetails>,
    ) -> (r: Vec<StartedContainerDetails>)
        requires
            old(self).wf(),
        ensures
            final(self).entries_view() == put_entry(
                old(self).entries_view(),
                EntryView {
                    name: service@,
                    definition: definition@,
                    backends: Some(distinct_backends(details_view(started@))),
                },
            ),
            final(self).wf(),
            final(self).definitions() == old(self).definitions().insert(service@, definition@),
            final(self).backends() == old(self).backends().insert(
                service@,
                distinct_backends(details_view(started@)),
            ),
            details_view(r@) == backends_or_empty(old(self).backends(), service@),
    {
        let previous = match self.get_running_containers(service) {
            Some(v) => v,
            None => Vec::new(),
        };
        proof {
            if !old(self).backends().contains_key(service@) {
                assert(details_view(previous@) =~= Seq::<(Seq<char>, Ipv4Address)>::empty());
            }
        }
        let ghost sv = details_view(started@);
        let mut set = empty_backends();
        let mut i: usize = 0;
        while i < started.len()
            invariant
                sv == details_view(started@),
                i <= started@.len(),
                backend_entries(set) == distinct_backends(sv.subrange(0, i as int)),
                unique_ids(backend_entries(set)),
            decreases started@.len() - i,
        {
            let ghost s0 = backend_entries(set);
            let ghost pre = sv.subrange(0, i as int);
            assert(sv.subrange(0, i + 1).drop_last() =~= pre);
            assert(sv[i as int] == started@[i as int]@);
            if !backends_contain(&set, started[i].id.0.as_str()) {
                backends_insert(&mut set, started[i].id.0.clone(), started[i].addr);
                proof {
                    assert forall|a: int, b: int|
                        0 <= a < backend_entries(set).len() && 0 <= b < backend_entries(set).len()
                            && #[trigger] backend_entries(set)[a].0 == #[trigger] backend_entries(set)[b].0
                        implies a == b by {
                        if a < s0.len() && b == s0.len() {
                            assert(s0[a].0 == sv[i as int].0);
                        }
                        if b < s0.len() && a == s0.len() {
                            assert(s0[b].0 == sv[i as int].0);
                        }
                    }
                }
            }
            i = i + 1;
        }
        assert(sv.subrange(0, sv.len() as int) =~= sv);
        let ghost es = self.entries_view();
        match self.position(service) {
            Some(p) => {
                let mut e = self.entries.remove(p);
                e.definition = definition;
                e.containers = Some(set);
                self.entries.insert(p, e);
                proof {
                    assert(self.entries@ =~= old(self).entries@.update(p as int, e));
                    old(self).lemma_view_replace(*self, p as int, e);
                    lemma_pos(es, p as int);
                    lemma_replace_entry(es, p as int, e@);
                }
            },
            None => {
                let e = ServiceEntry { name: service.to_owned(), definition, containers: Some(set) };
                self.entries.push(e);
                proof {
                    assert(self.entries_view() =~= es.push(e@));
                    lemma_push_entry(es, e@);
                }
            },
        }
        proof {
            let ns = self.entries_view();
            assert forall|i: int| 0 <= i < ns.len() && (#[trigger] ns[i]).backends is Some
                implies unique_ids(ns[i].backends->Some_0) by {
                lemma_pos(ns, i);
                if ns[i].name != service@ {
                    lemma_pos(es, entry_pos(es, ns[i].name));
                }
            }
            assert(self.definitions() =~= old(self).definitions().insert(service@, definition@));
            assert(self.backends() =~= old(self).backends().insert(service@, distinct_backends(sv)));
        }
        previous
    }

    /// The declaration of `service`, if it is declared.
    pub fn get_definition(&self, service: &str) -> (r: Option<Service>)
        requires
            self.wf(),
        ensures
            r is Some <==> self.definitions().contains_key(service@),
            r is Some ==> r->Some_0@ == self.definitions()[service@],
    {
        match self.position(service) {
            Some(p) => {
                proof {
                    lemma_pos(self.entries_view(), p as int);
                    assert(self.entries_view()[p as int] == self.entries@[p as int]@);
                }
                Some(self.entries[p].definition.clone())
            },
            None => None,
        }
    }

    fn position(&self, name: &str) -> (r: Option<usize>)
        requires
            self.wf(),
        ensures
            r is None <==> !has_entry(self.entries_view(), name@),
            r is Some ==> r->Some_0 < self.entries@.len() && r->Some_0 == entry_pos(
                self.entries_view(),
                name@,
            ),
    {
        let ghost es = self.entries_view();
        let mut i: usize = 0;
        while i < self.entries.len()
            invariant
                self.wf(),
                es == self.entries_view(),
                i <= es.len(),
                forall|j: int| 0 <= j < i ==> es[j].name != name@,
            decreases es.len() - i,
        {
            if str_eq(self.entries[i].name.as_str(), name) {
                proof {
                    assert(es[i as int] == self.entries@[i as int]@);
                assert(es[i as int].name == name@);
                    let k = entry_pos(es, name@);
                    assert(es[k].name == es[i as int].name);
                }
                return Some(i);
            }
            assert(es[i as int] == self.entries@[i as int]@);
            i = i + 1;
        }
        None
    }
}

/// A registry never holds containers of a service it does not declare: every
/// operation keeps the registry well formed, and a well-formed registry has
/// containers only under declared names.
pub proof fn lemma_no_backends_without_definition(registry: &ServiceRegistry)
    requires
        registry.wf(),
    ensures
        forall|name: Seq<char>| #[trigger] registry.backends().contains_key(name)
            ==> registry.definitions().contains_key(name),
{
}

} // verus!
