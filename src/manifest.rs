use vstd::prelude::*;

use crate::config::{lemma_same_service_reflexive, same_service, ExternalBytes, Service, ServiceView};
use crate::net::Ipv4Address;

verus! {

/// The listeners' protocols.
#[derive(Clone, Copy, Debug, PartialEq, Eq, Structural, Hash)]
pub enum Scheme {
    Http,
    Https,
}

/// Where the private key that unseals secrets is found.
#[derive(Clone, Debug)]
pub struct SecretConfig {
    pub private_key: ExternalBytes,
}

/// The certificate chain and private key of one domain.
#[derive(Clone, Debug)]
pub struct TlsSecrets {
    pub cert_file: ExternalBytes,
    pub key_file: ExternalBytes,
}

/// The key material served per domain.
#[derive(Clone, Debug)]
pub struct TlsConfig {
    pub domains: Vec<(String, TlsSecrets)>,
}

/// Client-certificate authentication: the trust anchor, and the domains that
/// ask for a client certificate.
#[derive(Clone, Debug)]
pub struct MtlsConfig {
    pub anchor: ExternalBytes,
    pub domains: Vec<String>,
}

/// The front door: where it listens and its administrative path.
#[derive(Clone, Debug)]
pub struct AlbConfig {
    pub addr: Ipv4Address,
    pub ports: Vec<(Scheme, u16)>,
    pub reconciliation: String,
    pub tls: Option<TlsConfig>,
    pub mtls: Option<MtlsConfig>,
}

/// The desired state: the front door, the secrets and the services by name.
#[derive(Clone, Debug)]
pub struct Config {
    pub alb: AlbConfig,
    pub secrets: Option<SecretConfig>,
    pub services: Vec<(String, Service)>,
}

/// The services of a manifest, as names and declarations.
pub open spec fn services_view(s: Seq<(String, Service)>) -> Seq<(Seq<char>, ServiceView)> {
    s.map_values(|p: (String, Service)| (p.0@, p.1@))
}

/// No name is declared twice.
pub open spec fn unique_names(s: Seq<(Seq<char>, ServiceView)>) -> bool {
    forall|i: int, j: int|
        0 <= i < s.len() && 0 <= j < s.len() && #[trigger] s[i].0 == #[trigger] s[j].0 ==> i == j
}

/// Whether `name` is declared.
pub open spec fn declares(s: Seq<(Seq<char>, ServiceView)>, name: Seq<char>) -> bool {
    exists|i: int| 0 <= i < s.len() && #[trigger] s[i].0 == name
}

/// The declaration of a declared `name`.
pub open spec fn declaration(s: Seq<(Seq<char>, ServiceView)>, name: Seq<char>) -> ServiceView
    recommends
        declares(s, name),
{
    s[choose|i: int| 0 <= i < s.len() && #[trigger] s[i].0 == name].1
}

/// One difference between two manifests.
pub enum Change {
    Alteration { name: Seq<char>, old_definition: ServiceView, new_definition: ServiceView },
    Addition { name: Seq<char>, definition: ServiceView },
    Removal { name: Seq<char> },
}

impl Change {
    pub open spec fn name(self) -> Seq<char> {
        match self {
            Change::Alteration { name, .. } => name,
            Change::Addition { name, .. } => name,
            Change::Removal { name } => name,
        }
    }
}

/// What the manifest `right` changes of `left` about the service `entry` of
/// `left`: an alteration when its declaration is not the same service, a
/// removal when it is gone.
pub open spec fn change_of_left(entry: (Seq<char>, ServiceView), right: Seq<(Seq<char>, ServiceView)>) -> Seq<Change> {
    if declares(right, entry.0) {
        if !same_service(entry.1, declaration(right, entry.0)) {
            seq![Change::Alteration { name: entry.0, old_definition: entry.1, new_definition: declaration(right, entry.0) }]
        } else {
            Seq::empty()
        }
    } else {
        seq![Change::Removal { name: entry.0 }]
    }
}

/// The alterations and removals, in the order of `left`.
pub open spec fn left_changes(left: Seq<(Seq<char>, ServiceView)>, right: Seq<(Seq<char>, ServiceView)>) -> Seq<Change>
    decreases left.len(),
{
    if left.len() == 0 {
        Seq::empty()
    } else {
        left_changes(left.drop_last(), right) + change_of_left(left.last(), right)
    }
}

/// The additions, in the order of `right`.
pub open spec fn additions(left: Seq<(Seq<char>, ServiceView)>, right: Seq<(Seq<char>, ServiceView)>) -> Seq<Change>
    decreases right.len(),
{
    if right.len() == 0 {
        Seq::empty()
    } else {
        let e = right.last();
        additions(left, right.drop_last()) + if declares(left, e.0) {
            Seq::empty()
        } else {
            seq![Change::Addition { name: e.0, definition: e.1 }]
        }
    }
}

/// Every difference between `left` and `right`.
pub open spec fn changes(left: Seq<(Seq<char>, ServiceView)>, right: Seq<(Seq<char>, ServiceView)>) -> Seq<Change> {
    left_changes(left, right) + additions(left, right)
}

/// One difference between two manifests, as the reconciler acts on it.
#[derive(Clone, Debug)]
pub enum Diff {
    Alteration { name: String, old_definition: Service, new_definition: Service },
    Addition { name: String, definition: Service },
    Removal { name: String },
}

impl View for Diff {
    type V = Change;

    open spec fn view(&self) -> Change {
        match self {
            Diff::Alteration { name, old_definition, new_definition } => Change::Alteration {
                name: name@,
                old_definition: old_definition@,
                new_definition: new_definition@,
            },
            Diff::Addition { name, definition } => Change::Addition {
                name: name@,
                definition: definition@,
            },
            Diff::Removal { name } => Change::Removal { name: name@ },
        }
    }
}

impl PartialEq for Diff {
    fn eq(&self, other: &Diff) -> (r: bool) {
        match (self, other) {
            (
                Diff::Alteration { name: a, old_definition: o, new_definition: n },
                Diff::Alteration { name: b, old_definition: p, new_definition: m },
            ) => *a == *b && *o == *p && *n == *m,
            (Diff::Addition { name: a, definition: d }, Diff::Addition { name: b, definition: e }) => {
                *a == *b && *d == *e
            },
            (Diff::Removal { name: a }, Diff::Removal { name: b }) => *a == *b,
            _ => false,
        }
    }
}

impl vstd::std_specs::cmp::PartialEqSpecImpl for Diff {
    open spec fn obeys_eq_spec() -> bool {
        true
    }

    open spec fn eq_spec(&self, other: &Diff) -> bool {
        same_change(self@, other@)
    }
}

/// Two changes that agree up to the sameness of the declarations they carry.
pub open spec fn same_change(a: Change, b: Change) -> bool {
    match (a, b) {
        (
            Change::Alteration { name: n1, old_definition: o1, new_definition: d1 },
            Change::Alteration { name: n2, old_definition: o2, new_definition: d2 },
        ) => n1 == n2 && same_service(o1, o2) && same_service(d1, d2),
        (Change::Addition { name: n1, definition: d1 }, Change::Addition { name: n2, definition: d2 }) => {
            n1 == n2 && same_service(d1, d2)
        },
        (Change::Removal { name: n1 }, Change::Removal { name: n2 }) => n1 == n2,
        _ => false,
    }
}

pub open spec fn diffs_view(d: Seq<Diff>) -> Seq<Change> {
    d.map_values(|x: Diff| x@)
}

/// Finds the declaration of `name`.
fn find_service(services: &Vec<(String, Service)>, name: &String) -> (r: Option<usize>)
    requires
        unique_names(services_view(services@)),
    ensures
        r is None <==> !declares(services_view(services@), name@),
        r is Some ==> r->Some_0 < services@.len() && services@[r->Some_0 as int].0@ == name@
            && services@[r->Some_0 as int].1@ == declaration(services_view(services@), name@),
{
    let ghost sv = services_view(services@);
    let mut i: usize = 0;
    while i < services.len()
        invariant
            sv == services_view(services@),
            unique_names(sv),
            i <= services@.len(),
            forall|j: int| 0 <= j < i ==> sv[j].0 != name@,
        decreases services@.len() - i,
    {
        if services[i].0 == *name {
            proof {
                assert(sv[i as int].0 == name@);
                let k = choose|k: int| 0 <= k < sv.len() && #[trigger] sv[k].0 == name@;
                assert(sv[k].0 == sv[i as int].0);
                assert(k == i);
                assert(sv[i as int] == (services@[i as int].0@, services@[i as int].1@));
            }
            return Some(i);
        }
        i = i + 1;
    }
    proof {
        if declares(sv, name@) {
            let k = choose|k: int| 0 <= k < sv.len() && #[trigger] sv[k].0 == name@;
            assert(sv[k].0 == name@);
        }
    }
    None
}

impl Config {
    /// The services, by name.
    pub open spec fn services_spec(&self) -> Seq<(Seq<char>, ServiceView)> {
        services_view(self.services@)
    }

    /// No service is declared twice.
    pub open spec fn wf(&self) -> bool {
        unique_names(self.services_spec())
    }

    /// Whether every service name is declared once.
    pub fn has_unique_service_names(&self) -> (r: bool)
        ensures
            r == self.wf(),
    {
        let ghost sv = self.services_spec();
        let mut i: usize = 0;
        while i < self.services.len()
            invariant
                sv == self.services_spec(),
                i <= sv.len(),
                forall|a: int, b: int| 0 <= a < i && 0 <= b < sv.len() && #[trigger] sv[a].0 == #[trigger] sv[b].0 ==> a == b,
            decreases sv.len() - i,
        {
            let mut j: usize = 0;
            while j < self.services.len()
                invariant
                    sv == self.services_spec(),
                    i < sv.len(),
                    j <= sv.len(),
                    forall|a: int, b: int| 0 <= a < i && 0 <= b < sv.len() && #[trigger] sv[a].0 == #[trigger] sv[b].0 ==> a == b,
                    forall|b: int| 0 <= b < j && sv[i as int].0 == #[trigger] sv[b].0 ==> i == b,
                decreases sv.len() - j,
            {
                if j != i && self.services[i].0 == self.services[j].0 {
                    assert(sv[i as int].0 == sv[j as int].0);
                    return false;
                }
                j = j + 1;
            }
            i = i + 1;
        }
        true
    }

    /// The changes that lead from this manifest to `right`: for each service
    /// of this one, an alteration when `right` declares it otherwise and a
    /// removal when `right` lacks it; then an addition for each service that
    /// only `right` declares. `None` when there is no change.
    pub fn diff(&self, right: &Config) -> (r: Option<Vec<Diff>>)
        requires
            self.wf(),
            right.wf(),
        ensures
            r is None <==> changes(self.services_spec(), right.services_spec()).len() == 0,
            r is Some ==> diffs_view(r->Some_0@) == changes(self.services_spec(), right.services_spec()),
    {
        let ghost l = self.services_spec();
        let ghost rs = right.services_spec();
        let mut diff: Vec<Diff> = Vec::new();
        let mut i: usize = 0;
        while i < self.services.len()
            invariant
                l == self.services_spec(),
                rs == right.services_spec(),
                unique_names(rs),
                unique_names(l),
                i <= l.len(),
                diffs_view(diff@) == left_changes(l.subrange(0, i as int), rs),
            decreases l.len() - i,
        {
            let name = &self.services[i].0;
            let service = &self.services[i].1;
            assert(l[i as int] == (self.services@[i as int].0@, self.services@[i as int].1@));
            let ghost prev = diff@;
            let ghost pre = l.subrange(0, i as int);
            let ghost post = l.subrange(0, i + 1);
            assert(post.drop_last() =~= pre);
            assert(post.last() == l[i as int]);
            match find_service(&right.services, name) {
                Some(j) => {
                    let definition = &right.services[j].1;
                    if !(*service == *definition) {
                        diff.push(
                            Diff::Alteration {
                                name: name.clone(),
                                old_definition: service.clone(),
                                new_definition: definition.clone(),
                            },
                        );
                        assert(diffs_view(diff@) =~= diffs_view(prev) + change_of_left(l[i as int], rs));
                    } else {
                        assert(diffs_view(diff@) =~= diffs_view(prev) + change_of_left(l[i as int], rs));
                    }
                },
                None => {
                    diff.push(Diff::Removal { name: name.clone() });
                    assert(diffs_view(diff@) =~= diffs_view(prev) + change_of_left(l[i as int], rs));
                },
            }
            i = i + 1;
        }
        assert(l.subrange(0, l.len() as int) =~= l);
        let ghost left_part = diff@;
        let mut j: usize = 0;
        while j < right.services.len()
            invariant
                l == self.services_spec(),
                rs == right.services_spec(),
                unique_names(l),
                j <= rs.len(),
                diffs_view(left_part) == left_changes(l, rs),
                diffs_view(diff@) == left_changes(l, rs) + additions(l, rs.subrange(0, j as int)),
            decreases rs.len() - j,
        {
            let name = &right.services[j].0;
            let ghost prev = diff@;
            assert(rs[j as int] == (right.services@[j as int].0@, right.services@[j as int].1@));
            let ghost pre = rs.subrange(0, j as int);
            let ghost post = rs.subrange(0, j + 1);
            assert(post.drop_last() =~= pre);
            assert(post.last() == rs[j as int]);
            match find_service(&self.services, name) {
                Some(_) => {
                    assert(declares(l, post.last().0));
                    assert(additions(l, post) =~= additions(l, pre));
                    assert(diffs_view(diff@) =~= left_changes(l, rs) + additions(l, post));
                },
                None => {
                    diff.push(Diff::Addition { name: name.clone(), definition: right.services[j].1.clone() });
                    assert(!declares(l, post.last().0));
                    assert(additions(l, post) =~= additions(l, pre).push(Change::Addition { name: rs[j as int].0, definition: rs[j as int].1 }));
                    assert(diffs_view(diff@) =~= diffs_view(prev).push(Change::Addition { name: rs[j as int].0, definition: rs[j as int].1 }));
                    assert(diffs_view(diff@) =~= left_changes(l, rs) + additions(l, post));
                },
            }
            j = j + 1;
        }
        assert(rs.subrange(0, rs.len() as int) =~= rs);
        if diff.len() == 0 {
            None
        } else {
            Some(diff)
        }
    }
}

/// Whether the change at `k` alters the service `name`.
pub open spec fn alters(cs: Seq<Change>, k: int, name: Seq<char>) -> bool {
    0 <= k < cs.len() && cs[k] is Alteration && cs[k].name() == name
}

proof fn lemma_left_changes_names(l: Seq<(Seq<char>, ServiceView)>, r: Seq<(Seq<char>, ServiceView)>)
    ensures
        forall|k: int|
            0 <= k < left_changes(l, r).len() ==> declares(l, #[trigger] left_changes(l, r)[k].name()),
    decreases l.len(),
{
    if l.len() > 0 {
        let lp = l.drop_last();
        lemma_left_changes_names(lp, r);
        let a = left_changes(lp, r);
        let b = change_of_left(l.last(), r);
        assert forall|k: int| 0 <= k < left_changes(l, r).len() implies declares(
            l,
            #[trigger] left_changes(l, r)[k].name(),
        ) by {
            if k < a.len() {
                let n = a[k].name();
                let i = choose|i: int| 0 <= i < lp.len() && #[trigger] lp[i].0 == n;
                assert(l[i].0 == n);
            } else {
                assert(l[l.len() - 1].0 == l.last().0);
            }
        }
    }
}

proof fn lemma_additions_alter_nothing(l: Seq<(Seq<char>, ServiceView)>, r: Seq<(Seq<char>, ServiceView)>)
    ensures
        forall|k: int| 0 <= k < additions(l, r).len() ==> !(#[trigger] additions(l, r)[k] is Alteration),
    decreases r.len(),
{
    if r.len() > 0 {
        lemma_additions_alter_nothing(l, r.drop_last());
    }
}

/// In a manifest without repeated names, the declaration of a name of all
/// but the last service is the same as in the whole.
proof fn lemma_declaration_of_prefix(l: Seq<(Seq<char>, ServiceView)>, n: Seq<char>)
    requires
        unique_names(l),
        l.len() > 0,
    ensures
        unique_names(l.drop_last()),
        declares(l, n) <==> (declares(l.drop_last(), n) || l.last().0 == n),
        declares(l.drop_last(), n) ==> declaration(l, n) == declaration(l.drop_last(), n)
            && l.last().0 != n,
        l.last().0 == n ==> declaration(l, n) == l.last().1 && !declares(l.drop_last(), n),
{
    let lp = l.drop_last();
    assert forall|i: int, j: int|
        0 <= i < lp.len() && 0 <= j < lp.len() && #[trigger] lp[i].0 == #[trigger] lp[j].0 implies i == j by {
        assert(l[i].0 == l[j].0);
    }
    if declares(l, n) {
        let i = choose|i: int| 0 <= i < l.len() && #[trigger] l[i].0 == n;
        if i < l.len() - 1 {
            assert(lp[i].0 == n);
        }
    }
    if declares(lp, n) {
        let i = choose|i: int| 0 <= i < lp.len() && #[trigger] lp[i].0 == n;
        assert(l[i].0 == n);
        let k = choose|k: int| 0 <= k < l.len() && #[trigger] l[k].0 == n;
        assert(l[k].0 == l[i].0);
        assert(l[l.len() - 1].0 == l.last().0);
    }
    if l.last().0 == n {
        assert(l[l.len() - 1].0 == n);
        let k = choose|k: int| 0 <= k < l.len() && #[trigger] l[k].0 == n;
        assert(l[k].0 == l[l.len() - 1].0);
        if declares(lp, n) {
            let i = choose|i: int| 0 <= i < lp.len() && #[trigger] lp[i].0 == n;
            assert(l[i].0 == l[l.len() - 1].0);
        }
    }
}

proof fn lemma_left_changes_alterations(
    l: Seq<(Seq<char>, ServiceView)>,
    r: Seq<(Seq<char>, ServiceView)>,
    n: Seq<char>,
)
    requires
        unique_names(l),
    ensures
        (exists|k: int| alters(left_changes(l, r), k, n)) <==> (declares(l, n) && declares(r, n)
            && !same_service(declaration(l, n), declaration(r, n))),
        forall|k1: int, k2: int|
            alters(left_changes(l, r), k1, n) && alters(left_changes(l, r), k2, n) ==> k1 == k2,
    decreases l.len(),
{
    if l.len() == 0 {
        if declares(l, n) {
            let i = choose|i: int| 0 <= i < l.len() && #[trigger] l[i].0 == n;
        }
    } else {
        let lp = l.drop_last();
        lemma_declaration_of_prefix(l, n);
        lemma_left_changes_alterations(lp, r, n);
        lemma_left_changes_names(lp, r);
        let a = left_changes(lp, r);
        let b = change_of_left(l.last(), r);
        let all = left_changes(l, r);
        assert(all == a + b);
        if l.last().0 == n {
            assert forall|k: int| 0 <= k < a.len() implies !alters(all, k, n) by {
                assert(declares(lp, a[k].name()));
            }
            if declares(r, n) && !same_service(declaration(l, n), declaration(r, n)) {
                assert(alters(all, a.len() as int, n));
            }
            assert(b.len() <= 1);
            assert forall|k1: int, k2: int| alters(all, k1, n) && alters(all, k2, n) implies k1
                == k2 by {
                assert(k1 >= a.len());
                assert(k2 >= a.len());
            }
        } else {
            assert forall|k: int| a.len() <= k < all.len() implies !alters(all, k, n) by {}
            if exists|k: int| alters(a, k, n) {
                let k = choose|k: int| alters(a, k, n);
                assert(alters(all, k, n));
            }
            if exists|k: int| alters(all, k, n) {
                let k = choose|k: int| alters(all, k, n);
                assert(alters(a, k, n));
            }
            assert forall|k1: int, k2: int| alters(all, k1, n) && alters(all, k2, n) implies k1
                == k2 by {
                assert(alters(a, k1, n));
                assert(alters(a, k2, n));
            }
        }
    }
}

/// Comparing a manifest without repeated names with itself finds no change.
pub proof fn lemma_diff_of_itself(m: Seq<(Seq<char>, ServiceView)>)
    requires
        unique_names(m),
    ensures
        changes(m, m).len() == 0,
{
    lemma_left_changes_names(m, m);
    if left_changes(m, m).len() > 0 {
        lemma_no_change_of_prefix(m, m.len() as int);
        assert(m.subrange(0, m.len() as int) =~= m);
    }
    lemma_no_addition_of_prefix(m, m.len() as int);
    assert(m.subrange(0, m.len() as int) =~= m);
}

proof fn lemma_no_change_of_prefix(m: Seq<(Seq<char>, ServiceView)>, i: int)
    requires
        unique_names(m),
        0 <= i <= m.len(),
    ensures
        left_changes(m.subrange(0, i), m).len() == 0,
    decreases i,
{
    if i > 0 {
        lemma_no_change_of_prefix(m, i - 1);
        let p = m.subrange(0, i);
        assert(p.drop_last() =~= m.subrange(0, i - 1));
        let e = p.last();
        assert(m[i - 1] == e);
        assert(declares(m, e.0));
        let k = choose|k: int| 0 <= k < m.len() && #[trigger] m[k].0 == e.0;
        assert(m[k].0 == m[i - 1].0);
        lemma_same_service_reflexive(e.1);
    }
}

proof fn lemma_no_addition_of_prefix(m: Seq<(Seq<char>, ServiceView)>, i: int)
    requires
        0 <= i <= m.len(),
    ensures
        additions(m, m.subrange(0, i)).len() == 0,
    decreases i,
{
    if i > 0 {
        lemma_no_addition_of_prefix(m, i - 1);
        let p = m.subrange(0, i);
        assert(p.drop_last() =~= m.subrange(0, i - 1));
        assert(m[i - 1] == p.last());
        assert(declares(m, p.last().0));
    }
}

/// Between two manifests without repeated names, the changes alter a service
/// exactly when both declare it and the declarations are not the same
/// service, and then they alter it once.
pub proof fn lemma_alteration_iff_declarations_differ(
    left: Seq<(Seq<char>, ServiceView)>,
    right: Seq<(Seq<char>, ServiceView)>,
    name: Seq<char>,
)
    requires
        unique_names(left),
        unique_names(right),
    ensures
        (exists|k: int| alters(changes(left, right), k, name)) <==> (declares(left, name)
            && declares(right, name) && !same_service(declaration(left, name), declaration(right, name))),
        forall|k1: int, k2: int|
            alters(changes(left, right), k1, name) && alters(changes(left, right), k2, name)
                ==> k1 == k2,
{
    lemma_left_changes_alterations(left, right, name);
    lemma_additions_alter_nothing(left, right);
    let a = left_changes(left, right);
    let b = additions(left, right);
    let all = changes(left, right);
    assert forall|k: int| a.len() <= k < all.len() implies !alters(all, k, name) by {
        assert(all[k] == b[k - a.len()]);
    }
    if exists|k: int| alters(a, k, name) {
        let k = choose|k: int| alters(a, k, name);
        assert(alters(all, k, name));
    }
    if exists|k: int| alters(all, k, name) {
        let k = choose|k: int| alters(all, k, name);
        assert(alters(a, k, name));
    }
    assert forall|k1: int, k2: int|
        alters(all, k1, name) && alters(all, k2, name) implies k1 == k2 by {
        assert(alters(a, k1, name));
        assert(alters(a, k2, name));
    }
}

} // verus!
