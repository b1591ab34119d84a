use vstd::prelude::*;

use crate::net::Ipv4Address;

verus! {

/// Where a blob of bytes lives: a local file or an object in a bucket.
#[derive(Debug)]
pub enum ExternalBytes {
    Filesystem { path: String },
    S3 { bucket: String, key: String },
}

/// The view of an [`ExternalBytes`].
pub enum BlobRef {
    Filesystem { path: Seq<char> },
    S3 { bucket: Seq<char>, key: Seq<char> },
}

impl View for ExternalBytes {
    type V = BlobRef;

    open spec fn view(&self) -> BlobRef {
        match self {
            ExternalBytes::Filesystem { path } => BlobRef::Filesystem { path: path@ },
            ExternalBytes::S3 { bucket, key } => BlobRef::S3 { bucket: bucket@, key: key@ },
        }
    }
}

impl PartialEq for ExternalBytes {
    fn eq(&self, other: &ExternalBytes) -> (r: bool) {
        match (self, other) {
            (ExternalBytes::Filesystem { path: a }, ExternalBytes::Filesystem { path: b }) => {
                *a == *b
            },
            (
                ExternalBytes::S3 { bucket: a, key: k },
                ExternalBytes::S3 { bucket: b, key: l },
            ) => *a == *b && *k == *l,
            _ => false,
        }
    }
}

impl vstd::std_specs::cmp::PartialEqSpecImpl for ExternalBytes {
    open spec fn obeys_eq_spec() -> bool {
        true
    }

    open spec fn eq_spec(&self, other: &ExternalBytes) -> bool {
        self@ == other@
    }
}

/// How the containers of a service are retired.
#[derive(Clone, Copy, Debug, PartialEq, Eq, Structural)]
pub enum ShutdownMode {
    /// Stopped with a termination signal and a grace period.
    Graceful,
    /// Removed at once.
    Forceful,
}

impl Default for ShutdownMode {
    fn default() -> (r: ShutdownMode)
        ensures
            r == ShutdownMode::Forceful,
    {
        ShutdownMode::Forceful
    }
}

/// The error of a manifest that cannot be accepted.
#[derive(Clone, Copy, Debug, PartialEq, Eq, Structural)]
pub enum ConfigError {
    /// A service asked for no replicas.
    InvalidReplicaCount,
}

/// How many containers a service runs: never zero.
#[derive(Clone, Copy, Debug, PartialEq, Eq)]
pub struct ReplicaCount(u8);

impl ReplicaCount {
    #[verifier::type_invariant]
    spec fn positive(self) -> bool {
        self.0 >= 1
    }

    pub closed spec fn spec_get(self) -> u8 {
        self.0
    }

    /// A count of `value` replicas, refused for zero.
    pub fn try_from(value: u8) -> (r: Result<ReplicaCount, ConfigError>)
        ensures
            value == 0 <==> r is Err,
            r is Err ==> r == Err::<ReplicaCount, ConfigError>(ConfigError::InvalidReplicaCount),
            r is Ok ==> r->Ok_0.spec_get() == value,
    {
        if value == 0 {
            Err(ConfigError::InvalidReplicaCount)
        } else {
            Ok(ReplicaCount(value))
        }
    }

    pub fn get(&self) -> (r: u8)
        ensures
            r == self.spec_get(),
            r >= 1,
    {
        proof {
            use_type_invariant(self);
        }
        self.0
    }
}

impl Default for ReplicaCount {
    fn default() -> (r: ReplicaCount)
        ensures
            r.spec_get() == 1,
    {
        ReplicaCount(1)
    }
}

/// One way of reaching a service: requests for `host` whose path starts with
/// `prefix` (every path when there is none) go to `port` of its containers.
#[derive(Debug)]
pub struct Route {
    pub host: String,
    pub prefix: Option<String>,
    pub port: u16,
}

pub struct RouteView {
    pub host: Seq<char>,
    pub prefix: Option<Seq<char>>,
    pub port: u16,
}

pub open spec fn opt_view(s: Option<String>) -> Option<Seq<char>> {
    match s {
        Some(v) => Some(v@),
        None => None,
    }
}

impl View for Route {
    type V = RouteView;

    open spec fn view(&self) -> RouteView {
        RouteView { host: self.host@, prefix: opt_view(self.prefix), port: self.port }
    }
}

/// A file handed to a container: its content comes from `source` and is
/// mounted at `target`.
#[derive(Debug)]
pub struct VolumeDefinition {
    pub source: ExternalBytes,
    pub target: String,
}

pub struct VolumeView {
    pub source: BlobRef,
    pub target: Seq<char>,
}

impl View for VolumeDefinition {
    type V = VolumeView;

    open spec fn view(&self) -> VolumeView {
        VolumeView { source: self.source@, target: self.target@ }
    }
}

/// The declaration of a service. Routes form a set and the environment and
/// volumes are maps by name: two declarations are the same service whatever
/// the order of their entries (see `same_service`).
#[derive(Debug)]
pub struct Service {
    pub image: String,
    pub tag: String,
    pub replicas: ReplicaCount,
    pub routes: Vec<Route>,
    pub environment: Vec<(String, String)>,
    pub volumes: Vec<(String, VolumeDefinition)>,
    pub shutdown_mode: ShutdownMode,
}

pub struct ServiceView {
    pub image: Seq<char>,
    pub tag: Seq<char>,
    pub replicas: u8,
    pub routes: Seq<RouteView>,
    pub environment: Seq<(Seq<char>, Seq<char>)>,
    pub volumes: Seq<(Seq<char>, VolumeView)>,
    pub shutdown_mode: ShutdownMode,
}

pub open spec fn routes_view(routes: Seq<Route>) -> Seq<RouteView> {
    routes.map_values(|r: Route| r@)
}

pub open spec fn env_view(env: Seq<(String, String)>) -> Seq<(Seq<char>, Seq<char>)> {
    env.map_values(|p: (String, String)| (p.0@, p.1@))
}

pub open spec fn volumes_view(v: Seq<(String, VolumeDefinition)>) -> Seq<(Seq<char>, VolumeView)> {
    v.map_values(|p: (String, VolumeDefinition)| (p.0@, p.1@))
}

impl View for Service {
    type V = ServiceView;

    open spec fn view(&self) -> ServiceView {
        ServiceView {
            image: self.image@,
            tag: self.tag@,
            replicas: self.replicas.spec_get(),
            routes: routes_view(self.routes@),
            environment: env_view(self.environment@),
            volumes: volumes_view(self.volumes@),
            shutdown_mode: self.shutdown_mode,
        }
    }
}

fn opt_string_eq(a: &Option<String>, b: &Option<String>) -> (r: bool)
    ensures
        r == (opt_view(*a) == opt_view(*b)),
{
    match (a, b) {
        (Some(x), Some(y)) => *x == *y,
        (None, None) => true,
        _ => false,
    }
}

/// `x` occurs in `b`.
pub open spec fn occurs<T>(b: Seq<T>, x: T) -> bool {
    exists|j: int| 0 <= j < b.len() && b[j] == x
}

/// Every element of `a` occurs in `b`.
pub open spec fn included<T>(a: Seq<T>, b: Seq<T>) -> bool {
    forall|i: int| 0 <= i < a.len() ==> #[trigger] occurs(b, a[i])
}

/// `a` and `b` hold the same elements, in any order.
pub open spec fn same_elements<T>(a: Seq<T>, b: Seq<T>) -> bool {
    included(a, b) && included(b, a)
}

/// Two declarations are the same service: equal image, tag, replicas and
/// shutdown mode, the same set of routes, and the same environment and
/// volumes as maps from name to value.
pub open spec fn same_service(a: ServiceView, b: ServiceView) -> bool {
    &&& a.image == b.image
    &&& a.tag == b.tag
    &&& a.replicas == b.replicas
    &&& a.shutdown_mode == b.shutdown_mode
    &&& same_elements(a.routes, b.routes)
    &&& same_elements(a.environment, b.environment)
    &&& same_elements(a.volumes, b.volumes)
}

pub proof fn lemma_same_service_reflexive(a: ServiceView)
    ensures
        same_service(a, a),
{
    assert forall|i: int| 0 <= i < a.routes.len() implies #[trigger] occurs(a.routes, a.routes[i]) by {
        assert(a.routes[i] == a.routes[i]);
    }
    assert forall|i: int| 0 <= i < a.environment.len() implies #[trigger] occurs(a.environment, a.environment[i]) by {
        assert(a.environment[i] == a.environment[i]);
    }
    assert forall|i: int| 0 <= i < a.volumes.len() implies #[trigger] occurs(a.volumes, a.volumes[i]) by {
        assert(a.volumes[i] == a.volumes[i]);
    }
}

fn route_eq(x: &Route, y: &Route) -> (r: bool)
    ensures
        r == (x@ == y@),
{
    x.host == y.host && opt_string_eq(&x.prefix, &y.prefix) && x.port == y.port
}

fn volume_entry_eq(x: &(String, VolumeDefinition), y: &(String, VolumeDefinition)) -> (r: bool)
    ensures
        r == ((x.0@, x.1@) == (y.0@, y.1@)),
{
    x.0 == y.0 && x.1.source == y.1.source && x.1.target == y.1.target
}

fn routes_included(a: &Vec<Route>, b: &Vec<Route>) -> (r: bool)
    ensures
        r == included(routes_view(a@), routes_view(b@)),
{
    let ghost av = routes_view(a@);
    let ghost bv = routes_view(b@);
    let mut i: usize = 0;
    while i < a.len()
        invariant
            av == routes_view(a@),
            bv == routes_view(b@),
            i <= a@.len(),
            av.len() == a@.len(),
            forall|k: int| 0 <= k < i ==> #[trigger] occurs(bv, av[k]),
        decreases a@.len() - i,
    {
        let mut j: usize = 0;
        let mut found = false;
        while j < b.len() && !found
            invariant
                av == routes_view(a@),
                bv == routes_view(b@),
                i < a@.len(),
                j <= b@.len(),
                av.len() == a@.len(),
                bv.len() == b@.len(),
                found ==> occurs(bv, av[i as int]),
                !found ==> forall|m: int| 0 <= m < j ==> #[trigger] bv[m] != av[i as int],
            decreases b@.len() - j,
        {
            if route_eq(&a[i], &b[j]) {
                assert(bv[j as int] == av[i as int]);
                found = true;
            }
            j = j + 1;
        }
        if !found {
            assert(!occurs(bv, av[i as int]));
            return false;
        }
        i = i + 1;
    }
    true
}

fn env_included(a: &Vec<(String, String)>, b: &Vec<(String, String)>) -> (r: bool)
    ensures
        r == included(env_view(a@), env_view(b@)),
{
    let ghost av = env_view(a@);
    let ghost bv = env_view(b@);
    let mut i: usize = 0;
    while i < a.len()
        invariant
            av == env_view(a@),
            bv == env_view(b@),
            i <= a@.len(),
            av.len() == a@.len(),
            forall|k: int| 0 <= k < i ==> #[trigger] occurs(bv, av[k]),
        decreases a@.len() - i,
    {
        let mut j: usize = 0;
        let mut found = false;
        while j < b.len() && !found
            invariant
                av == env_view(a@),
                bv == env_view(b@),
                i < a@.len(),
                j <= b@.len(),
                av.len() == a@.len(),
                bv.len() == b@.len(),
                found ==> occurs(bv, av[i as int]),
                !found ==> forall|m: int| 0 <= m < j ==> #[trigger] bv[m] != av[i as int],
            decreases b@.len() - j,
        {
            if a[i].0 == b[j].0 && a[i].1 == b[j].1 {
                assert(bv[j as int] == av[i as int]);
                found = true;
            }
            j = j + 1;
        }
        if !found {
            assert(!occurs(bv, av[i as int]));
            return false;
        }
        i = i + 1;
    }
    true
}

fn volumes_included(a: &Vec<(String, VolumeDefinition)>, b: &Vec<(String, VolumeDefinition)>) -> (r: bool)
    ensures
        r == included(volumes_view(a@), volumes_view(b@)),
{
    let ghost av = volumes_view(a@);
    let ghost bv = volumes_view(b@);
    let mut i: usize = 0;
    while i < a.len()
        invariant
            av == volumes_view(a@),
            bv == volumes_view(b@),
            i <= a@.len(),
            av.len() == a@.len(),
            forall|k: int| 0 <= k < i ==> #[trigger] occurs(bv, av[k]),
        decreases a@.len() - i,
    {
        let mut j: usize = 0;
        let mut found = false;
        while j < b.len() && !found
            invariant
                av == volumes_view(a@),
                bv == volumes_view(b@),
                i < a@.len(),
                j <= b@.len(),
                av.len() == a@.len(),
                bv.len() == b@.len(),
                found ==> occurs(bv, av[i as int]),
                !found ==> forall|m: int| 0 <= m < j ==> #[trigger] bv[m] != av[i as int],
            decreases b@.len() - j,
        {
            if volume_entry_eq(&a[i], &b[j]) {
                assert(bv[j as int] == av[i as int]);
                found = true;
            }
            j = j + 1;
        }
        if !found {
            assert(!occurs(bv, av[i as int]));
            return false;
        }
        i = i + 1;
    }
    true
}

impl PartialEq for Service {
    fn eq(&self, other: &Service) -> (r: bool) {
        self.image == other.image && self.tag == other.tag && self.replicas.get()
            == other.replicas.get() && self.shutdown_mode == other.shutdown_mode
            && routes_included(&self.routes, &other.routes) && routes_included(
            &other.routes,
            &self.routes,
        ) && env_included(&self.environment, &other.environment) && env_included(
            &other.environment,
            &self.environment,
        ) && volumes_included(&self.volumes, &other.volumes) && volumes_included(
            &other.volumes,
            &self.volumes,
        )
    }
}

impl vstd::std_specs::cmp::PartialEqSpecImpl for Service {
    open spec fn obeys_eq_spec() -> bool {
        true
    }

    open spec fn eq_spec(&self, other: &Service) -> bool {
        same_service(self@, other@)
    }
}

impl Default for Service {
    fn default() -> (r: Service)
        ensures
            r@.image.len() == 0,
            r@.tag.len() == 0,
            r@.replicas == 1,
            r@.routes.len() == 0,
            r@.environment.len() == 0,
            r@.volumes.len() == 0,
            r@.shutdown_mode == ShutdownMode::Forceful,
    {
        Service {
            image: String::new(),
            tag: String::new(),
            replicas: ReplicaCount::default(),
            routes: Vec::new(),
            environment: Vec::new(),
            volumes: Vec::new(),
            shutdown_mode: ShutdownMode::default(),
        }
    }
}

impl Clone for ExternalBytes {
    fn clone(&self) -> (r: ExternalBytes)
        ensures
            r@ == self@,
    {
        match self {
            ExternalBytes::Filesystem { path } => ExternalBytes::Filesystem { path: path.clone() },
            ExternalBytes::S3 { bucket, key } => ExternalBytes::S3 {
                bucket: bucket.clone(),
                key: key.clone(),
            },
        }
    }
}

impl Clone for Route {
    fn clone(&self) -> (r: Route)
        ensures
            r@ == self@,
    {
        let prefix = match &self.prefix {
            Some(p) => Some(p.clone()),
            None => None,
        };
        Route { host: self.host.clone(), prefix, port: self.port }
    }
}

impl Clone for VolumeDefinition {
    fn clone(&self) -> (r: VolumeDefinition)
        ensures
            r@ == self@,
    {
        VolumeDefinition { source: self.source.clone(), target: self.target.clone() }
    }
}

fn clone_routes(v: &Vec<Route>) -> (r: Vec<Route>)
    ensures
        routes_view(r@) == routes_view(v@),
{
    let mut r: Vec<Route> = Vec::new();
    let mut i: usize = 0;
    while i < v.len()
        invariant
            i <= v@.len(),
            routes_view(r@) == routes_view(v@.subrange(0, i as int)),
        decreases v@.len() - i,
    {
        let ghost prev = r@;
        r.push(v[i].clone());
        assert(v@.subrange(0, i + 1) =~= v@.subrange(0, i as int).push(v@[i as int]));
        assert(routes_view(r@) =~= routes_view(prev).push(routes_view(v@.subrange(0, i + 1)).last()));
        assert(routes_view(r@) =~= routes_view(v@.subrange(0, i + 1)));
        i = i + 1;
    }
    assert(v@.subrange(0, v@.len() as int) =~= v@);
    r
}

fn clone_env(v: &Vec<(String, String)>) -> (r: Vec<(String, String)>)
    ensures
        env_view(r@) == env_view(v@),
{
    let mut r: Vec<(String, String)> = Vec::new();
    let mut i: usize = 0;
    while i < v.len()
        invariant
            i <= v@.len(),
            env_view(r@) == env_view(v@.subrange(0, i as int)),
        decreases v@.len() - i,
    {
        let ghost prev = r@;
        r.push((v[i].0.clone(), v[i].1.clone()));
        assert(v@.subrange(0, i + 1) =~= v@.subrange(0, i as int).push(v@[i as int]));
        assert(env_view(r@) =~= env_view(prev).push(env_view(v@.subrange(0, i + 1)).last()));
        assert(env_view(r@) =~= env_view(v@.subrange(0, i + 1)));
        i = i + 1;
    }
    assert(v@.subrange(0, v@.len() as int) =~= v@);
    r
}

pub fn clone_volumes(v: &Vec<(String, VolumeDefinition)>) -> (r: Vec<(String, VolumeDefinition)>)
    ensures
        volumes_view(r@) == volumes_view(v@),
{
    let mut r: Vec<(String, VolumeDefinition)> = Vec::new();
    let mut i: usize = 0;
    while i < v.len()
        invariant
            i <= v@.len(),
            volumes_view(r@) == volumes_view(v@.subrange(0, i as int)),
        decreases v@.len() - i,
    {
        let ghost prev = r@;
        r.push((v[i].0.clone(), v[i].1.clone()));
        assert(v@.subrange(0, i + 1) =~= v@.subrange(0, i as int).push(v@[i as int]));
        assert(volumes_view(r@) =~= volumes_view(prev).push(volumes_view(v@.subrange(0, i + 1)).last()));
        assert(volumes_view(r@) =~= volumes_view(v@.subrange(0, i + 1)));
        i = i + 1;
    }
    assert(v@.subrange(0, v@.len() as int) =~= v@);
    r
}

impl Clone for Service {
    fn clone(&self) -> (r: Service)
        ensures
            r@ == self@,
    {
        Service {
            image: self.image.clone(),
            tag: self.tag.clone(),
            replicas: self.replicas,
            routes: clone_routes(&self.routes),
            environment: clone_env(&self.environment),
            volumes: clone_volumes(&self.volumes),
            shutdown_mode: self.shutdown_mode,
        }
    }
}

} // verus!
