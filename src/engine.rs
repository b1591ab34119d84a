use vstd::prelude::*;
use vstd::string::{StrSliceExecFns, StringExecFns};

use crate::common::Environment;
use crate::net::Ipv4Address;
use crate::registry::ContainerId;
use crate::segments::chars_of;
use crate::text::str_eq;

verus! {

/// The name of the network that every container joins.
pub const DOCKER_NETWORK_NAME: &'static str = "internal";

/// The identifier that the container engine gave a network.
#[derive(Clone, Debug)]
pub struct NetworkId(pub String);

/// An image held by the container engine, with its `name:tag` references.
#[derive(Clone, Debug)]
pub struct ImageSummary {
    pub repo_tags: Vec<String>,
}

/// A network known to the container engine.
#[derive(Clone, Debug)]
pub struct Network {
    pub id: String,
    pub name: String,
}

/// The engine's answer to a container creation.
#[derive(Debug)]
pub struct CreateContainerResponse {
    pub id: ContainerId,
}

/// Host paths mounted into a container, as `host:container`.
#[derive(Clone, Debug)]
pub struct HostConfig {
    pub binds: Vec<String>,
}

/// The names under which a container is reached on a network.
#[derive(Clone, Debug)]
pub struct EndpointConfig {
    pub aliases: Option<Vec<String>>,
}

/// The networks a container joins, by network id.
#[derive(Clone, Debug)]
pub struct NetworkingConfig {
    pub endpoints_config: Vec<(String, EndpointConfig)>,
}

/// Everything the engine is told when a container is created.
#[derive(Clone, Debug)]
pub struct CreateContainerOptions {
    pub image: String,
    pub env: Vec<String>,
    pub host_config: HostConfig,
    pub networking_config: Option<NetworkingConfig>,
    pub hostname: Option<String>,
}

/// The position of the last `c` in `s`, or -1.
pub open spec fn last_index_of(s: Seq<char>, c: char) -> int
    decreases s.len(),
{
    if s.len() == 0 {
        -1
    } else if s.last() == c {
        s.len() - 1
    } else {
        last_index_of(s.drop_last(), c)
    }
}

/// The position of the first `c` in `s`, or its length.
pub open spec fn first_index_of(s: Seq<char>, c: char) -> int
    decreases s.len(),
{
    if s.len() == 0 {
        0
    } else if s[0] == c {
        0
    } else {
        1 + first_index_of(s.drop_first(), c)
    }
}

/// What follows the last `/` of `s` (all of it when there is none).
pub open spec fn after_last_slash(s: Seq<char>) -> Seq<char> {
    s.subrange(last_index_of(s, '/') + 1, s.len() as int)
}

/// What comes before the first `:` of `s` (all of it when there is none).
pub open spec fn before_first_colon(s: Seq<char>) -> Seq<char> {
    s.subrange(0, first_index_of(s, ':'))
}

/// The alias of a container of `image`: its last path segment without tag.
pub open spec fn hostname_of(image: Seq<char>) -> Seq<char> {
    before_first_colon(after_last_slash(image))
}

proof fn lemma_last_index_unique(s: Seq<char>, c: char, p: int)
    requires
        -1 <= p < s.len(),
        p >= 0 ==> s[p] == c,
        forall|k: int| p < k < s.len() ==> s[k] != c,
    ensures
        last_index_of(s, c) == p,
    decreases s.len(),
{
    if s.len() > 0 && s.last() != c {
        assert forall|k: int| p < k < s.drop_last().len() implies s.drop_last()[k] != c by {
            assert(s.drop_last()[k] == s[k]);
        }
        if p == s.len() - 1 {
            assert(s[p] == c);
        }
        lemma_last_index_unique(s.drop_last(), c, p);
    } else if s.len() > 0 {
        if p < s.len() - 1 {
            assert(s[s.len() - 1] != c);
        }
    }
}

pub(crate) proof fn lemma_first_index_unique(s: Seq<char>, c: char, p: int)
    requires
        0 <= p <= s.len(),
        p < s.len() ==> s[p] == c,
        forall|k: int| 0 <= k < p ==> s[k] != c,
    ensures
        first_index_of(s, c) == p,
    decreases s.len(),
{
    if s.len() > 0 && s[0] != c {
        assert forall|k: int| 0 <= k < p - 1 implies s.drop_first()[k] != c by {
            assert(s.drop_first()[k] == s[k + 1]);
        }
        if p == 0 {
            assert(s[0] == c);
        }
        if p - 1 < s.drop_first().len() {
            assert(s.drop_first()[p - 1] == s[p]);
        }
        lemma_first_index_unique(s.drop_first(), c, p - 1);
    } else if s.len() > 0 {
        if p > 0 {
            assert(s[0] != c);
        }
    }
}

/// The alias under which containers of `image` are reached on the shared
/// network: `company/nginx:tag` gives `nginx`.
pub fn generate_hostname(image: &str) -> (r: String)
    ensures
        r@ == hostname_of(image@),
{
    let chars = chars_of(image);
    let n = chars.len();
    let mut slash: usize = 0;
    let mut i: usize = 0;
    while i < n
        invariant
            chars@ == image@,
            n == chars@.len(),
            i <= n,
            slash <= i,
            slash > 0 ==> chars@[slash - 1] == '/',
            forall|k: int| slash as int <= k < i ==> chars@[k] != '/',
        decreases n - i,
    {
        if chars[i] == '/' {
            slash = i + 1;
        }
        i = i + 1;
    }
    proof {
        lemma_last_index_unique(image@, '/', slash - 1);
    }
    let mut end: usize = slash;
    while end < n && chars[end] != ':'
        invariant
            chars@ == image@,
            n == chars@.len(),
            slash <= end <= n,
            forall|k: int| slash as int <= k < end ==> chars@[k] != ':',
        decreases n - end,
    {
        end = end + 1;
    }
    proof {
        let t = after_last_slash(image@);
        assert forall|k: int| 0 <= k < end - slash implies t[k] != ':' by {
            assert(t[k] == image@[k + slash]);
        }
        if end < n {
            assert(t[end - slash] == image@[end as int]);
        }
        lemma_first_index_unique(t, ':', end - slash);
        assert(image@.subrange(slash as int, end as int) =~= t.subrange(0, end - slash));
    }
    image.substring_char(slash, end).to_owned()
}

/// `image:tag`.
pub open spec fn image_reference_of(image: Seq<char>, tag: Seq<char>) -> Seq<char> {
    image + seq![':'] + tag
}

/// The reference of `image` at `tag`, as the engine names it.
pub fn image_reference(image: &str, tag: &str) -> (r: String)
    ensures
        r@ == image_reference_of(image@, tag@),
{
    let mut r = image.to_owned();
    let colon = ":";
    proof {
        reveal_strlit(":");
    }
    r.append(colon);
    r.append(tag);
    r
}

/// Whether the engine holds no image with the reference `expected`.
pub fn needs_pull(images: &Vec<ImageSummary>, expected: &str) -> (r: bool)
    ensures
        r == !(exists|i: int, j: int|
            0 <= i < images@.len() && 0 <= j < images@[i].repo_tags@.len()
                && #[trigger] images@[i].repo_tags@[j]@ == expected@),
{
    let mut i: usize = 0;
    while i < images.len()
        invariant
            i <= images@.len(),
            forall|a: int, b: int|
                0 <= a < i && 0 <= b < images@[a].repo_tags@.len() ==> #[trigger] images@[a].repo_tags@[b]@
                    != expected@,
        decreases images@.len() - i,
    {
        let tags = &images[i].repo_tags;
        let mut j: usize = 0;
        while j < tags.len()
            invariant
                i < images@.len(),
                tags == &images@[i as int].repo_tags,
                j <= tags@.len(),
                forall|a: int, b: int|
                    0 <= a < i && 0 <= b < images@[a].repo_tags@.len() ==> #[trigger] images@[a].repo_tags@[b]@
                        != expected@,
                forall|b: int| 0 <= b < j ==> #[trigger] tags@[b]@ != expected@,
            decreases tags@.len() - j,
        {
            if str_eq(tags[j].as_str(), expected) {
                return false;
            }
            j = j + 1;
        }
        i = i + 1;
    }
    true
}

/// The id of the first network called `name`.
pub fn find_network_id(networks: &Vec<Network>, name: &str) -> (r: Option<NetworkId>)
    ensures
        r is None <==> forall|i: int| 0 <= i < networks@.len() ==> #[trigger] networks@[i].name@ != name@,
        r is Some ==> exists|i: int|
            0 <= i < networks@.len() && #[trigger] networks@[i].name@ == name@ && r->Some_0.0@
                == networks@[i].id@ && forall|k: int| 0 <= k < i ==> networks@[k].name@ != name@,
{
    let mut i: usize = 0;
    while i < networks.len()
        invariant
            i <= networks@.len(),
            forall|k: int| 0 <= k < i ==> #[trigger] networks@[k].name@ != name@,
        decreases networks@.len() - i,
    {
        if str_eq(networks[i].name.as_str(), name) {
            return Some(NetworkId(networks[i].id.clone()));
        }
        i = i + 1;
    }
    None
}

/// `key=value`.
pub open spec fn assignment(key: Seq<char>, value: Seq<char>) -> Seq<char> {
    key + seq!['='] + value
}

/// The environment as the engine takes it: `KEY=value`, in order.
pub fn format_environment_variables(environment: &Option<Environment>) -> (r: Vec<String>)
    ensures
        environment is None ==> r@.len() == 0,
        environment is Some ==> r@.len() == environment->Some_0.variables@.len() && forall|i: int|
            0 <= i < r@.len() ==> (#[trigger] r@[i])@ == assignment(
                environment->Some_0.variables@[i].0@,
                environment->Some_0.variables@[i].1@,
            ),
{
    let mut r: Vec<String> = Vec::new();
    match environment {
        None => r,
        Some(env) => {
            let eq = "=";
            proof {
                reveal_strlit("=");
            }
            let mut i: usize = 0;
            while i < env.variables.len()
                invariant
                    eq@ == seq!['='],
                    i <= env.variables@.len(),
                    r@.len() == i,
                    forall|k: int|
                        0 <= k < i ==> (#[trigger] r@[k])@ == assignment(
                            env.variables@[k].0@,
                            env.variables@[k].1@,
                        ),
                decreases env.variables@.len() - i,
            {
                let mut s = env.variables[i].0.clone();
                s.append(eq);
                s.append(env.variables[i].1.as_str());
                r.push(s);
                i = i + 1;
            }
            r
        },
    }
}

/// `host:container`.
pub open spec fn bind_of(host: Seq<char>, container: Seq<char>) -> Seq<char> {
    host + seq![':'] + container
}

/// The bind mounts as the engine takes them: `host:container`, in order.
pub fn format_binds(volumes: &Vec<(String, String)>) -> (r: Vec<String>)
    ensures
        r@.len() == volumes@.len(),
        forall|i: int| 0 <= i < r@.len() ==> (#[trigger] r@[i])@ == bind_of(volumes@[i].0@, volumes@[i].1@),
{
    let mut r: Vec<String> = Vec::new();
    let mut i: usize = 0;
    while i < volumes.len()
        invariant
            i <= volumes@.len(),
            r@.len() == i,
            forall|k: int| 0 <= k < i ==> (#[trigger] r@[k])@ == bind_of(volumes@[k].0@, volumes@[k].1@),
        decreases volumes@.len() - i,
    {
        r.push(image_reference(volumes[i].0.as_str(), volumes[i].1.as_str()));
        i = i + 1;
    }
    r
}

/// The endpoint of a container on a network, reached under `alias`.
pub open spec fn endpoint_of(id: Seq<char>, alias: Seq<char>, c: Option<NetworkingConfig>) -> bool {
    &&& c is Some
    &&& c->Some_0.endpoints_config@.len() == 1
    &&& c->Some_0.endpoints_config@[0].0@ == id
    &&& c->Some_0.endpoints_config@[0].1.aliases is Some
    &&& c->Some_0.endpoints_config@[0].1.aliases->Some_0@.len() == 1
    &&& c->Some_0.endpoints_config@[0].1.aliases->Some_0@[0]@ == alias
}

/// The options of a new container of `image` (a `name:tag` reference): its
/// environment as `KEY=value`, its binds as `host:container`, its hostname,
/// and, with a network, one endpoint on it under `alias`.
pub fn create_container_options(
    image: &str,
    environment: &Option<Environment>,
    docker_volumes: &Vec<(String, String)>,
    hostname: Option<&str>,
    network: Option<(&NetworkId, &str)>,
) -> (r: CreateContainerOptions)
    ensures
        r.image@ == image@,
        environment is None ==> r.env@.len() == 0,
        environment is Some ==> r.env@.len() == environment->Some_0.variables@.len() && forall|i: int|
            0 <= i < r.env@.len() ==> (#[trigger] r.env@[i])@ == assignment(
                environment->Some_0.variables@[i].0@,
                environment->Some_0.variables@[i].1@,
            ),
        r.host_config.binds@.len() == docker_volumes@.len(),
        forall|i: int|
            0 <= i < docker_volumes@.len() ==> (#[trigger] r.host_config.binds@[i])@ == bind_of(
                docker_volumes@[i].0@,
                docker_volumes@[i].1@,
            ),
        hostname is None <==> r.hostname is None,
        hostname is Some ==> r.hostname->Some_0@ == hostname->Some_0@,
        network is None <==> r.networking_config is None,
        network is Some ==> endpoint_of(network->Some_0.0.0@, network->Some_0.1@, r.networking_config),
{
    let networking_config = match network {
        None => None,
        Some((id, alias)) => {
            let mut aliases: Vec<String> = Vec::new();
            aliases.push(alias.to_owned());
            let mut endpoints_config: Vec<(String, EndpointConfig)> = Vec::new();
            endpoints_config.push((id.0.clone(), EndpointConfig { aliases: Some(aliases) }));
            Some(NetworkingConfig { endpoints_config })
        },
    };
    let hostname = match hostname {
        None => None,
        Some(h) => Some(h.to_owned()),
    };
    CreateContainerOptions {
        image: image.to_owned(),
        env: format_environment_variables(environment),
        host_config: HostConfig { binds: format_binds(docker_volumes) },
        networking_config,
        hostname,
    }
}

/// `s` without its trailing `/`s.
pub open spec fn trim_trailing_slashes(s: Seq<char>) -> Seq<char>
    decreases s.len(),
{
    if s.len() > 0 && s.last() == '/' {
        trim_trailing_slashes(s.drop_last())
    } else {
        s
    }
}

/// The file name that a volume's target ends in: its last segment, ignoring
/// trailing `/`s; none when that is empty or `..`.
pub open spec fn target_file_name(target: Seq<char>) -> Option<Seq<char>> {
    let base = after_last_slash(trim_trailing_slashes(target));
    if base.len() == 0 || base == seq!['.', '.'] {
        None
    } else {
        Some(base)
    }
}

/// `root/image/tag/name/file`.
pub open spec fn staging_path_of(
    root: Seq<char>,
    image: Seq<char>,
    tag: Seq<char>,
    name: Seq<char>,
    file: Seq<char>,
) -> Seq<char> {
    root + seq!['/'] + image + seq!['/'] + tag + seq!['/'] + name + seq!['/'] + file
}

/// Where the content of volume `name` of `image` at `tag` is staged on the
/// host before it is mounted at `target`; `None` when `target` names no file.
pub fn volume_staging_path(root: &str, image: &str, tag: &str, name: &str, target: &str) -> (r:
    Option<String>)
    ensures
        r is None <==> target_file_name(target@) is None,
        r is Some ==> r->Some_0@ == staging_path_of(
            root@,
            image@,
            tag@,
            name@,
            target_file_name(target@)->Some_0,
        ),
{
    let chars = chars_of(target);
    let mut end: usize = chars.len();
    assert(chars@.subrange(0, end as int) =~= target@);
    while end > 0 && chars[end - 1] == '/'
        invariant
            chars@ == target@,
            end <= chars@.len(),
            trim_trailing_slashes(chars@.subrange(0, end as int)) == trim_trailing_slashes(target@),
        decreases end,
    {
        assert(chars@.subrange(0, end as int).drop_last() =~= chars@.subrange(0, end - 1));
        end = end - 1;
    }
    let ghost t = chars@.subrange(0, end as int);
    assert(trim_trailing_slashes(t) == t);
    let mut start: usize = end;
    while start > 0 && chars[start - 1] != '/'
        invariant
            chars@ == target@,
            start <= end <= chars@.len(),
            t == chars@.subrange(0, end as int),
            forall|k: int| start <= k < end ==> chars@[k] != '/',
        decreases start,
    {
        start = start - 1;
    }
    proof {
        lemma_last_index_unique(t, '/', start - 1);
        assert(after_last_slash(t) =~= chars@.subrange(start as int, end as int));
    }
    let len = end - start;
    let dots = len == 2 && chars[start] == '.' && chars[start + 1] == '.';
    proof {
        let b = chars@.subrange(start as int, end as int);
        if len == 2 {
            if b == seq!['.', '.'] {
                assert(b[0] == '.' && b[1] == '.');
            }
            if dots {
                assert(b =~= seq!['.', '.']);
            }
        } else {
            if b == seq!['.', '.'] {
                assert(b.len() == 2);
            }
        }
    }
    if len == 0 || dots {
        return None;
    }
    let slash = "/";
    proof {
        reveal_strlit("/");
    }
    let mut path = root.to_owned();
    path.append(slash);
    path.append(image);
    path.append(slash);
    path.append(tag);
    path.append(slash);
    path.append(name);
    path.append(slash);
    path.append(target.substring_char(start, end));
    Some(path)
}

/// The address of a container on the network called `name`, given the
/// networks it is attached to.
pub fn ip_on_network(networks: &Vec<(String, Ipv4Address)>, name: &str) -> (r: Option<Ipv4Address>)
    ensures
        r is None <==> forall|i: int| 0 <= i < networks@.len() ==> #[trigger] networks@[i].0@ != name@,
        r is Some ==> exists|i: int|
            0 <= i < networks@.len() && #[trigger] networks@[i].0@ == name@ && r->Some_0
                == networks@[i].1 && forall|k: int| 0 <= k < i ==> networks@[k].0@ != name@,
{
    let mut i: usize = 0;
    while i < networks.len()
        invariant
            i <= networks@.len(),
            forall|k: int| 0 <= k < i ==> #[trigger] networks@[k].0@ != name@,
        decreases networks@.len() - i,
    {
        if str_eq(networks[i].0.as_str(), name) {
            return Some(networks[i].1);
        }
        i = i + 1;
    }
    None
}

} // verus!
