use vstd::prelude::*;

use indexmap::IndexMap;

use crate::net::Ipv4Address;

verus! {

#[verifier::external_type_specification]
#[verifier::external_body]
#[verifier::reject_recursive_types(K)]
#[verifier::reject_recursive_types(V)]
#[verifier::reject_recursive_types(S)]
pub struct ExIndexMap<K, V, S>(IndexMap<K, V, S>);

/// The running containers of one service, by container id and in the order
/// they were added.
pub type BackendSet = IndexMap<String, Ipv4Address>;

/// The entries of a backend set, in insertion order: container id and address.
pub uninterp spec fn backend_entries(m: IndexMap<String, Ipv4Address>) -> Seq<(Seq<char>, Ipv4Address)>;

/// No container id occurs twice.
pub open spec fn unique_ids(s: Seq<(Seq<char>, Ipv4Address)>) -> bool {
    forall|i: int, j: int|
        0 <= i < s.len() && 0 <= j < s.len() && #[trigger] s[i].0 == #[trigger] s[j].0 ==> i == j
}

/// Relies on `IndexMap::new`: a map without entries.
#[verifier::external_body]
pub(crate) fn empty_backends() -> (r: BackendSet)
    ensures
        backend_entries(r) == Seq::<(Seq<char>, Ipv4Address)>::empty(),
{
    IndexMap::new()
}

/// Relies on `IndexMap::len`: the number of entries.
#[verifier::external_body]
pub(crate) fn backends_len(m: &BackendSet) -> (r: usize)
    ensures
        r == backend_entries(*m).len(),
{
    m.len()
}

/// Relies on `IndexMap::get_index`: the entry at a position of the insertion
/// order.
#[verifier::external_body]
pub(crate) fn backend_at(m: &BackendSet, i: usize) -> (r: (String, Ipv4Address))
    requires
        i < backend_entries(*m).len(),
    ensures
        r.0@ == backend_entries(*m)[i as int].0,
        r.1 == backend_entries(*m)[i as int].1,
{
    let (id, addr) = m.get_index(i).unwrap();
    (id.clone(), *addr)
}

/// Relies on `IndexMap::contains_key`: whether an entry has the key.
#[verifier::external_body]
pub(crate) fn backends_contain(m: &BackendSet, id: &str) -> (r: bool)
    ensures
        r == (exists|i: int| 0 <= i < backend_entries(*m).len() && #[trigger] backend_entries(*m)[i].0 == id@),
{
    m.contains_key(id)
}

/// Relies on `IndexMap::insert`: a new key goes last; a key that is there
/// keeps its place and takes the new value.
#[verifier::external_body]
pub(crate) fn backends_insert(m: &mut BackendSet, id: String, addr: Ipv4Address)
    ensures
        (forall|i: int| 0 <= i < backend_entries(*old(m)).len() ==> #[trigger] backend_entries(*old(m))[i].0 != id@)
            ==> backend_entries(*final(m)) == backend_entries(*old(m)).push((id@, addr)),
        forall|i: int| 0 <= i < backend_entries(*old(m)).len() && #[trigger] backend_entries(*old(m))[i].0 == id@
            ==> backend_entries(*final(m)) == backend_entries(*old(m)).update(i, (id@, addr)),
{
    m.insert(id, addr);
}

/// Relies on `IndexMap::shift_remove`: the entry of the key leaves and the
/// others keep their order.
#[verifier::external_body]
pub(crate) fn backends_remove(m: &mut BackendSet, id: &str)
    ensures
        (forall|i: int| 0 <= i < backend_entries(*old(m)).len() ==> #[trigger] backend_entries(*old(m))[i].0 != id@)
            ==> backend_entries(*final(m)) == backend_entries(*old(m)),
        forall|i: int| 0 <= i < backend_entries(*old(m)).len() && #[trigger] backend_entries(*old(m))[i].0 == id@
            ==> backend_entries(*final(m)) == backend_entries(*old(m)).remove(i),
{
    m.shift_remove(id);
}

} // verus!
