use vstd::prelude::*;

verus! {

/// The hash map of the hashbrown crate, opaque here.
#[verifier::external_type_specification]
#[verifier::external_body]
#[verifier::reject_recursive_types(K)]
#[verifier::reject_recursive_types(V)]
#[verifier::reject_recursive_types(S)]
pub struct ExHashMap<K, V, S>(hashbrown::HashMap<K, V, S>);

/// The hash set of the hashbrown crate, opaque here.
#[verifier::external_type_specification]
#[verifier::external_body]
#[verifier::reject_recursive_types(T)]
#[verifier::reject_recursive_types(S)]
pub struct ExHashSet<T, S>(hashbrown::HashSet<T, S>);

/// The default hasher of the hashbrown crate, opaque here.
#[verifier::external_type_specification]
#[verifier::external_body]
pub struct ExDefaultHashBuilder(hashbrown::hash_map::DefaultHashBuilder);

/// What a map from tags to positions holds.
pub uninterp spec fn index_entries(m: hashbrown::HashMap<String, usize>) -> Map<Seq<char>, usize>;

/// What a set of labels holds.
pub uninterp spec fn set_members(s: hashbrown::HashSet<String>) -> Set<Seq<char>>;

/// Relies on hashbrown::HashMap::new: the map starts empty.
#[verifier::external_body]
pub(crate) fn new_index() -> (r: hashbrown::HashMap<String, usize>)
    ensures
        index_entries(r).is_empty(),
{
    hashbrown::HashMap::new()
}

/// Relies on hashbrown::HashMap::get: the value stored under a key equal to `k`.
#[verifier::external_body]
pub(crate) fn index_get(m: &hashbrown::HashMap<String, usize>, k: &String) -> (r: Option<usize>)
    ensures
        r == (if index_entries(*m).contains_key(k@) {
            Some(index_entries(*m)[k@])
        } else {
            None::<usize>
        }),
{
    m.get(k).copied()
}

/// Relies on hashbrown::HashMap::insert: the key is bound to the value,
/// replacing an earlier binding, and other keys keep theirs.
#[verifier::external_body]
pub(crate) fn index_insert(m: &mut hashbrown::HashMap<String, usize>, k: String, v: usize)
    ensures
        index_entries(*final(m)) == index_entries(*old(m)).insert(k@, v),
{
    m.insert(k, v);
}

/// Relies on hashbrown::HashSet::new: the set starts empty.
#[verifier::external_body]
pub(crate) fn new_set() -> (r: hashbrown::HashSet<String>)
    ensures
        set_members(r) == Set::<Seq<char>>::empty(),
{
    hashbrown::HashSet::new()
}

/// Relies on hashbrown::HashSet::contains: membership of a value equal to `k`.
#[verifier::external_body]
pub(crate) fn set_contains(s: &hashbrown::HashSet<String>, k: &String) -> (r: bool)
    ensures
        r == set_members(*s).contains(k@),
{
    s.contains(k)
}

/// Relies on hashbrown::HashSet::insert: the value is added, the rest kept.
#[verifier::external_body]
pub(crate) fn set_insert(s: &mut hashbrown::HashSet<String>, k: String)
    ensures
        set_members(*final(s)) == set_members(*old(s)).insert(k@),
{
    s.insert(k);
}

} // verus!
