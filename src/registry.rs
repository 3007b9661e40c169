//! An owned registry of modules, keyed by dotted module ID in order of registration.
use linked_hash_map::LinkedHashMap;
use vstd::prelude::*;
use vstd::string::{StrSliceExecFns, StringExecFns};

use crate::backend::{find_last, last_index_of};

verus! {

#[verifier::external_type_specification]
#[verifier::external_body]
#[verifier::reject_recursive_types(K)]
#[verifier::reject_recursive_types(V)]
#[verifier::reject_recursive_types(S)]
pub struct ExLinkedHashMap<K, V, S>(LinkedHashMap<K, V, S>);

/// The keys of the map, in order of insertion.
pub uninterp spec fn registered_ids(m: LinkedHashMap<String, ()>) -> Seq<Seq<char>>;

/// Relies on `LinkedHashMap::new`: an empty map.
#[verifier::external_body]
fn empty_map() -> (r: LinkedHashMap<String, ()>)
    ensures
        registered_ids(r) == Seq::<Seq<char>>::empty(),
{
    LinkedHashMap::new()
}

/// Relies on `LinkedHashMap::contains_key`: whether `k` is a key.
#[verifier::external_body]
fn map_contains(m: &LinkedHashMap<String, ()>, k: &str) -> (r: bool)
    ensures
        r == registered_ids(*m).contains(k@),
{
    m.contains_key(k)
}

/// Relies on `LinkedHashMap::insert` of a new key: it is attached at the end of the order.
#[verifier::external_body]
fn map_insert_new(m: &mut LinkedHashMap<String, ()>, k: String)
    requires
        !registered_ids(*old(m)).contains(k@),
    ensures
        registered_ids(*final(m)) == registered_ids(*old(m)).push(k@),
{
    m.insert(k, ());
}

/// Relies on `LinkedHashMap::keys`: the keys in order of insertion.
#[verifier::external_body]
fn map_keys(m: &LinkedHashMap<String, ()>) -> (r: Vec<String>)
    ensures
        r@.len() == registered_ids(*m).len(),
        forall|i: int| 0 <= i < r@.len() ==> #[trigger] r@[i]@ == registered_ids(*m)[i],
{
    m.keys().cloned().collect()
}

/// The reserved module name.
pub open spec fn reserved_name() -> Seq<char> {
    seq!['a', 'd', 'm', 'i', 'n']
}

/// A dotted module ID: `<namespace>.<name>`, the name being the last label.
pub struct ModuleId(pub String);

/// The last label of an ID.
pub open spec fn id_name(s: Seq<char>) -> Seq<char> {
    s.subrange(last_index_of(s, '.') + 1, s.len() as int)
}

/// All labels of an ID but the last; empty for an ID of one label.
pub open spec fn id_namespace(s: Seq<char>) -> Seq<char> {
    if last_index_of(s, '.') == -1 {
        Seq::empty()
    } else {
        s.subrange(0, last_index_of(s, '.'))
    }
}

impl ModuleId {
    /// The namespace: every label but the last.
    pub fn namespace(&self) -> (r: Option<&str>)
        ensures
            r matches Some(t) && t@ == id_namespace(self.0@),
    {
        let s = self.0.as_str();
        match find_last(s, '.') {
            None => Some(s.substring_char(0, 0)),
            Some(d) => Some(s.substring_char(0, d)),
        }
    }

    /// The name: the last label, or nothing for an empty ID.
    pub fn name(&self) -> (r: Option<&str>)
        ensures
            self.0@.len() == 0 ==> r is None,
            self.0@.len() > 0 ==> (r matches Some(t) && t@ == id_name(self.0@)),
    {
        let s = self.0.as_str();
        let n = s.unicode_len();
        if n == 0 {
            return None;
        }
        match find_last(s, '.') {
            None => Some(s.substring_char(0, n)),
            Some(d) => Some(s.substring_char(d + 1, n)),
        }
    }
}

/// What a module tells about itself.
pub struct ModuleInfo {
    pub id: ModuleId,
}

/// A pluggable module: it names itself, and may set up, check and clean up.
pub trait Module {
    /// The ID the module registers under.
    spec fn spec_id(&self) -> Seq<char>;

    fn module(&self) -> (r: ModuleInfo)
        ensures
            r.id.0@ == self.spec_id(),
    ;

    fn provision(&self) {
    }

    fn validate(&self) {
    }

    fn cleanup(&self) {
    }
}

/// Why a registration was refused.
#[derive(Clone, Copy, Debug, PartialEq, Eq, Structural)]
pub enum RegisterError {
    /// The module's ID has no name.
    MissingId,
    /// The module's name is reserved.
    Reserved,
    /// A module of that ID is already registered.
    AlreadyRegistered,
}

/// Registered module IDs, in order of registration.
pub struct ModuleRegistry {
    modules: LinkedHashMap<String, ()>,
}

impl ModuleRegistry {
    pub closed spec fn ids(&self) -> Seq<Seq<char>> {
        registered_ids(self.modules)
    }

    /// Every registered ID is distinct, has a name, and its name is not reserved.
    pub open spec fn wf(&self) -> bool {
        &&& self.ids().no_duplicates()
        &&& forall|i: int|
            0 <= i < self.ids().len() ==> (#[trigger] self.ids()[i]).len() > 0 && id_name(
                self.ids()[i],
            ) != reserved_name()
    }

    pub fn new() -> (r: ModuleRegistry)
        ensures
            r.wf(),
            r.ids() == Seq::<Seq<char>>::empty(),
    {
        ModuleRegistry { modules: empty_map() }
    }

    pub fn contains(&self, id: &str) -> (r: bool)
        ensures
            r == self.ids().contains(id@),
    {
        map_contains(&self.modules, id)
    }
}

/// Registers a module under its ID: refused when the ID has no name, when
/// the name is reserved, or when the ID is taken.
pub fn register_module(registry: &mut ModuleRegistry, info: ModuleInfo) -> (r: Result<
    (),
    RegisterError,
>)
    requires
        old(registry).wf(),
    ensures
        final(registry).wf(),
        info.id.0@.len() == 0 ==> r == Err::<(), RegisterError>(RegisterError::MissingId),
        info.id.0@.len() > 0 && id_name(info.id.0@) == reserved_name() ==> r == Err::<
            (),
            RegisterError,
        >(RegisterError::Reserved),
        info.id.0@.len() > 0 && id_name(info.id.0@) != reserved_name() && old(
            registry,
        ).ids().contains(info.id.0@) ==> r == Err::<(), RegisterError>(
            RegisterError::AlreadyRegistered,
        ),
        r is Ok <==> info.id.0@.len() > 0 && id_name(info.id.0@) != reserved_name() && !old(
            registry,
        ).ids().contains(info.id.0@),
        r is Ok ==> final(registry).ids() == old(registry).ids().push(info.id.0@),
        r is Err ==> final(registry).ids() == old(registry).ids(),
{
    let name = match info.id.name() {
        None => {
            return Err(RegisterError::MissingId);
        },
        Some(n) => n,
    };
    let reserved = "admin";
    proof {
        reveal_strlit("admin");
        assert(reserved@ =~= reserved_name());
    }
    if string_eq(name, reserved) {
        return Err(RegisterError::Reserved);
    }
    if registry.contains(info.id.0.as_str()) {
        return Err(RegisterError::AlreadyRegistered);
    }
    let ghost before = registry.ids();
    let ghost id = info.id.0@;
    map_insert_new(&mut registry.modules, info.id.0);
    proof {
        let after = registry.ids();
        assert(after == before.push(id));
        assert forall|i: int, j: int| 0 <= i < after.len() && 0 <= j < after.len() && i != j
            implies after[i] != after[j] by {
            if i < before.len() && j < before.len() {
                assert(after[i] == before[i] && after[j] == before[j]);
            } else if i < before.len() {
                assert(after[i] == before[i]);
            } else {
                assert(after[j] == before[j]);
            }
        }
        assert forall|i: int| 0 <= i < after.len() implies (#[trigger] after[i]).len() > 0
            && id_name(after[i]) != reserved_name() by {
            if i < before.len() {
                assert(after[i] == before[i]);
            }
        }
    }
    Ok(())
}

/// Whether two strings hold the same characters.
pub fn string_eq(a: &str, b: &str) -> (r: bool)
    ensures
        r == (a@ == b@),
{
    let n = a.unicode_len();
    if n != b.unicode_len() {
        return false;
    }
    let mut i: usize = 0;
    while i < n
        invariant
            n == a@.len(),
            n == b@.len(),
            i <= n,
            forall|j: int| 0 <= j < i ==> a@[j] == b@[j],
        decreases n - i,
    {
        if a.get_char(i) != b.get_char(i) {
            return false;
        }
        i = i + 1;
    }
    assert(a@ =~= b@);
    true
}

/// The module registered under `name`, if any.
pub fn get_module(registry: &ModuleRegistry, name: &str) -> (r: Option<ModuleInfo>)
    ensures
        r is Some <==> registry.ids().contains(name@),
        r matches Some(info) ==> info.id.0@ == name@,
{
    if registry.contains(name) {
        Some(ModuleInfo { id: ModuleId(String::from_str(name)) })
    } else {
        None
    }
}

/// The name (last label) of a module's ID.
pub fn get_module_name(info: &ModuleInfo) -> (r: Option<String>)
    ensures
        info.id.0@.len() == 0 ==> r is None,
        info.id.0@.len() > 0 ==> (r matches Some(t) && t@ == id_name(info.id.0@)),
{
    match info.id.name() {
        Some(n) => Some(String::from_str(n)),
        None => None,
    }
}

/// The full ID of a module.
pub fn get_module_id(info: &ModuleInfo) -> (r: Option<String>)
    ensures
        r matches Some(t) && t@ == info.id.0@,
{
    Some(info.id.0.clone())
}

/// The registered IDs, in order of registration.
pub fn modules(registry: &ModuleRegistry) -> (r: Vec<String>)
    ensures
        r@.len() == registry.ids().len(),
        forall|i: int| 0 <= i < r@.len() ==> #[trigger] r@[i]@ == registry.ids()[i],
{
    map_keys(&registry.modules)
}

/// A demonstration module, registered as `foo.gizmo`.
pub struct Gizmo {}

impl Gizmo {
    pub fn new() -> Gizmo {
        Gizmo {  }
    }
}

/// The ID of the demonstration module.
pub open spec fn gizmo_id() -> Seq<char> {
    seq!['f', 'o', 'o', '.', 'g', 'i', 'z', 'm', 'o']
}

impl Module for Gizmo {
    open spec fn spec_id(&self) -> Seq<char> {
        gizmo_id()
    }

    fn module(&self) -> (r: ModuleInfo) {
        let id = String::from_str("foo.gizmo");
        proof {
            reveal_strlit("foo.gizmo");
            assert(id@ =~= gizmo_id());
        }
        ModuleInfo { id: ModuleId(id) }
    }
}

} // verus!
