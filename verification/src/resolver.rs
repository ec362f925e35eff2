//! From instruction pointers to function names: the table of loaded modules,
//! keyed by the address interval that each occupies, and the symbols that
//! each module's debug information gives.
use addr2line::Loader;
use rangemap::RangeMap;
use std::collections::HashMap;
use vstd::prelude::*;

verus! {

broadcast use vstd::std_specs::hash::group_hash_axioms;

#[verifier::external_type_specification]
#[verifier::external_body]
#[verifier::reject_recursive_types(K)]
#[verifier::reject_recursive_types(V)]
pub struct ExRangeMap<K, V>(RangeMap<K, V>);

#[verifier::external_type_specification]
#[verifier::external_body]
pub struct ExLoader(Loader);

/// What a `RangeMap` holds, address by address: each address that a stored
/// range covers, with the value of that range.
pub uninterp spec fn range_map_cover(table: RangeMap<u64, usize>) -> Map<u64, usize>;

/// What `rustc_demangle::demangle` prints for a symbol.
pub uninterp spec fn demangled(symbol: Seq<char>) -> Seq<char>;

/// `RangeMap::new`: a map that covers no address.
#[verifier::external_body]
fn range_map_new() -> (table: RangeMap<u64, usize>)
    ensures
        forall|a: u64| !range_map_cover(table).contains_key(a),
{
    RangeMap::new()
}

/// `RangeMap::insert`: the addresses of `start..end` get `value`, whatever
/// they had; every other address keeps what it had. An empty range makes the
/// call panic and is left out.
#[verifier::external_body]
fn range_map_insert(table: &mut RangeMap<u64, usize>, start: u64, end: u64, value: usize)
    requires
        start < end,
    ensures
        forall|a: u64|
            start <= a < end ==> #[trigger] range_map_cover(*final(table)).contains_key(a)
                && range_map_cover(*final(table))[a] == value,
        forall|a: u64|
            !(start <= a < end) ==> #[trigger] range_map_cover(*final(table)).contains_key(a)
                == range_map_cover(*old(table)).contains_key(a) && range_map_cover(
                *final(table),
            )[a] == range_map_cover(*old(table))[a],
{
    table.insert(start..end, value)
}

/// `RangeMap::get`: the value of the range that covers `key`, if one does.
#[verifier::external_body]
fn range_map_get(table: &RangeMap<u64, usize>, key: u64) -> (value: Option<usize>)
    ensures
        value == if range_map_cover(*table).contains_key(key) {
            Some(range_map_cover(*table)[key])
        } else {
            None::<usize>
        },
{
    table.get(&key).copied()
}

/// `Loader::find_symbol`: the name of the symbol table entry for `probe`, if
/// the module that was loaded has one. Nothing is claimed of the name.
#[verifier::external_body]
fn loader_find_symbol(loader: &Loader, probe: u64) -> (symbol: Option<String>) {
    loader.find_symbol(probe).map(|name| name.to_string())
}

/// `rustc_demangle::demangle`, printed: the readable form of a symbol.
#[verifier::external_body]
fn demangle(symbol: &str) -> (name: String)
    ensures
        name@ == demangled(symbol@),
{
    rustc_demangle::demangle(symbol).to_string()
}

/// Whether `name` is the readable form of some symbol.
pub open spec fn is_resolved_name(name: Seq<char>) -> bool {
    exists|symbol: Seq<char>| name == demangled(symbol)
}

#[derive(Clone, Copy, Debug, PartialEq, Eq)]
pub enum Error {
    /// The module's debug information could not be had.
    ModuleNotFound,
    /// The module is empty or reaches beyond the address space.
    InvalidRange,
}

/// Whether `module` is the entry of the module `module_id` that came from
/// `path` and occupies `size` bytes from `start_address` on.
pub open spec fn is_entry(
    module: Module,
    module_id: usize,
    path: Seq<char>,
    start_address: u64,
    size: u64,
) -> bool {
    &&& module.module_id == module_id
    &&& module.path@ == path
    &&& module.start_address == start_address
    &&& module.end_address == start_address + size
}

/// One loaded module: the interval it occupies and where it came from.
#[derive(Debug, PartialEq, Eq)]
pub struct Module {
    pub start_address: u64,
    pub end_address: u64,
    pub path: String,
    pub module_id: usize,
}

/// What an instruction pointer resolved to.
#[derive(Debug, PartialEq, Eq)]
pub struct Location {
    pub function_name: String,
    pub module_id: usize,
}

impl Location {
    /// The location that a symbol of module `module_id` stands for: the
    /// symbol's name in readable form.
    pub fn from_symbol(symbol: &str, module_id: usize) -> (location: Self)
        ensures
            location.function_name@ == demangled(symbol@),
            location.module_id == module_id,
    {
        Location { function_name: demangle(symbol), module_id }
    }

    pub fn duplicate(&self) -> (copy: Self)
        ensures
            copy == *self,
    {
        Location { function_name: self.function_name.clone(), module_id: self.module_id }
    }
}

impl Module {
    /// Whether `ip` lies in the module's interval.
    pub open spec fn contains(&self, ip: u64) -> bool {
        self.start_address <= ip < self.end_address
    }

    /// The module at `start_address` that is `size` bytes long.
    pub fn new(path: String, start_address: u64, size: u64) -> (module: Self)
        requires
            start_address + size <= u64::MAX,
        ensures
            module.start_address == start_address,
            module.end_address == start_address + size,
            module.path@ == path@,
            module.module_id == 0,
    {
        Module { path, start_address, end_address: start_address + size, module_id: 0 }
    }

    /// Asks the module's debug information for the function at `ip`, by the
    /// address relative to the module's start. An address outside the
    /// module resolves to nothing.
    pub fn lookup(&self, ip: u64, loader: &Loader) -> (found: Option<Location>)
        ensures
            !self.contains(ip) ==> found is None,
            found matches Some(location) ==> location.module_id == self.module_id
                && is_resolved_name(location.function_name@),
    {
        match self.probe(ip) {
            Some(probe) => self.locate(loader_find_symbol(loader, probe)),
            None => None,
        }
    }

    /// The address that the module's debug information is asked for when
    /// `ip` is looked up: the distance of `ip` from the module's start, for
    /// an `ip` inside the module; nothing is asked for another.
    pub open spec fn probe_of(&self, ip: u64) -> Option<u64> {
        if self.contains(ip) {
            Some((ip - self.start_address) as u64)
        } else {
            None
        }
    }

    pub fn probe(&self, ip: u64) -> (probe: Option<u64>)
        ensures
            probe == self.probe_of(ip),
    {
        if ip < self.start_address || ip >= self.end_address {
            None
        } else {
            Some(ip - self.start_address)
        }
    }

    /// What the answer of the module's debug information amounts to: a
    /// symbol is a location of this module that goes by the symbol's
    /// readable name, no symbol is no location.
    pub fn locate(&self, symbol: Option<String>) -> (found: Option<Location>)
        ensures
            match symbol {
                Some(name) => found matches Some(location) && location.function_name@
                    == demangled(name@) && location.module_id == self.module_id,
                None => found is None,
            },
    {
        match symbol {
            Some(name) => Some(Location::from_symbol(name.as_str(), self.module_id)),
            None => None,
        }
    }
}

pub struct Resolver {
    modules: RangeMap<u64, usize>,
    table: Vec<Module>,
    cached: HashMap<u64, Location>,
    loaders: HashMap<u64, Loader>,
}

impl Resolver {
    /// For each address that a registered module occupies, the position of
    /// that module in the order of registration.
    pub closed spec fn cover(&self) -> Map<u64, usize> {
        range_map_cover(self.modules)
    }

    /// The registered modules, in the order of registration.
    pub closed spec fn registered(&self) -> Seq<Module> {
        self.table@
    }

    /// What was resolved since the table last changed, by instruction pointer.
    pub closed spec fn cache(&self) -> Map<u64, Location> {
        self.cached@
    }

    /// The debug information that is kept, by the start address of the
    /// module that it was loaded for.
    pub closed spec fn loaders(&self) -> Map<u64, Loader> {
        self.loaders@
    }

    /// The debug information that is asked when `ip` is looked up: that
    /// kept under the start address of the module that occupies `ip`.
    pub open spec fn asked(&self, ip: u64) -> Option<Loader> {
        if self.cover().contains_key(ip) && self.loaders().contains_key(
            self.registered()[self.cover()[ip] as int].start_address,
        ) {
            Some(self.loaders()[self.registered()[self.cover()[ip] as int].start_address])
        } else {
            None
        }
    }

    /// For each address that a registered module occupies, the id of that
    /// module.
    pub closed spec fn modules(&self) -> Map<u64, usize> {
        Map::new(
            |a: u64| self.cover().contains_key(a),
            |a: u64| self.table@[self.cover()[a] as int].module_id,
        )
    }

    /// The id of the module that occupies `ip`, if one does.
    pub open spec fn module_at(&self, ip: u64) -> Option<usize> {
        if self.modules().contains_key(ip) {
            Some(self.modules()[ip])
        } else {
            None
        }
    }

    /// The addresses from `start` up to `end`, each with `module_id`.
    pub open spec fn interval(start: int, end: int, module_id: usize) -> Map<u64, usize> {
        Map::new(|a: u64| start <= a < end, |a: u64| module_id)
    }

    /// Every occupied address belongs to a registered module whose interval
    /// holds it, debug information is kept for every registered module, and
    /// what is cached agrees with the table.
    pub closed spec fn wf(&self) -> bool {
        &&& forall|i: int|
            0 <= i < self.table@.len() ==> self.loaders@.contains_key(
                (#[trigger] self.table@[i]).start_address,
            )
        &&& forall|a: u64| #[trigger]
            self.cover().contains_key(a) ==> self.cover()[a] < self.table@.len()
                && self.table@[self.cover()[a] as int].contains(a)
        &&& forall|a: u64| #[trigger]
            self.cached@.contains_key(a) ==> self.cover().contains_key(a)
                && self.cached@[a].module_id == self.table@[self.cover()[a] as int].module_id
                && is_resolved_name(self.cached@[a].function_name@)
    }

    pub fn new() -> (resolver: Self)
        ensures
            resolver.wf(),
            resolver.modules() == Map::<u64, usize>::empty(),
            resolver.cache() == Map::<u64, Location>::empty(),
            resolver.cover() == Map::<u64, usize>::empty(),
            resolver.registered() == Seq::<Module>::empty(),
            resolver.loaders() == Map::<u64, Loader>::empty(),
    {
        let resolver = Resolver {
            modules: range_map_new(),
            table: Vec::new(),
            cached: HashMap::new(),
            loaders: HashMap::new(),
        };
        assert(resolver.modules() =~= Map::<u64, usize>::empty());
        assert(resolver.cover() =~= Map::<u64, usize>::empty());
        resolver
    }

    /// Registers the module `module_id` at `start_address`, `size` bytes
    /// long, with the debug information that was loaded for it. The module
    /// takes over every address of its interval, and its debug information
    /// is kept under its start address. Without debug information the
    /// module is not found, whatever its interval; with it, an empty
    /// interval, or one that reaches beyond the address space, is invalid.
    /// On an error nothing changes.
    #[verifier::rlimit(50)]
    pub fn add_module(
        &mut self,
        module_id: usize,
        file_path: &str,
        start_address: u64,
        size: u64,
        loader: Option<Loader>,
    ) -> (r: Result<(), Error>)
        requires
            old(self).wf(),
        ensures
            final(self).wf(),
            loader is None ==> r matches Err(Error::ModuleNotFound),
            (loader is Some && (size == 0 || start_address + size > u64::MAX)) ==> r matches Err(
                Error::InvalidRange,
            ),
            (loader is Some && size > 0 && start_address + size <= u64::MAX) ==> r is Ok,
            r is Ok ==> final(self).modules() == old(self).modules().union_prefer_right(
                Self::interval(start_address as int, start_address + size, module_id),
            ),
            r is Ok ==> final(self).cover() == old(self).cover().union_prefer_right(
                Self::interval(
                    start_address as int,
                    start_address + size,
                    old(self).registered().len() as usize,
                ),
            ),
            r is Ok ==> final(self).registered().len() == old(self).registered().len() + 1
                && final(self).registered().drop_last() == old(self).registered() && is_entry(
                final(self).registered().last(),
                module_id,
                file_path@,
                start_address,
                size,
            ),
            r is Ok ==> final(self).loaders() == old(self).loaders().insert(
                start_address,
                loader->0,
            ),
            r is Ok ==> final(self).cache() == Map::<u64, Location>::empty(),
            r is Err ==> final(self).modules() == old(self).modules(),
            r is Err ==> final(self).cover() == old(self).cover(),
            r is Err ==> final(self).registered() == old(self).registered(),
            r is Err ==> final(self).loaders() == old(self).loaders(),
            r is Err ==> final(self).cache() == old(self).cache(),
    {
        let loader = match loader {
            Some(loader) => loader,
            None => {
                return Err(Error::ModuleNotFound);
            },
        };
        if size == 0 || size > u64::MAX - start_address {
            return Err(Error::InvalidRange);
        }
        let mut module = Module::new(String::from_str(file_path), start_address, size);
        module.module_id = module_id;
        let position = self.table.len();
        let end_address = module.end_address;
        self.table.push(module);
        self.loaders.insert(start_address, loader);
        range_map_insert(&mut self.modules, start_address, end_address, position);
        self.cached.clear();
        proof {
            assert forall|a: u64|
                !(start_address <= a < end_address) implies #[trigger] self.cover().contains_key(a)
                == old(self).cover().contains_key(a) && self.cover()[a] == old(self).cover()[a] by {
                assert(range_map_cover(self.modules).contains_key(a) == range_map_cover(
                    old(self).modules,
                ).contains_key(a));
            }
            assert forall|a: u64| start_address <= a < end_address implies #[trigger] self.cover().contains_key(
                a,
            ) && self.cover()[a] == position by {
                assert(range_map_cover(self.modules).contains_key(a));
            }
            assert forall|a: u64| #[trigger] self.cover().contains_key(a) implies self.cover()[a]
                < self.table@.len() && self.table@[self.cover()[a] as int].contains(a) by {
                if !(start_address <= a < end_address) {
                    assert(old(self).cover().contains_key(a));
                    assert(self.table@[self.cover()[a] as int] == old(self).table@[self.cover()[a] as int]);
                }
            }
            let expected = old(self).modules().union_prefer_right(
                Self::interval(start_address as int, start_address + size, module_id),
            );
            assert forall|a: u64| #[trigger] self.modules().contains_key(a) implies self.modules()[a]
                == expected[a] by {
                if !(start_address <= a < end_address) {
                    assert(old(self).cover().contains_key(a));
                    assert(self.table@[self.cover()[a] as int] == old(self).table@[self.cover()[a] as int]);
                }
            }
            assert(self.modules() =~= expected);
            assert(self.cover() =~= old(self).cover().union_prefer_right(
                Self::interval(start_address as int, start_address + size, position),
            ));
            assert(self.table@.drop_last() == old(self).table@);
            assert forall|i: int| 0 <= i < self.table@.len() implies self.loaders@.contains_key(
                (#[trigger] self.table@[i]).start_address,
            ) by {
                if i < old(self).table@.len() {
                    assert(self.table@[i] == old(self).table@[i]);
                }
            }
        }
        Ok(())
    }

    /// The debug information to ask about `ip`, with the module that
    /// occupies `ip`: that kept under the module's start address. There is
    /// one for every address that a module occupies, and none for another.
    pub fn loader_at(&self, ip: u64) -> (at: Option<(&Module, &Loader)>)
        requires
            self.wf(),
        ensures
            at is Some == self.cover().contains_key(ip),
            at matches Some(pair) ==> *pair.0 == self.registered()[self.cover()[ip] as int]
                && Some(*pair.1) == self.asked(ip) && pair.0.contains(ip),
    {
        let position = match range_map_get(&self.modules, ip) {
            Some(position) => position,
            None => {
                return None;
            },
        };
        let module = &self.table[position];
        match self.loaders.get(&module.start_address) {
            Some(loader) => Some((module, loader)),
            None => None,
        }
    }

    /// Resolves `ip`: from the cache where it was resolved before, else by
    /// asking the debug information that `loader_at` gives for `ip`, as
    /// `Module::lookup` does. An address that no module occupies resolves
    /// to nothing.
    pub fn lookup(&mut self, ip: u64) -> (found: Option<Location>)
        requires
            old(self).wf(),
        ensures
            final(self).wf(),
            final(self).modules() == old(self).modules(),
            final(self).cover() == old(self).cover(),
            final(self).registered() == old(self).registered(),
            final(self).loaders() == old(self).loaders(),
            old(self).module_at(ip) is None ==> found is None,
            (old(self).asked(ip) is None && !old(self).cache().contains_key(ip)) ==> found is None,
            found matches Some(location) ==> Some(location.module_id) == old(self).module_at(ip)
                && is_resolved_name(location.function_name@) && final(self).cache() == old(
                self,
            ).cache().insert(ip, location),
            found is None ==> final(self).cache() == old(self).cache(),
            old(self).cache().contains_key(ip) ==> found == Some(old(self).cache()[ip]),
    {
        match self.cached.get(&ip) {
            Some(location) => {
                assert(self.cached@.insert(ip, *location) =~= self.cached@);
                return Some(location.duplicate());
            },
            None => {},
        }
        let found = match self.loader_at(ip) {
            Some((module, loader)) => module.lookup(ip, loader),
            None => None,
        };
        match found {
            Some(location) => {
                let copy = location.duplicate();
                self.cached.insert(ip, location);
                Some(copy)
            },
            None => None,
        }
    }

    /// Debug information is kept for every registered module, under the
    /// module's start address: an address that a module occupies always
    /// has debug information to ask.
    pub proof fn lemma_loader_kept(&self, ip: u64)
        requires
            self.wf(),
            self.cover().contains_key(ip),
        ensures
            self.asked(ip) is Some,
            self.cover()[ip] < self.registered().len(),
            self.loaders().contains_key(
                self.registered()[self.cover()[ip] as int].start_address,
            ),
    {
    }

    /// No two registered modules overlap: an address belongs to at most one
    /// of them, and lies in the interval that the module was registered with.
    pub proof fn lemma_modules_disjoint(&self, first: int, second: int, a: u64)
        requires
            self.wf(),
            self.occupies(first, a),
            self.occupies(second, a),
        ensures
            first == second,
            0 <= first < self.registered().len(),
            self.registered()[first].contains(a),
    {
    }

    /// Whether the module registered at `position` occupies address `a`.
    pub open spec fn occupies(&self, position: int, a: u64) -> bool {
        self.cover().contains_key(a) && self.cover()[a] == position
    }
}

} // verus!
