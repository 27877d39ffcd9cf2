//! The native-module registry and the module-resolution rule: a reserved
//! native name is looked up first and shadows any same-named file; every
//! other specifier probes the literal path and then the configured
//! extension patterns, in order. Native exports are materialized lazily,
//! at most once per registry.

use crate::lookup::{first_where, lemma_first_where, lemma_first_where_is};
use vstd::prelude::*;

verus! {

/// One registered native module: its reserved name, the identity of the
/// host initializer that materializes its exports, and whether that
/// initializer has already run.
#[derive(Debug)]
pub struct ModuleEntry {
    pub name: String,
    pub init_id: u64,
    pub initialized: bool,
}

/// Whether the name `n` has the text `s`.
pub open spec fn name_is(n: String, s: Seq<char>) -> bool {
    n@ == s
}

/// Index of the first element of `names` whose text is `s`, or the length.
pub open spec fn name_index(names: Seq<String>, s: Seq<char>) -> int {
    first_where(names, |n: String| name_is(n, s))
}

/// Whether some element of `names` has the text `s`.
pub open spec fn has_name(names: Seq<String>, s: Seq<char>) -> bool {
    name_index(names, s) < names.len()
}

/// Whether `p` is the path of a present file.
pub open spec fn file_present(files: Seq<String>, p: Seq<char>) -> bool {
    exists|j: int| 0 <= j < files.len() && #[trigger] files[j]@ == p
}

/// Whether the literal path or some extension pattern of `s` is present.
pub open spec fn any_candidate_present(s: Seq<char>, files: Seq<String>) -> bool {
    ||| file_present(files, s)
    ||| file_present(files, s + ".cjs"@)
    ||| file_present(files, s + ".mjs"@)
}

/// The path the file resolver picks for `s`: the first present candidate,
/// probed in the fixed order literal, `.cjs`, `.mjs`.
pub open spec fn resolved_file(s: Seq<char>, files: Seq<String>) -> Seq<char> {
    if file_present(files, s) {
        s
    } else if file_present(files, s + ".cjs"@) {
        s + ".cjs"@
    } else {
        s + ".mjs"@
    }
}

/// How a specifier resolves, payload left aside.
pub enum ResolutionKind {
    Native,
    File,
    NotFound,
}

/// The resolution rule: native names first, then file candidates, else a
/// lookup failure.
pub open spec fn resolution_kind(names: Seq<String>, s: Seq<char>, files: Seq<String>) -> ResolutionKind {
    if has_name(names, s) {
        ResolutionKind::Native
    } else if any_candidate_present(s, files) {
        ResolutionKind::File
    } else {
        ResolutionKind::NotFound
    }
}

/// Law: a reserved native name shadows any same-named file. Whenever the
/// specifier matches a registered native module, resolution is native for
/// every state of the filesystem.
pub proof fn lemma_native_shadows_file(names: Seq<String>, s: Seq<char>)
    requires
        has_name(names, s),
    ensures
        forall|files: Seq<String>| #[trigger] resolution_kind(names, s, files)
            == ResolutionKind::Native,
{
}

/// A name that no element of `names` carries is absent.
pub proof fn lemma_absent_name(names: Seq<String>, s: Seq<char>)
    requires
        forall|j: int| 0 <= j < names.len() ==> (#[trigger] names[j])@ != s,
    ensures
        !has_name(names, s),
{
    let pred = |n: String| name_is(n, s);
    lemma_first_where(names, pred);
    if has_name(names, s) {
        let x = name_index(names, s);
        assert(x == first_where(names, pred));
        assert(pred(names[x]));
        assert(names[x]@ == s);
        assert(false);
    }
}

/// What one specifier resolved to.
#[derive(Debug)]
pub enum Resolution {
    Native(usize),
    File(String),
    NotFound,
}

/// The registry of native modules, installed once at host startup; its
/// names are reserved and resolve before any filesystem probing.
pub struct ModuleRegistry {
    pub entries: Vec<ModuleEntry>,
}

impl ModuleRegistry {
    /// The reserved names, in registration order.
    pub open spec fn names(&self) -> Seq<String> {
        self.entries@.map_values(|e: ModuleEntry| e.name)
    }

    /// No two native modules share a name.
    pub open spec fn wf(&self) -> bool {
        forall|i: int, j: int|
            0 <= i < j < self.entries@.len() ==> (#[trigger] self.entries@[i]).name@ != (
            #[trigger] self.entries@[j]).name@
    }

    /// An empty registry.
    pub fn new() -> (r: ModuleRegistry)
        ensures
            r.wf(),
            r.entries@.len() == 0,
    {
        ModuleRegistry { entries: Vec::new() }
    }

    /// Index of the first entry named as `name`, or the registry size.
    fn position_of_name(&self, name: &String) -> (r: usize)
        ensures
            r == name_index(self.names(), name@),
    {
        let mut i: usize = 0;
        while i < self.entries.len()
            invariant
                0 <= i <= self.entries.len(),
                self.names().len() == self.entries.len(),
                forall|j: int| 0 <= j < i ==> self.names()[j]@ != name@,
            decreases self.entries.len() - i,
        {
            if self.entries[i].name.eq(name) {
                proof {
                    assert(self.names()[i as int] == self.entries@[i as int].name);
                    lemma_first_where_is(self.names(), |n: String| name_is(n, name@), i as int);
                }
                return i;
            }
            i += 1;
        }
        proof {
            lemma_first_where(self.names(), |n: String| name_is(n, name@));
        }
        i
    }

    /// Reserves `name` for the host initializer identified by `init_id`:
    /// a fresh name is appended, uninitialized; registering a name that is
    /// already reserved replaces its initializer. Re-registration after a
    /// name's first use is not allowed.
    pub fn register(&mut self, name: String, init_id: u64)
        requires
            old(self).wf(),
            forall|i: int|
                0 <= i < old(self).entries@.len() && (#[trigger] old(self).entries@[i]).name@
                    == name@ ==> !old(self).entries@[i].initialized,
        ensures
            final(self).wf(),
            has_name(old(self).names(), name@) ==> {
                &&& final(self).entries@.len() == old(self).entries@.len()
                &&& (forall|j: int|
                    0 <= j < old(self).entries@.len() && j != name_index(old(self).names(), name@)
                        ==> final(self).entries@[j] == old(self).entries@[j])
                &&& final(self).entries@[name_index(old(self).names(), name@)] == (ModuleEntry {
                    name: name,
                    init_id: init_id,
                    initialized: false,
                })
            },
            !has_name(old(self).names(), name@) ==> {
                &&& final(self).entries@.len() == old(self).entries@.len() + 1
                &&& (forall|j: int|
                    0 <= j < old(self).entries@.len() ==> final(self).entries@[j] == old(
                        self,
                    ).entries@[j])
                &&& final(self).entries@.last() == (ModuleEntry {
                    name: name,
                    init_id: init_id,
                    initialized: false,
                })
            },
    {
        let ghost names0 = self.names();
        let n = self.position_of_name(&name);
        proof {
            lemma_first_where(names0, |nm: String| name_is(nm, name@));
        }
        let entry = ModuleEntry { name: name, init_id: init_id, initialized: false };
        if n < self.entries.len() {
            let ghost i = n as int;
            let _old_entry = self.entries.remove(n);
            self.entries.insert(n, entry);
            proof {
                assert forall|j: int| 0 <= j < old(self).entries@.len() && j != i implies self
                    .entries@[j] == old(self).entries@[j] by {
                    assert(self.entries@[j] == old(self).entries@.remove(i)[if j < i {
                        j
                    } else {
                        j - 1
                    }]);
                }
                assert(self.entries@[i].name@ == old(self).entries@[i].name@);
                assert forall|a: int, b: int| 0 <= a < b < self.entries@.len() implies (
                #[trigger] self.entries@[a]).name@ != (#[trigger] self.entries@[b]).name@ by {
                    assert(self.entries@[a].name@ == old(self).entries@[a].name@);
                    assert(self.entries@[b].name@ == old(self).entries@[b].name@);
                }
            }
        } else {
            self.entries.push(entry);
            proof {
                assert forall|a: int, b: int| 0 <= a < b < self.entries@.len() implies (
                #[trigger] self.entries@[a]).name@ != (#[trigger] self.entries@[b]).name@ by {
                    if b == old(self).entries@.len() {
                        assert(names0[a]@ != name@);
                        assert(names0[a] == old(self).entries@[a].name);
                    }
                }
            }
        }
    }

    /// Marks the native module at `i` used, materializing it lazily: the
    /// result says whether its initializer must run now — true on first
    /// use, false (reuse the already-populated exports) ever after.
    pub fn load_native(&mut self, i: usize) -> (run_init: bool)
        requires
            old(self).wf(),
            i < old(self).entries@.len(),
        ensures
            final(self).wf(),
            run_init == !old(self).entries@[i as int].initialized,
            final(self).entries@.len() == old(self).entries@.len(),
            final(self).entries@[i as int].name == old(self).entries@[i as int].name,
            final(self).entries@[i as int].init_id == old(self).entries@[i as int].init_id,
            final(self).entries@[i as int].initialized,
            forall|j: int|
                0 <= j < old(self).entries@.len() && j != i ==> final(self).entries@[j] == old(
                    self,
                ).entries@[j],
    {
        let ghost ii = i as int;
        let entry = self.entries.remove(i);
        let run_init = !entry.initialized;
        self.entries.insert(
            i,
            ModuleEntry { name: entry.name, init_id: entry.init_id, initialized: true },
        );
        proof {
            assert forall|j: int| 0 <= j < old(self).entries@.len() && j != ii implies self
                .entries@[j] == old(self).entries@[j] by {
                assert(self.entries@[j] == old(self).entries@.remove(ii)[if j < ii {
                    j
                } else {
                    j - 1
                }]);
            }
            assert forall|a: int, b: int| 0 <= a < b < self.entries@.len() implies (#[trigger] self
                .entries@[a]).name@ != (#[trigger] self.entries@[b]).name@ by {
                assert(self.entries@[a].name@ == old(self).entries@[a].name@);
                assert(self.entries@[b].name@ == old(self).entries@[b].name@);
            }
        }
        run_init
    }

    /// Resolves a specifier: an exact match against a reserved native name
    /// wins outright (no filesystem probing — native shadows file); any
    /// other specifier tries the literal path, then `.cjs`, then `.mjs`
    /// against the present files, and a specifier matching none of them is
    /// a lookup failure.
    pub fn resolve(&self, specifier: &String, files_present: &Vec<String>) -> (r: Resolution)
        ensures
            (r matches Resolution::Native(i) ==> i == name_index(self.names(), specifier@)
                && i < self.entries@.len()),
            ((r matches Resolution::Native(_)) <==> has_name(self.names(), specifier@)),
            (r matches Resolution::File(p) ==> p@ == resolved_file(specifier@, files_present@)),
            ((r matches Resolution::File(_)) <==> (!has_name(self.names(), specifier@)
                && any_candidate_present(specifier@, files_present@))),
            ((r matches Resolution::NotFound) <==> (!has_name(self.names(), specifier@)
                && !any_candidate_present(specifier@, files_present@))),
    {
        let n = self.position_of_name(specifier);
        proof {
            lemma_first_where(self.names(), |nm: String| name_is(nm, specifier@));
        }
        if n < self.entries.len() {
            return Resolution::Native(n);
        }
        if contains_path(files_present, specifier) {
            return Resolution::File(specifier.clone());
        }
        let with_cjs = specifier.clone().concat(".cjs");
        if contains_path(files_present, &with_cjs) {
            return Resolution::File(with_cjs);
        }
        let with_mjs = specifier.clone().concat(".mjs");
        if contains_path(files_present, &with_mjs) {
            return Resolution::File(with_mjs);
        }
        Resolution::NotFound
    }
}

/// Whether `p` is among the present files.
fn contains_path(files: &Vec<String>, p: &String) -> (r: bool)
    ensures
        r == file_present(files@, p@),
{
    let mut i: usize = 0;
    while i < files.len()
        invariant
            0 <= i <= files.len(),
            forall|j: int| 0 <= j < i ==> (#[trigger] files@[j])@ != p@,
        decreases files.len() - i,
    {
        if files[i].eq(p) {
            return true;
        }
        i += 1;
    }
    proof {
        if file_present(files@, p@) {
            let j = choose|j: int| 0 <= j < files@.len() && files@[j]@ == p@;
            assert(false);
        }
    }
    false
}

/// The import helper's default-export convention: a synchronous `require`
/// hands back the binding named `default` when the module's export set has
/// one, else the whole namespace — this picks which, as the index of the
/// first `default` binding.
pub fn default_export_index(names: &Vec<String>) -> (r: Option<usize>)
    ensures
        ((r matches Some(_)) <==> has_name(names@, "default"@)),
        (r matches Some(i) ==> i == name_index(names@, "default"@) && i < names@.len()
            && names@[i as int]@ == "default"@),
{
    let target: String = String::from_str("default");
    let mut i: usize = 0;
    while i < names.len()
        invariant
            0 <= i <= names.len(),
            target@ == "default"@,
            forall|j: int| 0 <= j < i ==> (#[trigger] names@[j])@ != "default"@,
        decreases names.len() - i,
    {
        if names[i].eq(&target) {
            proof {
                lemma_first_where_is(names@, |n: String| name_is(n, "default"@), i as int);
            }
            return Some(i);
        }
        i += 1;
    }
    proof {
        lemma_first_where(names@, |n: String| name_is(n, "default"@));
    }
    None
}

} // verus!
