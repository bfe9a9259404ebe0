//! Configuration, statistics and errors.

use vstd::prelude::*;
use crate::sorting::views;
use crate::text::same_text;

verus! {

/// A set of names (for instance, directory names to skip while scanning).
#[derive(Debug, Clone, Default)]
pub struct NameSet {
    names: Vec<String>,
}

impl View for NameSet {
    type V = Set<Seq<char>>;

    closed spec fn view(&self) -> Set<Seq<char>> {
        views(self.names@).to_set()
    }
}

impl NameSet {
    /// The empty set.
    pub fn new() -> (r: Self)
        ensures
            r@ == Set::<Seq<char>>::empty(),
    {
        let r = NameSet { names: Vec::new() };
        assert(views(r.names@).to_set() =~= Set::<Seq<char>>::empty());
        r
    }

    /// Whether `name` is in the set.
    pub fn contains(&self, name: &str) -> (r: bool)
        ensures
            r == self@.contains(name@),
    {
        let mut i: usize = 0;
        while i < self.names.len()
            invariant
                i <= self.names@.len(),
                forall|j: int| 0 <= j < i ==> self.names@[j]@ != name@,
            decreases self.names@.len() - i,
        {
            if same_text(self.names[i].as_str(), name) {
                assert(views(self.names@)[i as int] == name@);
                return true;
            }
            i += 1;
        }
        assert(!views(self.names@).contains(name@));
        false
    }

    /// Adds `name` to the set.
    pub fn insert(&mut self, name: &str)
        ensures
            final(self)@ == old(self)@.insert(name@),
    {
        broadcast use Seq::lemma_push_to_set_commute;

        if !self.contains(name) {
            self.names.push(name.to_string());
            assert(views(self.names@) =~= views(old(self).names@).push(name@));
        }
        assert(self@ =~= old(self)@.insert(name@));
    }
}

/// Configuration for hoist and sort operations.
#[derive(Debug, Clone, Default)]
pub struct HoistConfig {
    /// Directories to ignore when scanning
    pub ignores: NameSet,
    /// Dependency sections to process
    pub sections: Vec<String>,
    /// Optional prefix for priority sorting (e.g., "kintsu" sorts kintsu-* deps first)
    pub sort_prefix: Option<String>,
}

/// The view of an optional owned string.
pub open spec fn opt_string_view(s: Option<String>) -> Option<Seq<char>> {
    match s {
        Some(t) => Some(t@),
        None => None,
    }
}

impl HoistConfig {
    /// The names the default configuration ignores.
    pub open spec fn new_config_ignores() -> Set<Seq<char>> {
        set!["target"@, ".git"@, "node_modules"@, "vendor"@, ".config"@, ".cargo"@]
    }

    /// The sections the default configuration processes.
    pub open spec fn new_config_sections() -> Seq<Seq<char>> {
        seq!["dependencies"@, "dev-dependencies"@, "build-dependencies"@]
    }

    /// The default configuration: skip build output, VCS and vendored
    /// directories; process the three dependency sections; no priority prefix.
    pub fn new() -> (r: Self)
        ensures
            r.ignores@ == Self::new_config_ignores(),
            forall|name: Seq<char>|
                #[trigger] r.ignores@.contains(name) <==> (name == "target"@ || name == ".git"@
                    || name == "node_modules"@ || name == "vendor"@ || name == ".config"@ || name
                    == ".cargo"@),
            views(r.sections@) == Self::new_config_sections(),
            r.sort_prefix is None,
    {
        let mut ignores = NameSet::new();
        ignores.insert("target");
        ignores.insert(".git");
        ignores.insert("node_modules");
        ignores.insert("vendor");
        ignores.insert(".config");
        ignores.insert(".cargo");
        let mut sections: Vec<String> = Vec::new();
        sections.push("dependencies".to_string());
        sections.push("dev-dependencies".to_string());
        sections.push("build-dependencies".to_string());
        assert(views(sections@) =~= seq![
            "dependencies"@,
            "dev-dependencies"@,
            "build-dependencies"@,
        ]);
        assert(ignores@ =~= set!["target"@, ".git"@, "node_modules"@, "vendor"@, ".config"@, ".cargo"@]);
        HoistConfig { ignores, sections, sort_prefix: None }
    }

    /// Sets the priority prefix for sorting.
    pub fn with_prefix(self, prefix: &str) -> (r: Self)
        ensures
            opt_string_view(r.sort_prefix) == Some(prefix@),
            r.ignores@ == self.ignores@,
            r.sections@ == self.sections@,
    {
        HoistConfig { sort_prefix: Some(prefix.to_string()), ..self }
    }

    /// Replaces the ignored names by the given ones.
    pub fn with_ignores<const N: usize>(self, ignores: [&str; N]) -> (r: Self)
        ensures
            r.ignores@ == ignores@.map_values(|s: &str| s@).to_set(),
            r.sections@ == self.sections@,
            opt_string_view(r.sort_prefix) == opt_string_view(self.sort_prefix),
    {
        broadcast use Seq::lemma_push_to_set_commute;

        let mut set = NameSet::new();
        let mut i: usize = 0;
        while i < N
            invariant
                i <= N,
                N == ignores@.len(),
                set@ == ignores@.take(i as int).map_values(|s: &str| s@).to_set(),
            decreases N - i,
        {
            set.insert(ignores[i]);
            assert(ignores@.take(i + 1).map_values(|s: &str| s@) =~= ignores@.take(
                i as int,
            ).map_values(|s: &str| s@).push(ignores@[i as int]@));
            proof {
                let prev = ignores@.take(i as int).map_values(|s: &str| s@);
                prev.lemma_push_to_set_commute(ignores@[i as int]@);
            }
            i += 1;
        }
        assert(ignores@.take(N as int) =~= ignores@);
        HoistConfig { ignores: set, ..self }
    }
}

/// Statistics from a hoist operation
#[derive(Debug, Clone, Default, PartialEq, Eq)]
pub struct HoistStats {
    pub added: usize,
    pub updated: usize,
    pub skipped: usize,
}

/// Statistics from a sort operation
#[derive(Debug, Clone, Default, PartialEq, Eq)]
pub struct SortStats {
    pub files_sorted: usize,
}

/// Statistics from a restore operation
#[derive(Debug, Clone, Default, PartialEq, Eq)]
pub struct RestoreStats {
    pub files_restored: usize,
}

} // verus!
