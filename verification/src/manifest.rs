//! The contents of `cman.toml` and the layout of the project it belongs to.

use vstd::prelude::*;

use crate::cli::{spec_dir_name, Profile};
use crate::error::CmanError;
use crate::paths::{
    distinct_components, is_c_source, join, lemma_filter_to_multiset, lemma_join_extends,
    lemma_sorted_paths_unique, sort_paths, sorted_paths, spec_is_c_source, spec_join,
};

verus! {

/// The manifest file name, the marker that identifies a project root.
pub const MANIFEST_FILE: &'static str = "cman.toml";

/// The parsed contents of `cman.toml`.
pub struct Manifest {
    pub package: Package,
}

/// The `[package]` table of the manifest.
pub struct Package {
    pub name: String,
    pub version: String,
    /// C standard passed to the compiler as `-std=<std>`.
    pub std: String,
}

/// The version a manifest that names none gets.
pub fn default_version() -> (v: String)
    ensures
        v@ == "0.1.0"@,
{
    String::from_str("0.1.0")
}

/// The C standard a manifest that names none gets.
pub fn default_std() -> (v: String)
    ensures
        v@ == "c17"@,
{
    String::from_str("c17")
}

/// A located project: its root directory plus the parsed manifest.
pub struct Project {
    pub root: String,
    pub manifest: Manifest,
}

/// The `.c` files among `files`, in their order.
pub open spec fn c_sources(files: Seq<String>) -> Seq<String> {
    files.filter(|f: String| spec_is_c_source(f@))
}

/// Find the project root among the directories from the start directory up to
/// the file-system root (`ancestors`, nearest first): the first one that holds
/// a manifest, as reported in `has_manifest`.
pub fn find_root(ancestors: &Vec<String>, has_manifest: &Vec<bool>) -> (root: Option<String>)
    requires
        ancestors.len() == has_manifest.len(),
    ensures
        match root {
            Some(r) => exists|i: int|
                0 <= i < ancestors.len() && has_manifest@[i] && r@ == ancestors@[i]@ && forall|j: int|
                    0 <= j < i ==> !has_manifest@[j],
            None => forall|i: int| 0 <= i < has_manifest.len() ==> !has_manifest@[i],
        },
{
    let mut i: usize = 0;
    while i < ancestors.len()
        invariant
            ancestors.len() == has_manifest.len(),
            i <= ancestors.len(),
            forall|j: int| 0 <= j < i ==> !has_manifest@[j],
        decreases ancestors.len() - i,
    {
        if has_manifest[i] {
            return Some(ancestors[i].clone());
        }
        i = i + 1;
    }
    None
}

impl Project {
    /// The project rooted at `root` with the given manifest. An empty package
    /// name is refused, since the name is also that of the executable.
    pub fn new(root: String, manifest: Manifest) -> (project: Result<Project, CmanError>)
        ensures
            match project {
                Ok(p) => manifest.package.name@.len() > 0 && p.root@ == root@
                    && p.manifest.package.name@ == manifest.package.name@
                    && p.manifest.package.version@ == manifest.package.version@
                    && p.manifest.package.std@ == manifest.package.std@,
                Err(CmanError::EmptyPackageName { manifest: m }) => manifest.package.name@.len() == 0
                    && m@ == spec_join(root@, MANIFEST_FILE@),
                Err(_) => false,
            },
    {
        if manifest.package.name.as_str().is_empty() {
            let path = join(root.as_str(), MANIFEST_FILE);
            return Err(CmanError::EmptyPackageName { manifest: path });
        }
        Ok(Project { root, manifest })
    }

    pub fn name(&self) -> (name: &str)
        ensures
            name@ == self.manifest.package.name@,
    {
        self.manifest.package.name.as_str()
    }

    pub fn src_dir(&self) -> (dir: String)
        ensures
            dir@ == spec_join(self.root@, "src"@),
    {
        join(self.root.as_str(), "src")
    }

    /// Public header directory. Optional: absent in projects that keep every
    /// header next to its `.c` file.
    pub fn include_dir(&self) -> (dir: String)
        ensures
            dir@ == spec_join(self.root@, "include"@),
    {
        join(self.root.as_str(), "include")
    }

    pub fn target_dir(&self) -> (dir: String)
        ensures
            dir@ == spec_join(self.root@, "target"@),
    {
        join(self.root.as_str(), "target")
    }

    /// `target/debug` or `target/release`. Keeping the profiles in separate
    /// trees means switching `--release` never mixes objects built with
    /// different flags.
    pub fn profile_dir(&self, profile: Profile) -> (dir: String)
        ensures
            dir@ == spec_join(spec_join(self.root@, "target"@), spec_dir_name(profile)),
    {
        join(self.target_dir().as_str(), profile.dir_name())
    }

    pub fn obj_dir(&self, profile: Profile) -> (dir: String)
        ensures
            dir@ == spec_join(
                spec_join(spec_join(self.root@, "target"@), spec_dir_name(profile)),
                "obj"@,
            ),
    {
        join(self.profile_dir(profile).as_str(), "obj")
    }

    pub fn bin_path(&self, profile: Profile) -> (path: String)
        ensures
            path@ == spec_join(
                spec_join(spec_join(self.root@, "target"@), spec_dir_name(profile)),
                self.manifest.package.name@,
            ),
    {
        join(self.profile_dir(profile).as_str(), self.name())
    }

    /// Directories searched for headers, passed to the compiler as `-I`:
    /// `include/` when it is a directory, then `src/`.
    pub fn include_dirs(&self, include_is_dir: bool) -> (dirs: Vec<String>)
        ensures
            include_is_dir ==> dirs@.len() == 2 && dirs@[0]@ == spec_join(self.root@, "include"@)
                && dirs@[1]@ == spec_join(self.root@, "src"@),
            !include_is_dir ==> dirs@.len() == 1 && dirs@[0]@ == spec_join(self.root@, "src"@),
    {
        let mut dirs = Vec::new();
        if include_is_dir {
            dirs.push(self.include_dir());
        }
        dirs.push(self.src_dir());
        dirs
    }

    /// Every `.c` file among the regular files found under `src/`, sorted so
    /// that build output is stable from run to run. A project without a `src`
    /// directory, or without a single `.c` file in it, is refused.
    pub fn sources(&self, src_is_dir: bool, files: &Vec<String>) -> (sources: Result<
        Vec<String>,
        CmanError,
    >)
        ensures
            match sources {
                Ok(s) => src_is_dir && c_sources(files@).len() > 0 && s@.to_multiset()
                    == c_sources(files@).to_multiset() && sorted_paths(s@),
                Err(CmanError::NoSrcDir { root }) => !src_is_dir && root@ == self.root@,
                Err(CmanError::NoSources { src_dir }) => src_is_dir && c_sources(files@).len() == 0
                    && src_dir@ == spec_join(self.root@, "src"@),
                Err(_) => false,
            },
    {
        if !src_is_dir {
            return Err(CmanError::NoSrcDir { root: self.root.clone() });
        }
        let mut found: Vec<String> = Vec::new();
        let mut i: usize = 0;
        let ghost pred = |f: String| spec_is_c_source(f@);
        assert(files@.take(0) =~= Seq::<String>::empty());
        while i < files.len()
            invariant
                i <= files.len(),
                pred == (|f: String| spec_is_c_source(f@)),
                found@ == files@.take(i as int).filter(pred),
            decreases files.len() - i,
        {
            proof {
                assert(files@.take(i + 1) =~= files@.take(i as int).push(files@[i as int]));
                files@.take(i as int).lemma_filter_push(files@[i as int], pred);
            }
            if is_c_source(files[i].as_str()) {
                found.push(files[i].clone());
            }
            i = i + 1;
        }
        assert(files@.take(files.len() as int) =~= files@);
        if found.len() == 0 {
            return Err(CmanError::NoSources { src_dir: self.src_dir() });
        }
        Ok(sort_paths(&found))
    }
}

/// Every artifact of a profile lies under `target/<profile>/`: the path of
/// something at `rel` there has `target` then `/` then the profile's
/// directory name at the front.
pub proof fn lemma_profile_prefix(root: Seq<char>, profile: Profile, rel: Seq<char>)
    requires
        !(rel.len() > 0 && rel[0] == '/'),
    ensures
        ({
            let t = spec_join(root, "target"@);
            let p = spec_join(spec_join(t, spec_dir_name(profile)), rel);
            &&& p.len() > t.len() + 2
            &&& p[t.len() as int + 1] == spec_dir_name(profile)[0]
        }),
{
    reveal_strlit("target");
    let t = spec_join(root, "target"@);
    lemma_join_extends(root, "target"@);
    assert(t.len() > 0 && t.last() == 't');
    let d = spec_dir_name(profile);
    lemma_join_extends(t, d);
    let pd = spec_join(t, d);
    assert(pd.len() > 0 && pd.last() != '/');
    lemma_join_extends(pd, rel);
    assert(spec_join(pd, rel)[t.len() as int + 1] == pd[t.len() as int + 1]);
}

/// Debug and release never share an artifact: switching `--release` never
/// touches the other profile's objects, dependency records, executable or
/// fingerprint, since each lives below its own `target/<profile>/`.
pub proof fn law_profiles_never_share_artifacts(root: Seq<char>, x: Seq<char>, y: Seq<char>)
    requires
        !(x.len() > 0 && x[0] == '/'),
        !(y.len() > 0 && y[0] == '/'),
    ensures
        spec_join(spec_join(spec_join(root, "target"@), spec_dir_name(Profile::Dev)), x)
            != spec_join(spec_join(spec_join(root, "target"@), spec_dir_name(Profile::Release)), y),
{
    lemma_profile_prefix(root, Profile::Dev, x);
    lemma_profile_prefix(root, Profile::Release, y);
}

/// The list of sources is stable from run to run: two results of
/// `Project::sources` for listings that hold the same files, in whatever
/// order the directory returned them, are the same list, provided no two
/// sources have the same path components.
pub proof fn law_source_order_is_stable(
    files1: Seq<String>,
    files2: Seq<String>,
    sources1: Seq<String>,
    sources2: Seq<String>,
)
    requires
        files1.to_multiset() == files2.to_multiset(),
        sources1.to_multiset() == c_sources(files1).to_multiset(),
        sources2.to_multiset() == c_sources(files2).to_multiset(),
        sorted_paths(sources1),
        sorted_paths(sources2),
        distinct_components(sources1),
    ensures
        sources1 == sources2,
{
    let p = |f: String| spec_is_c_source(f@);
    lemma_filter_to_multiset(files1, p);
    lemma_filter_to_multiset(files2, p);
    lemma_sorted_paths_unique(sources1, sources2);
}

} // verus!
