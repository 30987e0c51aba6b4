//! `cman build`: planning the compilation units, and what the build reports.

use vstd::prelude::*;

use crate::cli::Profile;
use crate::compiler::{
    failed_labels, job_labels, outcome_successes, paired, spec_compile_args, spec_failed_labels,
    Compiler, Job, JobOutcome,
};
use crate::error::CmanError;
use crate::manifest::{lemma_profile_prefix, Project};
use crate::paths::{
    body_start, join, Component, last_piece, last_sep, lemma_join_extends, lemma_last_component, set_extension, spec_is_c_source,
    spec_join, spec_set_extension, spec_strip_dir, strip_dir,
};
use crate::text::{chars_of, string_views};

verus! {

/// One compilation unit and the artifacts derived from it.
pub struct Unit {
    pub src: String,
    pub obj: String,
    pub dep: String,
}

/// The object of a source at `rel` below `src/`: the `src/` tree is mirrored
/// under the object directory, so nested files cannot collide.
pub open spec fn spec_object_path(obj_dir: Seq<char>, rel: Seq<char>) -> Seq<char> {
    spec_set_extension(spec_join(obj_dir, rel), 'o')
}

/// The dependency file recorded next to an object.
pub open spec fn spec_dep_path(obj: Seq<char>) -> Seq<char> {
    spec_set_extension(obj, 'd')
}

/// The object directory of `profile`.
pub open spec fn spec_obj_dir(root: Seq<char>, profile: Profile) -> Seq<char> {
    spec_join(spec_join(spec_join(root, "target"@), crate::cli::spec_dir_name(profile)), "obj"@)
}

/// The unit planned for source `src`, given its place `rel` below `src/`.
pub open spec fn unit_matches(u: Unit, src: Seq<char>, rel: Seq<char>, obj_dir: Seq<char>) -> bool {
    &&& u.src@ == src
    &&& u.obj@ == spec_object_path(obj_dir, rel)
    &&& u.dep@ == spec_dep_path(spec_object_path(obj_dir, rel))
}

/// Map every source file to the object and dependency file it produces,
/// mirroring the `src/` tree under `obj/` so nested files cannot collide.
/// The first source that does not lie under `src/` is refused.
pub fn plan(project: &Project, profile: Profile, sources: &Vec<String>) -> (units: Result<
    Vec<Unit>,
    CmanError,
>)
    ensures
        match units {
            Ok(us) => us@.len() == sources@.len() && forall|i: int|
                0 <= i < sources@.len() ==> (#[trigger] spec_strip_dir(
                    sources@[i]@,
                    spec_join(project.root@, "src"@),
                ) matches Some(rel) && unit_matches(
                    us@[i],
                    sources@[i]@,
                    rel,
                    spec_obj_dir(project.root@, profile),
                )),
            Err(CmanError::OutsideSrc { src, src_dir }) => src_dir@ == spec_join(
                project.root@,
                "src"@,
            ) && exists|k: int|
                0 <= k < sources@.len() && src@ == sources@[k]@ && spec_strip_dir(
                    sources@[k]@,
                    src_dir@,
                ) is None && forall|j: int|
                    0 <= j < k ==> #[trigger] spec_strip_dir(sources@[j]@, src_dir@) is Some,
            Err(_) => false,
        },
{
    let src_dir = project.src_dir();
    let obj_dir = project.obj_dir(profile);
    let mut units: Vec<Unit> = Vec::new();
    let mut i: usize = 0;
    while i < sources.len()
        invariant
            i <= sources.len(),
            units@.len() == i,
            src_dir@ == spec_join(project.root@, "src"@),
            obj_dir@ == spec_obj_dir(project.root@, profile),
            forall|j: int|
                0 <= j < i ==> (#[trigger] spec_strip_dir(sources@[j]@, src_dir@) matches Some(rel)
                    && unit_matches(units@[j], sources@[j]@, rel, obj_dir@)),
        decreases sources.len() - i,
    {
        let src = &sources[i];
        let rel = match strip_dir(src.as_str(), src_dir.as_str()) {
            Some(rel) => rel,
            None => {
                assert(forall|j: int| 0 <= j < i ==> #[trigger] spec_strip_dir(sources@[j]@, src_dir@) is Some);
                return Err(CmanError::OutsideSrc { src: src.clone(), src_dir });
            },
        };
        let joined = join(obj_dir.as_str(), rel.as_str());
        let obj = set_extension(joined.as_str(), 'o');
        let dep = set_extension(obj.as_str(), 'd');
        units.push(Unit { src: src.clone(), obj, dep });
        i = i + 1;
    }
    Ok(units)
}

/// Shorten a path for display by making it relative to the project root.
pub fn relative(project: &Project, path: &str) -> (shown: String)
    ensures
        shown@ == match spec_strip_dir(path@, project.root@) {
            Some(rel) => rel,
            None => path@,
        },
{
    match strip_dir(path, project.root.as_str()) {
        Some(rel) => rel,
        None => path.to_string(),
    }
}

/// `name vversion (root)`, the project as the status lines describe it.
pub fn describe(project: &Project) -> (text: String)
    ensures
        text@ == project.manifest.package.name@ + " v"@ + project.manifest.package.version@ + " ("@
            + project.root@ + ")"@,
{
    let mut text = project.manifest.package.name.clone();
    text.append(" v");
    text.append(project.manifest.package.version.as_str());
    text.append(" (");
    text.append(project.root.as_str());
    text.append(")");
    text
}

pub open spec fn spec_describe_profile(profile: Profile) -> Seq<char> {
    match profile {
        Profile::Dev => "unoptimized + debuginfo"@,
        Profile::Release => "optimized"@,
    }
}

pub fn describe_profile(profile: Profile) -> (text: &'static str)
    ensures
        text@ == spec_describe_profile(profile),
{
    match profile {
        Profile::Dev => "unoptimized + debuginfo",
        Profile::Release => "optimized",
    }
}

/// The compile jobs for the stale units, in order, each labelled with its
/// source relative to the project root.
pub fn compile_jobs(project: &Project, compiler: &Compiler, base_flags: &Vec<String>, stale: &Vec<Unit>) -> (jobs: Vec<Job>)
    ensures
        jobs@.len() == stale@.len(),
        forall|i: int|
            0 <= i < stale@.len() ==> {
                &&& (#[trigger] jobs@[i]).program@ == compiler.spec_program()
                &&& string_views(jobs@[i].args@) == spec_compile_args(
                    string_views(base_flags@),
                    stale@[i].src@,
                    stale@[i].obj@,
                    stale@[i].dep@,
                )
                &&& jobs@[i].label@ == match spec_strip_dir(stale@[i].src@, project.root@) {
                    Some(rel) => rel,
                    None => stale@[i].src@,
                }
            },
{
    let mut jobs: Vec<Job> = Vec::new();
    let mut i: usize = 0;
    while i < stale.len()
        invariant
            i <= stale.len(),
            jobs@.len() == i,
            forall|j: int|
                0 <= j < i ==> {
                    &&& (#[trigger] jobs@[j]).program@ == compiler.spec_program()
                    &&& string_views(jobs@[j].args@) == spec_compile_args(
                        string_views(base_flags@),
                        stale@[j].src@,
                        stale@[j].obj@,
                        stale@[j].dep@,
                    )
                    &&& jobs@[j].label@ == match spec_strip_dir(stale@[j].src@, project.root@) {
                        Some(rel) => rel,
                        None => stale@[j].src@,
                    }
                },
        decreases stale.len() - i,
    {
        let unit = &stale[i];
        let label = relative(project, unit.src.as_str());
        jobs.push(compiler.compile_job(base_flags, unit.src.as_str(), unit.obj.as_str(), unit.dep.as_str(), label));
        i = i + 1;
    }
    jobs
}

/// Whether compiling went through: every job that has an outcome reported
/// success, or else the error naming the failed files.
pub fn compile_result(project: &Project, jobs: &Vec<Job>, outcomes: &Vec<JobOutcome>) -> (result: Result<(), CmanError>)
    ensures
        ({
            let failed = spec_failed_labels(job_labels(jobs@), outcome_successes(outcomes@), paired(jobs@, outcomes@));
            match result {
                Ok(()) => failed.len() == 0,
                Err(CmanError::CompileFailed { package, failed: f, total }) => failed.len() > 0
                    && package@ == project.manifest.package.name@ && string_views(f@) == failed
                    && total == jobs@.len(),
                Err(_) => false,
            }
        }),
{
    let failed = failed_labels(jobs, outcomes);
    if failed.len() > 0 {
        return Err(CmanError::CompileFailed {
            package: project.manifest.package.name.clone(),
            failed,
            total: jobs.len(),
        });
    }
    Ok(())
}

/// Whether linking went through.
pub fn link_result(outcome: &JobOutcome) -> (result: Result<(), CmanError>)
    ensures
        match result {
            Ok(()) => outcome.success,
            Err(CmanError::LinkFailed) => !outcome.success,
            Err(_) => false,
        },
{
    if !outcome.success {
        return Err(CmanError::LinkFailed);
    }
    Ok(())
}

/// Joining a relative path onto a base keeps the relative path distinct.
proof fn lemma_join_injective(base: Seq<char>, r1: Seq<char>, r2: Seq<char>)
    requires
        !(r1.len() > 0 && r1[0] == '/'),
        !(r2.len() > 0 && r2[0] == '/'),
        spec_join(base, r1) == spec_join(base, r2),
    ensures
        r1 == r2,
{
    let k = if base.len() == 0 || base.last() == '/' { base.len() as int } else { base.len() as int + 1 };
    assert(spec_join(base, r1).skip(k) =~= r1);
    assert(spec_join(base, r2).skip(k) =~= r2);
}

/// `name` has a non-empty stem and a one-character extension that is not a
/// `.`: `x.c`, `x.o`, `x.d`.
pub open spec fn short_extension_name(name: Seq<char>) -> bool {
    name.len() >= 3 && name[name.len() - 2] == '.' && name.last() != '.'
}

/// `r` is a relative path whose last piece is the file name of a C source:
/// a non-empty stem followed by `.c`.
pub open spec fn c_file_below(r: Seq<char>) -> bool {
    &&& !(r.len() > 0 && r[0] == '/')
    &&& short_extension_name(last_piece(r))
    &&& last_piece(r).last() == 'c'
}

/// `last_sep` reads only the text before its position.
proof fn lemma_last_sep_prefix(s1: Seq<char>, s2: Seq<char>, m: int)
    requires
        0 <= m <= s1.len(),
        m <= s2.len(),
        forall|i: int| 0 <= i < m ==> s1[i] == s2[i],
    ensures
        last_sep(s1, m) == last_sep(s2, m),
    decreases m,
{
    if m > 0 {
        lemma_last_sep_prefix(s1, s2, m - 1);
    }
}

/// After a prefix that is empty or ends in `/`, the last `/` of the whole is
/// found in the second part when it has one, and is the prefix's last
/// character otherwise.
proof fn lemma_last_sep_concat(pre: Seq<char>, r: Seq<char>, m: int)
    requires
        0 <= m <= r.len(),
        pre.len() == 0 || pre.last() == '/',
    ensures
        last_sep(pre + r, pre.len() + m) == pre.len() + last_sep(r, m),
    decreases m,
{
    let s = pre + r;
    if m == 0 {
        if pre.len() > 0 {
            assert(s[pre.len() - 1] == '/');
        }
    } else {
        assert(s[pre.len() + m - 1] == r[m - 1]);
        lemma_last_sep_concat(pre, r, m - 1);
    }
}

/// Joining a relative path onto a base keeps its last piece.
proof fn lemma_join_last_piece(base: Seq<char>, r: Seq<char>)
    requires
        !(r.len() > 0 && r[0] == '/'),
    ensures
        last_piece(spec_join(base, r)) == last_piece(r),
        spec_join(base, r).len() >= r.len(),
{
    let pre = if base.len() == 0 || base.last() == '/' { base } else { base + seq!['/'] };
    assert(spec_join(base, r) =~= pre + r);
    lemma_last_sep_concat(pre, r, r.len() as int);
    crate::paths::lemma_last_sep_bounds(r, r.len() as int);
    let j = pre + r;
    assert(j.skip(last_sep(j, j.len() as int) + 1) =~= r.skip(last_sep(r, r.len() as int) + 1));
}

/// Setting the extension of a path whose last piece is a short-extension
/// name replaces its last character, and the new last piece is again one.
proof fn lemma_set_short_extension(j: Seq<char>, ext: char)
    requires
        short_extension_name(last_piece(j)),
        ext != '.' && ext != '/',
    ensures
        spec_set_extension(j, ext) == j.drop_last().push(ext),
        last_piece(spec_set_extension(j, ext)) == last_piece(j).drop_last().push(ext),
        short_extension_name(last_piece(spec_set_extension(j, ext))),
{
    let name = last_piece(j);
    let n = j.len() as int;
    crate::paths::lemma_last_sep_bounds(j, n);
    let ls = last_sep(j, n);
    assert(name.len() == n - ls - 1);
    assert(name != seq!['.'] && name != seq!['.', '.']) by {
        assert(name.len() >= 3);
    }
    lemma_last_component(j);
    assert(name[name.len() - 1] != '.');
    assert(name[name.len() - 2] == '.');
    assert(crate::paths::last_dot(name, name.len() - 1) == name.len() - 2);
    assert(crate::paths::last_dot(name, name.len() as int) == name.len() - 2);
    assert(j[n - 2] == name[name.len() - 2]);
    let out = j.drop_last().push(ext);
    assert(j.take(ls + 1 + name.len() - 2).push('.') =~= j.drop_last());
    assert(spec_set_extension(j, ext) == out);
    assert(j[n - 1] == name[name.len() - 1]);
    assert(last_sep(j, n) == last_sep(j, n - 1));
    assert(out[n - 1] == ext);
    lemma_last_sep_prefix(out, j, n - 1);
    assert(last_sep(out, n) == last_sep(out, n - 1));
    assert(last_piece(out) =~= name.drop_last().push(ext));
}

/// The file name of a path whose last piece is a short-extension name is
/// that piece, so it is a C source only when the extension is `c`.
proof fn lemma_short_extension_source(j: Seq<char>)
    requires
        short_extension_name(last_piece(j)),
    ensures
        spec_is_c_source(j) == (last_piece(j).last() == 'c'),
{
    let name = last_piece(j);
    assert(name != seq!['.'] && name != seq!['.', '.']) by {
        assert(name.len() >= 3);
    }
    lemma_last_component(j);
    let parts = crate::paths::parsed_components(j);
    assert(crate::paths::spec_components(j).last() == parts.last().0);
}

/// Compiling never writes over a source or mixes two units' artifacts: the
/// `src/` tree is mirrored under the object directory, so sources at
/// different places below `src/` get different objects, and no object or
/// dependency file is a C source or the other file of its unit.
pub proof fn law_units_do_not_collide(obj_dir: Seq<char>, r1: Seq<char>, r2: Seq<char>)
    requires
        c_file_below(r1),
        c_file_below(r2),
    ensures
        r1 != r2 ==> spec_object_path(obj_dir, r1) != spec_object_path(obj_dir, r2),
        spec_object_path(obj_dir, r1) != spec_dep_path(spec_object_path(obj_dir, r1)),
        !spec_is_c_source(spec_object_path(obj_dir, r1)),
        !spec_is_c_source(spec_dep_path(spec_object_path(obj_dir, r1))),
{
    let j1 = spec_join(obj_dir, r1);
    let j2 = spec_join(obj_dir, r2);
    lemma_join_last_piece(obj_dir, r1);
    lemma_join_last_piece(obj_dir, r2);
    lemma_set_short_extension(j1, 'o');
    lemma_set_short_extension(j2, 'o');
    let o1 = spec_object_path(obj_dir, r1);
    let o2 = spec_object_path(obj_dir, r2);
    lemma_set_short_extension(o1, 'd');
    let d1 = spec_dep_path(o1);
    assert(o1.last() == 'o' && d1.last() == 'd');
    lemma_short_extension_source(o1);
    lemma_short_extension_source(d1);
    assert(last_piece(o1).last() == 'o');
    assert(last_piece(d1).last() == 'd');
    if r1 != r2 && o1 == o2 {
        crate::paths::lemma_last_sep_bounds(j1, j1.len() as int);
        crate::paths::lemma_last_sep_bounds(j2, j2.len() as int);
        assert(j1.last() == last_piece(j1).last());
        assert(j2.last() == last_piece(j2).last());
        assert(j1 =~= o1.drop_last().push('c'));
        assert(j2 =~= o2.drop_last().push('c'));
        lemma_join_injective(obj_dir, r1, r2);
    }
}

/// An object keeps, at the place where its profile's directory is named,
/// that directory's first character: setting the extension only ever cuts
/// the path inside its last component, which lies past `obj/`.
proof fn lemma_object_keeps_profile(root: Seq<char>, profile: Profile, r: Seq<char>)
    requires
        !(r.len() > 0 && r[0] == '/'),
    ensures
        ({
            let t = spec_join(root, "target"@);
            let o = spec_object_path(spec_obj_dir(root, profile), r);
            &&& o.len() > t.len() + 1
            &&& o[t.len() as int + 1] == crate::cli::spec_dir_name(profile)[0]
        }),
{
    reveal_strlit("obj");
    reveal_strlit("target");
    reveal_strlit("debug");
    reveal_strlit("release");
    let t = spec_join(root, "target"@);
    lemma_join_extends(root, "target"@);
    assert(t.len() > 0 && t.last() == 't');
    let d = crate::cli::spec_dir_name(profile);
    assert(d.len() >= 5 && d[0] != '/' && d.last() != '/');
    lemma_join_extends(t, d);
    let pd = spec_join(t, d);
    assert(pd.len() == t.len() + 1 + d.len());
    assert(pd.last() == d.last());
    let od = spec_join(pd, "obj"@);
    lemma_join_extends(pd, "obj"@);
    lemma_profile_prefix(root, profile, "obj"@);
    assert(od == spec_obj_dir(root, profile));
    assert(od.len() == pd.len() + 4);
    assert(od.last() == 'j');
    let jd = spec_join(od, r);
    lemma_join_extends(od, r);
    let a = pd.len() + 1int;
    let e = od.len() as int;
    let tt = t.len() + 1int;
    assert(jd[a - 1] == '/');
    assert(jd[e] == '/');
    assert forall|m: int| a <= m < e implies jd[m] != '/' by {
        assert(jd[m] == od[m]);
        assert(od[m] == "obj"@[m - a]);
    }
    assert(jd.subrange(a, e) =~= "obj"@);
    assert(jd.subrange(a, e) != seq!['.'] && jd.subrange(a, e) != seq!['.', '.']) by {
        assert(jd.subrange(a, e).len() == 3);
    }
    assert(body_start(jd) <= 1);
    crate::paths::lemma_last_component_after(jd, a, e);
    crate::paths::lemma_parsed_within(jd);
    let parts = crate::paths::parsed_components(jd);
    let last = parts.last();
    assert(0 <= last.1 <= last.2 <= jd.len()) by {
        assert(parts[parts.len() - 1] == last);
    }
    let o = spec_object_path(od, r);
    assert(jd[tt] == od[tt]);
    if let Component::Normal(name) = last.0 {
        assert(name == jd.subrange(last.1, last.2)) by {
            assert(parts[parts.len() - 1] == last);
        }
        crate::paths::lemma_stem_len_bounds(name);
        let x = last.1 + crate::paths::stem_len(name);
        assert(tt < a <= last.1 <= x <= jd.len());
        assert(o == jd.take(x).push('.').push('o'));
        assert(o[tt] == jd[tt]);
    } else {
        assert(o == jd);
    }
}

/// The object of a source under one profile is never the object of a source
/// under the other: debug and release objects live in separate trees.
pub proof fn law_profiles_never_share_objects(root: Seq<char>, r1: Seq<char>, r2: Seq<char>)
    requires
        !(r1.len() > 0 && r1[0] == '/'),
        !(r2.len() > 0 && r2[0] == '/'),
    ensures
        spec_object_path(spec_obj_dir(root, Profile::Dev), r1) != spec_object_path(
            spec_obj_dir(root, Profile::Release),
            r2,
        ),
{
    reveal_strlit("debug");
    reveal_strlit("release");
    lemma_object_keeps_profile(root, Profile::Dev, r1);
    lemma_object_keeps_profile(root, Profile::Release, r2);
}

} // verus!
