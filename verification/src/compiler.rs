//! Assembling compiler command lines, and putting the outcomes of jobs run in
//! parallel back in order.

use vstd::prelude::*;

use crate::cli::{spec_profile_flags, Profile};
use crate::manifest::Project;
use crate::paths::spec_join;
use crate::text::string_views;

verus! {

/// Warnings every project gets, on the theory that a build tool should make
/// the compiler's opinion visible by default.
pub open spec fn spec_default_warnings() -> Seq<Seq<char>> {
    seq!["-Wall"@, "-Wextra"@]
}

/// The C compiler to invoke.
pub struct Compiler {
    program: String,
}

/// The program chosen from the value of `CC`: the value itself unless it is
/// unset or empty, and `cc` otherwise.
pub open spec fn spec_chosen_program(cc: Option<String>) -> Seq<char> {
    match cc {
        Some(value) => if value@.len() > 0 {
            value@
        } else {
            "cc"@
        },
        None => "cc"@,
    }
}

/// The flags shared by compiling, checking and linking: the C standard, the
/// profile's flags, the default warnings and one `-I` per include directory.
pub open spec fn spec_base_flags(std: Seq<char>, profile: Profile, include_dirs: Seq<Seq<char>>) -> Seq<
    Seq<char>,
> {
    seq!["-std="@ + std] + spec_profile_flags(profile) + spec_default_warnings() + include_dirs.map_values(
        |d: Seq<char>| "-I"@ + d,
    )
}

/// The arguments that compile `src` into `obj` and record its header
/// dependencies in `dep`.
pub open spec fn spec_compile_args(
    base_flags: Seq<Seq<char>>,
    src: Seq<char>,
    obj: Seq<char>,
    dep: Seq<char>,
) -> Seq<Seq<char>> {
    base_flags + seq!["-MMD"@, "-MF"@, dep, "-MT"@, obj, "-c"@, src, "-o"@, obj]
}

/// The arguments that check `src` without writing anything.
pub open spec fn spec_check_args(base_flags: Seq<Seq<char>>, src: Seq<char>) -> Seq<Seq<char>> {
    base_flags + seq!["-fsyntax-only"@, src]
}

/// The arguments that link `objs` into `bin`.
pub open spec fn spec_link_args(profile: Profile, objs: Seq<Seq<char>>, bin: Seq<char>) -> Seq<
    Seq<char>,
> {
    spec_profile_flags(profile) + objs + seq!["-o"@, bin]
}

/// Append copies of `items` to `v`.
fn extend_strings(v: &mut Vec<String>, items: &Vec<String>)
    ensures
        string_views(final(v)@) == string_views(old(v)@) + string_views(items@),
{
    let ghost start = string_views(v@);
    let mut i: usize = 0;
    while i < items.len()
        invariant
            i <= items.len(),
            string_views(v@) == start + string_views(items@).take(i as int),
        decreases items.len() - i,
    {
        let ghost prev = v@;
        v.push(items[i].clone());
        assert(string_views(v@) =~= string_views(prev).push(items@[i as int]@));
        assert(string_views(items@).take(i + 1) =~= string_views(items@).take(i as int).push(
            items@[i as int]@,
        ));
        i = i + 1;
    }
    assert(string_views(items@).take(items.len() as int) =~= string_views(items@));
}

/// Append one string to `v`.
fn push_str(v: &mut Vec<String>, s: &str)
    ensures
        string_views(final(v)@) == string_views(old(v)@).push(s@),
{
    let ghost prev = v@;
    v.push(s.to_string());
    assert(string_views(v@) =~= string_views(prev).push(s@));
}

/// Append the profile's flags to `v`.
fn push_profile_flags(v: &mut Vec<String>, profile: Profile)
    ensures
        string_views(final(v)@) == string_views(old(v)@) + spec_profile_flags(profile),
{
    let ghost start = string_views(v@);
    let flags = profile.flags();
    let mut i: usize = 0;
    while i < flags.len()
        invariant
            i <= flags@.len(),
            flags@.len() == spec_profile_flags(profile).len(),
            forall|k: int| 0 <= k < flags@.len() ==> #[trigger] flags@[k]@ == spec_profile_flags(profile)[k],
            string_views(v@) == start + spec_profile_flags(profile).take(i as int),
        decreases flags@.len() - i,
    {
        push_str(v, flags[i]);
        assert(spec_profile_flags(profile).take(i + 1) =~= spec_profile_flags(profile).take(i as int).push(
            flags@[i as int]@,
        ));
        i = i + 1;
    }
    assert(spec_profile_flags(profile).take(flags@.len() as int) =~= spec_profile_flags(profile));
}

impl Compiler {
    /// Honour `CC` (passed in as `cc`) if it is set and non-empty, otherwise
    /// fall back to `cc`.
    pub fn detect(cc: Option<String>) -> (compiler: Self)
        ensures
            compiler.spec_program() == spec_chosen_program(cc),
    {
        let program = match cc {
            Some(value) => if !value.as_str().is_empty() {
                value
            } else {
                String::from_str("cc")
            },
            None => String::from_str("cc"),
        };
        Compiler { program }
    }

    /// The program this compiler runs.
    pub closed spec fn spec_program(&self) -> Seq<char> {
        self.program@
    }

    pub fn program(&self) -> (program: &str)
        ensures
            program@ == self.spec_program(),
    {
        self.program.as_str()
    }

    /// Flags shared by compiling, syntax checking and linking. These are the
    /// bytes that get hashed into the fingerprint, so anything that changes
    /// the meaning of a build has to end up in here. `include_is_dir` tells
    /// whether the project's `include/` directory exists.
    pub fn base_flags(&self, project: &Project, profile: Profile, include_is_dir: bool) -> (flags: Vec<
        String,
    >)
        ensures
            string_views(flags@) == spec_base_flags(
                project.manifest.package.std@,
                profile,
                if include_is_dir {
                    seq![spec_join(project.root@, "include"@), spec_join(project.root@, "src"@)]
                } else {
                    seq![spec_join(project.root@, "src"@)]
                },
            ),
    {
        let mut flags: Vec<String> = Vec::new();
        let mut std_flag = String::from_str("-std=");
        std_flag.append(project.manifest.package.std.as_str());
        push_str(&mut flags, std_flag.as_str());
        push_profile_flags(&mut flags, profile);
        push_str(&mut flags, "-Wall");
        push_str(&mut flags, "-Wextra");
        let dirs = project.include_dirs(include_is_dir);
        let ghost before_dirs = string_views(flags@);
        let mut i: usize = 0;
        while i < dirs.len()
            invariant
                i <= dirs.len(),
                string_views(flags@) == before_dirs + string_views(dirs@).take(i as int).map_values(
                    |d: Seq<char>| "-I"@ + d,
                ),
            decreases dirs.len() - i,
        {
            let mut dir_flag = String::from_str("-I");
            dir_flag.append(dirs[i].as_str());
            push_str(&mut flags, dir_flag.as_str());
            assert(string_views(dirs@).take(i + 1).map_values(|d: Seq<char>| "-I"@ + d)
                =~= string_views(dirs@).take(i as int).map_values(|d: Seq<char>| "-I"@ + d).push(
                "-I"@ + dirs@[i as int]@,
            ));
            i = i + 1;
        }
        proof {
            assert(string_views(dirs@).take(dirs.len() as int) =~= string_views(dirs@));
            let expected = if include_is_dir {
                seq![spec_join(project.root@, "include"@), spec_join(project.root@, "src"@)]
            } else {
                seq![spec_join(project.root@, "src"@)]
            };
            assert(string_views(dirs@) =~= expected);
            assert(string_views(flags@) =~= spec_base_flags(
                project.manifest.package.std@,
                profile,
                expected,
            ));
        }
        flags
    }

    /// Compile one compilation unit, emitting a `.d` sidecar that records
    /// which headers the object actually depends on.
    pub fn compile_job(
        &self,
        base_flags: &Vec<String>,
        src: &str,
        obj: &str,
        dep: &str,
        label: String,
    ) -> (job: Job)
        ensures
            job.program@ == self.spec_program(),
            string_views(job.args@) == spec_compile_args(string_views(base_flags@), src@, obj@, dep@),
            job.label == label,
    {
        let mut args: Vec<String> = Vec::new();
        extend_strings(&mut args, base_flags);
        push_str(&mut args, "-MMD");
        push_str(&mut args, "-MF");
        push_str(&mut args, dep);
        push_str(&mut args, "-MT");
        push_str(&mut args, obj);
        push_str(&mut args, "-c");
        push_str(&mut args, src);
        push_str(&mut args, "-o");
        push_str(&mut args, obj);
        assert(string_views(args@) =~= spec_compile_args(string_views(base_flags@), src@, obj@, dep@));
        Job::new(self.program(), args, label)
    }

    /// Parse and type-check a compilation unit without writing any output.
    pub fn check_job(&self, base_flags: &Vec<String>, src: &str, label: String) -> (job: Job)
        ensures
            job.program@ == self.spec_program(),
            string_views(job.args@) == spec_check_args(string_views(base_flags@), src@),
            job.label == label,
    {
        let mut args: Vec<String> = Vec::new();
        extend_strings(&mut args, base_flags);
        push_str(&mut args, "-fsyntax-only");
        push_str(&mut args, src);
        assert(string_views(args@) =~= spec_check_args(string_views(base_flags@), src@));
        Job::new(self.program(), args, label)
    }

    /// The job that links the objects into the final executable.
    pub fn link_job(&self, profile: Profile, objs: &Vec<String>, bin: &str) -> (job: Job)
        ensures
            job.program@ == self.spec_program(),
            string_views(job.args@) == spec_link_args(profile, string_views(objs@), bin@),
            job.label@ == "link "@ + bin@,
    {
        let mut args: Vec<String> = Vec::new();
        push_profile_flags(&mut args, profile);
        extend_strings(&mut args, objs);
        push_str(&mut args, "-o");
        push_str(&mut args, bin);
        assert(string_views(args@) =~= spec_link_args(profile, string_views(objs@), bin@));
        let mut label = String::from_str("link ");
        label.append(bin);
        Job::new(self.program(), args, label)
    }
}

/// A single compiler invocation, kept as data so it can be queued and run on
/// a worker thread.
pub struct Job {
    pub program: String,
    pub args: Vec<String>,
    /// Human-readable description used in error messages.
    pub label: String,
}

impl Job {
    fn new(program: &str, args: Vec<String>, label: String) -> (job: Self)
        ensures
            job.program@ == program@,
            job.args == args,
            job.label == label,
    {
        Job { program: program.to_string(), args, label }
    }
}

/// What a finished compiler process reported.
pub struct JobOutcome {
    pub success: bool,
    pub stdout: Vec<u8>,
    pub stderr: Vec<u8>,
}

/// How many workers to start for `jobs` jobs when `requested` were asked
/// for: at least one, and no more than there are jobs.
pub fn worker_count(requested: usize, jobs: usize) -> (workers: usize)
    requires
        jobs >= 1,
    ensures
        workers == if requested < 1 {
            1
        } else if requested > jobs {
            jobs
        } else {
            requested
        },
{
    if requested < 1 {
        1
    } else if requested > jobs {
        jobs
    } else {
        requested
    }
}

/// The job indices of a list of (index, outcome) pairs.
pub open spec fn job_indices(pairs: Seq<(usize, JobOutcome)>) -> Seq<usize> {
    pairs.map_values(|p: (usize, JobOutcome)| p.0)
}

/// The indices never decrease along `s`.
pub open spec fn ascending(s: Seq<usize>) -> bool {
    forall|i: int, j: int| 0 <= i < j < s.len() ==> s[i] <= s[j]
}

/// Put outcomes collected from workers, each tagged with the index of its
/// job, back in job order.
pub fn order_by_job(collected: Vec<(usize, JobOutcome)>) -> (ordered: Vec<(usize, JobOutcome)>)
    ensures
        ordered@.to_multiset() == collected@.to_multiset(),
        ascending(job_indices(ordered@)),
{
    let mut rest = collected;
    let mut out: Vec<(usize, JobOutcome)> = Vec::new();
    let ghost initial = rest@;
    let mut taken: usize = 0;
    let total = rest.len();
    assert(initial.len() == total);
    assert(initial.take(0) =~= out@);
    while rest.len() > 0
        invariant
            initial.len() <= usize::MAX,
            taken + rest@.len() == initial.len(),
            rest@ == initial.skip(taken as int),
            out@.to_multiset() == initial.take(taken as int).to_multiset(),
            ascending(job_indices(out@)),
        decreases rest@.len(),
    {
        let ghost before_rest = rest@;
        let item = rest.remove(0);
        assert(rest@ =~= initial.skip(taken + 1));
        let key = item.0;
        let mut pos: usize = 0;
        while pos < out.len() && out[pos].0 <= key
            invariant
                pos <= out.len(),
                forall|j: int| 0 <= j < pos ==> #[trigger] out@[j].0 <= key,
            decreases out.len() - pos,
        {
            pos = pos + 1;
        }
        let ghost before = out@;
        proof {
            assert(initial.take(taken + 1) =~= initial.take(taken as int).push(item));
            vstd::seq_lib::to_multiset_build(initial.take(taken as int), item);
            vstd::seq_lib::to_multiset_insert(before, pos as int, item);
        }
        out.insert(pos, item);
        proof {
            assert forall|i: int, j: int| 0 <= i < j < out@.len() implies job_indices(out@)[i]
                <= job_indices(out@)[j] by {
                let ki = if i < pos { before[i].0 } else if i == pos { key } else { before[i - 1].0 };
                let kj = if j < pos { before[j].0 } else if j == pos { key } else { before[j - 1].0 };
                assert(job_indices(out@)[i] == ki);
                assert(job_indices(out@)[j] == kj);
                if i < pos && j > pos {
                    assert(job_indices(before)[i] <= job_indices(before)[j - 1]);
                } else if i > pos {
                    assert(job_indices(before)[i - 1] <= job_indices(before)[j - 1]);
                } else if j < pos {
                    assert(job_indices(before)[i] <= job_indices(before)[j]);
                } else if i == pos && j > pos {
                    if pos < before.len() {
                        assert(!(before[pos as int].0 <= key));
                        assert(job_indices(before)[pos as int] <= job_indices(before)[j - 1]);
                    }
                }
            }
        }
        taken = taken + 1;
    }
    assert(initial.take(initial.len() as int) =~= initial);
    out
}

/// When the indices are exactly `0..n`, each once, ordering by job puts the
/// outcome of job `i` at position `i`: outcomes come back in the order the
/// jobs were given.
pub proof fn law_outcomes_in_job_order(ordered: Seq<usize>)
    requires
        ascending(ordered),
        forall|i: int, j: int| 0 <= i < j < ordered.len() ==> ordered[i] != ordered[j],
        forall|i: int| 0 <= i < ordered.len() ==> ordered[i] < ordered.len(),
    ensures
        forall|i: int| 0 <= i < ordered.len() ==> ordered[i] == i,
{
    let n = ordered.len() as int;
    assert forall|i: int| 0 <= i < n implies ordered[i] >= i by {
        lemma_ascending_distinct_lower(ordered, i);
    }
    assert forall|i: int| 0 <= i < n implies ordered[i] <= i by {
        lemma_ascending_distinct_upper(ordered, i);
    }
}

/// Outcomes collected from the workers, one for each of the jobs (each job
/// index below the number of jobs tagged once), come out of `order_by_job`
/// with the outcome of job `i` at position `i`.
pub proof fn law_ordering_restores_job_order(
    collected: Seq<(usize, JobOutcome)>,
    ordered: Seq<(usize, JobOutcome)>,
)
    requires
        forall|i: int, j: int| 0 <= i < j < collected.len() ==> collected[i].0 != collected[j].0,
        forall|i: int| 0 <= i < collected.len() ==> collected[i].0 < collected.len(),
        ordered.to_multiset() == collected.to_multiset(),
        ascending(job_indices(ordered)),
    ensures
        ordered.len() == collected.len(),
        forall|i: int| 0 <= i < ordered.len() ==> ordered[i].0 == i,
{
    broadcast use vstd::seq_lib::to_multiset_contains, vstd::seq_lib::to_multiset_len;

    let n = collected.len();
    assert(ordered.len() == n) by {
        vstd::seq_lib::to_multiset_len(ordered);
        vstd::seq_lib::to_multiset_len(collected);
    }
    assert(collected.no_duplicates()) by {
        assert forall|i: int, j: int| 0 <= i < collected.len() && 0 <= j < collected.len() && i != j
            implies collected[i] != collected[j] by {
            if i < j {
                assert(collected[i].0 != collected[j].0);
            } else {
                assert(collected[j].0 != collected[i].0);
            }
        }
    }
    assert forall|i: int| 0 <= i < ordered.len() implies #[trigger] collected.contains(ordered[i]) by {
        assert(ordered.contains(ordered[i]));
        assert(ordered.to_multiset().count(ordered[i]) > 0);
        assert(collected.to_multiset().count(ordered[i]) > 0);
    }
    let keys = job_indices(ordered);
    assert forall|i: int, j: int| 0 <= i < j < keys.len() implies keys[i] != keys[j] by {
        assert(collected.contains(ordered[i]));
        assert(collected.contains(ordered[j]));
        let p = choose|p: int| 0 <= p < collected.len() && collected[p] == ordered[i];
        let q = choose|q: int| 0 <= q < collected.len() && collected[q] == ordered[j];
        if keys[i] == keys[j] {
            if p == q {
                assert(ordered[i] == ordered[j]);
                collected.lemma_multiset_has_no_duplicates();
                assert(ordered.to_multiset().count(ordered[i]) == 1);
                ordered.lemma_multiset_has_no_duplicates_conv();
                assert(false);
            } else if p < q {
                assert(collected[p].0 != collected[q].0);
            } else {
                assert(collected[q].0 != collected[p].0);
            }
        }
    }
    assert forall|i: int| 0 <= i < keys.len() implies keys[i] < keys.len() by {
        assert(collected.contains(ordered[i]));
        let p = choose|p: int| 0 <= p < collected.len() && collected[p] == ordered[i];
        assert(collected[p].0 < n);
    }
    law_outcomes_in_job_order(keys);
    assert forall|i: int| 0 <= i < ordered.len() implies ordered[i].0 == i by {
        assert(keys[i] == i);
    }
}

/// Each of the `jobs` job indices is reported exactly once.
pub open spec fn reported_once(collected: Seq<(usize, JobOutcome)>, jobs: usize) -> bool {
    &&& collected.len() == jobs
    &&& forall|i: int, j: int| 0 <= i < j < collected.len() ==> collected[i].0 != collected[j].0
    &&& forall|i: int| 0 <= i < collected.len() ==> collected[i].0 < jobs
}

/// The outcomes collected from the workers, put in job order: `Some` with
/// the outcome of job `i` at position `i` whenever each of the `jobs` job
/// indices was reported exactly once, whatever the order in which the
/// workers finished.
pub fn outcomes_in_job_order(jobs: usize, collected: Vec<(usize, JobOutcome)>) -> (ordered: Option<
    Vec<JobOutcome>,
>)
    ensures
        match ordered {
            Some(v) => v@.len() == jobs && forall|i: int|
                0 <= i < jobs ==> collected@.contains((i as usize, #[trigger] v@[i])),
            None => !reported_once(collected@, jobs),
        },
{
    let ghost original = collected@;
    let mut rest = order_by_job(collected);
    let ghost sorted = rest@;
    proof {
        vstd::seq_lib::to_multiset_len(sorted);
        vstd::seq_lib::to_multiset_len(original);
        assert(sorted.len() == original.len());
        if reported_once(original, jobs) {
            law_ordering_restores_job_order(original, sorted);
        }
    }
    if rest.len() != jobs {
        assert(original.len() != jobs);
        return None;
    }
    let mut k: usize = 0;
    while k < rest.len()
        invariant
            rest@ == sorted,
            k <= rest.len(),
            forall|i: int| 0 <= i < k ==> sorted[i].0 == i,
            original == collected@,
            reported_once(original, jobs) ==> forall|i: int| 0 <= i < sorted.len() ==> sorted[i].0 == i,
        decreases rest.len() - k,
    {
        if rest[k].0 != k {
            return None;
        }
        k = k + 1;
    }
    let mut out: Vec<JobOutcome> = Vec::new();
    let mut taken: usize = 0;
    while rest.len() > 0
        invariant
            taken + rest@.len() == sorted.len(),
            sorted.len() == jobs,
            rest@ == sorted.skip(taken as int),
            out@.len() == taken,
            forall|i: int| 0 <= i < taken ==> sorted[i] == (i as usize, #[trigger] out@[i]),
            forall|i: int| 0 <= i < sorted.len() ==> sorted[i].0 == i,
        decreases rest@.len(),
    {
        let (index, outcome) = rest.remove(0);
        assert(rest@ =~= sorted.skip(taken + 1));
        assert(sorted[taken as int] == (index, outcome));
        out.push(outcome);
        taken = taken + 1;
    }
    proof {
        assert forall|i: int| 0 <= i < jobs implies original.contains((i as usize, #[trigger] out@[i])) by {
            assert(sorted[i] == (i as usize, out@[i]));
            assert(sorted.contains(sorted[i]));
            vstd::seq_lib::to_multiset_contains(sorted, sorted[i]);
            vstd::seq_lib::to_multiset_contains(original, sorted[i]);
        }
    }
    Some(out)
}

proof fn lemma_ascending_distinct_lower(s: Seq<usize>, i: int)
    requires
        ascending(s),
        forall|a: int, b: int| 0 <= a < b < s.len() ==> s[a] != s[b],
        0 <= i < s.len(),
    ensures
        s[i] >= i,
    decreases i,
{
    if i > 0 {
        lemma_ascending_distinct_lower(s, i - 1);
        assert(s[i - 1] <= s[i] && s[i - 1] != s[i]);
    }
}

proof fn lemma_ascending_distinct_upper(s: Seq<usize>, i: int)
    requires
        ascending(s),
        forall|a: int, b: int| 0 <= a < b < s.len() ==> s[a] != s[b],
        forall|a: int| 0 <= a < s.len() ==> s[a] < s.len(),
        0 <= i < s.len(),
    ensures
        s[i] <= i,
    decreases s.len() - i,
{
    if i < s.len() - 1 {
        lemma_ascending_distinct_upper(s, i + 1);
        assert(s[i] <= s[i + 1] && s[i] != s[i + 1]);
    }
}

/// The labels of the failed jobs among the first `n`, in job order.
pub open spec fn spec_failed_labels(labels: Seq<Seq<char>>, success: Seq<bool>, n: int) -> Seq<
    Seq<char>,
>
    decreases n,
{
    if n <= 0 {
        Seq::empty()
    } else if !success[n - 1] {
        spec_failed_labels(labels, success, n - 1).push(labels[n - 1])
    } else {
        spec_failed_labels(labels, success, n - 1)
    }
}

/// The labels of the jobs.
pub open spec fn job_labels(jobs: Seq<Job>) -> Seq<Seq<char>> {
    jobs.map_values(|j: Job| j.label@)
}

/// Whether each outcome reports success.
pub open spec fn outcome_successes(outcomes: Seq<JobOutcome>) -> Seq<bool> {
    outcomes.map_values(|o: JobOutcome| o.success)
}

/// The number of jobs paired with an outcome.
pub open spec fn paired(jobs: Seq<Job>, outcomes: Seq<JobOutcome>) -> int {
    if jobs.len() < outcomes.len() {
        jobs.len() as int
    } else {
        outcomes.len() as int
    }
}

/// The labels of the jobs whose outcome reports failure, pairing jobs and
/// outcomes in order.
pub fn failed_labels(jobs: &Vec<Job>, outcomes: &Vec<JobOutcome>) -> (failed: Vec<String>)
    ensures
        string_views(failed@) == spec_failed_labels(
            job_labels(jobs@),
            outcome_successes(outcomes@),
            paired(jobs@, outcomes@),
        ),
{
    let mut failed: Vec<String> = Vec::new();
    let mut i: usize = 0;
    assert(string_views(failed@) =~= Seq::<Seq<char>>::empty());
    while i < jobs.len() && i < outcomes.len()
        invariant
            i <= jobs.len(),
            i <= outcomes.len(),
            string_views(failed@) == spec_failed_labels(
                job_labels(jobs@),
                outcome_successes(outcomes@),
                i as int,
            ),
        decreases jobs.len() - i,
    {
        if !outcomes[i].success {
            let ghost prev = failed@;
            failed.push(jobs[i].label.clone());
            assert(string_views(failed@) =~= string_views(prev).push(jobs@[i as int].label@));
        }
        i = i + 1;
    }
    failed
}

/// The labels of the first `n` jobs whose outcome's success flag is false,
/// in job order.
pub open spec fn unsuccessful_labels(jobs: Seq<Job>, outcomes: Seq<JobOutcome>, n: int) -> Seq<Seq<char>>
    decreases n,
{
    if n <= 0 {
        Seq::empty()
    } else if outcomes[n - 1].success {
        unsuccessful_labels(jobs, outcomes, n - 1)
    } else {
        unsuccessful_labels(jobs, outcomes, n - 1).push(jobs[n - 1].label@)
    }
}

proof fn lemma_failed_labels_prefix(jobs: Seq<Job>, outcomes: Seq<JobOutcome>, n: int)
    requires
        0 <= n <= jobs.len(),
        n <= outcomes.len(),
    ensures
        spec_failed_labels(job_labels(jobs), outcome_successes(outcomes), n) == unsuccessful_labels(
            jobs,
            outcomes,
            n,
        ),
        unsuccessful_labels(jobs, outcomes, n).len() == 0 <==> forall|i: int|
            0 <= i < n ==> (#[trigger] outcomes[i]).success,
    decreases n,
{
    if n > 0 {
        lemma_failed_labels_prefix(jobs, outcomes, n - 1);
        assert(outcome_successes(outcomes)[n - 1] == outcomes[n - 1].success);
        assert(job_labels(jobs)[n - 1] == jobs[n - 1].label@);
        if !outcomes[n - 1].success {
            assert(unsuccessful_labels(jobs, outcomes, n).len() > 0);
        }
    }
}

/// A job is reported failed exactly when its outcome's success flag is
/// false, whatever it printed: the failed labels are those of the jobs with
/// an unsuccessful outcome, in job order, and there are none exactly when
/// every job that has an outcome succeeded. Outcomes that agree on their
/// success flags give the same failures.
pub proof fn law_failures_are_the_unsuccessful_jobs(
    jobs: Seq<Job>,
    outcomes: Seq<JobOutcome>,
    others: Seq<JobOutcome>,
)
    requires
        others.len() == outcomes.len(),
        forall|i: int| 0 <= i < outcomes.len() ==> (#[trigger] others[i]).success == outcomes[i].success,
    ensures
        ({
            let failed = spec_failed_labels(job_labels(jobs), outcome_successes(outcomes), paired(jobs, outcomes));
            &&& failed == unsuccessful_labels(jobs, outcomes, paired(jobs, outcomes))
            &&& failed.len() == 0 <==> forall|i: int|
                0 <= i < paired(jobs, outcomes) ==> (#[trigger] outcomes[i]).success
            &&& failed == spec_failed_labels(job_labels(jobs), outcome_successes(others), paired(jobs, others))
        }),
{
    let n = paired(jobs, outcomes);
    lemma_failed_labels_prefix(jobs, outcomes, n);
    lemma_failed_labels_prefix(jobs, others, n);
    lemma_unsuccessful_labels_agree(jobs, outcomes, others, n);
}

proof fn lemma_unsuccessful_labels_agree(jobs: Seq<Job>, a: Seq<JobOutcome>, b: Seq<JobOutcome>, n: int)
    requires
        n <= a.len(),
        a.len() == b.len(),
        forall|i: int| 0 <= i < a.len() ==> (#[trigger] b[i]).success == a[i].success,
    ensures
        unsuccessful_labels(jobs, a, n) == unsuccessful_labels(jobs, b, n),
    decreases n,
{
    if n > 0 {
        lemma_unsuccessful_labels_agree(jobs, a, b, n - 1);
        assert(b[n - 1].success == a[n - 1].success);
    }
}

} // verus!
