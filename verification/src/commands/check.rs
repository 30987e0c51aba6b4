//! `cman check`: compile far enough to find errors, then throw the result away.

use vstd::prelude::*;

use crate::commands::build_plan::relative;
use crate::compiler::{
    failed_labels, job_labels, outcome_successes, paired, spec_check_args, spec_failed_labels,
    Compiler, Job, JobOutcome,
};
use crate::error::CmanError;
use crate::manifest::Project;
use crate::paths::spec_strip_dir;
use crate::text::string_views;

verus! {

/// One syntax-check job per source, in order, each labelled with its source
/// relative to the project root. No fingerprinting: `-fsyntax-only` writes
/// nothing, so there is no artifact whose freshness could be compared.
pub fn check_jobs(project: &Project, compiler: &Compiler, base_flags: &Vec<String>, sources: &Vec<String>) -> (jobs: Vec<Job>)
    ensures
        jobs@.len() == sources@.len(),
        forall|i: int|
            0 <= i < sources@.len() ==> {
                &&& (#[trigger] jobs@[i]).program@ == compiler.spec_program()
                &&& string_views(jobs@[i].args@) == spec_check_args(string_views(base_flags@), sources@[i]@)
                &&& jobs@[i].label@ == match spec_strip_dir(sources@[i]@, project.root@) {
                    Some(rel) => rel,
                    None => sources@[i]@,
                }
            },
{
    let mut jobs: Vec<Job> = Vec::new();
    let mut i: usize = 0;
    while i < sources.len()
        invariant
            i <= sources.len(),
            jobs@.len() == i,
            forall|j: int|
                0 <= j < i ==> {
                    &&& (#[trigger] jobs@[j]).program@ == compiler.spec_program()
                    &&& string_views(jobs@[j].args@) == spec_check_args(string_views(base_flags@), sources@[j]@)
                    &&& jobs@[j].label@ == match spec_strip_dir(sources@[j]@, project.root@) {
                        Some(rel) => rel,
                        None => sources@[j]@,
                    }
                },
        decreases sources.len() - i,
    {
        let src = &sources[i];
        let label = relative(project, src.as_str());
        jobs.push(compiler.check_job(base_flags, src.as_str(), label));
        i = i + 1;
    }
    jobs
}

/// Whether the check passed: every job that has an outcome reported
/// success, or else the error naming the failed files.
pub fn check_result(project: &Project, jobs: &Vec<Job>, outcomes: &Vec<JobOutcome>) -> (result: Result<(), CmanError>)
    ensures
        ({
            let failed = spec_failed_labels(job_labels(jobs@), outcome_successes(outcomes@), paired(jobs@, outcomes@));
            match result {
                Ok(()) => failed.len() == 0,
                Err(CmanError::CheckFailed { package, failed: f, total }) => failed.len() > 0
                    && package@ == project.manifest.package.name@ && string_views(f@) == failed
                    && total == jobs@.len(),
                Err(_) => false,
            }
        }),
{
    let failed = failed_labels(jobs, outcomes);
    if failed.len() > 0 {
        return Err(CmanError::CheckFailed {
            package: project.manifest.package.name.clone(),
            failed,
            total: jobs.len(),
        });
    }
    Ok(())
}

} // verus!
