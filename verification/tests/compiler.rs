use cman::cli::Profile;
use cman::compiler::{failed_labels, order_by_job, outcomes_in_job_order, worker_count, Compiler, Job, JobOutcome};
use cman::manifest::{Manifest, Package, Project};

fn project() -> Project {
    let manifest = Manifest {
        package: Package { name: "hello".into(), version: "0.1.0".into(), std: "c11".into() },
    };
    Project::new("/p".to_string(), manifest).ok().unwrap()
}

fn outcome(success: bool, tag: u8) -> JobOutcome {
    JobOutcome { success, stdout: vec![tag], stderr: vec![] }
}

#[test]
fn compiler_from_cc() {
    assert_eq!(Compiler::detect(None).program(), "cc");
    assert_eq!(Compiler::detect(Some(String::new())).program(), "cc");
    assert_eq!(Compiler::detect(Some("clang".into())).program(), "clang");
}

#[test]
fn base_flags_in_order() {
    let c = Compiler::detect(None);
    let p = project();
    assert_eq!(
        c.base_flags(&p, Profile::Dev, true),
        vec!["-std=c11", "-g", "-O0", "-Wall", "-Wextra", "-I/p/include", "-I/p/src"]
    );
    assert_eq!(
        c.base_flags(&p, Profile::Release, false),
        vec!["-std=c11", "-O2", "-DNDEBUG", "-Wall", "-Wextra", "-I/p/src"]
    );
}

#[test]
fn job_command_lines() {
    let c = Compiler::detect(Some("gcc".into()));
    let base = vec!["-std=c17".to_string()];
    let job = c.compile_job(&base, "src/a.c", "obj/a.o", "obj/a.d", "src/a.c".to_string());
    assert_eq!(job.program, "gcc");
    assert_eq!(
        job.args,
        vec!["-std=c17", "-MMD", "-MF", "obj/a.d", "-MT", "obj/a.o", "-c", "src/a.c", "-o", "obj/a.o"]
    );
    assert_eq!(job.label, "src/a.c");
    let job = c.check_job(&base, "src/a.c", "a".to_string());
    assert_eq!(job.args, vec!["-std=c17", "-fsyntax-only", "src/a.c"]);
    let job = c.link_job(Profile::Release, &vec!["a.o".into(), "b.o".into()], "bin/x");
    assert_eq!(job.args, vec!["-O2", "-DNDEBUG", "a.o", "b.o", "-o", "bin/x"]);
    assert_eq!(job.label, "link bin/x");
}

#[test]
fn workers_are_clamped() {
    assert_eq!(worker_count(0, 5), 1);
    assert_eq!(worker_count(8, 5), 5);
    assert_eq!(worker_count(3, 5), 3);
}

#[test]
fn outcomes_come_back_in_job_order() {
    let collected = vec![(2, outcome(true, 2)), (0, outcome(false, 0)), (1, outcome(true, 1))];
    let ordered = order_by_job(collected);
    let indices: Vec<usize> = ordered.iter().map(|(i, _)| *i).collect();
    assert_eq!(indices, vec![0, 1, 2]);
    let tags: Vec<u8> = ordered.iter().map(|(_, o)| o.stdout[0]).collect();
    assert_eq!(tags, vec![0, 1, 2]);
}

#[test]
fn failed_labels_in_job_order() {
    let c = Compiler::detect(None);
    let jobs: Vec<Job> = ["a", "b", "c"]
        .iter()
        .map(|l| c.check_job(&vec![], l, l.to_string()))
        .collect();
    let outcomes = vec![outcome(false, 0), outcome(true, 1), outcome(false, 2)];
    assert_eq!(failed_labels(&jobs, &outcomes), vec!["a", "c"]);
    assert!(failed_labels(&jobs, &vec![]).is_empty());
}

#[test]
fn outcomes_are_put_in_job_order_whatever_the_finishing_order() {
    let collected = vec![(1, outcome(true, 1)), (2, outcome(false, 2)), (0, outcome(true, 0))];
    let ordered = outcomes_in_job_order(3, collected).unwrap();
    let tags: Vec<u8> = ordered.iter().map(|o| o.stdout[0]).collect();
    assert_eq!(tags, vec![0, 1, 2]);
    assert!(!ordered[2].success);
    assert!(outcomes_in_job_order(3, vec![(0, outcome(true, 0)), (1, outcome(true, 1))]).is_none());
    assert!(outcomes_in_job_order(2, vec![(0, outcome(true, 0)), (0, outcome(true, 1))]).is_none());
    assert!(outcomes_in_job_order(0, vec![]).unwrap().is_empty());
}
