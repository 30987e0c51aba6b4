use cman::cli::Profile;
use cman::commands::build_plan::{
    compile_jobs, compile_result, describe, describe_profile, link_result, plan, relative,
};
use cman::commands::check::{check_jobs, check_result};
use cman::commands::clean::{clean_target, removed_message};
use cman::commands::run::exit_status;
use cman::commands::status_line;
use cman::compiler::{Compiler, JobOutcome};
use cman::editor::{opted_out, settings_path, should_write_settings, SETTINGS};
use cman::manifest::{Manifest, Package, Project};

fn project() -> Project {
    let manifest = Manifest {
        package: Package { name: "hello".into(), version: "0.2.0".into(), std: "c17".into() },
    };
    Project::new("/home/you/hello".to_string(), manifest).ok().unwrap()
}

fn outcome(success: bool) -> JobOutcome {
    JobOutcome { success, stdout: vec![], stderr: vec![] }
}

#[test]
fn plan_mirrors_the_src_tree() {
    let p = project();
    let sources = vec![
        "/home/you/hello/src/main.c".to_string(),
        "/home/you/hello/src/math/add.c".to_string(),
    ];
    let units = plan(&p, Profile::Dev, &sources).ok().unwrap();
    assert_eq!(units.len(), 2);
    assert_eq!(units[0].src, "/home/you/hello/src/main.c");
    assert_eq!(units[0].obj, "/home/you/hello/target/debug/obj/main.o");
    assert_eq!(units[0].dep, "/home/you/hello/target/debug/obj/main.d");
    assert_eq!(units[1].obj, "/home/you/hello/target/debug/obj/math/add.o");
    let release = plan(&p, Profile::Release, &sources).ok().unwrap();
    assert_eq!(release[1].dep, "/home/you/hello/target/release/obj/math/add.d");
    assert_ne!(release[1].obj, units[1].obj);
}

#[test]
fn plan_reads_source_paths_by_components() {
    let p = project();
    let sources = vec![
        "/home/you/hello//src/./x/a.c".to_string(),
        "/home/you/hello/src/b.x.c".to_string(),
    ];
    let units = plan(&p, Profile::Dev, &sources).ok().unwrap();
    assert_eq!(units[0].obj, "/home/you/hello/target/debug/obj/x/a.o");
    assert_eq!(units[0].dep, "/home/you/hello/target/debug/obj/x/a.d");
    assert_eq!(units[1].obj, "/home/you/hello/target/debug/obj/b.x.o");
    assert_eq!(relative(&p, "/home/you/hello//src/a.c"), "src/a.c");
    assert_eq!(relative(&p, "/home/you/hello"), "");
}

#[test]
fn plan_refuses_sources_outside_src() {
    let p = project();
    let sources = vec!["/home/you/hello/src/a.c".to_string(), "/elsewhere/b.c".to_string()];
    match plan(&p, Profile::Dev, &sources) {
        Err(e) => assert_eq!(e.message(), "`/elsewhere/b.c` is outside `/home/you/hello/src`"),
        Ok(_) => panic!("outside source accepted"),
    }
}

#[test]
fn descriptions() {
    let p = project();
    assert_eq!(describe(&p), "hello v0.2.0 (/home/you/hello)");
    assert_eq!(describe_profile(Profile::Dev), "unoptimized + debuginfo");
    assert_eq!(describe_profile(Profile::Release), "optimized");
    assert_eq!(relative(&p, "/home/you/hello/src/a.c"), "src/a.c");
    assert_eq!(relative(&p, "/other/a.c"), "/other/a.c");
}

#[test]
fn compile_failures_are_summarised() {
    let p = project();
    let c = Compiler::detect(None);
    let sources = vec![
        "/home/you/hello/src/a.c".to_string(),
        "/home/you/hello/src/b.c".to_string(),
    ];
    let units = plan(&p, Profile::Dev, &sources).ok().unwrap();
    let jobs = compile_jobs(&p, &c, &vec!["-g".to_string()], &units);
    assert_eq!(jobs[0].label, "src/a.c");
    assert_eq!(jobs[1].args[0], "-g");
    assert!(compile_result(&p, &jobs, &vec![outcome(true), outcome(true)]).is_ok());
    match compile_result(&p, &jobs, &vec![outcome(true), outcome(false)]) {
        Err(e) => assert_eq!(e.message(), "could not compile `hello` (1 of 2 file(s) failed: src/b.c)"),
        Ok(()) => panic!("failure not reported"),
    }
    match check_result(&p, &jobs, &vec![outcome(false), outcome(false)]) {
        Err(e) => assert_eq!(
            e.message(),
            "could not check `hello` (2 of 2 file(s) failed: src/a.c, src/b.c)"
        ),
        Ok(()) => panic!("failure not reported"),
    }
    assert!(link_result(&outcome(true)).is_ok());
    assert_eq!(link_result(&outcome(false)).unwrap_err().message(), "linking failed");
}

#[test]
fn check_jobs_are_labelled() {
    let p = project();
    let c = Compiler::detect(None);
    let jobs = check_jobs(&p, &c, &vec![], &vec!["/home/you/hello/src/x.c".to_string()]);
    assert_eq!(jobs.len(), 1);
    assert_eq!(jobs[0].label, "src/x.c");
    assert_eq!(jobs[0].args, vec!["-fsyntax-only", "/home/you/hello/src/x.c"]);
}

#[test]
fn clean_targets() {
    let p = project();
    assert_eq!(clean_target(&p, false), "/home/you/hello/target");
    assert_eq!(clean_target(&p, true), "/home/you/hello/target/release");
    assert_eq!(removed_message(12, "target"), "12 file(s) from `target`");
}

#[test]
fn exit_status_is_forwarded() {
    assert_eq!(exit_status(Some(0)), 0);
    assert_eq!(exit_status(Some(3)), 3);
    assert_eq!(exit_status(Some(300)), 255);
    assert_eq!(exit_status(Some(-1)), 0);
    assert_eq!(exit_status(None), 1);
}

#[test]
fn status_lines_are_right_aligned() {
    assert_eq!(status_line("Created", "binary `x` package"), "     Created binary `x` package");
    assert_eq!(status_line("Configuration", "y"), "Configuration y");
}

#[test]
fn editor_settings() {
    assert!(!opted_out(None));
    assert!(!opted_out(Some("")));
    assert!(opted_out(Some("1")));
    assert_eq!(settings_path("/p"), "/p/.vscode/settings.json");
    assert!(should_write_settings(false, false));
    assert!(!should_write_settings(false, true));
    assert!(!should_write_settings(true, false));
    assert_eq!(SETTINGS, "{\n  \"files.autoSave\": \"onFocusChange\"\n}\n");
}

#[test]
fn same_file_names_in_different_directories_do_not_collide() {
    let p = project();
    let sources = vec![
        "/home/you/hello/src/x/util.c".to_string(),
        "/home/you/hello/src/y/util.c".to_string(),
        "/home/you/hello/src/util.c".to_string(),
    ];
    let units = plan(&p, Profile::Dev, &sources).ok().unwrap();
    assert_ne!(units[0].obj, units[1].obj);
    assert_ne!(units[0].obj, units[2].obj);
    assert_ne!(units[1].obj, units[2].obj);
    for unit in &units {
        assert_ne!(unit.obj, unit.dep);
        assert_ne!(unit.obj, unit.src);
    }
}
