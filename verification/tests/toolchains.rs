use jjs::jail::{cpu_usage_v2, get_path_for_subsystem, parse_usage, trim};
use jjs::soft::{
    is_scratch_path, lines, select_templates, DepCollector, DepError, DetectError, DetectScriptOutput, Field, PathArg,
    SelectError, SetupKind, SyscallInfo, TemplateInfo, ToolchainConfig, TraceItem,
};

fn s(x: &str) -> String {
    x.to_string()
}

fn syscall(kind: &str, name: &str, args: Vec<PathArg>, failed: bool) -> TraceItem {
    TraceItem::Event {
        kind: s(kind),
        data: Some(SyscallInfo { name: Field::Value(s(name)), args: Field::Value(args), failed }),
    }
}

#[test]
fn collector_counts_new_files_once() {
    let mut c = DepCollector::new();
    assert_eq!(c.count(), 0);
    let open = syscall("sysenter", "open", vec![PathArg::Text(s("/usr/lib/libc.so"))], false);
    assert_eq!(c.process_log_item(&open).unwrap(), 1);
    assert_eq!(c.process_log_item(&open).unwrap(), 0);
    let openat = syscall("sysexit", "openat", vec![PathArg::Unknown, PathArg::Text(s("/etc/ld.so.cache"))], false);
    assert_eq!(c.process_log_item(&openat).unwrap(), 1);
    let exec = syscall("sysenter", "execve", vec![PathArg::Text(s("/usr/bin/g++"))], false);
    assert_eq!(c.process_log_item(&exec).unwrap(), 1);
    assert_eq!(c.count(), 3);
    let mut files = c.files();
    files.sort();
    assert_eq!(files, vec![s("/etc/ld.so.cache"), s("/usr/bin/g++"), s("/usr/lib/libc.so")]);
}

#[test]
fn collector_skips_what_names_no_file() {
    let mut c = DepCollector::new();
    let failed = syscall("sysexit", "open", vec![PathArg::Text(s("/nope"))], true);
    assert_eq!(c.process_log_item(&failed).unwrap(), 0);
    let other = syscall("sysenter", "read", vec![], false);
    assert_eq!(c.process_log_item(&other).unwrap(), 0);
    let unknown = syscall("sysenter", "lstat", vec![PathArg::Unknown], false);
    assert_eq!(c.process_log_item(&unknown).unwrap(), 0);
    let attach = TraceItem::Event { kind: s("attach"), data: None };
    assert_eq!(c.process_log_item(&attach).unwrap(), 0);
    assert_eq!(c.count(), 0);
}

#[test]
fn collector_errors() {
    let mut c = DepCollector::new();
    assert!(matches!(c.process_log_item(&TraceItem::Malformed), Err(DepError::Malformed)));
    match c.process_log_item(&TraceItem::Event { kind: s("weird"), data: None }) {
        Err(DepError::UnknownKind(k)) => assert_eq!(k, "weird"),
        other => panic!("{:?}", other),
    }
    let no_data = TraceItem::Event { kind: s("sysenter"), data: None };
    assert!(matches!(c.process_log_item(&no_data), Err(DepError::Malformed)));
    let no_name = TraceItem::Event {
        kind: s("sysenter"),
        data: Some(SyscallInfo { name: Field::Missing, args: Field::Value(vec![]), failed: false }),
    };
    assert!(matches!(c.process_log_item(&no_name), Err(DepError::NoSyscallInfo)));
    let bad_args = TraceItem::Event {
        kind: s("sysenter"),
        data: Some(SyscallInfo { name: Field::Value(s("open")), args: Field::WrongType, failed: false }),
    };
    assert!(matches!(c.process_log_item(&bad_args), Err(DepError::Malformed)));
    let bad_path = syscall("sysenter", "access", vec![PathArg::Malformed], false);
    assert!(matches!(c.process_log_item(&bad_path), Err(DepError::BadPath)));
    assert_eq!(c.count(), 0);
}

fn tpl(name: &str, depends: &[&str], auto: bool) -> TemplateInfo {
    TemplateInfo {
        dir: format!("/tpls/{}", name),
        name: s(name),
        cfg: ToolchainConfig { kind: SetupKind::Trace, depends: depends.iter().map(|d| s(d)).collect(), auto },
    }
}

fn names(tpls: &[TemplateInfo], picked: Vec<usize>) -> Vec<String> {
    let mut v: Vec<String> = picked.into_iter().map(|i| tpls[i].name.clone()).collect();
    v.sort();
    v
}

#[test]
fn templates_with_their_dependencies() {
    let tpls = vec![tpl("gcc", &["binutils"], false), tpl("binutils", &[], false), tpl("python", &[], false), tpl("libc", &[], true)];
    let all = select_templates(&tpls, &vec![], &vec![]).unwrap();
    assert_eq!(names(&tpls, all), vec![s("binutils"), s("gcc"), s("libc"), s("python")]);
    let only = select_templates(&tpls, &vec![s("gcc")], &vec![]).unwrap();
    assert_eq!(names(&tpls, only), vec![s("binutils"), s("gcc")]);
    let skip = select_templates(&tpls, &vec![], &vec![s("gcc"), s("libc")]).unwrap();
    assert_eq!(names(&tpls, skip), vec![s("binutils"), s("python")]);
}

#[test]
fn missing_dependency_of_a_selected_template() {
    let tpls = vec![tpl("gcc", &["binutils"], false), tpl("python", &[], false)];
    assert_eq!(select_templates(&tpls, &vec![], &vec![]), Err(SelectError::DependencyNotFound));
    let ok = select_templates(&tpls, &vec![s("python")], &vec![]).unwrap();
    assert_eq!(names(&tpls, ok), vec![s("python")]);
}

#[test]
fn detect_script_output() {
    let out = DetectScriptOutput::parse("set-env:CC=/usr/bin/gcc\r\nset-env:set-env:X=a=b\nset-env:CC=clang\n").unwrap();
    assert_eq!(out.env, vec![(s("CC"), s("/usr/bin/gcc")), (s("X"), s("a=b")), (s("CC"), s("clang"))]);
    assert!(DetectScriptOutput::parse("").unwrap().env.is_empty());
    assert!(matches!(DetectScriptOutput::parse("set-env:NOVALUE"), Err(DetectError::BadSetEnv)));
    match DetectScriptOutput::parse("set-env:A=1\nexport B=2") {
        Err(DetectError::UnknownCommand(l)) => assert_eq!(l, "export B=2"),
        other => panic!("{:?}", other),
    }
}

#[test]
fn lines_like_str_lines() {
    let got: Vec<String> = lines("a\r\nb\n\nc").into_iter().map(|l| l.into_iter().collect()).collect();
    assert_eq!(got, vec![s("a"), s("b"), s(""), s("c")]);
    let text = "x\ny\n";
    let got: Vec<String> = lines(text).into_iter().map(|l| l.into_iter().collect()).collect();
    let want: Vec<String> = text.lines().map(|l| l.to_string()).collect();
    assert_eq!(got, want);
}

#[test]
fn scratch_paths() {
    assert!(is_scratch_path("/tmp/x"));
    assert!(is_scratch_path("/dev/null"));
    assert!(is_scratch_path("/home/user/.bashrc"));
    assert!(!is_scratch_path("/usr/lib/libc.so"));
}

#[test]
fn jail_ids_are_random_letters_and_digits() {
    let id = jjs::jail::gen_jail_id();
    assert_eq!(id.chars().count(), jjs::jail::ID_SIZE);
    assert!(id.chars().all(|c| c.is_ascii_lowercase() || c.is_ascii_digit()));
}

#[test]
fn cgroup_paths_and_usage() {
    assert_eq!(get_path_for_subsystem("cpuacct", "ab12"), "/sys/fs/cgroup/cpuacct/jjs/g-ab12");
    assert_eq!(parse_usage(" 123456\n"), Some(123456));
    assert_eq!(parse_usage("12 34"), None);
    assert_eq!(trim("\u{3000} x y \t"), "x y");
    assert_eq!(cpu_usage_v2("usage_usec 250\nuser_usec 200\nsystem_usec 50\n"), Some(250_000));
    assert_eq!(cpu_usage_v2("user_usec 1\n"), Some(0));
    assert_eq!(cpu_usage_v2("usage_usec abc\n"), None);
    assert_eq!(cpu_usage_v2("usage_usec 18446744073709552\n"), None);
}
