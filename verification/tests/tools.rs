use jjs::minion::{
    derive_user_ids, DesiredAccess, DominionOptions, DominionState, Error, ErrorKind, InputSpecification,
    InputSpecificationData, OutputSpecification, OutputSpecificationData, PathExpositionOptions, Quota,
};
use jjs::pom::{FileRef, FileRefRoot, Limits, Problem, TestId};
use jjs::ppc::{check_dir, detect_import_kind, merge_limits, merge_option, DirError, ImportKind, ImportKindError, Notifier};
use jjs::pps_api::{SimpleFinish, StringError};
use jjs::pps_server::FileCategory;
use jjs::problem_loader::{
    FindAction, FsRegistry, Loader, LoaderConfig, ProblemCache, ProblemCacheItem, Registry, RegistrySource,
};
use jjs::setup::{
    ConnectionSettings, Database, DatabaseVersion, DbContext, ItemKind, ProblemsState, StateKind, Subcommand,
};
use jjs::setup::{last_version, Component, pending_migrations, text_less, toolchain_allowed};
use jjs::userlist::{ListOption, OptionStorage};
use std::hash::Hasher;
use std::time::Duration;

#[test]
fn test_id_roundtrip() {
    let t = TestId::make(5);
    assert_eq!(t.get(), 5);
    assert_eq!(t.to_idx(), 4);
    assert_eq!(u32::from(t), 5);
}

#[test]
fn limits_fall_back_to_defaults() {
    let l = Limits { memory: None, time: Some(7), process_count: None, work_dir_size: None };
    assert_eq!(l.time(), 7);
    assert_eq!(l.memory(), 256 * 1024 * 1024);
    assert_eq!(l.process_count(), 16);
    assert_eq!(l.work_dir_size(), 16 * 1024 * 1024);
    let d = Limits::default();
    assert_eq!(d.time, Some(3000));
}

#[test]
fn stdio_specifications() {
    assert_eq!(InputSpecification::null().0, InputSpecificationData::Null);
    assert_eq!(InputSpecification::empty().0, InputSpecificationData::Empty);
    assert_eq!(InputSpecification::pipe().0, InputSpecificationData::Pipe);
    assert_eq!(OutputSpecification::null().0, OutputSpecificationData::Null);
    assert_eq!(OutputSpecification::ignore().0, OutputSpecificationData::Ignore);
    assert_eq!(OutputSpecification::pipe().0, OutputSpecificationData::Pipe);
    assert_eq!(OutputSpecification::buffer(10).0, OutputSpecificationData::Buffer(Some(10)));
    assert_eq!(OutputSpecification::unbounded_buffer().0, OutputSpecificationData::Buffer(None));
}

#[test]
fn quotas() {
    assert_eq!(Quota::bytes(17).0, 17);
    assert_eq!(Quota::mebibytes(3).0, 3 * 1024 * 1024);
}

#[test]
fn error_kinds() {
    assert_eq!(Error::Sandbox.kind(), ErrorKind::Sandbox);
    assert!(Error::Sandbox.is_sandbox());
    assert!(Error::System { code: 2 }.is_system());
    assert!(Error::NotSupported.is_system());
    assert!(Error::Unknown.is_system());
    assert!(!Error::Io { message: "x".to_string() }.is_sandbox());
}

#[test]
fn dominion_flags() {
    let mut st = DominionState { was_cpu_tle: false, was_wall_tle: false };
    assert!(st.process_flag(b'c').is_ok());
    assert!(st.was_cpu_tle && !st.was_wall_tle);
    assert!(st.process_flag(b'r').is_ok());
    assert!(st.was_wall_tle);
    assert!(matches!(st.process_flag(b'x'), Err(Error::Sandbox)));
}

#[test]
fn dominion_time_limit_checks() {
    let mut st = DominionState { was_cpu_tle: false, was_wall_tle: false };
    assert_eq!(st.check_cpu_tle(&vec![]).unwrap(), false);
    assert_eq!(st.check_cpu_tle(&vec![b'r']).unwrap(), false);
    assert_eq!(st.check_real_tle(&vec![]).unwrap(), true);
    assert_eq!(st.check_cpu_tle(&vec![b'c']).unwrap(), true);
    assert_eq!(st.check_cpu_tle(&vec![]).unwrap(), true);
    assert!(matches!(st.check_cpu_tle(&vec![b'z']), Err(Error::Sandbox)));
    assert_eq!(st.check_cpu_tle(&vec![b'r']).unwrap(), true);
}

#[test]
fn dominion_flag_bytes_stay_set() {
    let mut st = DominionState { was_cpu_tle: false, was_wall_tle: false };
    assert!(st.process_flags(&vec![b'c']).is_ok());
    assert!(st.was_cpu_tle && !st.was_wall_tle);
    assert!(st.process_flags(&vec![]).is_ok());
    assert!(st.was_cpu_tle);
    let mut st2 = DominionState { was_cpu_tle: false, was_wall_tle: false };
    assert!(matches!(st2.process_flags(&vec![b'r', b'?', b'c']), Err(Error::Sandbox)));
    assert!(st2.was_wall_tle && !st2.was_cpu_tle);
}

#[test]
fn user_ids_are_in_range_and_deterministic() {
    let a = derive_user_ids("jail-1");
    let b = derive_user_ids("jail-1");
    assert_eq!(a, b);
    assert!((1_000_000..3_000_000).contains(&a));
    let mut h = std::collections::hash_map::DefaultHasher::new();
    h.write("jail-2".as_bytes());
    assert_eq!(derive_user_ids("jail-2") as u64, h.finish() % 2_000_000 + 1_000_000);
}

#[test]
fn exposed_paths_become_relative() {
    let mut opts = DominionOptions {
        max_alive_process_count: 1,
        memory_limit: 2,
        cpu_time_limit: Duration::from_secs(1),
        real_time_limit: Duration::from_secs(2),
        isolation_root: "/tmp/root".to_string(),
        exposed_paths: vec![
            PathExpositionOptions { src: "/usr".to_string(), dest: "/usr/lib".to_string(), access: DesiredAccess::Readonly },
            PathExpositionOptions { src: "/a".to_string(), dest: "rel/b".to_string(), access: DesiredAccess::Full },
        ],
    };
    assert_eq!(opts.make_relative("/x/y"), "x/y");
    assert_eq!(opts.make_relative("x/y"), "x/y");
    opts.postprocess();
    assert_eq!(opts.exposed_paths[0].dest, "usr/lib");
    assert_eq!(opts.exposed_paths[0].src, "/usr");
    assert_eq!(opts.exposed_paths[1].dest, "rel/b");
    assert_eq!(opts.exposed_paths[1].access, DesiredAccess::Full);
    assert_eq!(opts.isolation_root, "/tmp/root");
}

#[test]
fn dir_checks() {
    assert_eq!(check_dir(false, false, true, false), Err(DirError::NotExists));
    assert_eq!(check_dir(true, false, true, false), Err(DirError::NotDirectory));
    assert_eq!(check_dir(true, true, false, true), Err(DirError::NotEmpty));
    assert_eq!(check_dir(true, true, true, true), Ok(()));
    assert_eq!(check_dir(true, true, false, false), Ok(()));
}

#[test]
fn import_kinds() {
    assert_eq!(detect_import_kind(false, true, true), Err(ImportKindError::NotExists));
    assert_eq!(detect_import_kind(true, true, true), Ok(ImportKind::Problem));
    assert_eq!(detect_import_kind(true, false, true), Ok(ImportKind::Contest));
    assert_eq!(detect_import_kind(true, false, false), Err(ImportKindError::UnknownSource));
}

#[test]
fn later_limits_win() {
    let mut place = Some(3u32);
    merge_option(&mut place, None);
    assert_eq!(place, Some(3));
    merge_option(&mut place, Some(4));
    assert_eq!(place, Some(4));
    let a = Limits { memory: Some(10), time: Some(20), process_count: None, work_dir_size: Some(5) };
    let b = Limits { memory: None, time: Some(30), process_count: Some(2), work_dir_size: Some(6) };
    let m = merge_limits(&vec![a, b]);
    assert_eq!(m.memory, Some(10));
    assert_eq!(m.time, Some(30));
    assert_eq!(m.process_count, Some(2));
    assert_eq!(m.work_dir_size, Some(6));
    let c = Limits { memory: None, time: None, process_count: None, work_dir_size: None };
    let m2 = merge_limits(&vec![c]);
    assert_eq!(m2.work_dir_size, Limits::default().work_dir_size);
}

#[test]
fn progress_notifier() {
    let mut n = Notifier::new(10);
    assert!(!n.maybe_notify(1, 0));
    assert!(n.maybe_notify(2, 0));
    assert!(!n.maybe_notify(3, 9));
    assert!(n.maybe_notify(3, 10));
    assert!(!n.maybe_notify(4, 0));
}

#[test]
fn simple_finish() {
    assert!(SimpleFinish::from_outcome(Ok(())).0.is_ok());
    match SimpleFinish::from_outcome(Err("boom".to_string())).0 {
        Err(e) => assert_eq!(e.message(), "boom"),
        Ok(()) => panic!("expected error"),
    }
    assert_eq!(StringError("x".to_string()).message(), "x");
}

#[test]
fn file_categories() {
    assert_eq!(FileCategory::derive("check"), Some(FileCategory::Checker));
    assert_eq!(FileCategory::derive("checker"), Some(FileCategory::Checker));
    assert_eq!(FileCategory::derive("validator"), Some(FileCategory::Validator));
    assert_eq!(FileCategory::derive("gen_random"), Some(FileCategory::Generator));
    assert_eq!(FileCategory::derive("ge"), None);
    assert_eq!(FileCategory::derive("solution"), None);
}

#[test]
fn registries_and_cache() {
    let r = FsRegistry::new("/var/problems".to_string());
    assert_eq!(r.problems_dir, "/var/problems");
    assert_eq!(r.name(), "FsRegistry");
    assert!(ProblemCache::new().items.is_empty());
}

#[test]
fn setup_decisions() {
    let settings = ConnectionSettings { conn_string: "pg://".to_string(), db_name: "jjs".to_string() };
    let cx = DbContext { settings: &settings, install_dir: "/opt/jjs" };
    assert_eq!(cx.migrations_dir(), "/opt/jjs/share/db");
    let cx2 = DbContext { settings: &settings, install_dir: "/opt/jjs/" };
    assert_eq!(cx2.migrations_dir(), "/opt/jjs/share/db");
    let db = Database { version: DatabaseVersion::Missing, cx };
    assert_eq!(db.state(), StateKind::Upgradable);
    let db = Database { version: DatabaseVersion::RevisionInfoMissing, cx };
    assert_eq!(db.state(), StateKind::Errored);
    let db = Database { version: DatabaseVersion::Version { current: "1".to_string(), latest: None }, cx };
    assert_eq!(db.state(), StateKind::UpToDate);
    assert_eq!(Component::name(&db), "database");
    assert_eq!(StateKind::Upgradable.describe(), "Upgradable");
    assert!(Subcommand::Upgrade.is_upgrade());
    assert!(!Subcommand::Describe.is_upgrade());
    assert_eq!(ItemKind::all(), vec![ItemKind::CertificateAuthority, ItemKind::Invoker, ItemKind::Root]);
    assert_eq!(ItemKind::Invoker.file_stem(), "invoker");
    let ps = ProblemsState {
        config_problems: vec!["a".to_string()],
        installable_problems: vec![("a".to_string(), "/p/a".to_string()), ("b".to_string(), "/p/b".to_string())],
    };
    assert_eq!(ps.extra(), vec![("b".to_string(), "/p/b".to_string())]);
}

#[test]
fn userlist_options() {
    let mut st = OptionStorage::new();
    assert!(st.flag("base64").is_ok());
    assert!(st.base64);
    assert!(st.flag("bogus").is_err());
    assert!(st.setting("groups", "a:b").is_ok());
    assert_eq!(st.groups, vec!["a".to_string(), "b".to_string()]);
    assert!(st.setting("groups", "c").is_ok());
    assert_eq!(st.groups.len(), 3);
    assert!(st.setting("set-groups", "x").is_ok());
    assert_eq!(st.groups, vec!["x".to_string()]);
    assert!(st.setting("nope", "x").is_err());
    let opts = vec![ListOption::Flag("ignore-fail".to_string()), ListOption::Setting("groups".to_string(), "y".to_string())];
    assert!(st.options(&opts).is_ok());
    assert!(st.ignore_fail);
    assert_eq!(st.groups, vec!["x".to_string(), "y".to_string()]);
    let bad = vec![ListOption::Flag("strange".to_string())];
    assert!(st.options(&bad).is_err());
}

#[test]
fn migrations_pending_after_current() {
    let names = vec![
        "2020-03-01_users".to_string(),
        "2020-01-01_init".to_string(),
        "2020-02-01_runs".to_string(),
        "2020-01-01_init".to_string(),
    ];
    assert_eq!(
        pending_migrations(&names, None),
        vec!["2020-01-01_init".to_string(), "2020-02-01_runs".to_string(), "2020-03-01_users".to_string()]
    );
    assert_eq!(
        pending_migrations(&names, Some("2020-01-01_init")),
        vec!["2020-02-01_runs".to_string(), "2020-03-01_users".to_string()]
    );
    assert!(pending_migrations(&names, Some("2020-03-01_users")).is_empty());
    assert_eq!(last_version(&names, Some("2020-01-01_init")), Some("2020-03-01_users".to_string()));
    assert_eq!(last_version(&names, Some("2021")), None);
    assert!(text_less("ab", "abc"));
    assert!(!text_less("b", "abc"));
    assert!(text_less("Z", "a"));
}

#[test]
fn database_descriptions_and_toolchain_filter() {
    let settings = ConnectionSettings { conn_string: "postgres://x".to_string(), db_name: "jjs".to_string() };
    let cx = DbContext { settings: &settings, install_dir: "/opt/jjs" };
    let db = Database {
        version: DatabaseVersion::Version { current: "1".to_string(), latest: Some("3".to_string()) },
        cx,
    };
    assert_eq!(db.describe(), "database version is 1, latest is 3");
    let db = Database { version: DatabaseVersion::Version { current: "3".to_string(), latest: None }, cx };
    assert_eq!(db.describe(), "database version is 3");
    let db = Database { version: DatabaseVersion::Missing, cx };
    assert_eq!(db.describe(), "database does not exist");
    let db = Database { version: DatabaseVersion::RevisionInfoMissing, cx };
    assert_eq!(db.describe(), "database exists, but does not contain version info");
    let black = vec!["java".to_string()];
    assert!(!toolchain_allowed("java", &black, &vec![]));
    assert!(toolchain_allowed("gcc", &black, &vec![]));
    assert!(toolchain_allowed("gcc", &black, &vec!["gcc".to_string()]));
    assert!(!toolchain_allowed("python", &black, &vec!["gcc".to_string()]));
}

fn cached_problem(name: &str, assets: &str) -> ProblemCacheItem {
    let file = |p: &str| FileRef { root: FileRefRoot::Problem, path: p.to_string() };
    ProblemCacheItem {
        assets: assets.to_string(),
        manifest: Problem {
            title: name.to_uppercase(),
            name: name.to_string(),
            tests: vec![],
            checker_exe: file("checker/bin"),
            checker_cmd: vec![],
            valuer_exe: file("valuer"),
            valuer_cfg: file("valuer-cfg"),
        },
    }
}

#[test]
fn cache_gives_back_what_was_cached() {
    let mut cache = ProblemCache::new();
    assert!(cache.get("a").is_none());
    cache.insert("a".to_string(), cached_problem("a", "/cache/a"));
    cache.insert("b".to_string(), cached_problem("b", "/cache/b"));
    assert_eq!(cache.get("a").unwrap().assets, "/cache/a");
    assert_eq!(cache.get("b").unwrap().manifest.name, "b");
    cache.insert("a".to_string(), cached_problem("a", "/cache/a2"));
    assert_eq!(cache.get("a").unwrap().assets, "/cache/a2");
    assert!(cache.get("c").is_none());
}

#[test]
fn compile_commands_pair_packages_with_outputs() {
    let args = jjs::ppc::CompileArgs {
        pkg_path: vec!["p1".to_string(), "p2".to_string()],
        out_path: vec!["o1".to_string(), "o2".to_string()],
        upload: false,
        force: true,
    };
    let reqs = jjs::ppc::compile_requests(&args).unwrap();
    assert_eq!(reqs.len(), 2);
    assert_eq!(reqs[1].pkg_path, "p2");
    assert_eq!(reqs[1].out_path, "o2");
    assert!(reqs[0].force);
    let bad = jjs::ppc::CompileArgs { pkg_path: vec!["p1".to_string()], out_path: vec![], upload: false, force: false };
    assert_eq!(jjs::ppc::compile_requests(&bad).err(), Some(jjs::ppc::CompileArgsError::CountMismatch));
}

#[test]
fn loader_asks_cache_then_registries_in_order() {
    let conf = LoaderConfig { fs: Some("/srv/problems".to_string()), mongodb: Some("mongodb://db".to_string()) };
    let mut loader = Loader::from_config(&conf, "/var/cache/jjs".to_string());
    assert_eq!(loader.registries.len(), 2);
    assert!(matches!(&loader.registries[0], RegistrySource::Fs(f) if f.problems_dir == "/srv/problems"));
    assert!(matches!(&loader.registries[1], RegistrySource::Mongo(c) if c == "mongodb://db"));
    assert_eq!(loader.next_action("a", 0), FindAction::AskRegistry(0));
    assert_eq!(loader.next_action("a", 1), FindAction::AskRegistry(1));
    assert_eq!(loader.next_action("a", 2), FindAction::NotFound);
    let assets = loader.found("a", cached_problem("a", "").manifest);
    assert_eq!(assets, "/var/cache/jjs/a");
    assert_eq!(loader.next_action("a", 0), FindAction::UseCached);
    assert_eq!(loader.cache.get("a").unwrap().assets, "/var/cache/jjs/a");
    let none = Loader::from_config(&LoaderConfig { fs: None, mongodb: None }, "/c".to_string());
    assert_eq!(none.next_action("a", 0), FindAction::NotFound);
}
