use jjs::components::{
    check_openssl_output, detect_config_state, detect_tcs_state, find_layout_state, item_state, join, join_items,
    process_decision, system_healthy, CertStep, Certs, CertsError, CertsState, Cfg, ComponentStep, ConfigStateItem,
    DataDirKind, DataLayout, DataLayoutState, ItemState, Problems, SystemHealth, Toolchains,
};
use jjs::setup::{ProblemsState, StateKind};

fn s(x: &str) -> String {
    x.to_string()
}

fn run_args(step: &CertStep) -> Vec<String> {
    match step {
        CertStep::Run(argv) => argv.clone(),
        CertStep::Say(m) => panic!("expected a command, got {}", m),
    }
}

#[test]
fn component_decisions() {
    assert_eq!(process_decision(StateKind::Errored, true), (SystemHealth::Error, ComponentStep::SkipErrored));
    assert_eq!(process_decision(StateKind::UpToDate, true), (SystemHealth::Healthy, ComponentStep::SkipUpToDate));
    assert_eq!(process_decision(StateKind::Upgradable, true), (SystemHealth::Healthy, ComponentStep::Upgrade));
    assert_eq!(process_decision(StateKind::Errored, false), (SystemHealth::Error, ComponentStep::Describe));
    assert!(system_healthy(&vec![SystemHealth::Healthy, SystemHealth::Healthy]));
    assert!(!system_healthy(&vec![SystemHealth::Healthy, SystemHealth::Error]));
}

#[test]
fn paths_join_like_path_join() {
    assert_eq!(join("/var/jjs", "etc/pki"), "/var/jjs/etc/pki");
    assert_eq!(join("/var/jjs/", "etc"), "/var/jjs/etc");
    assert_eq!(join("", "etc"), "etc");
    assert_eq!(join("/var/jjs", "/abs"), "/abs");
    assert_eq!(join_items(&vec![s("a"), s("b"), s("c.yaml")]), "a/b/c.yaml");
    assert_eq!(join_items(&vec![]), "");
}

#[test]
fn certificate_states() {
    assert_eq!(item_state(true, true), Some(ItemState::Both));
    assert_eq!(item_state(true, false), Some(ItemState::OnlyCert));
    assert_eq!(item_state(false, true), Some(ItemState::OnlyKey));
    assert_eq!(item_state(false, false), None);
    let all = CertsState { ca: Some(ItemState::OnlyCert), invoker: Some(ItemState::Both), root: Some(ItemState::Both) };
    let certs = Certs { data_dir: s("/d"), can_create_ca: false, state: all };
    assert_eq!(certs.state(), StateKind::UpToDate);
    assert_eq!(certs.describe(), "ca: cert; invoker: cert+key; root: cert+key; ");
    let none = CertsState { ca: None, invoker: None, root: Some(ItemState::OnlyKey) };
    let certs = Certs { data_dir: s("/d"), can_create_ca: false, state: none };
    assert_eq!(certs.state(), StateKind::Errored);
    assert_eq!(certs.describe(), "ca: missing; invoker: missing; root: key; ");
    let certs = Certs { data_dir: s("/d"), can_create_ca: true, state: none };
    assert_eq!(certs.state(), StateKind::Upgradable);
    assert_eq!(certs.name(), "pki keys & certificates");
}

#[test]
fn certificate_upgrade_commands() {
    let st = CertsState { ca: None, invoker: Some(ItemState::Both), root: None };
    let certs = Certs { data_dir: s("/d"), can_create_ca: true, state: st };
    let steps = certs.upgrade_steps();
    assert_eq!(steps.len(), 8);
    assert!(matches!(&steps[0], CertStep::Say(m) if m == "Creating CA"));
    assert_eq!(run_args(&steps[1]), vec![s("openssl"), s("genrsa"), s("-out"), s("/d/etc/pki/ca.key"), s("4096")]);
    assert!(matches!(&steps[2], CertStep::Say(m) if m == "Creating CA certificate"));
    assert_eq!(
        run_args(&steps[3]),
        vec![
            s("openssl"),
            s("req"),
            s("-x509"),
            s("-new"),
            s("-key"),
            s("/d/etc/pki/ca.key"),
            s("-days"),
            s("365"),
            s("-subj"),
            s("/C=ZZ/ST=AA/L=loc/O=org/OU=ch/CN=jjs-ca/emailAddress=nope@example.com"),
            s("-out"),
            s("/d/etc/pki/ca.crt"),
        ]
    );
    assert!(matches!(&steps[4], CertStep::Say(m) if m == "Creating end entity certificates"));
    assert_eq!(run_args(&steps[5]), vec![s("openssl"), s("genrsa"), s("-out"), s("/d/etc/pki/root.key"), s("4096")]);
    assert_eq!(
        run_args(&steps[6]),
        vec![
            s("openssl"),
            s("req"),
            s("-new"),
            s("-key"),
            s("/d/etc/pki/root.key"),
            s("-out"),
            s("/d/etc/pki/root.csr"),
            s("-subj"),
            s("/C=ZZ/ST=AA/L=loc/O=org/OU=ch/CN=root/emailAddress=nope@example.com"),
        ]
    );
    assert_eq!(run_args(&steps[7])[13], "/d/etc/pki/root.crt");
    let done = CertsState { ca: Some(ItemState::Both), invoker: Some(ItemState::Both), root: Some(ItemState::Both) };
    let certs = Certs { data_dir: s("/d"), can_create_ca: true, state: done };
    assert_eq!(certs.upgrade_steps().len(), 1);
}

#[test]
fn openssl_versions() {
    assert_eq!(check_openssl_output(b"OpenSSL 1.1.1k  25 Mar 2021\n".to_vec()), Ok(s("1.1.1k")));
    assert_eq!(check_openssl_output(b"OpenSSL 3.0.2 15 Mar 2022".to_vec()), Ok(s("3.0.2")));
    assert_eq!(check_openssl_output(b"OpenSSL 1.0.2u".to_vec()), Err(CertsError::OpensslVersionUnsupported));
    assert_eq!(check_openssl_output(b"OpenSSL".to_vec()), Err(CertsError::OpensslVersionUnsupported));
    assert_eq!(check_openssl_output(vec![0xff, 0x20, 0x33]), Err(CertsError::OpensslVersionUnsupported));
}

#[test]
fn data_layout() {
    assert_eq!(find_layout_state(DataDirKind::Missing, &vec![]), DataLayoutState::NotExists);
    assert_eq!(find_layout_state(DataDirKind::File, &vec![]), DataLayoutState::Unknown);
    assert_eq!(find_layout_state(DataDirKind::Directory, &vec![s("var"), s("etc")]), DataLayoutState::Exists);
    assert_eq!(find_layout_state(DataDirKind::Directory, &vec![s("var")]), DataLayoutState::NotExists);
    let layout = DataLayout { data_dir: s("/d"), state: DataLayoutState::NotExists };
    assert_eq!(layout.state(), StateKind::Upgradable);
    assert_eq!(layout.describe(), "does not exist");
    let dirs = layout.upgrade_dirs();
    assert_eq!(dirs.len(), 11);
    assert_eq!(dirs[0], "/d");
    assert_eq!(dirs[7], "/d/etc/objects/toolchains");
    assert_eq!(dirs[10], "/d/tmp");
}

#[test]
fn configs() {
    let available = vec![s("jjs.yaml"), s("objects/contests/trial.yaml")];
    let st = detect_config_state(&available, true, &vec![true, false]);
    assert_eq!(st.items[0], (s("jjs.yaml"), ConfigStateItem::Exists));
    assert_eq!(st.items[1], (s("objects/contests/trial.yaml"), ConfigStateItem::CanCopy));
    let cfg = Cfg { data_dir: s("/d"), install_dir: s("/opt/jjs"), state: st };
    assert_eq!(cfg.state(), StateKind::Upgradable);
    assert_eq!(cfg.describe(), "jjs.yaml: already exists;objects/contests/trial.yaml: copyable;");
    assert_eq!(
        cfg.upgrade_copies(),
        vec![(s("/opt/jjs/example-config/objects/contests/trial.yaml"), s("/d/etc/objects/contests/trial.yaml"))]
    );
    let fresh = detect_config_state(&available, false, &vec![true, true]);
    assert!(fresh.items.iter().all(|i| i.1 == ConfigStateItem::CanCopy));
}

#[test]
fn toolchains() {
    let st = detect_tcs_state(
        vec![s("gcc")],
        &vec![s("gcc"), s("python"), s("java"), s("rust")],
        &vec![s("java")],
        &vec![],
    );
    assert_eq!(st.extra, vec![s("python"), s("rust")]);
    let tcs = Toolchains {
        install_dir: s("/opt/jjs"),
        data_dir: s("/d"),
        strategies: vec![s("trace")],
        custom_argv: vec![s("-v")],
        state: st,
    };
    assert_eq!(tcs.state(), StateKind::Upgradable);
    assert_eq!(
        tcs.upgrade_command(),
        vec![
            s("/opt/jjs/bin/jjs-configure-toolchains"),
            s("/opt/jjs/toolchains"),
            s("/d"),
            s("--toolchains"),
            s("python"),
            s("--toolchains"),
            s("rust"),
            s("--strategies"),
            s("trace"),
            s("-v"),
        ]
    );
}

#[test]
fn problems() {
    let st = ProblemsState {
        config_problems: vec![s("a-plus-b")],
        installable_problems: vec![(s("a-plus-b"), s("/src/apb")), (s("sort"), s("/src/sort"))],
    };
    let p = Problems { data_dir: s("/d"), install_dir: s("/opt/jjs"), state: st };
    assert_eq!(p.state(), StateKind::Upgradable);
    assert_eq!(p.describe(), "current: a-plus-b; available: sort");
    let builds = p.upgrade_builds();
    assert_eq!(builds.len(), 1);
    assert_eq!(builds[0].0, "/d/var/problems/sort");
    assert_eq!(
        builds[0].1,
        vec![s("/opt/jjs/bin/jjs-ppc"), s("compile"), s("--pkg"), s("/src/sort"), s("--out"), s("/d/var/problems/sort")]
    );
    let empty = Problems {
        data_dir: s("/d"),
        install_dir: s("/i"),
        state: ProblemsState { config_problems: vec![], installable_problems: vec![] },
    };
    assert_eq!(empty.describe(), "current: <none>; available: <none>");
    assert_eq!(empty.state(), StateKind::UpToDate);
}
