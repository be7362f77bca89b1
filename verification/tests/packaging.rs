use jjs::cfg::{FeedbackKind, GroupRef};
use jjs::manifest::{BuiltinCheck, Check, CheckOptions, CustomCheck, Problem as SourceProblem, TestGenSpec, TestSpec};
use jjs::pom::{FileRef, FileRefRoot, Limits};
use jjs::ppc::{
    answer_source, build_plan, compiled_problem, get_entropy_hex, hex_digits, test_info, testgen_index, AnswerError,
    BuildError, BuildPlan,
};
use jjs::text::{decimal_string, hex_string, pad2_string, split_whitespace};
use jjs::userlist::{collect_users, decode_base64, Error, ListOption, OptionError, Statement, StatementData};
use jjs::valuer_cfg::{import, Definition, GroupOption};

fn s(x: &str) -> String {
    x.to_string()
}

#[test]
fn valuer_config_groups() {
    let defs = vec![
        Definition::Global,
        Definition::Group { num: 0, options: vec![GroupOption::Tests(1, 2), GroupOption::Score(0)] },
        Definition::Group {
            num: 1,
            options: vec![GroupOption::Tests(2, 4), GroupOption::Score(40), GroupOption::Requires(vec![0])],
        },
    ];
    let (cfg, warnings) = import(&defs);
    assert_eq!(cfg.groups.len(), 2);
    let g1 = &cfg.groups[1];
    assert_eq!(g1.name, "g1");
    assert_eq!(g1.score, 40);
    assert_eq!(g1.feedback, FeedbackKind::Brief);
    assert!(!g1.run_to_first_failure);
    assert!(g1.tests_tag.is_none());
    assert_eq!(g1.deps.len(), 1);
    assert!(matches!(&g1.deps[0], GroupRef::ByName(n) if n == "g0"));
    assert_eq!(cfg.groups[0].name, "g0");
    assert_eq!(cfg.groups[0].score, 0);
    assert_eq!(
        warnings,
        vec![s("not supported feature: GlobalDefinitions"), s("test 2 is mentioned more than once")]
    );
}

#[test]
fn valuer_config_last_score_wins() {
    let defs = vec![Definition::Group { num: 12, options: vec![GroupOption::Score(5), GroupOption::Score(7)] }];
    let (cfg, warnings) = import(&defs);
    assert_eq!(cfg.groups[0].name, "g12");
    assert_eq!(cfg.groups[0].score, 7);
    assert!(warnings.is_empty());
}

#[test]
fn base64_texts() {
    assert_eq!(decode_base64(s("YWxpY2U=")).unwrap(), "alice");
    assert!(matches!(decode_base64(s("not base64!")), Err(Error::Base64)));
    assert!(matches!(decode_base64(s("/w==")), Err(Error::Base64)));
}

#[test]
fn users_from_statements() {
    let stmts = vec![
        Statement { data: StatementData::SetOpt { options: vec![ListOption::Setting(s("groups"), s("a:b"))] } },
        Statement {
            data: StatementData::AddUser { username: s("u1"), password: s("p1"), options: vec![] },
        },
        Statement {
            data: StatementData::AddUser {
                username: s("YWxpY2U="),
                password: s("cGFzcw=="),
                options: vec![
                    ListOption::Flag(s("base64")),
                    ListOption::Setting(s("set-groups"), s("Z3JvdXA=")),
                ],
            },
        },
        Statement { data: StatementData::SetOpt { options: vec![ListOption::Flag(s("ignore-fail"))] } },
    ];
    let (users, ignore) = collect_users(&stmts).unwrap();
    assert!(ignore);
    assert_eq!(users.len(), 2);
    assert_eq!(users[0].login, "u1");
    assert_eq!(users[0].password, "p1");
    assert_eq!(users[0].groups, vec![s("a"), s("b")]);
    assert_eq!(users[1].login, "alice");
    assert_eq!(users[1].password, "pass");
    assert_eq!(users[1].groups, vec![s("group")]);
}

#[test]
fn user_list_errors() {
    let bad_flag = vec![Statement { data: StatementData::SetOpt { options: vec![ListOption::Flag(s("loud"))] } }];
    match collect_users(&bad_flag) {
        Err(Error::Option(OptionError::UnknownFlag(f))) => assert_eq!(f, "loud"),
        other => panic!("unexpected {:?}", other),
    }
    let bad_setting = vec![Statement {
        data: StatementData::AddUser {
            username: s("bob"),
            password: s("pw"),
            options: vec![ListOption::Flag(s("ignore-fail")), ListOption::Setting(s("color"), s("red"))],
        },
    }];
    match collect_users(&bad_setting) {
        Err(Error::Option(OptionError::UnknownSetting(n))) => assert_eq!(n, "color"),
        other => panic!("unexpected {:?}", other),
    }
    let bad_b64 = vec![Statement {
        data: StatementData::AddUser {
            username: s("%%%"),
            password: s("cGFzcw=="),
            options: vec![ListOption::Flag(s("base64"))],
        },
    }];
    assert!(matches!(collect_users(&bad_b64), Err(Error::Base64)));
}

#[test]
fn entropy_is_hex() {
    let mut buf = vec![0u8; 16];
    assert!(get_entropy_hex(&mut buf));
    assert_eq!(buf.len(), 16);
    assert!(buf.iter().all(|b| b.is_ascii_digit() || (b'a'..=b'f').contains(b)));
    let mut fixed = vec![0u8, 9, 10, 15, 16, 255];
    hex_digits(&mut fixed);
    assert_eq!(fixed, b"09af0f".to_vec());
}

#[test]
fn compiled_test_descriptions() {
    let spec = TestSpec {
        gen: TestGenSpec::File { path: s("01.txt") },
        limits: Limits { memory: None, time: Some(500), process_count: None, work_dir_size: None },
        group: s("g1"),
    };
    let problem_limits = Limits { memory: Some(1 << 20), time: Some(1000), process_count: None, work_dir_size: None };
    let t = test_info(12, problem_limits, &spec, true);
    assert_eq!(t.path.path, "tests/12-in.txt");
    assert!(matches!(t.path.root, FileRefRoot::Problem));
    assert_eq!(t.correct.as_ref().unwrap().path, "tests/12-out.txt");
    assert_eq!(t.limits.time, Some(500));
    assert_eq!(t.limits.memory, Some(1 << 20));
    assert_eq!(t.group, "g1");
    let t = test_info(3, problem_limits, &spec, false);
    assert!(t.correct.is_none());
}

#[test]
fn correct_answers_come_from_the_primary_solution() {
    let sols = vec![s("wa"), s("main")];
    let builtin = Check::Builtin(BuiltinCheck { name: s("polygon-compat") });
    assert!(matches!(answer_source(&builtin, &Some(s("main")), &sols), Ok(Some(1))));
    assert!(matches!(answer_source(&builtin, &None, &sols), Err(AnswerError::NoPrimarySolution)));
    match answer_source(&builtin, &Some(s("ok")), &sols) {
        Err(AnswerError::UnknownSolution(n)) => assert_eq!(n, "ok"),
        other => panic!("{:?}", other),
    }
    let quiet = Check::Custom(CustomCheck { pass_correct: false });
    assert!(matches!(answer_source(&quiet, &None, &sols), Ok(None)));
    let loud = Check::Custom(CustomCheck { pass_correct: true });
    assert!(matches!(answer_source(&loud, &Some(s("wa")), &sols), Ok(Some(0))));
}

#[test]
fn text_formatting() {
    assert_eq!(decimal_string(0), "0");
    assert_eq!(decimal_string(1234567890123), "1234567890123");
    assert_eq!(decimal_string(u64::MAX), "18446744073709551615");
    assert_eq!(pad2_string("7"), "07");
    assert_eq!(pad2_string("42"), "42");
    assert_eq!(pad2_string(""), "00");
    assert_eq!(hex_string(&[0xde, 0xad, 0x01]), "dead01");
    assert_eq!(split_whitespace("  a\u{a0}bc\u{3000}d  "), vec![s("a"), s("bc"), s("d")]);
    assert!(split_whitespace(" \t\n").is_empty());
}

#[test]
fn build_plans() {
    match build_plan("/p/checkers/main.cpp", "/o/assets/checker", "/tmp/b", "/opt/jjs", false, false, false).unwrap() {
        BuildPlan::Gxx { compile, binary } => {
            assert_eq!(binary, "/o/assets/checker/bin");
            assert_eq!(
                compile,
                vec![
                    s("g++"),
                    s("-std=c++17"),
                    s("-I/opt/jjs/include"),
                    s("-L/opt/jjs/lib"),
                    s("-DPPC=1"),
                    s("/p/checkers/main.cpp"),
                    s("-o"),
                    s("/o/assets/checker/bin"),
                    s("-ljtl"),
                    s("-lpthread"),
                    s("-ldl"),
                ]
            );
        }
        other => panic!("{:?}", other),
    }
    match build_plan("/p/solutions/main", "/o/sol", "/tmp/b", "/opt/jjs", true, true, true).unwrap() {
        BuildPlan::Cmake { configure, build, artifact, binary } => {
            assert_eq!(configure, vec![s("cmake"), s("-S"), s("/p/solutions/main"), s("-B"), s("/tmp/b")]);
            assert_eq!(build, vec![s("cmake"), s("--build"), s("/tmp/b")]);
            assert_eq!(artifact, "/tmp/b/Out");
            assert_eq!(binary, "/o/sol/bin");
        }
        other => panic!("{:?}", other),
    }
    match build_plan("/p/generators/gen", "/o/gen", "/tmp/b", "/opt/jjs", true, false, true).unwrap() {
        BuildPlan::Python { source, copy_to, run } => {
            assert_eq!(source, "/p/generators/gen/main.py");
            assert_eq!(copy_to, "/o/gen/out.py");
            assert_eq!(run, vec![s("python3"), s("/o/gen/out.py")]);
        }
        other => panic!("{:?}", other),
    }
    assert_eq!(
        build_plan("/p/x", "/o", "/t", "/j", true, false, false).err(),
        Some(BuildError::MultiFileUnsupported)
    );
}

#[test]
fn generators_are_found_by_name() {
    let names = vec![s("gen"), s("big"), s("gen")];
    assert_eq!(testgen_index(&names, "gen"), Some(2));
    assert_eq!(testgen_index(&names, "big"), Some(1));
    assert_eq!(testgen_index(&names, "small"), None);
}

#[test]
fn compiled_manifest_fields() {
    let cfg = SourceProblem {
        title: s("A plus B"),
        name: s("aplusb"),
        primary_solution: None,
        check: Check::Builtin(BuiltinCheck { name: s("cmp-tokens") }),
        tests: vec![],
        random_seed: s("0123456789abcdef"),
        check_options: CheckOptions { args: vec![s("--strict")] },
        valuer: s("svaluer"),
        valuer_cfg: None,
        limits: Limits { memory: None, time: None, process_count: None, work_dir_size: None },
    };
    let checker = FileRef { path: s("checker/bin"), root: FileRefRoot::Problem };
    let p = compiled_problem(&cfg, checker, vec![]);
    assert_eq!(p.title, "A plus B");
    assert_eq!(p.name, "aplusb");
    assert_eq!(p.checker_exe.path, "checker/bin");
    assert_eq!(p.checker_cmd, vec![s("--strict")]);
    assert_eq!(p.valuer_exe.path, "valuer");
    assert_eq!(p.valuer_cfg.path, "valuer-cfg");
    assert!(matches!(p.valuer_cfg.root, FileRefRoot::Problem));
    assert!(p.tests.is_empty());
}
