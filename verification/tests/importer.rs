use jjs::importer::{
    contest_problem, ContestImportError,
    parse_u64, Action, ImportError, Importer, Plan, Section, SolutionNode, TestNode, TestsetStep,
};
use jjs::manifest::IntErrorKind;
use jjs::pom::Limits;
use jjs::pps_api::import_problem::{PropertyName, Update};
use jjs::xml::{attribute, element_children_of, import_sections, solution_nodes, test_nodes};

fn shown(actions: &[Action]) -> Vec<String> {
    actions.iter().map(|a| format!("{:?}", a)).collect()
}

fn plan_of(step: TestsetStep) -> Plan {
    match step {
        TestsetStep::Done(p) => p,
        TestsetStep::Tests => panic!("expected a plan"),
    }
}

fn s(x: &str) -> String {
    x.to_string()
}

#[test]
fn import_starts_blank() {
    let imp = Importer::new();
    assert_eq!(imp.problem_cfg.title, "");
    assert!(imp.problem_cfg.tests.is_empty());
    assert!(imp.known_generators.is_empty());
    assert_eq!(imp.limits, Limits::default());
}

#[test]
fn init_dirs_make_layout_and_copy_testlib() {
    let acts = Importer::init_dirs();
    assert_eq!(
        shown(&acts),
        vec![
            "CreateDir([\"solutions\"])",
            "CreateDir([\"generators\"])",
            "CreateDir([\"tests\"])",
            "CreateDir([\"modules\"])",
            "CreateDir([\"modules/checker\"])",
            "Copy { from: \"files/testlib.h\", to: [\"testlib.h\"] }",
        ]
    );
}

#[test]
fn manifest_gets_fixed_fields_and_hex_seed() {
    let mut imp = Importer::new();
    imp.fill_manifest_with([0x00, 0x01, 0xab, 0xff, 0x10, 0x2c, 0x7e, 0x99]);
    let m = &imp.problem_cfg;
    assert_eq!(m.valuer, "icpc");
    assert_eq!(m.check_type, "builtin");
    assert_eq!(m.builtin_check.as_ref().unwrap().name, "polygon-compat");
    assert_eq!(m.check_options.as_ref().unwrap().args, vec![s("assets/module-checker/bin")]);
    assert_eq!(m.valuer_cfg.as_deref(), Some("valuer.yaml"));
    assert_eq!(m.random_seed.as_deref(), Some("0001abff102c7e99"));
}

#[test]
fn random_seed_is_sixteen_hex_digits() {
    let mut imp = Importer::new();
    imp.fill_manifest().unwrap();
    let seed = imp.problem_cfg.random_seed.unwrap();
    assert_eq!(seed.len(), 16);
    assert!(seed.chars().all(|c| c.is_ascii_hexdigit() && !c.is_ascii_uppercase()));
}

#[test]
fn problem_short_name_and_title() {
    let mut imp = Importer::new();
    imp.process_problem(Some("aplusb"));
    assert_eq!(imp.problem_cfg.name, "aplusb");
    imp.process_problem(None);
    assert_eq!(imp.problem_cfg.name, "aplusb");

    let p = imp.process_names(Some(Some("A plus B")));
    assert_eq!(imp.problem_cfg.title, "A plus B");
    assert!(p.outcome.is_ok());
    assert_eq!(
        shown(&p.actions),
        vec!["Send(Property { property_name: ProblemTitle, property_value: \"A plus B\" })"]
    );
    let p = imp.process_names(Some(None));
    assert!(matches!(p.outcome, Err(ImportError::NameMissing)));
    assert!(p.actions.is_empty());
    let p = imp.process_names(None);
    assert!(p.outcome.is_ok() && p.actions.is_empty());
}

#[test]
fn testset_needs_a_child() {
    assert!(matches!(Importer::check_testset(None), Err(ImportError::NoTestset)));
    assert!(Importer::check_testset(Some("testset")).is_ok());
}

#[test]
fn limits_are_read_and_reported() {
    let mut imp = Importer::new();
    let p = plan_of(imp.testset_item("time-limit", Some("2000")));
    assert!(p.outcome.is_ok());
    assert_eq!(
        shown(&p.actions),
        vec!["Send(Property { property_name: TimeLimit, property_value: \"2000\" })"]
    );
    assert_eq!(imp.limits.time, Some(2000));
    let p = plan_of(imp.testset_item("memory-limit", Some("+268435456")));
    assert_eq!(
        shown(&p.actions),
        vec!["Send(Property { property_name: MemoryLimit, property_value: \"268435456\" })"]
    );
    assert_eq!(imp.limits.memory, Some(268435456));
}

#[test]
fn bad_limits_stop_the_import() {
    let mut imp = Importer::new();
    let before = imp.limits;
    let p = plan_of(imp.testset_item("time-limit", None));
    assert!(matches!(p.outcome, Err(ImportError::TimeLimitMissing)));
    let p = plan_of(imp.testset_item("time-limit", Some("2s")));
    assert!(matches!(p.outcome, Err(ImportError::TimeLimitInvalid(IntErrorKind::InvalidDigit))));
    let p = plan_of(imp.testset_item("memory-limit", Some("")));
    assert!(matches!(p.outcome, Err(ImportError::MemoryLimitInvalid(IntErrorKind::Empty))));
    let p = plan_of(imp.testset_item("memory-limit", None));
    assert!(matches!(p.outcome, Err(ImportError::MemoryLimitMissing)));
    assert_eq!(imp.limits, before);
}

#[test]
fn other_testset_children() {
    let mut imp = Importer::new();
    let p = plan_of(imp.testset_item("input-path-pattern", Some("tests/%02d")));
    assert_eq!(
        shown(&p.actions),
        vec!["Send(Property { property_name: InputPathPattern, property_value: \"tests/%02d\" })"]
    );
    let p = plan_of(imp.testset_item("answer-path-pattern", Some("tests/%02d.a")));
    assert_eq!(
        shown(&p.actions),
        vec!["Send(Property { property_name: OutputPathPattern, property_value: \"tests/%02d.a\" })"]
    );
    let p = plan_of(imp.testset_item("test-count", Some("3")));
    assert!(p.actions.is_empty() && p.outcome.is_ok());
    assert!(matches!(imp.testset_item("tests", None), TestsetStep::Tests));
    let p = plan_of(imp.testset_item("groups", None));
    assert_eq!(
        shown(&p.actions),
        vec!["Send(Warning(\"unexpected tag in <problem><judging><testset>: groups\"))"]
    );
}

#[test]
fn u64_parsing_follows_from_str() {
    assert_eq!(parse_u64("18446744073709551615"), Ok(u64::MAX));
    assert_eq!(parse_u64("18446744073709551616"), Err(IntErrorKind::PosOverflow));
    assert_eq!(parse_u64("+"), Err(IntErrorKind::InvalidDigit));
    assert_eq!(parse_u64("-1"), Err(IntErrorKind::InvalidDigit));
    assert_eq!(parse_u64("007"), Ok(7));
}

#[test]
fn tests_become_manifest_blocks() {
    let mut imp = Importer::new();
    imp.limits.time = Some(1500);
    let tests = vec![
        TestNode { group: Some(s("1")), method: s("manual"), cmd: None },
        TestNode { group: None, method: s("generated"), cmd: Some(s("gen  5\t7 ")) },
        TestNode { group: Some(s("2")), method: s("manual"), cmd: None },
    ];
    let acts = imp.process_tests(&tests);
    assert_eq!(
        shown(&acts),
        vec![
            "Send(ImportTests)",
            "Copy { from: \"tests/01\", to: [\"tests/01.txt\"] }",
            "Copy { from: \"tests/03\", to: [\"tests/03.txt\"] }",
            "Send(ImportTestsDone { count: 3 })",
        ]
    );
    let blocks = &imp.problem_cfg.tests;
    assert_eq!(blocks.len(), 3);
    assert_eq!(blocks[0].map, "1");
    assert_eq!(blocks[0].group, "g1");
    assert_eq!(blocks[0].files.as_deref(), Some("%02d.txt"));
    assert!(blocks[0].testgen.is_none());
    assert_eq!(blocks[0].limits.time, Some(1500));
    assert_eq!(blocks[1].map, "2");
    assert_eq!(blocks[1].group, "gdefault");
    assert_eq!(blocks[1].testgen, Some(vec![s("gen"), s("5"), s("7")]));
    assert!(blocks[1].files.is_none());
    assert_eq!(blocks[2].group, "g2");
    assert_eq!(imp.known_generators, vec![s("gen")]);
}

#[test]
fn tenth_test_has_two_digit_name() {
    let mut imp = Importer::new();
    let tests: Vec<TestNode> = (0..10).map(|_| TestNode { group: None, method: s("manual"), cmd: None }).collect();
    let acts = imp.process_tests(&tests);
    assert_eq!(format!("{:?}", acts[10]), "Copy { from: \"tests/10\", to: [\"tests/10.txt\"] }");
    assert_eq!(imp.problem_cfg.tests[9].map, "10");
}

#[test]
fn files_by_kind() {
    let mut imp = Importer::new();
    let p = imp.process_file("files/gen_big.cpp", "cpp.g++17");
    assert!(p.outcome.is_ok());
    assert_eq!(
        shown(&p.actions),
        vec![
            "CreateDir([\"generators\", \"gen_big\"])",
            "Copy { from: \"files/gen_big.cpp\", to: [\"generators\", \"gen_big\", \"main.cpp\"] }",
            "WriteCheckerCmake([\"generators\", \"gen_big\", \"CMakeLists.txt\"])",
        ]
    );
    let p = imp.process_file("files/gen.py", "python.3");
    assert_eq!(
        shown(&p.actions),
        vec![
            "CreateDir([\"generators\", \"gen\"])",
            "Copy { from: \"files/gen.py\", to: [\"generators\", \"gen\", \"main.py\"] }",
        ]
    );
    let p = imp.process_file("files/generator.pas", "pascal.fpc");
    assert_eq!(shown(&p.actions), vec!["CreateDir([\"generators\", \"generator\"])"]);
    match p.outcome {
        Err(ImportError::UnknownFileType(t)) => assert_eq!(t, "pascal.fpc"),
        other => panic!("{:?}", other),
    }
    let p = imp.process_file("files/validator.cpp", "cpp.g++17");
    assert_eq!(shown(&p.actions), vec!["Send(Warning(\"ignoring validators: not yet implemented\"))"]);
    let p = imp.process_file("files/check.cpp", "cpp.g++17");
    assert!(p.actions.is_empty() && p.outcome.is_ok());
    let p = imp.process_file("files/files/olymp.sty", "none");
    assert_eq!(
        shown(&p.actions),
        vec!["Send(Warning(\"couldn't derive file category (stripped name: olymp)\"))"]
    );
    let p = imp.process_file("solutions/main.cpp", "cpp.g++17");
    assert!(p.actions.is_empty() && p.outcome.is_ok());
    let p = imp.process_file("files/noext", "none");
    assert!(p.actions.is_empty() && p.outcome.is_ok());
}

#[test]
fn generators_named_by_tests_are_known() {
    let mut imp = Importer::new();
    let tests = vec![TestNode { group: None, method: s("generated"), cmd: Some(s("rnd 10")) }];
    imp.process_tests(&tests);
    let p = imp.process_file("files/rnd.cpp", "cpp.g++11");
    assert_eq!(p.actions.len(), 3);
    assert!(matches!(&p.actions[0], Action::CreateDir(d) if d == &vec![s("generators"), s("rnd")]));
}

#[test]
fn sources_need_path_and_type() {
    let mut imp = Importer::new();
    assert!(matches!(imp.process_source(None, Some("x")).outcome, Err(ImportError::SourcePathMissing)));
    assert!(matches!(imp.process_source(Some("files/a.cpp"), None).outcome, Err(ImportError::SourceTypeMissing)));
    assert!(imp.process_source(Some("files/check.cpp"), Some("cpp.g++17")).outcome.is_ok());
}

#[test]
fn checker_sources_are_copied() {
    let acts = Importer::process_checker(&vec![s("files/check.cpp")]);
    assert_eq!(
        shown(&acts),
        vec![
            "Send(ImportChecker)",
            "Copy { from: \"files/check.cpp\", to: [\"modules/checker/main.cpp\"] }",
            "WriteCheckerCmake([\"modules/checker/CMakeLists.txt\"])",
        ]
    );
}

#[test]
fn main_solution_is_imported_others_skipped() {
    let mut imp = Importer::new();
    let sols = vec![
        SolutionNode { tag: Some(s("wrong-answer")), source: Some(s("solutions/wa.cpp")) },
        SolutionNode { tag: Some(s("main")), source: Some(s("solutions/ok.cpp")) },
    ];
    let p = imp.process_solutions(&sols);
    assert!(p.outcome.is_ok());
    assert_eq!(
        shown(&p.actions),
        vec![
            "Send(ImportSolutions)",
            "Send(Warning(\"skipping solution with tag wrong-answer: importing non-main solutions not yet implemented\"))",
            "Send(ImportSolution(\"main\"))",
            "CreateDirAll([\"solutions/main\"])",
            "Copy { from: \"solutions/ok.cpp\", to: [\"solutions/main/main.cpp\"] }",
            "WriteSolutionCmake([\"solutions/main\", \"CMakeLists.txt\"])",
        ]
    );
    assert_eq!(imp.problem_cfg.primary_solution.as_deref(), Some("main"));
}

#[test]
fn untagged_solution_stops_the_import() {
    let mut imp = Importer::new();
    let sols = vec![
        SolutionNode { tag: Some(s("tl")), source: None },
        SolutionNode { tag: None, source: None },
        SolutionNode { tag: Some(s("main")), source: Some(s("solutions/ok.cpp")) },
    ];
    let p = imp.process_solutions(&sols);
    assert!(matches!(p.outcome, Err(ImportError::SolutionTagMissing)));
    assert_eq!(p.actions.len(), 2);
    assert!(imp.problem_cfg.primary_solution.is_none());
}

#[test]
fn sections_by_tag() {
    assert_eq!(Importer::section_of("names"), Section::Names);
    assert_eq!(Importer::section_of("solutions"), Section::Solutions);
    assert_eq!(Importer::section_of("judging"), Section::Judging);
    assert_eq!(Importer::section_of("executable"), Section::Executable);
    assert_eq!(Importer::section_of("checker"), Section::Checker);
    assert_eq!(Importer::section_of("problem"), Section::Problem);
    assert_eq!(Importer::section_of("statements"), Section::Other);
}

#[test]
fn reported_update_kinds() {
    let u = Update::Property { property_name: PropertyName::TimeLimit, property_value: s("1") };
    assert_eq!(format!("{:?}", u), "Property { property_name: TimeLimit, property_value: \"1\" }");
}

#[test]
fn contest_problems_are_named_by_url() {
    let b = contest_problem(Some("A"), Some("https://polygon.codeforces.com/p/user/a-plus-b")).unwrap();
    assert_eq!(b.name, "a-plus-b");
    assert_eq!(b.code, "A");
    assert_eq!(contest_problem(Some("B"), Some("no-slash")).unwrap().name, "no-slash");
    assert_eq!(contest_problem(Some("C"), Some("trailing/")).unwrap().name, "");
    assert!(matches!(contest_problem(None, Some("x")), Err(ContestImportError::IndexMissing)));
    assert!(matches!(contest_problem(Some("D"), None), Err(ContestImportError::UrlMissing)));
}

#[test]
fn problem_xml_sections_in_document_order() {
    let text = r#"<?xml version="1.0"?>
<problem short-name="aplusb">
  <names><name language="english" value="A+B"/></names>
  <judging><testset name="tests">
    <time-limit>1000</time-limit>
    <tests><test method="manual"/><test method="generated" cmd="gen 5" group="g1"/></tests>
  </testset></judging>
  <files><executables><executable><source path="files/gen.cpp" type="cpp.g++17"/></executable></executables></files>
  <assets>
    <checker type="testlib"><source path="files/check.cpp" type="cpp.g++17"/></checker>
    <solutions>
      <solution tag="main"><source path="solutions/a.cpp" type="cpp.g++17"/></solution>
      <solution><source path="solutions/b.cpp" type="cpp.g++17"/></solution>
      <solution tag="wrong-answer"><source type="cpp.g++17"/></solution>
    </solutions>
  </assets>
</problem>"#;
    let (ns, sections) = import_sections(text).unwrap();
    let kinds: Vec<Section> = sections.iter().map(|s| s.0).collect();
    assert_eq!(
        kinds,
        vec![Section::Problem, Section::Names, Section::Judging, Section::Executable, Section::Checker, Section::Solutions]
    );
    assert_eq!(attribute(&ns[sections[0].1], "short-name"), Some(s("aplusb")));
    let names = element_children_of(&ns, sections[1].1, None);
    assert_eq!(attribute(&ns[names[0]], "value"), Some(s("A+B")));
    let testset = element_children_of(&ns, sections[2].1, None)[0];
    let items = element_children_of(&ns, testset, None);
    assert_eq!(ns[items[0]].tag, "time-limit");
    assert_eq!(ns[items[0]].text.as_deref(), Some("1000"));
    let tests = test_nodes(&ns, items[1]).unwrap();
    assert_eq!(tests.len(), 2);
    assert_eq!(tests[1].method, "generated");
    assert_eq!(tests[1].cmd.as_deref(), Some("gen 5"));
    assert_eq!(tests[1].group.as_deref(), Some("g1"));
    let sols = solution_nodes(&ns, sections[5].1).unwrap();
    assert_eq!(sols.len(), 2);
    assert_eq!(sols[0].tag.as_deref(), Some("main"));
    assert_eq!(sols[0].source.as_deref(), Some("solutions/a.cpp"));
    assert!(sols[1].tag.is_none());
    assert!(import_sections("<problem><names></problem>").is_none());
}

#[test]
fn problem_xml_malformed_tests_and_sources() {
    let (ns, sections) = import_sections(r#"<judging><tests><test/></tests></judging>"#).unwrap();
    let tests_pos = ns.iter().position(|n| n.tag == "tests").unwrap();
    assert!(test_nodes(&ns, tests_pos).is_none());
    assert_eq!(sections.len(), 1);
    let (ns2, _) = import_sections(r#"<solutions><solution tag="main"><source type="x"/></solution></solutions>"#).unwrap();
    let pos = ns2.iter().position(|n| n.tag == "solutions").unwrap();
    assert!(solution_nodes(&ns2, pos).is_none());
}
