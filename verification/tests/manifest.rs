use jjs::manifest::{
    parse_u32, BuiltinCheck, Check, ChunkError, CustomCheck, IntErrorKind, ProblemError, RawProblem, RawTestsSpec,
    TestGenSpec, TestsSpecError,
};
use jjs::pom::Limits;

fn chars(s: &str) -> Vec<char> {
    s.chars().collect()
}

fn limits() -> Limits {
    Limits { memory: Some(1), time: None, process_count: None, work_dir_size: None }
}

fn block(map: &str, files: Option<&str>, testgen: Option<&[&str]>) -> RawTestsSpec {
    RawTestsSpec {
        map: map.to_string(),
        testgen: testgen.map(|c| c.iter().map(|s| s.to_string()).collect()),
        files: files.map(|s| s.to_string()),
        limits: limits(),
        group: "main".to_string(),
    }
}

fn names(n: u32) -> Vec<Result<String, String>> {
    (1..=n).map(|i| Ok(format!("tests/{}.txt", i))).collect()
}

fn problem(tests: Vec<RawTestsSpec>) -> RawProblem {
    RawProblem {
        title: "A+B".to_string(),
        name: "a-plus-b".to_string(),
        random_seed: Some("0123456789ABCDEF".to_string()),
        primary_solution: None,
        check_type: "builtin".to_string(),
        valuer: "svaluer".to_string(),
        custom_check: None,
        builtin_check: Some(BuiltinCheck { name: "cmp-tokens".to_string() }),
        tests,
        check_options: None,
        valuer_cfg: None,
        limits: Limits { memory: None, time: None, process_count: None, work_dir_size: None },
    }
}

#[test]
fn parse_u32_follows_from_str() {
    assert_eq!(parse_u32(&chars("42")), Ok(42));
    assert_eq!(parse_u32(&chars("+7")), Ok(7));
    assert_eq!(parse_u32(&chars("")), Err(IntErrorKind::Empty));
    assert_eq!(parse_u32(&chars("+")), Err(IntErrorKind::InvalidDigit));
    assert_eq!(parse_u32(&chars("-1")), Err(IntErrorKind::InvalidDigit));
    assert_eq!(parse_u32(&chars("4294967295")), Ok(u32::MAX));
    assert_eq!(parse_u32(&chars("4294967296")), Err(IntErrorKind::PosOverflow));
    assert_eq!(parse_u32(&chars("99999999999x")), Err(IntErrorKind::PosOverflow));
    assert_eq!(parse_u32(&chars("12x")), Err(IntErrorKind::InvalidDigit));
    for s in ["0", "17", "+3", "", "+", "a", "4294967295", "4294967296", "00012"] {
        let expected = match s.parse::<u32>() {
            Ok(v) => Ok(v),
            Err(_) => Err(()),
        };
        assert_eq!(parse_u32(&chars(s)).map_err(|_| ()), expected, "{}", s);
    }
}

#[test]
fn mapping_chunks() {
    let b = block("", None, None);
    assert_eq!(b.parse_mapping_chunk("3..5").unwrap(), vec![3, 4, 5]);
    assert_eq!(b.parse_mapping_chunk("7").unwrap(), vec![7]);
    assert_eq!(b.parse_mapping_chunk("5..3").unwrap_err(), ChunkError::RangeOrder);
    assert_eq!(b.parse_mapping_chunk("1..2..3").unwrap_err(), ChunkError::RangeShape);
    assert_eq!(b.parse_mapping_chunk("1..x").unwrap_err(), ChunkError::RangeBound(IntErrorKind::InvalidDigit));
    assert_eq!(b.parse_mapping_chunk("..3").unwrap_err(), ChunkError::RangeBound(IntErrorKind::Empty));
    assert_eq!(b.parse_mapping_chunk("q").unwrap_err(), ChunkError::Number(IntErrorKind::InvalidDigit));
}

#[test]
fn mapping_is_concatenated_and_sorted() {
    assert_eq!(block("1..3,5,6..6", None, None).parse_mapping().unwrap(), vec![1, 2, 3, 5, 6]);
    match block("4,2", None, None).parse_mapping() {
        Err(TestsSpecError::NotSorted) => {}
        other => panic!("{:?}", other),
    }
    match block("1,x,2", None, None).parse_mapping() {
        Err(TestsSpecError::Mapping { chunk, reason }) => {
            assert_eq!(chunk, "x");
            assert_eq!(reason, ChunkError::Number(IntErrorKind::InvalidDigit));
        }
        other => panic!("{:?}", other),
    }
    match block("", None, None).parse_mapping() {
        Err(TestsSpecError::Mapping { chunk, reason }) => {
            assert_eq!(chunk, "");
            assert_eq!(reason, ChunkError::Number(IntErrorKind::Empty));
        }
        other => panic!("{:?}", other),
    }
}

#[test]
fn block_with_files_and_testgen_is_rejected() {
    let b = block("1", Some("%d.txt"), Some(&["gen"]));
    match b.postprocess(&names(1)) {
        Err(TestsSpecError::FilesAndTestgen) => {}
        other => panic!("{:?}", other),
    }
}

#[test]
fn block_expands_files_and_generators() {
    let files = block("1..2", Some("tests/%d.txt"), None);
    let out = files.postprocess(&names(2)).unwrap();
    assert_eq!(out.len(), 2);
    assert_eq!(out[1].0, 2);
    match &out[1].1.gen {
        TestGenSpec::File { path } => assert_eq!(path, "tests/2.txt"),
        other => panic!("{:?}", other),
    }
    assert_eq!(out[1].1.group, "main");
    assert_eq!(out[1].1.limits, limits());

    let gen = block("3", None, Some(&["gen", "--seed", "5"]));
    let out = gen.postprocess(&vec![]).unwrap();
    assert_eq!(out.len(), 1);
    assert_eq!(out[0].0, 3);
    match &out[0].1.gen {
        TestGenSpec::Generate { testgen, args } => {
            assert_eq!(testgen, "gen");
            assert_eq!(args, &vec!["--seed".to_string(), "5".to_string()]);
        }
        other => panic!("{:?}", other),
    }

    let failing = block("1..2", Some("%q"), None);
    match failing.postprocess(&vec![Ok("a".to_string()), Err("bad format".to_string())]) {
        Err(TestsSpecError::Format(m)) => assert_eq!(m, "bad format"),
        other => panic!("{:?}", other),
    }
}

#[test]
fn tests_must_number_from_one() {
    let p = problem(vec![block("3", None, Some(&["g"])), block("1..2", Some("f"), None)]);
    let out = p.process_tests(&vec![vec![], names(2)]).unwrap();
    assert_eq!(out.len(), 3);
    match &out[0].gen {
        TestGenSpec::File { path } => assert_eq!(path, "tests/1.txt"),
        other => panic!("{:?}", other),
    }
    match &out[2].gen {
        TestGenSpec::Generate { testgen, .. } => assert_eq!(testgen, "g"),
        other => panic!("{:?}", other),
    }

    let dup = problem(vec![block("1..3", None, Some(&["g"])), block("2..3", None, Some(&["g"]))]);
    match dup.process_tests(&vec![vec![], vec![]]) {
        Err(ProblemError::Duplicate(2)) => {}
        other => panic!("{:?}", other),
    }
    let gap = problem(vec![block("1,2,4", None, Some(&["g"]))]);
    match gap.process_tests(&vec![vec![]]) {
        Err(ProblemError::Missing(3)) => {}
        other => panic!("{:?}", other),
    }
    let zero = problem(vec![block("0,1", None, Some(&["g"]))]);
    match zero.process_tests(&vec![vec![]]) {
        Err(ProblemError::Missing(1)) => {}
        other => panic!("{:?}", other),
    }
    let none = problem(vec![]);
    match none.process_tests(&vec![]) {
        Err(ProblemError::NoTests) => {}
        other => panic!("{:?}", other),
    }
    let bad = problem(vec![block("1", None, Some(&["g"])), block("2,1", None, Some(&["g"]))]);
    match bad.process_tests(&vec![vec![], vec![]]) {
        Err(ProblemError::TestBlock(TestsSpecError::NotSorted)) => {}
        other => panic!("{:?}", other),
    }
}

#[test]
fn postprocess_builds_problem() {
    let p = problem(vec![block("1", None, Some(&["g"]))]);
    let (out, warnings) = p.postprocess(&vec![vec![]]).unwrap();
    assert_eq!(out.random_seed, "0123456789abcdef");
    assert!(warnings.is_empty());
    assert_eq!(out.title, "A+B");
    assert_eq!(out.tests.len(), 1);
    assert!(out.check_options.args.is_empty());
    match out.check {
        Check::Builtin(b) => assert_eq!(b.name, "cmp-tokens"),
        other => panic!("{:?}", other),
    }

    let mut unseeded = problem(vec![block("1", None, Some(&["g"]))]);
    unseeded.random_seed = None;
    let (out, warnings) = unseeded.postprocess(&vec![vec![]]).unwrap();
    assert_eq!(out.random_seed, "6a2c1750a93b8184");
    assert_eq!(warnings, vec!["random-seed not present, hardcoded seed is used".to_string()]);
}

#[test]
fn postprocess_rejects_bad_manifests() {
    let mut short = problem(vec![block("1", None, Some(&["g"]))]);
    short.random_seed = Some("abc".to_string());
    assert!(matches!(short.postprocess(&vec![vec![]]), Err(ProblemError::SeedLength)));

    let mut not_hex = problem(vec![block("1", None, Some(&["g"]))]);
    not_hex.random_seed = Some("0123456789abcdeg".to_string());
    assert!(matches!(not_hex.postprocess(&vec![vec![]]), Err(ProblemError::SeedNotHex)));

    let mut wide = problem(vec![block("1", None, Some(&["g"]))]);
    wide.random_seed = Some("ééééééééééééééé".to_string());
    assert!(matches!(wide.postprocess(&vec![vec![]]), Err(ProblemError::SeedLength)));

    let mut custom = problem(vec![block("1", None, Some(&["g"]))]);
    custom.check_type = "custom".to_string();
    assert!(matches!(custom.postprocess(&vec![vec![]]), Err(ProblemError::CustomCheckMissing)));

    let mut custom_ok = problem(vec![block("1", None, Some(&["g"]))]);
    custom_ok.check_type = "custom".to_string();
    custom_ok.custom_check = Some(CustomCheck { pass_correct: true });
    let (out, _) = custom_ok.postprocess(&vec![vec![]]).unwrap();
    assert!(matches!(out.check, Check::Custom(CustomCheck { pass_correct: true })));

    let mut builtin = problem(vec![block("1", None, Some(&["g"]))]);
    builtin.builtin_check = None;
    assert!(matches!(builtin.postprocess(&vec![vec![]]), Err(ProblemError::BuiltinCheckMissing)));

    let mut unknown = problem(vec![block("1", None, Some(&["g"]))]);
    unknown.check_type = "magic".to_string();
    match unknown.postprocess(&vec![vec![]]) {
        Err(ProblemError::UnknownCheckType(t)) => assert_eq!(t, "magic"),
        other => panic!("{:?}", other.map(|_| ())),
    }
}
