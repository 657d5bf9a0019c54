use rtk_filters::find_args::{
    has_native_find_flags, has_unsupported_find_flags, ignored_find_flags, next_arg,
    parse_find_args, parse_native_find_args, parse_rtk_find_args, FindError,
    UNSUPPORTED_FIND_FLAGS,
};

fn args(values: &[&str]) -> Vec<String> {
    values.iter().map(|s| s.to_string()).collect()
}

#[test]
fn parse_native_find_name() {
    let parsed = parse_find_args(&args(&[".", "-name", "*.rs"])).unwrap();
    assert_eq!(parsed.pattern, "*.rs");
    assert_eq!(parsed.path, ".");
    assert_eq!(parsed.file_type, "f");
    assert_eq!(parsed.max_results, 50);
}

#[test]
fn parse_native_find_name_and_type() {
    let parsed = parse_find_args(&args(&["src", "-name", "*.rs", "-type", "f"])).unwrap();
    assert_eq!(parsed.pattern, "*.rs");
    assert_eq!(parsed.path, "src");
    assert_eq!(parsed.file_type, "f");
}

#[test]
fn parse_native_find_type_d() {
    let parsed = parse_find_args(&args(&[".", "-type", "d"])).unwrap();
    assert_eq!(parsed.pattern, "*");
    assert_eq!(parsed.file_type, "d");
}

#[test]
fn parse_native_find_maxdepth() {
    let parsed = parse_find_args(&args(&[".", "-name", "*.toml", "-maxdepth", "2"])).unwrap();
    assert_eq!(parsed.pattern, "*.toml");
    assert_eq!(parsed.max_depth, Some(2));
    assert_eq!(parsed.max_results, 50); // max_results unchanged by -maxdepth
}

#[test]
fn parse_native_find_iname() {
    let parsed = parse_find_args(&args(&[".", "-iname", "Makefile"])).unwrap();
    assert_eq!(parsed.pattern, "Makefile");
    assert!(parsed.case_insensitive);
}

#[test]
fn parse_native_find_name_is_case_sensitive() {
    let parsed = parse_find_args(&args(&[".", "-name", "*.rs"])).unwrap();
    assert!(!parsed.case_insensitive);
}

#[test]
fn parse_native_find_no_path() {
    // `find -name "*.rs"` without explicit path defaults to "."
    let parsed = parse_find_args(&args(&["-name", "*.rs"])).unwrap();
    assert_eq!(parsed.pattern, "*.rs");
    assert_eq!(parsed.path, ".");
}

#[test]
fn parse_native_find_rejects_not() {
    let result = parse_find_args(&args(&[".", "-name", "*.rs", "-not", "-name", "*_test.rs"]));
    assert!(result.is_err());
    let msg = result.unwrap_err().message();
    assert!(msg.contains("compound predicates"));
}

#[test]
fn parse_native_find_rejects_exec() {
    let result = parse_find_args(&args(&[".", "-name", "*.tmp", "-exec", "rm", "{}", ";"]));
    assert!(result.is_err());
}

#[test]
fn parse_rtk_syntax_pattern_only() {
    let parsed = parse_find_args(&args(&["*.rs"])).unwrap();
    assert_eq!(parsed.pattern, "*.rs");
    assert_eq!(parsed.path, ".");
}

#[test]
fn parse_rtk_syntax_pattern_and_path() {
    let parsed = parse_find_args(&args(&["*.rs", "src"])).unwrap();
    assert_eq!(parsed.pattern, "*.rs");
    assert_eq!(parsed.path, "src");
}

#[test]
fn parse_rtk_syntax_with_flags() {
    let parsed = parse_find_args(&args(&["*.rs", "src", "-m", "10", "-t", "d"])).unwrap();
    assert_eq!(parsed.pattern, "*.rs");
    assert_eq!(parsed.path, "src");
    assert_eq!(parsed.max_results, 10);
    assert_eq!(parsed.file_type, "d");
}

#[test]
fn parse_empty_args() {
    let parsed = parse_find_args(&args(&[])).unwrap();
    assert_eq!(parsed.pattern, "*");
    assert_eq!(parsed.path, ".");
}

#[test]
fn numbers_that_cannot_be_read_are_refused() {
    let result = parse_find_args(&args(&[".", "-maxdepth", "two"]));
    assert_eq!(result.unwrap_err(), FindError::InvalidMaxDepth);
    let result = parse_find_args(&args(&["*.rs", "--max", "-1"]));
    assert_eq!(result.unwrap_err(), FindError::InvalidMax);
    let result = parse_find_args(&args(&["*.rs", "-m", "99999999999999999999999"]));
    assert_eq!(result.unwrap_err(), FindError::InvalidMax);
    assert_eq!(FindError::InvalidMaxDepth.message(), "invalid -maxdepth value");
    assert_eq!(FindError::InvalidMax.message(), "invalid --max value");
    assert_eq!(
        FindError::Unsupported.message(),
        "rtk find does not support compound predicates or actions (e.g. -not, -exec). Use `find` directly."
    );
    let parsed = parse_find_args(&args(&["*.rs", "-m", "+7"])).unwrap();
    assert_eq!(parsed.max_results, 7);
}

#[test]
fn every_unsupported_flag_is_refused() {
    for flag in UNSUPPORTED_FIND_FLAGS {
        let given = args(&["x", flag]);
        assert!(has_unsupported_find_flags(&given));
        assert_eq!(parse_find_args(&given).unwrap_err(), FindError::Unsupported);
    }
    assert!(!has_unsupported_find_flags(&args(&["-name", "-nota"])));
}

#[test]
fn either_syntax_is_told_by_its_flags() {
    assert!(has_native_find_flags(&args(&["a", "-iname"])));
    assert!(!has_native_find_flags(&args(&["a", "-m", "3"])));
    assert!(!has_native_find_flags(&args(&[])));
}

#[test]
fn later_native_flags_win() {
    let given = args(&["a", "b", "-name", "x", "-iname", "y", "-name", "z", "-mystery", "-type"]);
    let parsed = parse_native_find_args(&given).unwrap();
    assert_eq!(parsed.path, "a");
    assert_eq!(parsed.pattern, "z");
    assert!(parsed.case_insensitive);
    assert_eq!(parsed.file_type, "f");
    assert_eq!(ignored_find_flags(&given), args(&["-mystery"]));
}

#[test]
fn short_syntax_takes_long_flags() {
    let given = args(&["*", "--max", "3", "--file-type", "d", "stray", "-m"]);
    let parsed = parse_rtk_find_args(&given).unwrap();
    assert_eq!(parsed.pattern, "*");
    assert_eq!(parsed.path, ".");
    assert_eq!(parsed.max_results, 3);
    assert_eq!(parsed.file_type, "d");
    assert!(ignored_find_flags(&given).is_empty());
}

#[test]
fn values_are_not_read_as_flags() {
    let given = args(&[".", "-name", "-maxdepth", "x", "-maxdepth", "3", "-maxdepth"]);
    let parsed = parse_find_args(&given).unwrap();
    assert_eq!(parsed.pattern, "-maxdepth");
    assert_eq!(parsed.max_depth, Some(3));
    let given = args(&["*", "-t", "-m", "x", "--max", "2", "-m", "5"]);
    let parsed = parse_find_args(&given).unwrap();
    assert_eq!(parsed.file_type, "-m");
    assert_eq!(parsed.max_results, 5);
    let given = args(&["*", "-m", "2", "-m", "x"]);
    assert_eq!(parse_find_args(&given).unwrap_err(), FindError::InvalidMax);
}

#[test]
fn the_next_argument_may_be_missing() {
    let given = args(&["a", "b"]);
    let mut i: usize = 0;
    assert_eq!(next_arg(&given, &mut i), Some("b".to_string()));
    assert_eq!(i, 1);
    assert_eq!(next_arg(&given, &mut i), None);
    assert_eq!(i, 2);
}
