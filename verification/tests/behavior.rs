use cargo_play::cargo::{
    cargo_toml_content, normalize_crate_name, to_lowercase, CargoManifest, CargoPackage,
};
use cargo_play::errors::CargoPlayError;
use cargo_play::infer::analyze_sources;
use cargo_play::opt::{Opt, RustEdition};
use cargo_play::steps::{
    cached_binary_path, decide_action, extract_headers, outcome_code, package_name, plan_copy,
    run_cargo_args, split_ws_exec, temp_dir, BuildAction,
};

#[test]
fn test_extract_headers() {
    let stdin = Some("//# line 1\n//# line 2\n// line 3\n//# line 4".to_string());
    let inputs: Vec<&str> = vec!["//# line 1\n//# line 2\n// line 3\n//# line 4"];
    let result = extract_headers(stdin.as_deref(), &inputs);

    assert_eq!(result.len(), 4);
    assert_eq!(result[0], String::from("line 1"));
    assert_eq!(result[1], String::from("line 2"));
    assert_eq!(result[2], String::from("line 1"));
    assert_eq!(result[3], String::from("line 2"));
}

#[test]
fn header_boundary() {
    let r = extract_headers(None, &["#!x\n//# a\n//# b\n\nfn main(){}"]);
    assert_eq!(r, vec!["a".to_string(), "b".to_string()]);
    let r2 = extract_headers(None, &["#!x\n//# a\n// not-a-dep\n//# b\n\nfn main(){}"]);
    assert_eq!(r2, vec!["a".to_string()]);
}

#[test]
fn empty_directives_dropped() {
    let r = extract_headers(None, &["//#   \n//# x\n"]);
    assert_eq!(r, vec!["x".to_string()]);
}

#[test]
fn crlf_line_endings() {
    let r = extract_headers(None, &["//# a\r\n//# b\r\nfn main(){}"]);
    assert_eq!(r, vec!["a".to_string(), "b".to_string()]);
}

#[test]
fn no_units_no_headers() {
    let none: Vec<&str> = Vec::new();
    let r = extract_headers(None, &none);
    assert_eq!(r, Vec::<String>::new());
}

#[test]
fn reserved_roots_excluded() {
    let src = "use std::fmt;\nuse bitflags::bitflags;\nfn main() {}\n";
    let r = analyze_sources(None, &[src]).unwrap();
    assert_eq!(r, vec!["bitflags".to_string()]);
}

#[test]
fn infer_inside_blocks() {
    let src = "fn main() { use dtoa; let _x = 1; }";
    let r = analyze_sources(None, &[src]).unwrap();
    assert_eq!(r, vec!["dtoa".to_string()]);
}

#[test]
fn infer_dedup_and_order() {
    let a = "use serde;\nuse toml;\n";
    let b = "use toml;\nuse quote;\n";
    let r = analyze_sources(None, &[a, b]).unwrap();
    assert_eq!(
        r,
        vec!["serde".to_string(), "toml".to_string(), "quote".to_string()]
    );
}

#[test]
fn infer_parse_failure() {
    let r = analyze_sources(None, &["fn main( {"]);
    assert!(matches!(r, Err(CargoPlayError::ParseError(_))));
}

#[test]
fn explicit_wins_over_inferred() {
    let text = cargo_toml_content(
        "Demo".to_string(),
        vec!["foo = \"1.0\"".to_string()],
        RustEdition::E2018,
        vec!["foo".to_string(), "bar".to_string()],
    )
    .unwrap();
    assert_eq!(
        text,
        "[package]\nname = \"demo\"\nversion = \"0.1.0\"\nedition = \"2018\"\n\n[dependencies]\nfoo = \"1.0\"\nbar = \"*\"\n"
    );
}

#[test]
fn tables_serialize_last() {
    let text = cargo_toml_content(
        "p1".to_string(),
        vec![
            "tbl = { version = \"1.0\" }".to_string(),
            "plain = \"2\"".to_string(),
        ],
        RustEdition::E2015,
        Vec::new(),
    )
    .unwrap();
    assert_eq!(
        text,
        "[package]\nname = \"p1\"\nversion = \"0.1.0\"\nedition = \"2015\"\n\n[dependencies]\nplain = \"2\"\ntbl = { version = \"1.0\" }\n"
    );
}

#[test]
fn manifest_bad_fragment() {
    let r = CargoManifest::new(
        "x".to_string(),
        vec!["not toml at all ###".to_string()],
        RustEdition::E2018,
    );
    assert!(matches!(r, Err(CargoPlayError::ParseError(_))));
}

#[test]
fn manifest_multi_entry_fragment() {
    let r = CargoManifest::new(
        "x".to_string(),
        vec!["a = \"1\"\nb = \"2\"".to_string()],
        RustEdition::E2018,
    );
    assert!(matches!(r, Err(CargoPlayError::ParseError(_))));
}

#[test]
fn manifest_duplicate_names() {
    let r = CargoManifest::new(
        "x".to_string(),
        vec!["foo-bar = \"1\"".to_string(), "foo_bar = \"2\"".to_string()],
        RustEdition::E2018,
    );
    assert!(matches!(r, Err(CargoPlayError::ParseError(_))));
}

#[test]
fn package_section() {
    let p = CargoPackage::new("PX".to_string(), RustEdition::E2015);
    assert_eq!(p.name, "px");
    assert_eq!(p.version, "0.1.0");
    assert_eq!(p.edition, "2015");
}

#[test]
fn hash_order_independent() {
    let a = Opt {
        src: vec!["/tmp/a.rs".to_string(), "/tmp/b.rs".to_string()],
        ..Default::default()
    };
    let b = Opt {
        src: vec!["/tmp/b.rs".to_string(), "/tmp/a.rs".to_string()],
        ..Default::default()
    };
    assert_eq!(a.src_hash(), b.src_hash());
    assert_eq!(a.src_hash(), "vyRJnnpCLb42fUZbGTys61r6WEv");
}

#[test]
fn hash_known_value() {
    let o = Opt {
        src: vec!["/tmp/a.rs".to_string()],
        ..Default::default()
    };
    assert_eq!(o.src_hash(), "4YGgss3mzSZZtnPgYQkme6fkQTwq");
    assert_eq!(o.temp_dirname(), "cargo-play.4YGgss3mzSZZtnPgYQkme6fkQTwq");
}

#[test]
fn parse_flags_and_sources() {
    let args: Vec<String> = [
        "cargo-play",
        "play",
        "+nightly",
        "--clean",
        "--release",
        "-v",
        "-v",
        "--edition",
        "2015",
        "a.rs",
        "b.rs",
        "--",
        "x",
        "y",
    ]
    .iter()
    .map(|s| s.to_string())
    .collect();
    let o = Opt::parse(args).unwrap();
    assert_eq!(o.toolchain.as_deref(), Some("nightly"));
    assert!(o.clean && o.release);
    assert_eq!(o.verbose, 2);
    assert_eq!(o.edition, RustEdition::E2015);
    assert_eq!(o.src, vec!["a.rs".to_string(), "b.rs".to_string()]);
    assert_eq!(o.args, vec!["x".to_string(), "y".to_string()]);
}

#[test]
fn parse_value_flag_forms() {
    let args: Vec<String> = [
        "cargo-play",
        "--cargo-option=--offline",
        "--save",
        "/tmp/out",
        "--stdin",
        "a.rs",
    ]
    .iter()
    .map(|s| s.to_string())
    .collect();
    let o = Opt::parse(args).unwrap();
    assert_eq!(o.cargo_option.as_deref(), Some("--offline"));
    assert_eq!(o.save.as_deref(), Some("/tmp/out"));
    assert!(o.stdin);
    assert_eq!(o.src, vec!["a.rs".to_string()]);
}

#[test]
fn parse_rejects_bad_edition() {
    let args: Vec<String> = ["cargo-play", "--edition", "2021", "a.rs"]
        .iter()
        .map(|s| s.to_string())
        .collect();
    assert!(Opt::parse(args).is_err());
}

#[test]
fn parse_rejects_unknown_flag() {
    let args: Vec<String> = ["cargo-play", "--frobnicate"]
        .iter()
        .map(|s| s.to_string())
        .collect();
    assert!(Opt::parse(args).is_err());
}

#[test]
fn parse_requires_an_argument() {
    let args: Vec<String> = ["cargo-play"].iter().map(|s| s.to_string()).collect();
    assert!(Opt::parse(args).is_err());
}

#[test]
fn cargo_invocation_arguments() {
    let mut o = Opt::default();
    o.toolchain = Some("nightly".to_string());
    o.release = true;
    o.quiet = true;
    o.verbose = 2;
    o.cargo_option = Some("--offline  --locked".to_string());
    o.args = vec!["p1".to_string()];
    let args = run_cargo_args(&o, "/ws");
    let expected: Vec<String> = [
        "+nightly",
        "run",
        "--manifest-path",
        "/ws/Cargo.toml",
        "--offline",
        "--locked",
        "--release",
        "--quiet",
        "-v",
        "-v",
        "--",
        "p1",
    ]
    .iter()
    .map(|s| s.to_string())
    .collect();
    assert_eq!(args, expected);
}

#[test]
fn cargo_subcommand_selection() {
    let mut o = Opt::default();
    o.test = true;
    assert_eq!(run_cargo_args(&o, "/w")[0], "test");
    let mut o2 = Opt::default();
    o2.check = true;
    assert_eq!(run_cargo_args(&o2, "/w")[0], "check");
    let mut o3 = Opt::default();
    o3.mode = Some("bench".to_string());
    assert_eq!(run_cargo_args(&o3, "/w")[0], "bench");
    let o4 = Opt::default();
    assert_eq!(run_cargo_args(&o4, "/w")[0], "run");
}

#[test]
fn cache_hit_short_circuits() {
    let mut o = Opt::default();
    o.cached = true;
    let r = decide_action(&o, "/ws", "pABC", true, true, false).unwrap();
    match r {
        BuildAction::RunCached { bin } => assert_eq!(bin, "/ws/target/debug/pabc"),
        _ => panic!("a warm cache must run the prebuilt binary"),
    }
    o.release = true;
    let r2 = decide_action(&o, "/ws", "pABC", true, true, false).unwrap();
    match r2 {
        BuildAction::RunCached { bin } => assert_eq!(bin, "/ws/target/release/pabc"),
        _ => panic!("a warm cache must run the prebuilt binary"),
    }
}

#[test]
fn no_cache_without_binary() {
    let mut o = Opt::default();
    o.cached = true;
    let r = decide_action(&o, "/ws", "p", true, false, false).unwrap();
    assert!(matches!(r, BuildAction::Build { .. }));
    let r2 = decide_action(&o, "/ws", "p", false, true, false).unwrap();
    assert!(matches!(r2, BuildAction::Build { .. }));
}

#[test]
fn export_conflict_fails() {
    let mut o = Opt::default();
    o.save = Some("/dest".to_string());
    let r = decide_action(&o, "/ws", "p", false, false, true);
    match r {
        Err(CargoPlayError::PathExistError(p)) => assert_eq!(p, "/dest"),
        _ => panic!("an existing export destination must be a conflict"),
    }
    let ok = decide_action(&o, "/ws", "p", false, false, false).unwrap();
    match ok {
        BuildAction::Export { dest } => assert_eq!(dest, "/dest"),
        _ => panic!("a fresh destination must be exported to"),
    }
}

#[test]
fn copy_plan_preserves_relative_paths() {
    let files = vec!["/proj/main.rs".to_string(), "/proj/lib/util.rs".to_string()];
    let plan = plan_copy(false, "/cwd", &files).unwrap();
    assert_eq!(plan.len(), 1);
    assert_eq!(plan[0].dest, "lib/util.rs");
    assert_eq!(plan[0].index, 1);
}

#[test]
fn copy_plan_stdin_uses_cwd() {
    let files = vec!["/cwd/a.rs".to_string()];
    let plan = plan_copy(true, "/cwd", &files).unwrap();
    assert_eq!(plan.len(), 1);
    assert_eq!(plan[0].dest, "a.rs");
    assert_eq!(plan[0].index, 0);
}

#[test]
fn copy_plan_unrelated_path_fails() {
    let files = vec!["/proj/main.rs".to_string(), "rel.rs".to_string()];
    let r = plan_copy(false, "/cwd", &files);
    assert!(matches!(r, Err(CargoPlayError::DiffPathError(_))));
}

#[test]
fn outcome_codes() {
    assert_eq!(outcome_code(Some(0)), 0);
    assert_eq!(outcome_code(Some(101)), 101);
    assert_eq!(outcome_code(None), -1);
}

#[test]
fn workspace_paths() {
    assert_eq!(temp_dir("/tmp", "cargo-play.X"), "/tmp/cargo-play.X");
    assert_eq!(package_name("Abc"), "pAbc");
    assert_eq!(cached_binary_path("/w", false, "pAbC"), "/w/target/debug/pabc");
    assert_eq!(cached_binary_path("/w", true, "pAbC"), "/w/target/release/pabc");
}

#[test]
fn name_normalization() {
    assert_eq!(normalize_crate_name("foo-bar"), "foo_bar");
    assert_eq!(to_lowercase("MiXeD09"), "mixed09");
}

#[test]
fn raw_flags_split() {
    assert_eq!(
        split_ws_exec("  a  bb\tc\n"),
        vec!["a".to_string(), "bb".to_string(), "c".to_string()]
    );
    assert_eq!(split_ws_exec(""), Vec::<String>::new());
}

#[test]
fn error_constructors() {
    assert!(matches!(
        CargoPlayError::from_serde("boom".to_string()),
        CargoPlayError::ParseError(_)
    ));
    assert!(matches!(
        CargoPlayError::_message("note".to_string()),
        CargoPlayError::_Message(_)
    ));
    assert!(matches!(
        RustEdition::from_str("2021"),
        Err(CargoPlayError::InvalidEdition(_))
    ));
    assert!(matches!(
        RustEdition::from_str("2018"),
        Ok(RustEdition::E2018)
    ));
}
