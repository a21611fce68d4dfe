use ofgpu::dict::FoamDict;
use ofgpu::scalar::Scalar;

fn sc(v: f64) -> Scalar {
    Scalar { bits: v.to_bits() }
}

fn fl(s: Scalar) -> f64 {
    f64::from_bits(s.bits)
}

const SRC: &str = r#"/*--------------------------------*- C++ -*----------------------------------*\
  =========                 |
\*---------------------------------------------------------------------------*/
FoamFile
{
    version     2.0;
    format      ascii;
    class       dictionary;
    location    "constant/polyMesh";
    object      fvSolution;
}
// * * * * * * * * * * * * * * * * * * * * * * * * * * * * * * * * * * * * //

dimensions      [0 1 -1 0 0 0 0];
internalField   uniform (0 0 0);

divSchemes
{
    default         none;
    div(phi,U)      bounded Gauss limitedLinear 1;   // key must not split
}

solvers
{
    "(U|k|epsilon)"
    {
        solver          smoothSolver;
        tolerance       1e-05;
        nSweeps         2;
    }

    p
    {
        solver          GAMG;
        tolerance       1e-06;
        relTol          0.01;
    }

    pFinal
    {
        $p;
        relTol          0;
    }
}

nu              nu [0 2 -1 0 0 0 0] 1e-05;
turbulence      on;

emptyDict
{
}
"#;

fn d() -> FoamDict {
    match FoamDict::parse(SRC, "case/system/fvSolution") {
        Ok(d) => d,
        Err(e) => panic!("{}", e.text()),
    }
}

#[test]
fn nesting_is_flattened_into_the_key() {
    let d = d();
    assert_eq!(d.get("solvers/p/solver"), Some("GAMG"));
    assert_eq!(d.get("divSchemes/default"), Some("none"));
    assert!(d.has("solvers/p/relTol"));
    assert!(!d.has("solvers/p"));
}

#[test]
fn an_fvschemes_key_keeps_its_parentheses() {
    let d = d();
    assert_eq!(
        d.get("divSchemes/div(phi,U)"),
        Some("bounded Gauss limitedLinear 1")
    );
}

#[test]
fn a_regex_solver_key_survives_as_a_pattern() {
    let d = d();
    assert_eq!(
        d.get("solvers/\"(U|k|epsilon)\"/solver"),
        Some("smoothSolver")
    );
    assert_eq!(
        d.sub_keys("solvers/\"(U|k|epsilon)\""),
        vec!["nSweeps", "solver", "tolerance"]
    );
    assert_eq!(d.patterns_in("solvers"), vec!["\"(U|k|epsilon)\""]);
}

#[test]
fn resolve_finds_the_pattern_that_governs_a_name() {
    let d = d();

    let key = d.resolve("solvers", "epsilon").ok().flatten();
    assert_eq!(key.as_deref(), Some("\"(U|k|epsilon)\""));
    assert!((fl(d.scalar(&format!("solvers/{}/tolerance", key.unwrap_or_default()), sc(0.0)))
        - 1e-5)
        .abs()
        < 1e-11);

    assert_eq!(d.resolve("solvers", "p").ok().flatten().as_deref(), Some("p"));

    assert_eq!(d.resolve("solvers", "omega").ok().flatten(), None);
}

#[test]
fn a_malformed_pattern_is_an_error_not_a_silent_miss() {
    let d = match FoamDict::parse(r#"solvers { "(unclosed" { relTol 0; } }"#, "fvSolution") {
        Ok(d) => d,
        Err(e) => panic!("{}", e.text()),
    };
    assert!(d.resolve("solvers", "p").is_err());
}

#[test]
fn a_dimension_set_rejoins_exactly() {
    let d = d();
    assert_eq!(d.get("dimensions"), Some("[0 1 -1 0 0 0 0]"));
    assert_eq!(d.get("internalField"), Some("uniform (0 0 0)"));
}

#[test]
fn the_header_is_kept_and_its_quoted_slash_is_not_a_comment() {
    let d = d();
    assert_eq!(d.get("FoamFile/location"), Some("constant/polyMesh"));
    assert_eq!(d.get("FoamFile/object"), Some("fvSolution"));
    assert_eq!(d.get("FoamFile/format"), Some("ascii"));
}

#[test]
fn an_empty_sub_dictionary_is_still_visible() {
    let d = d();
    assert!(d.has("emptyDict/"));
    assert_eq!(d.get("emptyDict/"), Some(""));
    assert!(d.sub_keys("").iter().any(|k| k == "emptyDict"));
    assert!(d.sub_keys("emptyDict").is_empty());
}

#[test]
fn sub_keys_lists_immediate_children_only() {
    let d = d();
    assert_eq!(
        d.sub_keys("solvers"),
        vec!["\"(U|k|epsilon)\"", "p", "pFinal"]
    );
    let top = d.sub_keys("");
    assert!(top.contains(&"divSchemes".to_string()));
    assert!(top.contains(&"solvers".to_string()));
    assert!(top.contains(&"FoamFile".to_string()));
    assert!(!top.iter().any(|k| k.contains('/')));
}

#[test]
fn a_dimensioned_scalar_takes_the_last_number() {
    let d = d();
    assert!(
        d.get_or("nu", "").starts_with("nu [0 2 -1 0 0 0 0] "),
        "{:?}",
        d.get("nu")
    );
    assert!((fl(d.scalar("nu", sc(0.0))) - 1e-5).abs() < 1e-11);
    assert_eq!(fl(d.scalar("missing", sc(42.0))), 42.0);
    assert_eq!(d.label("solvers/\"(U|k|epsilon)\"/nSweeps", 1), 2);
    assert!(d.bool("turbulence", false));
    assert!(!d.bool("missing", false));
}

#[test]
fn a_dollar_merge_does_not_overwrite_the_explicit_entry() {
    let d = d();
    assert_eq!(d.get("solvers/pFinal/solver"), Some("GAMG"));
    assert!((fl(d.scalar("solvers/pFinal/tolerance", sc(0.0))) - 1e-6).abs() < 1e-12);
    assert_eq!(fl(d.scalar("solvers/pFinal/relTol", sc(1.0))), 0.0);
    assert_eq!(fl(d.scalar("solvers/p/relTol", sc(0.0))), 0.01);
}

#[test]
fn a_float_is_rejoined_from_its_value_not_its_source_text() {
    let d = d();
    assert_eq!(d.get("solvers/p/tolerance"), Some("0.000001"));
    assert_eq!(d.get_or("solvers/p/tolerance", "").parse::<f64>().ok(), Some(1e-6));
    assert_eq!(d.get("dimensions"), Some("[0 1 -1 0 0 0 0]"));
}

#[test]
fn binary_files_are_refused_with_the_conversion_hint() {
    let src = "FoamFile\n{\n    version 2.0;\n    format binary;\n    class labelList;\n}\n";
    let e = match FoamDict::parse(src, "constant/polyMesh/owner") {
        Err(e) => e.text(),
        Ok(_) => panic!("a binary file was accepted"),
    };
    assert!(e.contains("foamFormatConvert"), "{e}");
    assert!(e.contains("constant/polyMesh/owner"), "{e}");
}

#[test]
fn a_missing_semicolon_names_the_file_and_the_line() {
    let src = "a\n{\n    b 1;\n    c 2\n}\n";
    let e = match FoamDict::parse(src, "case/system/controlDict") {
        Err(e) => e.text(),
        Ok(_) => panic!("a missing ';' was accepted"),
    };
    assert!(e.contains("case/system/controlDict"), "{e}");
    assert!(e.contains("line 5"), "{e}");
    assert!(e.contains("entry 'c'"), "{e}");
}

#[test]
fn an_unterminated_block_is_an_error_not_a_truncated_dictionary() {
    assert!(FoamDict::parse("a\n{\n  b 1;\n", "f").is_err());
    assert!(FoamDict::parse("}\n", "f").is_err());
}

#[test]
fn commented_out_entries_leave_nothing_behind() {
    let src = "a 1;\n// b 2;\n/* c 3; */\nd 4;\n";
    let d = match FoamDict::parse(src, "f") {
        Ok(d) => d,
        Err(e) => panic!("{}", e.text()),
    };
    assert_eq!(d.sub_keys(""), vec!["a", "d"]);
}

#[test]
fn a_skipped_directive_is_noted() {
    let src = "a 1;\n#calc \"1+1\";\nb { #includeEtc \"x\" c 2; #codeStream { d 3; } }\n#includeIfPresent \"none\"\n";
    let d = match FoamDict::parse(src, "case/system/controlDict") {
        Ok(d) => d,
        Err(e) => panic!("{}", e.text()),
    };
    assert_eq!(d.get("b/c"), Some("2"));
    assert_eq!(
        d.notices,
        [
            "case/system/controlDict: ignoring unsupported directive #calc",
            "case/system/controlDict: ignoring unsupported directive #includeEtc",
            "case/system/controlDict: ignoring unsupported directive #codeStream",
        ]
    );
    assert!(d.patterns.is_empty());
}

#[test]
fn the_pattern_that_governs_is_one_of_those_listed() {
    let src = "s { \"U.*\" { a 1; } plain { a 2; } \"(k|epsilon)\" { a 3; } in { \"z\" 4; } }";
    let d = match FoamDict::parse(src, "f") {
        Ok(d) => d,
        Err(e) => panic!("{}", e.text()),
    };
    assert_eq!(d.patterns_in("s"), ["\"U.*\"", "\"(k|epsilon)\""]);
    assert_eq!(d.patterns_in("s/in"), ["\"z\""]);
    assert_eq!(d.patterns_in("t"), Vec::<String>::new());
    let k = d.resolve("s", "epsilon").unwrap().unwrap();
    assert_eq!(k, "\"(k|epsilon)\"");
    assert!(d.patterns_in("s").contains(&k));
    assert_eq!(d.resolve("s", "plain").unwrap(), Some("plain".to_string()));
    let broken = match FoamDict::parse("s { \"(U\" 1; }", "f") {
        Ok(d) => d,
        Err(e) => panic!("{}", e.text()),
    };
    let e = broken.resolve("s", "p").unwrap_err().text();
    assert!(e.contains("(U"), "{e}");
}
