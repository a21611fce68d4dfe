use ofgpu::scalar::Scalar;
use ofgpu::tokenizer::{check_ascii_format, strip_comments, Tok, Tokenizer};

fn sc(v: f64) -> Scalar {
    Scalar { bits: v.to_bits() }
}

fn toks(src: &str) -> Vec<Tok> {
    let mut t = Tokenizer::new(src, "test.dict");
    let mut v = Vec::new();
    while let Ok(Some(tk)) = t.next() {
        v.push(tk);
    }
    v
}

#[test]
fn a_word_swallows_balanced_parens() {
    assert_eq!(
        toks("div(phi,U) Gauss linear;"),
        vec![
            Tok::Word("div(phi,U)".into()),
            Tok::Word("Gauss".into()),
            Tok::Word("linear".into()),
            Tok::Punct(';'),
        ]
    );
    assert_eq!(toks("grad(U)")[0], Tok::Word("grad(U)".into()));
}

#[test]
fn a_number_never_swallows_the_paren_after_it() {
    assert_eq!(
        toks("4(156 0 78 235)"),
        vec![
            Tok::Num(sc(4.0)),
            Tok::Punct('('),
            Tok::Num(sc(156.0)),
            Tok::Num(sc(0.0)),
            Tok::Num(sc(78.0)),
            Tok::Num(sc(235.0)),
            Tok::Punct(')'),
        ]
    );
}

#[test]
fn a_dimension_set_is_punctuation_around_numbers() {
    assert_eq!(
        toks("[0 1 -1 0 0 0 0]"),
        vec![
            Tok::Punct('['),
            Tok::Num(sc(0.0)),
            Tok::Num(sc(1.0)),
            Tok::Num(sc(-1.0)),
            Tok::Num(sc(0.0)),
            Tok::Num(sc(0.0)),
            Tok::Num(sc(0.0)),
            Tok::Num(sc(0.0)),
            Tok::Punct(']'),
        ]
    );
}

#[test]
fn exponents_stay_one_token_but_a_trailing_letter_does_not() {
    assert_eq!(toks("1e-05")[0], Tok::Num(sc(1e-5)));
    assert_eq!(toks("-1.5E+3")[0], Tok::Num(sc(-1500.0)));
    assert_eq!(toks("2ndOrder")[0], Tok::Word("2ndOrder".into()));
    assert_eq!(toks("1e")[0], Tok::Word("1e".into()));
}

#[test]
fn a_slash_inside_quotes_is_not_a_comment() {
    assert_eq!(
        toks("location \"constant/polyMesh\";"),
        vec![
            Tok::Word("location".into()),
            Tok::Str("constant/polyMesh".into()),
            Tok::Punct(';'),
        ]
    );
}

#[test]
fn both_comment_forms_disappear_without_moving_the_line_numbers() {
    let src = "a 1; // trailing\n/* block\n   spanning */\nb 2;\n";
    assert_eq!(
        toks(src),
        vec![
            Tok::Word("a".into()),
            Tok::Num(sc(1.0)),
            Tok::Punct(';'),
            Tok::Word("b".into()),
            Tok::Num(sc(2.0)),
            Tok::Punct(';'),
        ]
    );

    let mut t = Tokenizer::new(src, "test.dict");
    for _ in 0..3 {
        let _ = t.next();
    }
    assert_eq!(t.line(), 4);
}

#[test]
fn the_openfoam_banner_is_stripped_whole() {
    let src = "/*--------------------------------*- C++ -*-------------------------------*\\\n\
               |  =========                                                              |\n\
               \\*-------------------------------------------------------------------------*/\n\
               FoamFile\n{\n    version 2.0;\n}\n";
    assert_eq!(toks(src)[0], Tok::Word("FoamFile".into()));
}

#[test]
fn errors_name_the_file_and_the_line() {
    let mut t = Tokenizer::new("a 1;\nb 2;\nc\n", "case/system/fvSchemes");
    for _ in 0..6 {
        let _ = t.next();
    }
    let e = t.expect_punct(';').unwrap_err();
    let msg = e.text();
    assert!(msg.contains("case/system/fvSchemes"), "{msg}");
    assert!(msg.contains("line 3"), "{msg}");
    assert!(msg.contains("got 'c'"), "{msg}");
}

#[test]
fn an_unterminated_string_is_not_lost() {
    let mut t = Tokenizer::new("a \"oops\nb 1;\n", "test.dict");
    assert!(t.check_scan_error().is_err());
    assert_eq!(t.next().ok().flatten(), Some(Tok::Word("a".into())));
    assert!(t.next().is_err());
}

#[test]
fn a_quoted_regex_key_is_a_name() {
    let mut t = Tokenizer::new("\"(U|k|epsilon)\" { }", "test.dict");
    assert_eq!(t.expect_word().ok(), Some("(U|k|epsilon)".to_string()));
}

#[test]
fn a_fractional_label_is_refused() {
    let mut t = Tokenizer::new("12 3.5", "test.dict");
    assert_eq!(t.expect_label().ok(), Some(12));
    assert!(t.expect_label().is_err());
}

#[test]
fn numbers_rejoin_the_way_a_dimension_set_was_written() {
    assert_eq!(Tok::Num(sc(-1.0)).text(), "-1");
    assert_eq!(Tok::Num(sc(0.0)).text(), "0");
    assert_eq!(Tok::Num(sc(1e-5)).text().parse::<f64>().ok(), Some(1e-5));
}

#[test]
fn binary_format_is_refused_with_the_conversion_hint() {
    let src = "FoamFile\n{\n    format      binary;\n    class       vectorField;\n}\n";
    let e = check_ascii_format(src, "constant/polyMesh/points").unwrap_err();
    assert!(e.text().contains("foamFormatConvert"), "{}", e.text());
}

#[test]
fn the_word_binary_after_the_semicolon_is_not_a_binary_file() {
    let src = "FoamFile\n{\n    format      ascii;   // was binary\n}\n";
    assert!(check_ascii_format(src, "f").is_ok());
}

#[test]
fn skip_entry_takes_a_whole_nested_block() {
    let mut t = Tokenizer::new("{ a { b 1; } c 2; } after;", "test.dict");
    assert!(t.skip_entry().is_ok());
    assert_eq!(t.expect_word().ok(), Some("after".to_string()));
}

#[test]
fn a_compressed_file_is_named() {
    let e = ofgpu::tokenizer::compressed_error("case/points.gz");
    assert!(e.text().contains("case/points.gz"), "{}", e.text());
    assert!(e.text().contains("gunzip"), "{}", e.text());
}

#[test]
fn a_lone_slash_is_a_word() {
    assert_eq!(
        toks("a / b;"),
        vec![
            Tok::Word("a".into()),
            Tok::Word("/".into()),
            Tok::Word("b".into()),
            Tok::Punct(';'),
        ]
    );
    let marks: Vec<Tok> = toks("; { } ( ) [ ] / x/y 'q' 1e5 $v #d")
        .into_iter()
        .filter(|t| t.is_punct_any())
        .collect();
    assert_eq!(marks, "; { } ( ) [ ]".split(' ').map(|c| Tok::Punct(c.chars().next().unwrap())).collect::<Vec<_>>());
    let mut t = Tokenizer::new("/ 1;", "test.dict");
    assert_eq!(t.expect_word().ok(), Some("/".to_string()));
}

#[test]
fn the_lines_of_the_tokens_are_in_order() {
    let mut t = Tokenizer::new("a\n\n'b\nc' d\n;", "test.dict");
    let mut lines = Vec::new();
    while !t.done() {
        lines.push(t.line());
        t.advance();
    }
    assert_eq!(lines, vec![1, 3, 4, 5]);
    assert_eq!(t.line(), 5);
}

#[test]
fn stripping_comments_twice_is_stripping_them_once() {
    let strip = |s: &str| -> String {
        let v: Vec<char> = s.chars().collect();
        strip_comments(&v).into_iter().collect()
    };
    assert_eq!(strip("a // b\nc /* d\n e */ f"), "a     \nc     \n      f");
    for s in ["a // b\nc", "\"x // y\" /* z */ /", "//* /* */ /", "'a\\'b' // \"c", "/*/ */ * /", "\"open /* x"] {
        assert_eq!(strip(&strip(s)), strip(s), "{s}");
    }
}
