use ofgpu::contract::Policy;
use ofgpu::dict::FoamDict;
use ofgpu::scalar::Scalar;
use ofgpu::schemes::{
    parse_div, parse_grad, parse_interpolation, parse_laplacian, parse_sn_grad, DivEntry,
    DivScheme, FvSchemes, GradBase, GradLimit, GradLimiterKind, GradScheme, Limiter, SnGradScheme,
};

fn sc(v: f64) -> Scalar {
    Scalar { bits: v.to_bits() }
}

const STRICT: Policy = Policy { permissive: false };

const PLUME_B: &str = r#"
        ddtSchemes { default steadyState; }
        gradSchemes { default Gauss linear; }
        divSchemes
        {
            default          none;
            div(phi,U)       Gauss linearUpwind grad(U);
            div(phi,k)       bounded Gauss upwind;
            div(phi,epsilon) bounded Gauss upwind;
        }
        laplacianSchemes { default Gauss linear corrected; }
        interpolationSchemes { default linear; }
        snGradSchemes { default corrected; }
    "#;

fn plume_b() -> FvSchemes {
    FvSchemes::from_dict(FoamDict::parse(PLUME_B, "fvSchemes").unwrap(), STRICT)
}

#[test]
fn momentum_reads_its_own_entry() {
    let s = plume_b();

    assert_eq!(s.div("div(phi,U)", &mut vec![]).unwrap().scheme, DivScheme::LinearUpwind);
    assert!(!s.div("div(phi,U)", &mut vec![]).unwrap().bounded);

    assert_eq!(s.div("div(phi,k)", &mut vec![]).unwrap().scheme, DivScheme::Upwind);
    assert!(s.div("div(phi,k)", &mut vec![]).unwrap().bounded);
}

#[test]
fn a_missing_key_with_default_none_is_an_error() {
    let e = plume_b().div("div(phi,T)", &mut vec![]).unwrap_err().text();
    assert!(e.contains("div(phi,T)"), "{e}");
    assert!(e.contains("-permissive"), "{e}");
}

#[test]
fn permissive_downgrades_and_says_what_it_substituted() {
    let s = FvSchemes::from_dict(
        FoamDict::parse(PLUME_B, "fvSchemes").unwrap(),
        Policy { permissive: true },
    );
    let e = s.div("div(phi,T)", &mut vec![]).unwrap();
    assert_eq!(e, DivEntry::upwind());
}

#[test]
fn every_limiter_of_section_7_is_reachable_by_name() {
    let cases: &[(&str, DivScheme)] = &[
        ("Gauss vanLeer", DivScheme::Limited(Limiter::VanLeer)),
        ("Gauss vanAlbada", DivScheme::Limited(Limiter::VanAlbada)),
        ("Gauss Minmod", DivScheme::Limited(Limiter::MinMod)),
        ("Gauss SuperBee", DivScheme::Limited(Limiter::Superbee)),
        ("Gauss MUSCL", DivScheme::Limited(Limiter::Muscl)),
        (
            "Gauss limitedLinear 1",
            DivScheme::Limited(Limiter::Sweby(sc(1.0))),
        ),
        (
            "bounded Gauss limitedLinear 1.5",
            DivScheme::Limited(Limiter::Sweby(sc(1.5))),
        ),
    ];
    for (raw, want) in cases {
        let got = parse_div(STRICT, "divSchemes/div(phi,U)", raw, &mut vec![]).unwrap();
        assert_eq!(got.scheme, *want, "{raw}");
    }
}

#[test]
fn the_limiter_coefficient_survives() {
    let a = parse_div(STRICT, "d", "Gauss limitedLinear 1", &mut vec![]).unwrap().scheme;
    let b = parse_div(STRICT, "d", "Gauss limitedLinear 2", &mut vec![]).unwrap().scheme;
    assert_ne!(a, b);
}

#[test]
fn section_11_schemes_parse_with_their_coefficients() {
    assert_eq!(
        parse_div(STRICT, "d", "Gauss cubic", &mut vec![]).unwrap().scheme,
        DivScheme::Cubic
    );
    assert_eq!(
        parse_div(STRICT, "d", "Gauss QUICK", &mut vec![]).unwrap().scheme,
        DivScheme::Quick
    );
    assert_eq!(
        parse_div(STRICT, "d", "Gauss QUICKUnlimited", &mut vec![]).unwrap().scheme,
        DivScheme::QuickUnlimited
    );
    assert_eq!(
        parse_div(STRICT, "d", "Gauss Gamma 0.2", &mut vec![]).unwrap().scheme,
        DivScheme::Gamma(sc(0.2))
    );
    assert_eq!(
        parse_div(STRICT, "d", "Gauss blended 0.9", &mut vec![]).unwrap().scheme,
        DivScheme::Blended(sc(0.9))
    );
    assert_eq!(
        parse_div(STRICT, "d", "Gauss linearUpwindBlended 0.5", &mut vec![]).unwrap().scheme,
        DivScheme::LinearUpwindBlended(sc(0.5))
    );
    assert_eq!(
        parse_div(STRICT, "d", "Gauss linearUpwindBlended", &mut vec![]).unwrap().scheme,
        DivScheme::LinearUpwindBlended(sc(0.75))
    );
}

#[test]
fn a_scheme_missing_its_required_coefficient_is_an_error() {
    assert!(parse_div(STRICT, "d", "Gauss Gamma", &mut vec![]).is_err());
    assert!(parse_div(STRICT, "d", "Gauss blended", &mut vec![]).is_err());
    assert!(parse_div(STRICT, "d", "Gauss limitedLinear", &mut vec![]).is_err());
}

#[test]
fn an_unimplemented_scheme_is_an_error_naming_it_and_the_menu() {
    let e = parse_div(STRICT, "divSchemes/div(phi,U)", "Gauss SFCD", &mut vec![])
        .unwrap_err()
        .text();
    assert!(e.contains("Gauss SFCD"), "{e}");
    assert!(e.contains("Gauss vanLeer"), "{e}");

    assert!(parse_div(STRICT, "d", "Gauss banana", &mut vec![]).is_err());
    assert!(parse_div(STRICT, "d", "leastSquares linear", &mut vec![]).is_err());
}

#[test]
fn grad_schemes_parse() {
    assert_eq!(parse_grad(STRICT, "g", "Gauss linear", &mut vec![]).unwrap(), GradScheme::gauss());
    assert_eq!(
        parse_grad(STRICT, "g", "leastSquares", &mut vec![]).unwrap(),
        GradScheme {
            base: GradBase::LeastSquares,
            limit: GradLimit::Unlimited
        }
    );
    assert_eq!(
        parse_grad(STRICT, "g", "cellLimited Gauss linear 1", &mut vec![]).unwrap(),
        GradScheme {
            base: GradBase::Gauss,
            limit: GradLimit::Cell(GradLimiterKind::BarthJespersen, sc(1.0))
        }
    );
    assert_eq!(
        parse_grad(STRICT, "g", "cellLimited<Venkatakrishnan> leastSquares 0.5", &mut vec![]).unwrap(),
        GradScheme {
            base: GradBase::LeastSquares,
            limit: GradLimit::Cell(GradLimiterKind::Venkatakrishnan, sc(0.5))
        }
    );
    assert_eq!(
        parse_grad(STRICT, "g", "faceLimited Gauss linear 1", &mut vec![]).unwrap(),
        GradScheme {
            base: GradBase::Gauss,
            limit: GradLimit::Face(GradLimiterKind::BarthJespersen, sc(1.0))
        }
    );
    assert!(parse_grad(STRICT, "g", "pointCellsLeastSquares", &mut vec![]).is_err());
    assert!(parse_grad(STRICT, "g", "cellLimited Gauss linear", &mut vec![]).is_err());
}

#[test]
fn sn_grad_schemes_parse() {
    assert_eq!(
        parse_sn_grad(STRICT, "s", "uncorrected", &mut vec![]).unwrap(),
        SnGradScheme::Uncorrected
    );
    assert_eq!(
        parse_sn_grad(STRICT, "s", "orthogonal", &mut vec![]).unwrap(),
        SnGradScheme::Uncorrected
    );
    assert_eq!(
        parse_sn_grad(STRICT, "s", "corrected", &mut vec![]).unwrap(),
        SnGradScheme::Corrected
    );
    assert_eq!(
        parse_sn_grad(STRICT, "s", "limited 0.33", &mut vec![]).unwrap(),
        SnGradScheme::Limited(sc(0.33))
    );
    assert_eq!(
        parse_sn_grad(STRICT, "s", "limited corrected 0.5", &mut vec![]).unwrap(),
        SnGradScheme::Limited(sc(0.5))
    );
    assert!(parse_sn_grad(STRICT, "s", "limited", &mut vec![]).is_err());
    assert!(parse_sn_grad(STRICT, "s", "faceCorrected", &mut vec![]).is_err());
}

#[test]
fn limited_zero_is_uncorrected() {
    let a = parse_sn_grad(STRICT, "s", "limited 0", &mut vec![]).unwrap();
    assert_eq!(a.alpha(), SnGradScheme::Uncorrected.alpha());
    assert_eq!(a.alpha(), sc(0.0));
}

#[test]
fn laplacian_yields_its_sn_grad_half() {
    assert_eq!(
        parse_laplacian(STRICT, "l", "Gauss linear corrected", &mut vec![]).unwrap(),
        SnGradScheme::Corrected
    );
    assert_eq!(
        parse_laplacian(STRICT, "l", "Gauss linear limited 0.5", &mut vec![]).unwrap(),
        SnGradScheme::Limited(sc(0.5))
    );
    assert_eq!(
        parse_laplacian(STRICT, "l", "Gauss linear uncorrected", &mut vec![]).unwrap(),
        SnGradScheme::Uncorrected
    );
    assert!(parse_laplacian(STRICT, "l", "Gauss harmonic corrected", &mut vec![]).is_err());
}

#[test]
fn interpolation_is_read_rather_than_discarded() {
    assert!(parse_interpolation(STRICT, "i", "linear", &mut vec![]).is_ok());
    assert!(parse_interpolation(STRICT, "i", "midPoint", &mut vec![]).is_err());
}

#[test]
fn an_absent_dictionary_keeps_the_documented_defaults() {
    let s = FvSchemes::default();
    assert_eq!(s.div("div(phi,U)", &mut vec![]).unwrap(), DivEntry::upwind());
    assert_eq!(s.grad("grad(U)", &mut vec![]).unwrap(), GradScheme::gauss());
    assert_eq!(s.sn_grad("default", &mut vec![]).unwrap(), SnGradScheme::Corrected);
}

#[test]
fn different_entries_give_different_schemes() {
    let src = r#"
            divSchemes
            {
                div(phi,U) Gauss vanLeer;
                div(phi,k) Gauss upwind;
                div(phi,T) Gauss linear;
            }
        "#;
    let s = FvSchemes::from_dict(FoamDict::parse(src, "fvSchemes").unwrap(), STRICT);
    let u = s.div("div(phi,U)", &mut vec![]).unwrap().scheme;
    let k = s.div("div(phi,k)", &mut vec![]).unwrap().scheme;
    let t = s.div("div(phi,T)", &mut vec![]).unwrap().scheme;
    assert_ne!(u, k);
    assert_ne!(u, t);
    assert_ne!(k, t);
}

#[test]
fn a_laplacian_is_read_as_its_gradient() {
    for x in ["corrected", "limited 0.5", "orthogonal", "limited", "faceCorrected", "banana"] {
        let raw = format!("Gauss linear {x}");
        let a = parse_laplacian(STRICT, "l", &raw, &mut vec![]).map_err(|e| e.text());
        let b = parse_sn_grad(STRICT, "l", x, &mut vec![]).map_err(|e| e.text());
        assert_eq!(a, b, "{raw}");
    }
    for raw in ["", "Gauss", "Gauss linear", "Gauss cubic corrected", "leastSquares linear corrected"] {
        assert!(parse_laplacian(STRICT, "l", raw, &mut vec![]).is_err(), "{raw}");
    }
}

#[test]
fn what_the_permissive_mode_passes_over_is_noted() {
    let lax = Policy { permissive: true };
    let refusals = [
        parse_div(STRICT, "d", "Gauss SFCD", &mut vec![]).unwrap_err().text(),
        parse_div(STRICT, "d", "Gauss Gamma", &mut vec![]).unwrap_err().text(),
    ];
    let mut notes = Vec::new();
    assert_eq!(parse_div(lax, "d", "Gauss SFCD", &mut notes).unwrap(), DivEntry::upwind());
    assert!(parse_div(lax, "d", "Gauss Gamma", &mut notes).is_ok());
    assert!(parse_div(lax, "d", "Gauss upwind", &mut notes).is_ok());
    assert_eq!(notes.len(), 2);
    for (n, r) in notes.iter().zip(&refusals) {
        assert!(r.ends_with(n.as_str()), "{n} / {r}");
        assert!(n.contains("-permissive"), "{n}");
    }

    let src = "divSchemes { default none; } gradSchemes { default banana; } laplacianSchemes { default Gauss linear corrected; }";
    let s = FvSchemes::from_dict(FoamDict::parse(src, "fvSchemes").unwrap(), lax);
    let mut notes = Vec::new();
    let keys = vec!["div(phi,U)".to_string(), "div(phi,k)".to_string()];
    s.validate(&keys, &mut notes).unwrap();
    assert_eq!(notes.len(), 3);
    assert!(notes[0].contains("divSchemes/div(phi,U)") && notes[0].contains("<missing>"));
    assert!(notes[1].contains("divSchemes/div(phi,k)"));
    assert!(notes[2].contains("gradSchemes/default") && notes[2].contains("banana"));

    let s = FvSchemes::from_dict(FoamDict::parse(src, "fvSchemes").unwrap(), STRICT);
    let mut notes = Vec::new();
    assert!(s.validate(&keys, &mut notes).is_err());
    assert!(notes.is_empty());
}

#[test]
fn only_limited_linear_moves_its_coefficient() {
    let beta = |raw: &str| match parse_div(STRICT, "d", raw, &mut vec![]).unwrap().scheme {
        DivScheme::Limited(Limiter::Sweby(b)) => b,
        other => panic!("{other:?}"),
    };
    assert_eq!(beta("Gauss limitedLinear 0.25"), sc(1.0));
    assert_eq!(beta("Gauss limitedLinear 3"), sc(2.0));
    assert_eq!(beta("Gauss Sweby 0.25"), sc(0.25));
    assert_eq!(beta("Gauss sweby 3"), sc(3.0));
    assert_eq!(beta("Gauss Sweby 1.5"), sc(1.5));
}
