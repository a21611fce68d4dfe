use ofgpu::digits::format_general;
use ofgpu::error::Error;
use ofgpu::fields::{
    expand_scalars, expand_vectors, read_scalar_field, read_scalar_field_noting, read_vector_field,
    read_vector_field_noting, write_scalar_field, write_surface_scalar_field,
    write_surface_scalar_field_prec, write_vector_field, PatchFieldSpec, RawScalarField,
    RawVectorField,
};
use ofgpu::mesh::Vec3;
use ofgpu::scalar::Scalar;

fn sc(v: f64) -> Scalar {
    Scalar { bits: v.to_bits() }
}

fn scs(v: &[f64]) -> Vec<Scalar> {
    v.iter().map(|x| sc(*x)).collect()
}

fn vec3(x: f64, y: f64, z: f64) -> Vec3 {
    Vec3 { x: sc(x), y: sc(y), z: sc(z) }
}

fn at<'a>(b: &'a Vec<(String, PatchFieldSpec)>, key: &str) -> &'a PatchFieldSpec {
    &b.iter().find(|e| e.0 == key).unwrap().1
}

fn fmt_g(v: f64, precision: usize) -> String {
    format_general(sc(v), precision)
}

fn read_scalar_str(src: &str, n: usize) -> Result<RawScalarField, Error> {
    read_scalar_field(src, "test.p", "p", n)
}

fn read_vector_str(src: &str, n: usize) -> Result<RawVectorField, Error> {
    read_vector_field(src, "test.U", "U", n)
}

fn patch(t: &str, value: &[f64]) -> PatchFieldSpec {
    PatchFieldSpec {
        patch_type: t.to_string(),
        value: scs(value),
        ..Default::default()
    }
}

#[test]
fn scalar_field_round_trips() {
    let mut f = RawScalarField {
        name: "k".to_string(),
        dimensions: "[0 2 -2 0 0 0 0]".to_string(),
        internal: scs(&[1.5, -2.25, 0.125, 1.0e-5, 3.0]),
        boundary: Vec::new(),
        boundary_patterns: Vec::new(),
    };
    f.boundary.push(("inlet".to_string(), patch("fixedValue", &[0.375])));
    f.boundary.push(("outlet".to_string(), patch("zeroGradient", &[])));
    f.boundary.push(("wall".to_string(),
        patch("fixedValue", &[1.0, 2.0, 4.5, -0.5]),
    ));

    let text = write_scalar_field("k", &f, "0.5");

    let back = read_scalar_field(&text, "0.5/k", "k", 0).unwrap();
    assert_eq!(format!("{:?}", back), format!("{:?}", f));

    let sized = read_scalar_field(&text, "0.5/k", "k", 5).unwrap();
    assert_eq!(sized.internal, f.internal);
}

#[test]
fn vector_field_round_trips() {
    let mut f = RawVectorField {
        name: "U".to_string(),
        dimensions: "[0 1 -1 0 0 0 0]".to_string(),
        internal: vec![
            vec3(1.0, 0.0, 0.0),
            vec3(-0.25, 2.5, 0.0),
            vec3(0.0, 0.0, 1.0e-5),
        ],
        boundary: Vec::new(),
        boundary_patterns: Vec::new(),
    };
    f.boundary.push(("inlet".to_string(),
        PatchFieldSpec {
            patch_type: "fixedValue".to_string(),
            value_v: vec![vec3(10.0, 0.0, 0.0)],
            ..Default::default()
        },
    ));
    f.boundary.push(("outlet".to_string(),
        PatchFieldSpec {
            patch_type: "inletOutlet".to_string(),
            inlet_value_v: vec![vec3(0.0, 0.0, 0.0)],
            value_v: vec![vec3(1.0, 2.0, 3.0), vec3(4.0, 5.0, 6.5)],
            ..Default::default()
        },
    ));
    f.boundary.push(("side".to_string(),
        PatchFieldSpec {
            patch_type: "cyclic".to_string(),
            neighbour_patch: Some("side2".to_string()),
            ..Default::default()
        },
    ));

    let text = write_vector_field("U", &f, "0");

    let back = read_vector_field(&text, "0/U", "U", 0).unwrap();
    assert_eq!(format!("{:?}", back), format!("{:?}", f));
}

#[test]
fn uniform_internal_nonuniform_patch() {
    let src = "\
FoamFile { version 2.0; format ascii; class volScalarField; object p; }
dimensions      [0 2 -2 0 0 0 0];
internalField   uniform 3.5;
boundaryField
{
inlet
{
    type            fixedValue;
    value           nonuniform List<scalar> 3 (1 2 3);
}
}
";
    let f = read_scalar_str(src, 4).unwrap();
    assert_eq!(f.name, "p");
    assert_eq!(f.dimensions, "[0 2 -2 0 0 0 0]");
    assert_eq!(f.internal, scs(&[3.5; 4]));
    assert_eq!(at(&f.boundary, "inlet").value, scs(&[1.0, 2.0, 3.0]));
}

#[test]
fn nonuniform_internal_uniform_patch() {
    let src = "\
internalField   nonuniform List<scalar>
3
(
1.5
2.5
3.5
)
;
boundaryField
{
wall
{
    type            fixedValue;
    value           uniform 0;
}
}
";
    let f = read_scalar_str(src, 3).unwrap();
    assert_eq!(f.internal, scs(&[1.5, 2.5, 3.5]));
    assert_eq!(at(&f.boundary, "wall").value, scs(&[0.0]));
}

#[test]
fn vector_uniform_internal_and_nonuniform_patch() {
    let src = "\
internalField   uniform (1 2 3);
boundaryField
{
inlet
{
    type            fixedValue;
    value           nonuniform List<vector> 2 ((1 0 0) (0 1 0));
}
}
";
    let f = read_vector_str(src, 2).unwrap();
    assert_eq!(f.internal, vec![vec3(1.0, 2.0, 3.0); 2]);
    assert_eq!(
        at(&f.boundary, "inlet").value_v,
        vec![vec3(1.0, 0.0, 0.0), vec3(0.0, 1.0, 0.0)]
    );
}

#[test]
fn inlet_outlet_and_mixed_keys() {
    let src = "\
internalField   uniform 0;
boundaryField
{
outlet
{
    type            inletOutlet;
    inletValue      uniform 0.001;
    value           uniform 0.05;
}
mixedPatch
{
    type            mixed;
    refValue        uniform 1;
    refGradient     uniform 0;
    valueFraction   nonuniform List<scalar> 2 (0.25 0.75);
    value           uniform 1;
}
}
";
    let f = read_scalar_str(src, 1).unwrap();
    let o = at(&f.boundary, "outlet");
    assert_eq!(o.patch_type, "inletOutlet");
    assert_eq!(o.inlet_value, scs(&[0.001]));
    assert_eq!(o.value, scs(&[0.05]));

    let m = at(&f.boundary, "mixedPatch");
    assert_eq!(m.ref_value, scs(&[1.0]));
    assert_eq!(m.ref_gradient, scs(&[0.0]));
    assert_eq!(m.value_fraction, scs(&[0.25, 0.75]));
}

#[test]
fn empty_patch_lists_parse() {
    let src = "\
internalField   uniform 0;
boundaryField
{
emptyPatch
{
    type            calculated;
    value           nonuniform 0();
}
next
{
    type            fixedValue;
    value           uniform 7;
}
}
";
    let f = read_scalar_str(src, 1).unwrap();
    assert!(at(&f.boundary, "emptyPatch").value.is_empty());
    assert_eq!(at(&f.boundary, "next").value, scs(&[7.0]));

    let vsrc = "\
internalField   uniform (0 0 0);
boundaryField
{
emptyPatch
{
    type            calculated;
    value           nonuniform 0();
}
next
{
    type            fixedValue;
    value           uniform (1 0 0);
}
}
";
    let v = read_vector_str(vsrc, 1).unwrap();
    assert!(at(&v.boundary, "emptyPatch").value_v.is_empty());
    assert_eq!(at(&v.boundary, "next").value_v, vec![vec3(1.0, 0.0, 0.0)]);
}

#[test]
fn compact_all_equal_list_form() {
    let src = "internalField nonuniform List<scalar> 4{2.5};\nboundaryField {}\n";
    let f = read_scalar_str(src, 4).unwrap();
    assert_eq!(f.internal, scs(&[2.5; 4]));
}

#[test]
fn unknown_entries_and_comments_are_skipped() {
    let src = "\
// leading comment with a / in it
FoamFile { format ascii; class volScalarField; location \"0/x\"; object nut; }
/* block
   comment */
dimensions      [0 2 -1 0 0 0 0];
boundaryValues  { nested { thing 1; } };
internalField   uniform 0.1;
boundaryField {}
";
    let f = read_scalar_str(src, 2).unwrap();
    assert_eq!(f.name, "nut");
    assert_eq!(f.dimensions, "[0 2 -1 0 0 0 0]");
    assert_eq!(f.internal, scs(&[0.1, 0.1]));
}

#[test]
fn missing_internal_field_is_an_error() {
    let src = "dimensions [0 0 0 0 0 0 0];\nboundaryField {}\n";
    assert!(read_scalar_str(src, 1).is_err());
}

#[test]
fn binary_format_is_rejected_with_advice() {
    let src = "FoamFile { format binary; class volScalarField; object p; }\n";
    let e = read_scalar_str(src, 1).unwrap_err().text();
    assert!(e.contains("foamFormatConvert"), "{}", e);
}

#[test]
fn wrong_length_list_is_an_error() {
    let src = "internalField nonuniform List<scalar> 3 (1 2 3);\nboundaryField {}\n";
    assert!(read_scalar_str(src, 3).is_ok());
    assert!(read_scalar_str(src, 4).is_err());
}

#[test]
fn expansion_rules() {
    assert_eq!(expand_scalars(&scs(&[2.0]), 3, "x").unwrap(), scs(&[2.0; 3]));
    assert_eq!(expand_scalars(&scs(&[]), 2, "x").unwrap(), scs(&[0.0, 0.0]));
    assert_eq!(expand_scalars(&scs(&[1.0, 2.0]), 2, "x").unwrap(), scs(&[1.0, 2.0]));
    assert!(expand_scalars(&scs(&[1.0, 2.0]), 3, "x").is_err());

    assert_eq!(
        expand_vectors(&vec![vec3(1.0, 2.0, 3.0)], 2, "x").unwrap(),
        vec![vec3(1.0, 2.0, 3.0); 2]
    );
    assert_eq!(expand_vectors(&vec![], 1, "x").unwrap(), vec![vec3(0.0, 0.0, 0.0)]);
    assert!(expand_vectors(&vec![vec3(0.0, 0.0, 0.0), vec3(0.0, 0.0, 0.0)], 3, "x").is_err());
}

#[test]
fn number_format_matches_printf_g() {
    assert_eq!(fmt_g(0.0, 6), "0");
    assert_eq!(fmt_g(1.0, 6), "1");
    assert_eq!(fmt_g(1.5, 6), "1.5");
    assert_eq!(fmt_g(-2.25, 6), "-2.25");
    assert_eq!(fmt_g(1.0e-5, 6), "1e-05");
    assert_eq!(fmt_g(1.0e20, 6), "1e+20");
    assert_eq!(fmt_g(0.0001, 6), "0.0001");
    assert_eq!(fmt_g(123456.0, 6), "123456");
    assert_eq!(fmt_g(1234567.0, 6), "1.23457e+06");
    assert_eq!(fmt_g(1.0 / 3.0, 6), "0.333333");
    assert_eq!(fmt_g(1.0 / 3.0, 12), "0.333333333333");
}

#[test]
fn uniform_collapse_only_when_every_entry_matches() {

    let f = RawScalarField {
        name: "p".to_string(),
        dimensions: "[0 2 -2 0 0 0 0]".to_string(),
        internal: scs(&[4.0; 6]),
        boundary: Vec::new(),
        boundary_patterns: Vec::new(),
    };
    let text = write_scalar_field("p", &f, "0");
    assert!(text.contains("internalField   uniform 4;"), "{}", text);
    assert_eq!(read_scalar_field(&text, "p", "p", 6).unwrap().internal, f.internal);

    let g = RawScalarField {
        internal: scs(&[4.0, 4.0, 4.5]),
        ..f.clone()
    };
    let text = write_scalar_field("p", &g, "0");
    assert!(text.contains("nonuniform List<scalar>"), "{}", text);
    assert_eq!(read_scalar_field(&text, "p", "p", 3).unwrap().internal, g.internal);
}

#[test]
fn written_header_is_complete() {
    let f = RawScalarField {
        name: "epsilon".to_string(),
        dimensions: "[0 2 -3 0 0 0 0]".to_string(),
        internal: scs(&[1.0]),
        boundary: Vec::new(),
        boundary_patterns: Vec::new(),
    };
    let text = write_scalar_field("epsilon", &f, "2.5");
    assert!(text.starts_with("/*----"), "{}", text);
    assert!(text.contains("FoamFile\n{\n"));
    assert!(text.contains("format      ascii;"));
    assert!(text.contains("class       volScalarField;"));
    assert!(text.contains("location    \"2.5\";"));
    assert!(text.contains("object      epsilon;"));
    assert!(text.contains("dimensions      [0 2 -3 0 0 0 0];"));
    assert!(text.ends_with("//\n"));
}

#[test]
fn a_flux_keeps_the_faces_of_a_cyclic_patch() {
    let f = RawScalarField {
        name: "phi".to_string(),
        dimensions: String::new(),
        internal: scs(&[1.0]),
        boundary: vec![
            ("cyc".to_string(), patch("cyclic", &[1.5, -1.5])),
            ("fb".to_string(), patch("empty", &[0.0, 0.0])),
            ("sym".to_string(), patch("symmetryPlane", &[0.1, 0.2])),
            ("wall".to_string(), patch("", &[0.25, 0.25])),
        ],
        boundary_patterns: Vec::new(),
    };
    let text = write_surface_scalar_field("phi", &f, "0.5");
    assert!(text.contains("class       surfaceScalarField;"), "{text}");
    assert!(text.contains(
        "    cyc\n    {\n        type            calculated;\n        value           nonuniform List<scalar> \n2\n(\n1.5\n-1.5\n)\n;\n    }\n"
    ), "{text}");
    assert!(text.contains("    fb\n    {\n        type            empty;\n    }\n"), "{text}");

    let back = read_scalar_field(&text, "0.5/phi", "phi", 1).unwrap();
    assert_eq!(back.internal, scs(&[1.0]));
    assert_eq!(at(&back.boundary, "cyc").patch_type, "calculated");
    assert_eq!(at(&back.boundary, "cyc").value, scs(&[1.5, -1.5]));
    assert_eq!(at(&back.boundary, "fb").patch_type, "empty");
    assert!(at(&back.boundary, "fb").value.is_empty());
    assert_eq!(at(&back.boundary, "sym").patch_type, "calculated");
    assert_eq!(at(&back.boundary, "sym").value, scs(&[0.1, 0.2]));
    assert_eq!(at(&back.boundary, "wall").patch_type, "calculated");
    assert_eq!(at(&back.boundary, "wall").value, scs(&[0.25]));

    let rough = write_surface_scalar_field_prec("phi", &f, "0.5", 3, false);
    let back = read_scalar_field(&rough, "0.5/phi", "phi", 1).unwrap();
    assert_eq!(at(&back.boundary, "wall").value, scs(&[0.25, 0.25]));
    let vol = write_scalar_field("phi", &f, "0.5");
    assert!(vol.contains("type            cyclic;"), "{vol}");
}

#[test]
fn a_directive_that_is_not_evaluated_is_noted() {
    let src = "internalField uniform 1;\n#calc \"1+1\";\nboundaryField\n{\n  #includeEtc \"caseDicts/setConstraintTypes\"\n  inlet { type fixedValue; #include \"x\" value uniform 2; }\n}\n";
    let mut notes = Vec::new();
    let f = read_scalar_field_noting(src, "0/p", "p", 0, &mut notes).unwrap();
    assert_eq!(f.boundary.len(), 1);
    assert_eq!(at(&f.boundary, "inlet").value, scs(&[2.0]));
    assert_eq!(
        notes,
        [
            "0/p: ignoring unsupported directive #calc",
            "0/p: ignoring unsupported directive #includeEtc",
            "0/p: ignoring unsupported directive #include",
        ]
    );
    let mut notes = Vec::new();
    assert!(read_vector_field_noting("#codeStream { a 1; }\nx {", "0/U", "U", 0, &mut notes).is_err());
    assert_eq!(notes, ["0/U: ignoring unsupported directive #codeStream"]);
    let mut notes = Vec::new();
    assert!(read_vector_field_noting("internalField uniform (0 0 0);", "0/U", "U", 0, &mut notes).is_ok());
    assert!(notes.is_empty());
}

#[test]
fn the_entries_of_a_field_are_in_the_order_of_their_keys() {
    let src = "internalField uniform 1;\nboundaryField { outlet { zeta 1; alpha 2; zeta 3; } inlet { type a; } \".*\" { type b; } inlet { type c; } }";
    let f = read_scalar_str(src, 0).unwrap();
    let keys: Vec<&str> = f.boundary.iter().map(|e| e.0.as_str()).collect();
    assert_eq!(keys, ["\".*\"", "inlet", "outlet"]);
    assert_eq!(at(&f.boundary, "inlet").patch_type, "c");
    let extra: Vec<(&str, &str)> =
        at(&f.boundary, "outlet").extra.iter().map(|e| (e.0.as_str(), e.1.as_str())).collect();
    assert_eq!(extra, [("alpha", "2"), ("zeta", "3")]);
}

#[test]
fn a_flux_keeps_the_sign_of_its_zeros() {
    let mut f = RawScalarField {
        name: "phi".to_string(),
        dimensions: String::new(),
        internal: scs(&[0.0, -0.0]),
        boundary: vec![("out".to_string(), patch("patch", &[-0.0, 0.0, -0.0]))],
        boundary_patterns: Vec::new(),
    };
    let text = write_surface_scalar_field("phi", &f, "1");
    assert!(text.contains("internalField   nonuniform List<scalar> \n2\n(\n0\n-0\n)\n;\n"), "{text}");
    let back = read_scalar_field(&text, "1/phi", "phi", 2).unwrap();
    assert_eq!(back.internal, scs(&[0.0, -0.0]));
    assert_eq!(at(&back.boundary, "out").value, scs(&[-0.0, 0.0, -0.0]));

    let vol = write_scalar_field("phi", &f, "1");
    assert!(vol.contains("internalField   uniform 0;\n"), "{vol}");

    f.internal = scs(&[-0.0, -0.0]);
    let text = write_surface_scalar_field("phi", &f, "1");
    assert!(text.contains("internalField   uniform -0;\n"), "{text}");
    let back = read_scalar_field(&text, "1/phi", "phi", 2).unwrap();
    assert_eq!(back.internal, scs(&[-0.0, -0.0]));

    let nan = f64::NAN;
    f.internal = scs(&[nan, nan]);
    let text = write_surface_scalar_field("phi", &f, "1");
    assert!(text.contains("internalField   nonuniform List<scalar> \n2\n"), "{text}");
}

#[test]
fn a_flux_comes_back_under_any_name_of_a_time() {
    let f = RawScalarField {
        name: "phi".to_string(),
        dimensions: "[0 3 -1 0 0 0 0]".to_string(),
        internal: scs(&[0.1, -1.0 / 3.0]),
        boundary: Vec::new(),
        boundary_patterns: Vec::new(),
    };
    for time in ["0.5", "", "a\\b", "c:\\run\\0.5", "a\\\\", "it's // here", "/* there"] {
        let text = write_surface_scalar_field("phi", &f, time);
        let back = read_scalar_field(&text, "phi", "phi", 2).unwrap();
        assert_eq!(back.internal, f.internal, "{time}");
        assert_eq!(back.dimensions, f.dimensions, "{time}");
    }
    let text = write_surface_scalar_field("phi", &f, "a\\");
    assert!(read_scalar_field(&text, "phi", "phi", 2).is_err());
}
