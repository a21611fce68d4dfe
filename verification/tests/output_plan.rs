use ofgpu::contract::Policy;
use ofgpu::error::Error;
use ofgpu::nvdb::Precision;
use ofgpu::output_plan::{
    build_writers, parse_output_formats, refuse_output_named_twice, usda_ext, FieldSelection,
    JsonExact, JsonOutput, JsonRestart, JsonVisualisation, OutputFormat, OutputPipeline, OutputPlan,
    RestartSpec, Writer,
};
use ofgpu::mesh::HostMesh;
use ofgpu::output_types::OutputField;
use ofgpu::scalar::Scalar;
use ofgpu::writer::WriteCtx;

const STRICT: Policy = Policy { permissive: false };
const PERMISSIVE: Policy = Policy { permissive: true };

fn sc(v: f64) -> Scalar {
    Scalar { bits: v.to_bits() }
}

fn texts(v: &[&str]) -> Vec<String> {
    v.iter().map(|s| s.to_string()).collect()
}

fn vis(format: &str) -> JsonVisualisation {
    JsonVisualisation {
        format: format.to_string(),
        interval: None,
        fields: None,
        precision: None,
        usd_scene: false,
    }
}

fn plan_of(o: JsonOutput) -> Result<OutputPlan, Error> {
    OutputPlan::from_json(STRICT, &o, &mut vec![])
}

fn only_vis(v: JsonVisualisation) -> JsonOutput {
    JsonOutput { visualisation: Some(v), exact: None, restart: None }
}

#[test]
fn the_three_sub_blocks_take_their_own_columns() {
    let p = plan_of(JsonOutput {
        visualisation: Some(vis("vdb,nvdb")),
        exact: Some(JsonExact {
            format: "vtu,openfoam".to_string(),
            interval: Some(sc(2.0)),
            precision: None,
        }),
        restart: Some(JsonRestart { interval: Some(sc(3.0)), keep: 2, precision: None }),
    })
    .expect("a well-formed block");

    assert_eq!(
        p.vis.as_ref().unwrap().formats,
        vec![OutputFormat::Vdb, OutputFormat::Nvdb]
    );
    assert_eq!(
        p.exact.as_ref().unwrap().formats,
        vec![OutputFormat::Vtu, OutputFormat::Foam]
    );
    assert_eq!(p.restart.unwrap(), RestartSpec { interval: sc(3.0), keep: 2 });
    assert_eq!(p.vis.as_ref().unwrap().interval, sc(0.0), "absent interval is final-state-only");
}

#[test]
fn usd_scene_adds_the_scene_writer_and_points_it_at_the_volume_format() {
    let mut v = vis("nvdb");
    v.usd_scene = true;
    let p = plan_of(only_vis(v)).expect("usdScene");
    let f = &p.vis.as_ref().unwrap().formats;
    assert_eq!(f, &vec![OutputFormat::Nvdb, OutputFormat::Usda]);
    assert_eq!(usda_ext(f), "nvdb");
    assert_eq!(usda_ext(&vec![OutputFormat::Vdb, OutputFormat::Usda]), "vdb");
    assert_eq!(usda_ext(&vec![OutputFormat::Vdb, OutputFormat::Nvdb]), "vdb");
}

#[test]
fn a_format_from_the_wrong_column_is_refused_naming_the_right_one() {
    for (f, must_name) in [("vtu", "output.exact"), ("openfoam", "output.exact"), ("foam", "output.exact")] {
        let e = plan_of(only_vis(vis(f))).expect_err("{f} is an exact format");
        let s = e.text();
        assert!(s.contains(f), "{s}");
        assert!(s.contains(must_name), "the error must name where it belongs: {s}");
        assert!(s.contains("vdb"), "the error must print this column's menu: {s}");
    }
    let e = plan_of(only_vis(vis("usda"))).expect_err("usda is not a voxel format");
    assert!(e.text().contains("usdScene"), "{}", e.text());

    for f in ["vdb", "nvdb"] {
        let e = plan_of(JsonOutput {
            visualisation: None,
            exact: Some(JsonExact { format: f.to_string(), interval: None, precision: None }),
            restart: None,
        })
        .expect_err("a voxel format is not exact");
        let s = e.text();
        assert!(s.contains("output.visualisation"), "{s}");
        assert!(s.contains("vtu"), "{s}");
    }
}

#[test]
fn an_unrecognised_format_names_that_sub_blocks_menu() {
    let e = plan_of(only_vis(vis("openvdb"))).unwrap_err();
    let s = e.text();
    assert!(s.contains("openvdb") && s.contains("vdb") && s.contains("nvdb"), "{s}");

    let e = plan_of(JsonOutput {
        visualisation: None,
        exact: Some(JsonExact { format: "cgns".to_string(), interval: None, precision: None }),
        restart: None,
    })
    .unwrap_err();
    let s = e.text();
    assert!(s.contains("cgns") && s.contains("vtu") && s.contains("openfoam"), "{s}");
}

#[test]
fn precision_is_visualisation_only() {
    let mut v = vis("vdb");
    v.precision = Some("fp16".to_string());
    assert_eq!(plan_of(only_vis(v)).unwrap().vis.unwrap().precision, Precision::F16);

    let mut v = vis("vdb");
    v.precision = Some("fp64".to_string());
    let e = plan_of(only_vis(v)).unwrap_err();
    let s = e.text();
    assert!(s.contains("fp64") && s.contains("fp32") && s.contains("fp16"), "{s}");

    let e = plan_of(JsonOutput {
        visualisation: None,
        exact: Some(JsonExact {
            format: "vtu".to_string(),
            interval: None,
            precision: Some("fp16".to_string()),
        }),
        restart: None,
    })
    .unwrap_err();
    let s = e.text();
    assert!(s.contains("output.exact.precision"), "{s}");
    assert!(s.contains("output.visualisation.precision"), "must name where it IS legitimate: {s}");

    let e = plan_of(JsonOutput {
        visualisation: None,
        exact: None,
        restart: Some(JsonRestart {
            interval: None,
            keep: 1,
            precision: Some("fp16".to_string()),
        }),
    })
    .unwrap_err();
    let s = e.text();
    assert!(s.contains("output.restart.precision"), "{s}");
    assert!(s.contains("phi"), "the reason must be given: {s}");
}

#[test]
fn a_field_list_that_cannot_mean_anything_is_refused() {
    let mut v = vis("vdb");
    v.fields = Some(vec![]);
    let e = plan_of(only_vis(v)).unwrap_err();
    assert!(e.text().contains("output.visualisation.fields"), "{}", e.text());

    let mut v = vis("vdb");
    v.fields = Some(vec!["T".to_string(), "U".to_string(), "T".to_string()]);
    let e = plan_of(only_vis(v)).unwrap_err();
    let s = e.text();
    assert!(s.contains("twice"), "{s}");
}

#[test]
fn a_field_the_run_does_not_have_is_refused_listing_what_it_does() {
    let sel = FieldSelection::Named(vec!["U".to_string(), "Y_CO".to_string()]);
    let e = sel.check(STRICT, &texts(&["U", "p", "T", "k"]), &mut vec![]).unwrap_err();
    let s = e.text();
    assert!(s.contains("Y_CO"), "{s}");
    for have in ["U", "p", "T", "k"] {
        assert!(s.contains(have), "the error must list {have}: {s}");
    }
    assert!(sel.check(STRICT, &texts(&["U", "Y_CO", "T"]), &mut vec![]).is_ok());
    assert!(FieldSelection::All.check(STRICT, &texts(&["anything"]), &mut vec![]).is_ok());
}

#[test]
fn the_selection_selects_and_orders_and_all_is_the_identity() {
    let a = vec![sc(1.0), sc(2.0)];
    let b = vec![sc(3.0), sc(4.0)];
    let c = vec![sc(5.0), sc(6.0)];
    let all = vec![
        OutputField::scalar("p", &a),
        OutputField::scalar("T", &b),
        OutputField::scalar("k", &c),
    ];

    let sel = FieldSelection::Named(vec!["T".to_string(), "p".to_string()]);
    let got = sel.apply(STRICT, &all, &mut vec![]).expect("both present");
    let names: Vec<&str> = got.iter().map(|f| f.name).collect();
    assert_eq!(names, ["T", "p"], "the case's own order, not the driver's");

    let got = FieldSelection::All.apply(STRICT, &all, &mut vec![]).expect("all");
    let names: Vec<&str> = got.iter().map(|f| f.name).collect();
    assert_eq!(names, ["p", "T", "k"]);

    let sel = FieldSelection::Named(vec!["nut".to_string()]);
    let s = match sel.apply(STRICT, &all, &mut vec![]) {
        Ok(_) => panic!("a field the run does not have must be refused at write time too"),
        Err(e) => e.text(),
    };
    assert!(s.contains("nut") && s.contains("p") && s.contains("T"), "{s}");
}

#[test]
fn a_steady_run_refuses_a_positive_interval_by_name() {
    let mut v = vis("vdb");
    v.interval = Some(sc(2.0));
    let mut p = OutputPlan::from_json(STRICT, &only_vis(v), &mut vec![]).unwrap();
    let e = p
        .refuse_interval_when_steady(STRICT, "ofgpu-fire", "give it -endTime and -deltaT", &mut vec![])
        .unwrap_err();
    let s = e.text();
    assert!(s.contains("output.visualisation.interval"), "{s}");
    assert!(s.contains("-endTime"), "the error must say how to get a clock: {s}");

    let mut p = OutputPlan::from_json(STRICT, &only_vis(vis("vdb")), &mut vec![]).unwrap();
    assert!(p.refuse_interval_when_steady(STRICT, "ofgpu-fire", "x", &mut vec![]).is_ok());
}

#[test]
fn a_volume_format_on_a_non_cartesian_mesh_is_refused_before_the_loop() {
    let mut p = OutputPlan::from_json(STRICT, &only_vis(vis("vdb")), &mut vec![]).unwrap();
    assert!(p.refuse_visualisation_on_a_non_cartesian_mesh(STRICT, true, &mut vec![]).is_ok());
    let e = p.refuse_visualisation_on_a_non_cartesian_mesh(STRICT, false, &mut vec![]).unwrap_err();
    let s = e.text();
    assert!(s.contains("vdb") && s.contains("Cartesian"), "{s}");
    assert!(s.contains("vtu"), "the error must name what DOES work: {s}");
}

#[test]
fn a_driver_with_no_checkpoint_refuses_the_restart_block() {
    let mut p = OutputPlan::from_json(STRICT, &JsonOutput {
        visualisation: None,
        exact: None,
        restart: Some(JsonRestart { interval: Some(sc(1.0)), keep: 2, precision: None }),
    }, &mut vec![])
    .unwrap();
    let e = p.refuse_restart(STRICT, "ofgpu-k-epsilon", "ofgpu-fire does", &mut vec![]).unwrap_err();
    let s = e.text();
    assert!(s.contains("output.restart") && s.contains("ofgpu-fire"), "{s}");

    let mut empty = OutputPlan::default();
    assert!(empty.refuse_restart(STRICT, "d", "x", &mut vec![]).is_ok());
}

#[test]
fn naming_the_output_twice_is_refused_naming_both() {
    let p = OutputPlan::from_json(STRICT, &only_vis(vis("vdb")), &mut vec![]).unwrap();
    assert_eq!(
        refuse_output_named_twice(STRICT, &p, &texts(&[]), &mut vec![]).ok(),
        Some(true),
        "the case alone is fine, and the case's block is in force"
    );
    assert_eq!(
        refuse_output_named_twice(STRICT, &OutputPlan::default(), &texts(&["-output"]), &mut vec![]).ok(),
        Some(true),
        "the command line alone is fine"
    );
    let e = refuse_output_named_twice(STRICT, &p, &texts(&["-output", "-writeInterval"]), &mut vec![]).unwrap_err();
    let s = e.text();
    assert!(s.contains("output (case file)"), "{s}");
    assert!(s.contains("-output") && s.contains("-writeInterval"), "{s}");
    assert!(s.contains("visualisation"), "the error must say which sub-blocks: {s}");
}

#[test]
fn permissive_substitutes_and_says_what() {
    let mut said = Vec::new();
    let p = OutputPlan::from_json(PERMISSIVE, &only_vis(vis("vtu")), &mut said).expect("permissive");
    assert!(p.vis.is_none());
    assert_eq!(said.len(), 1);
    assert!(said[0].contains("output.visualisation.format"), "{}", said[0]);
    assert!(said[0].contains("no visualisation output"), "{}", said[0]);
    let refused = plan_of(only_vis(vis("vtu"))).unwrap_err().text();
    assert!(refused.ends_with(&said[0]), "{refused}");

    let mut v = vis("vdb");
    v.interval = Some(sc(2.0));
    let mut p = OutputPlan::from_json(PERMISSIVE, &only_vis(v), &mut vec![]).expect("permissive");
    p.refuse_interval_when_steady(PERMISSIVE, "d", "x", &mut vec![]).expect("permissive");
    assert_eq!(p.vis.as_ref().unwrap().interval, sc(0.0), "\"the final state only\"");

    let mut p = OutputPlan::from_json(PERMISSIVE, &only_vis(vis("vdb")), &mut vec![]).expect("permissive");
    p.refuse_visualisation_on_a_non_cartesian_mesh(PERMISSIVE, false, &mut vec![]).expect("permissive");
    assert!(p.vis.is_none(), "\"no visualisation output\"");

    let mut p = OutputPlan::from_json(PERMISSIVE, &JsonOutput {
        visualisation: None,
        exact: None,
        restart: Some(JsonRestart { interval: None, keep: 3, precision: None }),
    }, &mut vec![])
    .expect("permissive");
    p.refuse_restart(PERMISSIVE, "d", "x", &mut vec![]).expect("permissive");
    assert!(p.restart.is_none(), "\"no checkpoint\"");

    let p = OutputPlan::from_json(PERMISSIVE, &only_vis(vis("vdb")), &mut vec![]).expect("permissive");
    assert_eq!(
        refuse_output_named_twice(PERMISSIVE, &p, &texts(&["-output"]), &mut vec![]).ok(),
        Some(false),
        "\"the command line\" - and the caller is told, so it can honour it"
    );

    let a = vec![sc(1.0)];
    let all = vec![OutputField::scalar("p", &a)];
    let sel = FieldSelection::Named(vec!["banana".to_string()]);
    let got = sel.apply(PERMISSIVE, &all, &mut vec![]).expect("permissive");
    assert_eq!(got.len(), 1);
    assert_eq!(got[0].name, "p");
}

#[test]
fn the_schedule_is_peek_then_advance() {
    let slack = |t: f64| sc(t + 1e-9);
    let mut p = OutputPipeline::from_command_line("out", "t", &vec![], sc(0.25));
    p.start(&vec![sc(0.0 + 0.25)]);
    assert!(!p.any_due(slack(0.1)));
    assert!(p.any_due(slack(0.25)));
    assert!(p.any_due(slack(0.25)));
    assert!(p.stages[0].take(slack(0.25), sc(0.25 + 0.25)));
    assert!(!p.any_due(slack(0.25)));
    assert!(p.any_due(slack(0.5)));
}

#[test]
fn a_list_of_formats_is_read_in_its_order() {
    assert_eq!(
        parse_output_formats(" foam ,,vtu").unwrap(),
        vec![OutputFormat::Foam, OutputFormat::Vtu]
    );
    assert_eq!(parse_output_formats("").unwrap(), vec![]);
    assert_eq!(
        parse_output_formats("usda,nvdb,vdb").unwrap(),
        vec![OutputFormat::Usda, OutputFormat::Nvdb, OutputFormat::Vdb]
    );
    let e = parse_output_formats("foam,silo").unwrap_err().text();
    assert_eq!(
        e,
        "-output: \"silo\" is not a format ofgpu writes; available: foam, vtu, nvdb, vdb, usda"
    );
    assert_eq!(OutputFormat::Nvdb.name(), "nvdb");
}

#[test]
fn every_format_has_its_writer() {
    let formats = parse_output_formats("foam,vtu,nvdb,usda").unwrap();
    let w = build_writers("out", "case", &formats, Precision::F16);
    assert_eq!(w.len(), 4);
    match (&w[0], &w[1], &w[2], &w[3]) {
        (Writer::Foam(f), Writer::Vtu(v), Writer::Nvdb(n), Writer::Usda(u)) => {
            assert_eq!(f.case_dir, "out");
            assert_eq!((v.dir.as_str(), v.stem.as_str()), ("out/VTK", "case"));
            assert_eq!(n.dir, "out/VDB");
            assert_eq!(n.precision, Precision::F16);
            assert_eq!(u.path, "out/case.usda");
            assert_eq!((u.vdb_dir.as_str(), u.vdb_ext.as_str()), ("VDB", "nvdb"));
        }
        _ => panic!("the writers are not those of their formats"),
    }
}

#[test]
fn a_pipeline_says_what_it_will_write() {
    let p = OutputPipeline::from_command_line("out", "t", &vec![OutputFormat::Vtu], sc(-1.0));
    assert_eq!(
        p.describe(),
        "output output (command line): vtu | final state only | fields: every field | precision fp32"
    );
    let mut v = vis("vdb,nvdb");
    v.interval = Some(sc(0.5));
    v.fields = Some(texts(&["T", "U"]));
    v.precision = Some("fp16".to_string());
    let plan = plan_of(JsonOutput {
        visualisation: Some(v),
        exact: None,
        restart: Some(JsonRestart { interval: Some(sc(2.0)), keep: 0, precision: None }),
    })
    .unwrap();
    let p = OutputPipeline::from_plan(&plan, "out", "t");
    assert!(p.has_restart());
    assert_eq!(
        p.describe(),
        "output visualisation (case output block): vdb, nvdb | every 0.5 s | fields: T, U | precision fp16\n\
         output restart (case output block): .mcr checkpoints | every 2 s | keep all of them"
    );
    let p = OutputPipeline::from_plan(&OutputPlan::default(), "out", "t");
    assert_eq!(p.describe(), "output: nothing");
}

#[test]
fn a_stage_numbers_its_own_files() {
    let mut p = OutputPipeline::from_command_line("out", "t", &vec![OutputFormat::Vtu], sc(0.0));
    assert!(!p.stages[0].peek(sc(1e9)));
    assert_eq!(p.stages[0].count, 0);
    p.stages[0].wrote();
    p.stages[0].wrote();
    assert_eq!(p.stages[0].count, 2);
}

#[test]
fn an_interval_that_is_no_time_is_refused() {
    for bad in [-1.0, f64::NAN, f64::INFINITY] {
        let mut v = vis("vdb");
        v.interval = Some(sc(bad));
        let e = plan_of(only_vis(v)).unwrap_err().text();
        assert!(e.contains("output.visualisation.interval"), "{e}");
    }
    let e = plan_of(only_vis(vis(" , "))).unwrap_err().text();
    assert!(e.contains("' , ' is not supported"), "{e}");
}

#[test]
fn every_substitution_of_a_block_is_told_in_order() {
    let mut v = vis("vdb");
    v.interval = Some(sc(-1.0));
    v.fields = Some(texts(&["T", "T"]));
    v.precision = Some("fp64".to_string());
    let o = JsonOutput {
        visualisation: Some(v),
        exact: Some(JsonExact {
            format: "nvdb".to_string(),
            interval: None,
            precision: Some("fp16".to_string()),
        }),
        restart: Some(JsonRestart { interval: Some(sc(f64::NAN)), keep: 1, precision: None }),
    };
    let mut said = Vec::new();
    let plan = OutputPlan::from_json(PERMISSIVE, &o, &mut said).expect("permissive");
    let settings = [
        "output.visualisation.interval",
        "output.visualisation.fields",
        "output.visualisation.precision",
        "output.exact.precision",
        "output.exact.format",
        "output.restart.interval",
    ];
    assert_eq!(said.len(), settings.len());
    for (n, w) in said.iter().zip(settings) {
        assert!(n.starts_with(w), "{n}");
    }
    assert!(plan.exact.is_none());
    let mut none = Vec::new();
    let e = OutputPlan::from_json(STRICT, &o, &mut none).unwrap_err().text();
    assert!(none.is_empty());
    assert!(e.ends_with(&said[0]), "{e}");
    let mut p = plan;
    let mut said = Vec::new();
    p.refuse_visualisation_on_a_non_cartesian_mesh(PERMISSIVE, false, &mut said).unwrap();
    p.refuse_restart(PERMISSIVE, "d", "x", &mut said).unwrap();
    p.refuse_restart(PERMISSIVE, "d", "x", &mut said).unwrap();
    assert_eq!(said.len(), 2);
}

#[test]
fn a_turn_of_a_stage_moves_its_schedule_and_counts() {
    let mut v = vis("vdb");
    v.interval = Some(sc(0.5));
    v.fields = Some(texts(&["T"]));
    let plan = plan_of(JsonOutput {
        visualisation: Some(v),
        exact: Some(JsonExact { format: "vtu".to_string(), interval: None, precision: None }),
        restart: None,
    })
    .unwrap();
    let mut p = OutputPipeline::from_plan(&plan, "out", "t");
    let m = HostMesh::empty();
    let (a, b) = (vec![sc(1.0)], vec![sc(2.0)]);
    let fields = vec![OutputField::scalar("p", &a), OutputField::scalar("T", &b)];
    let foam = vec![];
    let ctx = WriteCtx {
        time: sc(0.5),
        step: 77,
        name: "0.5",
        mesh: &m,
        cart: None,
        fields: &fields,
        foam: &foam,
    };

    assert_eq!(p.begin(0, sc(0.4), sc(1.0), false), None);
    assert_eq!(p.stages[0].next, sc(0.5));
    assert_eq!(p.begin(0, sc(0.5), sc(1.0), false), Some(0));
    assert_eq!(p.stages[0].next, sc(1.0));
    assert_eq!(p.stages[1].next, sc(0.0));
    let selected = p.stage_fields(0, STRICT, &ctx, &mut vec![]).unwrap();
    let sub = p.stage_ctx(0, &ctx, &selected);
    assert_eq!(sub.step, 0);
    assert_eq!(sub.name, "0.5");
    assert_eq!(sub.time, sc(0.5));
    assert_eq!(sub.fields.len(), 1);
    assert_eq!(sub.fields[0].name, "T");
    assert!(p.finish(0));
    assert_eq!((p.stages[0].count, p.stages[1].count), (1, 0));

    assert_eq!(p.begin(1, sc(0.5), sc(9.0), false), None);
    assert_eq!(p.begin(1, sc(0.5), sc(9.0), true), Some(0));
    assert_eq!(p.stages[1].next, sc(0.0));
    assert_eq!(p.begin(0, sc(0.6), sc(1.5), true), Some(1));
    assert_eq!(p.stages[0].next, sc(1.0));
    let selected = p.stage_fields(0, STRICT, &ctx, &mut vec![]).unwrap();
    assert_eq!(p.stage_ctx(0, &ctx, &selected).step, 1);

    let other = vec![OutputField::scalar("p", &a)];
    let ctx = WriteCtx { fields: &other, ..ctx };
    let e = match p.stage_fields(0, STRICT, &ctx, &mut vec![]) {
        Err(e) => e.text(),
        Ok(_) => panic!("a field that is not there was selected"),
    };
    assert!(e.contains("'T'") && e.contains("available: p"), "{e}");
    let mut said = Vec::new();
    assert_eq!(p.stage_fields(0, PERMISSIVE, &ctx, &mut said).unwrap().len(), 1);
    assert_eq!(said.len(), 1);
}

#[test]
fn names_of_formats_read_back() {
    let all = vec![
        OutputFormat::Usda,
        OutputFormat::Foam,
        OutputFormat::Vdb,
        OutputFormat::Nvdb,
        OutputFormat::Vtu,
        OutputFormat::Foam,
    ];
    let names: Vec<&str> = all.iter().map(|f| f.name()).collect();
    assert_eq!(parse_output_formats(&names.join(",")).unwrap(), all);
    assert_eq!(parse_output_formats(&format!(" ,\t{} ,,", names.join(" , ,"))).unwrap(), all);
    for bad in ["Foam", "vtk", "foam vtu", "openfoam"] {
        let e = parse_output_formats(&format!("vtu, {bad} ,usda")).unwrap_err().text();
        assert!(e.contains(&format!("\"{bad}\"")), "{e}");
        for f in &all {
            assert!(e.contains(f.name()), "{e}");
        }
    }
}

#[test]
fn every_absent_field_is_told() {
    let sel = FieldSelection::Named(texts(&["Y_CO", "p", "nut", "k"]));
    let mut said = vec!["before".to_string()];
    assert!(sel.check(PERMISSIVE, &texts(&["U", "p"]), &mut said).is_ok());
    assert_eq!(
        said,
        [
            "before",
            "output.visualisation.fields: 'Y_CO' is not supported; available: U, p; -permissive would use: every field this run has",
            "output.visualisation.fields: 'nut' is not supported; available: U, p; -permissive would use: every field this run has",
            "output.visualisation.fields: 'k' is not supported; available: U, p; -permissive would use: every field this run has",
        ]
    );
    let mut said = vec![];
    let e = sel.check(STRICT, &texts(&["U", "p"]), &mut said).unwrap_err().text();
    assert!(e.contains("Y_CO") && !e.contains("nut"), "{e}");
    assert!(said.is_empty());
}

#[test]
fn every_interval_of_a_steady_run_is_told() {
    let mut v = vis("vdb");
    v.interval = Some(sc(2.0));
    let o = JsonOutput {
        visualisation: Some(v),
        exact: None,
        restart: Some(JsonRestart { interval: Some(sc(0.5)), keep: 2, precision: None }),
    };
    let mut p = OutputPlan::from_json(PERMISSIVE, &o, &mut vec![]).expect("permissive");
    let mut said = vec![];
    p.refuse_interval_when_steady(PERMISSIVE, "d", "x", &mut said).expect("permissive");
    assert_eq!(said.len(), 2);
    assert!(said[0].starts_with("output.visualisation.interval: '2' is not supported"), "{}", said[0]);
    assert!(said[1].starts_with("output.restart.interval: '0.5' is not supported"), "{}", said[1]);
    assert_eq!(p.vis.as_ref().unwrap().interval, sc(0.0));
    assert_eq!(p.restart.as_ref().unwrap().interval, sc(0.0));

    let mut p = OutputPlan::from_json(STRICT, &o, &mut vec![]).unwrap();
    let mut said = vec![];
    assert!(p.refuse_interval_when_steady(STRICT, "d", "x", &mut said).is_err());
    assert!(said.is_empty());
    assert_eq!(p.vis.as_ref().unwrap().interval, sc(2.0));
}
