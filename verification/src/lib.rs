//! Readers and writers for finite-volume case files.
//!
//! Case files are read as text ([`tokenizer`], [`dict`], [`schemes`], [`fields`]), meshes
//! from their files ([`polymesh`], [`msh`]), cut into regions ([`regions`], [`manifest`])
//! and addressed for a solver ([`mesh`], [`ldu`], [`ldu_ops`], [`pointfield`]). Results
//! are laid out byte by byte ([`vtu`], [`nvdb`], [`vdb`], [`usda`]) and written by plan
//! ([`writer`], [`output_plan`]). Numbers are held by their bits ([`scalar`]), read from
//! decimals and written as decimals without floating point ([`numeral`], [`digits`]).
//! What holds of the operations as a whole stands beside them, or in a module of its own
//! ([`key_laws`], [`scheme_laws`], [`msh_laws`], [`mesh_laws`], [`split_laws`],
//! [`manifest_laws`], [`round_trip`], [`volume_laws`], [`vtu_laws`], [`scene_laws`],
//! [`plan_laws`]).

pub mod big;
pub mod text;
pub mod list;
pub mod table;
pub mod bytes;
pub mod narrow;
pub mod scalar;
pub mod numeral;
pub mod digits;
pub mod exact;
pub mod error;
pub mod contract;
pub mod tokenizer;
pub mod pieces;
pub mod regex;
pub mod dict;
pub mod schemes;
pub mod scheme_laws;
pub mod mesh;
pub mod reader;
pub mod polymesh;
pub mod msh;
pub mod msh_laws;
pub mod mesh_laws;
pub mod regions;
pub mod split_laws;
pub mod manifest;
pub mod manifest_laws;
pub mod ldu;
pub mod ldu_ops;
pub mod pointfield;
pub mod fields;
pub mod key_laws;
pub mod trip_head;
pub mod trip_lists;
pub mod trip_patches;
pub mod round_trip;
pub mod output_types;
pub mod nvdb;
pub mod vdb;
pub mod volume_laws;
pub mod vtu;
pub mod vtu_laws;
pub mod usda;
pub mod writer;
pub mod scene_laws;
pub mod output_plan;
pub mod plan_laws;
