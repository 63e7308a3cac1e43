use vstd::prelude::*;

pub mod blast_radius;
pub mod enrichment;
pub mod graph;
pub mod icons;
pub mod inspector;
pub mod model;
pub mod models;
pub mod notes;
pub mod paths;
pub mod provenance;
pub mod text;
pub mod view_model;
