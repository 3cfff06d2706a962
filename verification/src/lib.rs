use vstd::prelude::*;

pub mod model;
pub mod regions;
pub mod layers;
pub mod graph;
pub mod graph_layers;
pub mod cycles;
pub mod rings;
pub mod errors;
pub mod svg;
pub mod picking;
pub mod api;
pub mod boolean;
pub mod store;
pub mod replies;
pub mod text;
pub mod faces;
pub mod detach;
pub mod pathdata;
pub mod document;
