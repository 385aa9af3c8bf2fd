use vstd::prelude::*;

pub mod apsp;
pub mod atlas;
pub mod bucket;
pub mod coords;
pub mod dijkstra_proof;
pub mod floyd_proof;
pub mod grid;
pub mod heap;
pub mod navigation;
pub mod paths;
pub mod sector;
pub mod sources;
pub mod tables;
pub mod text;
pub mod trade;
pub mod trade_routes;
pub mod world;
pub mod world_parse;
pub mod xml;
