//! Vector tiles from OpenStreetMap data: layer rules, ring assembly and tile
//! composition.

pub mod config;
pub mod error;
pub mod layer;
pub mod osm;
pub mod rings;
pub mod text;
pub mod tile;

pub use config::{LayerCfg, LayerGroupCfg, WyrmCfg};
pub use error::Error;
pub use layer::{DataSource, GeomKind, LayerDef, PropValue, Property, TagPattern, Tags};
pub use osm::{GeometryMaker, ObjMap};
pub use tile::{Outcome, TileId, Wyrm};
