//! Procedural tiled backgrounds: terrain classification from coherent-noise
//! samples, a decoded-tile cache, grid compositing and raster encoding.

pub mod assets;
pub mod classify;
pub mod codec;
pub mod compose;
pub mod error;
pub mod generate;
pub mod raster;

pub use assets::{has_prefix, AssetNamespace, Assets};
pub use classify::{classify, variant_index, Category};
pub use compose::{compose, grid_origins};
pub use error::GenError;
pub use generate::{
    factorio_tiles, gen_background_factorio, gen_background_tiles, generate, TileSet,
    FACTORIO_CHUNK_SIZE, FACTORIO_TILE_SIZE,
};
pub use raster::{overlay, Raster};
