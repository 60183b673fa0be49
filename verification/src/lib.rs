//! Verified core of a retained-mode UI compositor: invalidation flags, the
//! dirty-root index of a compose tree, tile caching with handle recycling,
//! damage tracking, composite planning and frame scheduling.

pub mod compose;
pub mod composite;
pub mod damage;
pub mod font;
pub mod frame;
pub mod glyph;
pub mod invalidation;
pub mod keyed_cache;
pub mod layer_ops;
pub mod planner;
pub mod render_scope;
pub mod resource_pool;
pub mod retained;
pub mod scheduler;
pub mod texture_cache;
pub mod tile;
pub mod tile_alloc;
pub mod tile_cache;
