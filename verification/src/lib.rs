//! Strolle's CPU-side bookkeeping: the free-range allocator that hands out
//! slots of the GPU buffers, the scene's tables of primitives, materials,
//! lights, meshes, instances and images, the byte layout of images uploaded
//! into the texture atlas, and small value types of the renderer.

pub mod allocator;
pub mod asset_events;
pub mod atlas_data;
pub mod axis;
pub mod free_list;
pub mod images;
pub mod instances;
pub mod lights;
pub mod material;
pub mod materials;
pub mod mesh_assembly;
pub mod meshes;
pub mod noise;
pub mod primitive;
pub mod state;
pub mod tick;
pub mod tlas;
pub mod triangles;
pub mod utils;
pub mod viewport;

pub use allocator::Allocator;
pub use axis::Axis;
pub use images::{AtlasChange, AtlasSlot, Image, ImageData, Images};
pub use instances::{Instance, InstanceEntry, Instances, TriangleAction, TriangleWork};
pub use lights::{GpuLight, LightFlushPlan, Lights};
pub use material::AlphaMode;
pub use materials::{MaterialId, Materials};
pub use meshes::Meshes;
pub use primitive::{Primitive, PrimitiveId, PrimitivesRef};
pub use state::ExtractedStrolleCamera;
pub use tick::{next_frame, plan_tick, TickFlags, TickPlan, FIRST_FRAME};
pub use triangles::Triangles;
pub use tlas::{BlasPrimitives, IndexedPrimitive, Primitives, TlasPrimitives};
pub use utils::{measure, metric};
pub use viewport::{ViewportConfiguration, ViewportMode};
