//! The core of a creative suite: scenes of meshes, skeletons and layers, their editing with undo,
//! animation, painting, fonts, and the plans by which a frame is drawn.
//!
//! Numbers with a fraction are carried as bit patterns; arithmetic on them is handed in by the
//! caller as closures. Everything else is settled here.

pub mod arena;
pub mod bevel;
pub mod bevel_laws;
pub mod brush;
pub mod bundle;
pub mod compositor;
pub mod decimate;
pub mod document;
pub mod document_laws;
pub mod drawing_laws;
pub mod document_edit;
pub mod document_shape;
pub mod feather;
pub mod font;
pub mod frame;
pub mod frame_laws;
pub mod glyph;
pub mod glyph_fill;
pub mod halfedge;
pub mod history_laws;
pub mod kinds;
pub mod label_laws;
pub mod layers;
pub mod letter_laws;
pub mod lettering;
pub mod mesh;
pub mod mesh_edit;
pub mod mesh_fan;
pub mod mesh_laws;
pub mod mesh_make;
pub mod mesh_shapes;
pub mod modifiers;
pub mod moving;
pub mod name_laws;
pub mod nearness;
pub mod number;
pub mod number_laws;
pub mod object;
pub mod outline;
pub mod overlay;
pub mod paint;
pub mod painting_laws;
pub mod pick_laws;
pub mod picking;
pub mod picture_laws;
pub mod pixel_laws;
pub mod pixels;
pub mod raster;
pub mod retouch;
pub mod rig;
pub mod rig_laws;
pub mod scene;
pub mod sculpt_laws;
pub mod selection;
pub mod selection_bounds;
pub mod shape_laws;
pub mod solids;
pub mod spine;
pub mod stack_laws;
pub mod subdivide;
pub mod subdivide_laws;
pub mod suite;
pub mod text;
pub mod tiles;
pub mod time_laws;
pub mod timeline;
pub mod topology_laws;
pub mod wand;
