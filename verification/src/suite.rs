//! The parts of the suite that other parts name: tokens, gizmos, graphs, color and the shell.
use vstd::prelude::*;

verus! {

/// Where the design tokens are kept, from the root of the workspace.
pub const TOKENS_PATH: &'static str = "design-tokens/tokens.toml";

/// The design tokens.
#[derive(Clone, Copy, Debug)]
pub struct Tokens;

/// The transform gizmo.
#[derive(Clone, Copy, Debug)]
pub struct Gizmo;

/// Snapping across all kinds of objects.
#[derive(Clone, Copy, Debug)]
pub struct Snapping;

/// A node of the evaluation graph. A dirty node is evaluated again.
#[derive(Clone, Copy, Debug)]
pub struct Node {
    pub dirty: bool,
}

/// The evaluation graph.
#[derive(Clone, Copy, Debug)]
pub struct Graph;

/// The color space that all blending happens in.
#[derive(Clone, Copy, Debug, PartialEq, Eq, Structural)]
pub enum WorkingSpace {
    LinearSrgb,
    AcesCg,
}

/// The window shell.
#[derive(Clone, Copy, Debug)]
pub struct Shell;

} // verus!
