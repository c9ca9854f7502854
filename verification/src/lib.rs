//! Plant growth from rewriting grammars: a rule table, the rewriting of an
//! axiom to a given depth, the turtle scan that turns a symbol sequence into
//! a graph of branches, and the scheduler that lets the branches of such a
//! graph grow tick by tick under a cap on how many grow at once.
//!
//! Geometry is kept symbolic here: a dot names the turtle pose it was drawn
//! at, and the tree carries the table of moves from which a renderer
//! computes the coordinates of every pose.

pub mod behaviour;
pub mod builder;
pub mod colour;
pub mod discovery;
pub mod dots;
pub mod error;
pub mod growth;
pub mod rewrite;
pub mod rule;
pub mod rules;
pub mod scan;
pub mod tree;

pub use behaviour::Behaviour;
pub use builder::{lsystems_to_dots, scan_sequence, LsystemBuilder, LsystemConfig};
pub use colour::{hex_to_rgb, ColourError};
pub use dots::LsystemDots;
pub use error::LsystemError;
pub use growth::{discovered_children, revealed_count, AnimationState, BranchInfo};
pub use rewrite::{outgrows, rewrite_once, rewrite_within};
pub use rule::Rule;
pub use rules::Rules;
pub use tree::{BranchDot, LsystemTree, Step, TurtleState, Turn};
