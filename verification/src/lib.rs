pub mod args;
pub mod board_side;
pub mod errors;
pub mod goban;
pub mod goban_range;
pub mod node_description;
pub mod query;
pub mod sgf;
pub mod sgf_traversal;
pub mod text;

pub use args::{Command, MoveNumberOptions, OutputFormat};
pub use board_side::{BoardSide, BoardSideSet};
pub use errors::{GobanError, QueryError, UsageError};
pub use goban::{Goban, Stone, StoneColor};
pub use goban_range::{GobanRange, MakeSvgOptions};
pub use node_description::{normalize_steps, resolve, NodeDescription, NodeDescriptionError, NodeNumber, Step};
pub use query::{query_game_index, query_node_index, query_variation_index};
pub use sgf::{GameNode, Prop};
pub use sgf_traversal::{variation_nodes, variation_roots, SgfTraversal, SgfTraversalNode};
pub use text::TileSet;
