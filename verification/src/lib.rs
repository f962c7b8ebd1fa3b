//! A small newspaper-crossword engine: a deterministic placement builder
//! that lays out intersecting words on an integer grid, a pure model of the
//! finished puzzle (bounds, size, letters, lookup by cell), a projector that
//! renders the model into a dense rectangular grid, and an interactive
//! solving session with cursor movement, typing and correctness checking.

pub mod article;
pub mod builder;
pub mod crossword;
pub mod grid;
pub mod laws;
pub mod layout;
pub mod session;
pub mod geometry;
pub mod word;

pub use article::Article;
pub use article::Fragment;
pub use article::Image;
pub use crossword::Crossword;
pub use grid::Grid;
pub use layout::ArticlePreviewLayout;
pub use session::Session;
pub use geometry::Direction;
pub use geometry::Vec2;
pub use word::Letter;
pub use word::Word;
