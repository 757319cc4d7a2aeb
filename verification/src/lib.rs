//! Exact sub-image locator: finds the placements of a small overlay image
//! inside a larger background image by exhaustive pixel-exact comparison,
//! with an optional white-as-transparent mask rule.

pub mod buffer;
pub mod laws;
pub mod order;
pub mod pixel;
pub mod score;
pub mod search;

pub use buffer::ImageBuffer;
pub use pixel::Pixel;
pub use score::MatchResult;
pub use search::MatchError;
