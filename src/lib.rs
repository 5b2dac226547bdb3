//! Labelled colour swatches: hex colour codes, the order in which swatches
//! are laid out, the colour of each label and the steps that fit a label's
//! text into its swatch.
pub mod color;
pub mod contrast;
pub mod fit;
pub mod layout;
pub mod sequence;

pub use color::{hex_to_rgb, rgb_to_hex, ParseError};
pub use contrast::{
    label_candidate, pick_label_color, shadow_color, DARK_LABEL_LIGHTNESS, LIGHT_LABEL_LIGHTNESS,
};
pub use fit::{
    accept_run, fit_and_place, fits, next_step, place, run_width, FitStep, GlyphMetrics, LayoutError,
    Placement, MAX_FIT_ATTEMPTS,
};
pub use layout::{block_origin, grid_size, BLOCK_SIZE_X, BLOCK_SIZE_Y, COLUMNS};
pub use sequence::{
    class_of, entry_colors, nearest_path, refine_order, sequence, sort_colors, ColorEntry, Coord,
};
