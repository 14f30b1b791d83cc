pub mod app;
pub mod colors;
pub mod render;

pub use app::App;
pub use colors::{get_change_frequency_color, get_lines_color, Rgb};
pub use render::{bar_cell_text, name_cell_text};
