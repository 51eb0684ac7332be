//! What goes where on the page: the grid of day cells, the breaking of
//! event text into lines, and the placement of events into the cells.

pub mod grid;
pub mod place;
pub mod wrap;

pub use grid::base_calendar;
pub use place::write_events;
pub use wrap::calc_line_breaks;
