//! Day directories laid out as `<basedir>/YYYY/MM/DD`: argument parsing,
//! path arithmetic and calendar logic, with their contracts.
pub mod text;
pub mod numbers;
pub mod path;
pub mod calendar;
pub mod entries;
pub mod bydate;
pub mod args;
pub mod links;
