pub mod geom;
pub mod matrix;
pub mod merge;
pub mod model;
pub mod prune;
pub mod route;
pub mod savings;
pub mod select;
pub mod solver;
