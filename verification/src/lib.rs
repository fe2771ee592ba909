//! Named routes: a registry that maps dot-separated route names to rooted
//! request paths, built by composition and frozen into a shared lookup table.

pub mod error;
pub mod laws;
pub mod model;
pub mod path;
pub mod route_map;
pub mod router;
pub mod routes;

pub use error::RouteError;
pub use path::RoutePath;
pub use route_map::{Route, RouteMap};
pub use router::NamedRouter;
pub use routes::Routes;
