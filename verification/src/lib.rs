//! A multi-objective duty-path construction engine.
//!
//! Given a network of sites connected by asymmetric travel times, the engine
//! builds a bounded set of non-dominated "duty paths": ordered visits to sites
//! that respect per-site arrival time windows, while optimizing total travel
//! time, total elapsed time, and the number of stops served.
//!
//! The three central pieces are the per-path scheduler ([`path::Path::try_schedule`]),
//! which turns a candidate visit sequence into concrete timestamps using a
//! two-pass slack-compression technique; the Pareto archive
//! ([`path_bag::PathBag`]), a capacity-bounded container of paths with
//! dominance bookkeeping; and the explorer ([`explorer::build`]), a
//! best-first path-extension search.

pub mod bounds;
pub mod capped;
pub mod distance;
pub mod duration;
pub mod error;
pub mod explorer;
pub mod ids;
pub mod input;
pub mod output;
pub mod parsers;
pub mod path;
pub mod path_bag;
pub mod path_cost;
pub mod ride_matrix;
pub mod site;
pub mod stop;
pub mod text;
pub mod time_window;
pub mod timestamp;
pub mod world;

pub use duration::Duration;
pub use timestamp::Timestamp;
