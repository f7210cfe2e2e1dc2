//! Classic algorithm and design-pattern demonstrations, verified.
//!
//! The core is a family of ten sorting routines over sequences of `i32`:
//! each takes its input by reference, returns a fresh sorted vector, and
//! carries a contract stating that the output is non-decreasing and is a
//! permutation (multiset equality) of the input.
//!
//! Beside the sorting core stand a few small, self-contained state types
//! (a logger, a database-connection handle, two configuration stores) whose
//! transitions are verified; the process-wide static instances that make
//! them singletons live with the embedding program, not here.

pub mod bucket;
pub mod classic;
pub mod clock;
pub mod comparison;
pub mod counting;
pub mod counts;
pub mod database;
pub mod heap;
pub mod merge;
pub mod logger;
pub mod order;
pub mod quick;
pub mod radix;
pub mod settings;

pub use bucket::bucket_sort;
pub use classic::ClassicSingleton;
pub use comparison::bubble_sort;
pub use comparison::insertion_sort;
pub use comparison::selection_sort;
pub use comparison::shell_sort;
pub use counting::counting_sort;
pub use database::DatabaseConnection;
pub use heap::heap_sort;
pub use logger::Logger;
pub use merge::merge_sort;
pub use order::sorted;
pub use quick::quick_sort;
pub use radix::counting_sort_by_digit;
pub use radix::radix_sort;
pub use settings::ConfigManager;
