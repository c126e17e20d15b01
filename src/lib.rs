pub mod bins;
pub mod laws;
pub mod placement;
pub mod strategies;

pub use bins::{Bin, ObjectTooBigError, Pack};
pub use placement::largest_that_fits;
pub use strategies::{ffd, modified_ffd, online_nf};
