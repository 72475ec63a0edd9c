//! Classic array exercises, each solved by a fast algorithm and by an
//! exhaustive search, with machine-checked contracts that say what every
//! function returns.

pub mod array_products;
pub mod max_subarray_sum;
pub mod num_smaller_elements_to_the_right;
pub mod rank_counter;
pub mod smallest_window;
pub mod sorting;
