pub mod time_index;
pub mod inverted;
pub mod dictionary;
pub mod tag_listing;
