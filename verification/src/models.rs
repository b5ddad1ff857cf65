pub mod listing;
