pub mod square;
