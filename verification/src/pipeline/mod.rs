pub mod preprocess;
