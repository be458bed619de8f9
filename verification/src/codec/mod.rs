pub mod dy_grid;
pub mod qr;
pub mod qr_format;
pub mod qr_checks;
pub mod qr_grid;
pub mod wx_grid;
pub mod data_matrix;
