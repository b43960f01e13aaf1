pub mod flutter_proj_check;
pub mod fs_check;
pub mod runner;
