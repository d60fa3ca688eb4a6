pub mod algo_loc;
pub mod authordetails_impl;
pub mod config;
pub mod config_impl;
pub mod contextgpt_structs;
pub mod db;
pub mod diff;
pub mod diff_v2;
pub mod file_utils;
pub mod git_command_algo;
pub mod hunk;
pub mod hunk_fit;
pub mod laws;
pub mod line_map;
pub mod server;
pub mod string_map;
pub mod text;
pub mod utils;
