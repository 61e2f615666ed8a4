pub mod bg;
pub mod chart;
pub mod cli;
pub mod maidata;
pub mod number;
pub mod player;
pub mod render;
pub mod simai;
pub mod text;
