pub mod text;
pub mod log;
pub mod js;
pub mod paths;
pub mod config;
pub mod check;
pub mod html;
pub mod component;
pub mod vue;
pub mod assemble;
pub mod serve;
