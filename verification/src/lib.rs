//! The rules by which a Zhihu collection becomes a folder of Markdown files.

pub mod address;
pub mod cli;
pub mod cookies;
pub mod encoding;
pub mod export;
pub mod firefox;
pub mod html;
pub mod images;
pub mod item;
pub mod json;
pub mod laws;
pub mod markdown;
pub mod order;
pub mod paths;
pub mod retry;
pub mod text;
pub mod zhihu;
