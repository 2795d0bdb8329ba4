pub mod options;
pub mod text;
pub mod path;
pub mod order;
pub mod hash;
pub mod assets;
pub mod strmap;
pub mod html;
pub mod static_assets;
pub mod bundle;
pub mod command;
