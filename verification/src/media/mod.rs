//! Still images of captions, and the folder that keeps them.
pub mod cache;
pub mod capture;
pub mod files;
pub mod frames;
