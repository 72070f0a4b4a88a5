//! Captions of Japanese television recordings, made searchable.
//!
//! The crate reads MPEG-2 transport streams, finds the ARIB caption stream and
//! the programme information in them, decides which still images to cut for
//! each caption, and answers the search pages.  Everything here works on plain
//! values: reading files, running the database, the web server and the video
//! tools is left to the application.
pub mod cli;
pub mod config;
pub mod double;
pub mod ingest;
pub mod media;
pub mod paths;
pub mod routes;
pub mod text;
pub mod ts;
