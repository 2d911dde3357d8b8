//! An index of the files of NTFS volumes: built from raw scans, kept current
//! from the change journal, saved to a cache, and searched by name.
pub mod answers;
pub mod apps;
pub mod backdrop;
pub mod backend;
pub mod boot;
pub mod bytes;
pub mod cli;
pub mod data_uri;
pub mod env;
pub mod front;
pub mod icons;
pub mod index;
pub mod launch;
pub mod mft;
pub mod num;
pub mod paths;
pub mod rows;
pub mod settings;
pub mod sort;
pub mod text;
pub mod text_laws;
pub mod uninstall;
pub mod utf16;
pub mod walk;
pub mod walk_laws;
pub mod web;
pub mod web_laws;
pub mod window;
pub mod winpath;
