//! Core of the uplink desktop client.
pub mod auth;
pub mod catalog;
pub mod commands;
pub mod config;
pub mod delivery;
pub mod home;
pub mod ieee;
pub mod installs;
pub mod json;
pub mod launch;
pub mod lua;
pub mod luadata;
pub mod net;
pub mod number;
pub mod paths;
pub mod schedule;
pub mod selfupdate;
pub mod seqs;
pub mod summary;
pub mod svparse;
pub mod svread;
pub mod sweep;
pub mod sync;
pub mod text;
pub mod textmap;
pub mod updates;
pub mod upload;
pub mod version;
