//! The decision logic of the cupel coding agent.
//!
//! Every module here is plain computation on plain values. Reading files,
//! talking to a model and drawing on the terminal happen in the program
//! around this library.
pub mod text;
pub mod theme;
pub mod wrap;
pub mod lines;
pub mod emphasis;
pub mod layout;
pub mod markdown;
pub mod tables;
pub mod transcript;
pub mod panes;
pub mod input;
pub mod commands;
pub mod paths;
pub mod resources;
pub mod fuzzy;
pub mod autocomplete;
pub mod messages;
pub mod compaction;
pub mod types;
pub mod tools;
pub mod agent_loop;
pub mod models;
pub mod providers;
pub mod ollama;
pub mod search;
pub mod guard;
pub mod loop_killer;
pub mod dates;
pub mod settings;
pub mod auth;
pub mod hooks;
pub mod session;
pub mod system_prompt;
pub mod truncate;
pub mod review;
pub mod login;
pub mod levels;
pub mod cli;
pub mod clipboard;
pub mod json;
pub mod durations;
pub mod plain;
pub mod agent;
pub mod credentials;
pub mod notices;
pub mod menus;
pub mod app;
pub mod builtins;
pub mod keys;
pub mod screen;
pub mod deltas;
pub mod reload;
pub mod catalog;
pub mod generate;
pub mod bootstrap;
