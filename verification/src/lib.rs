//! Tools for a CodeIgniter project's language files: command-line command
//! parsing, the registry of command handlers, discovery of translation files,
//! reports of what is left to translate, and the translation workflow.

pub mod text;
pub mod command;
pub mod strmap;
pub mod row;
pub mod outside;
pub mod file;
pub mod langs;
pub mod settings;
pub mod yandex;
pub mod tools;
pub mod handlers;
pub mod translate;
