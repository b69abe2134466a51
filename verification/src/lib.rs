//! The verified core of the Qianyan input method.

pub mod action;
pub mod actor;
pub mod bihua;
pub mod building;
pub mod candidate;
pub mod chinese;
pub mod choosing;
pub mod commands;
pub mod compiler;
pub mod compose;
pub mod composing;
pub mod compositor;
pub mod config;
pub mod config_manager;
pub mod context;
pub mod defaults;
pub mod discovering;
pub mod discovery;
pub mod editing;
pub mod engine;
pub mod finding;
pub mod fuzzy;
pub mod gathering;
pub mod handlers;
pub mod hotkeys;
pub mod index;
pub mod json;
pub mod keeping;
pub mod keys;
pub mod learning;
pub mod lookup;
pub mod making;
pub mod memory;
pub mod obeying;
pub mod offering;
pub mod order;
pub mod pages;
pub mod pipeline;
pub mod pipelines;
pub mod pressing;
pub mod processor;
pub mod remembering;
pub mod scheme;
pub mod segmentation;
pub mod sentences;
pub mod session;
pub mod session_state;
pub mod showing;
pub mod similarity;
pub mod smart_aux;
pub mod source;
pub mod spelling;
pub mod strmap;
pub mod tables;
pub mod text;
pub mod transition;
pub mod translating;
pub mod translators;
pub mod trie;
pub mod typing;
pub mod userdict;
pub mod weighing;
