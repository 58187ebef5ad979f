#![allow(non_camel_case_types)]

pub mod text;
pub mod bindings;
pub mod parser;
pub mod store;
pub mod commands;
pub mod discovery;
pub mod validator;
