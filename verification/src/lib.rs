//! A Java language server's logic, verified.
//!
//! Messages come in through [`transport`] and [`session`]; [`server`] answers
//! requests and takes in notifications by way of [`handshake`], [`documents`],
//! [`goto_definition`], [`hover`] and [`completion`]. Documents are parsed in
//! [`syntax`]; what they declare is found in [`symbol`] and kept in
//! [`workspace_index`]. Classes come from [`jar`], [`classfile`],
//! [`class_stub`] and [`external_index`]; builds from [`build_tool`],
//! [`gradle`], [`maven`], [`javac_fallback`] and [`jdk_home`]; what Lombok
//! generates from [`lombok`] and [`javac_compile`].
//!
//! The library computes and decides; work that reads files, runs programs or
//! waits is handed to the caller as a [`server::Task`].

pub mod build_tool;
pub mod class_stub;
pub mod classfile;
pub mod completion;
pub mod documents;
pub mod external_index;
pub mod goto_definition;
pub mod gradle;
pub mod handshake;
pub mod hover;
pub mod jar;
pub mod javac_compile;
pub mod javac_fallback;
pub mod jdk_home;
pub mod jsonrpc;
pub mod keyed_list;
pub mod lombok;
pub mod maven;
pub mod member_reference;
pub mod params;
pub mod path;
pub mod project_model;
pub mod protocol;
pub mod protocol_json;
pub mod server;
pub mod session;
pub mod symbol;
pub mod syntax;
pub mod syntax_node;
pub mod text;
pub mod text_position;
pub mod transport;
pub mod workspace_index;
pub mod workspace_scan;
