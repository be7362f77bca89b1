//! Core logic of the JJS judging system: problem object model, the simple
//! valuer (subtask groups, judge-log fibers and the valuing loop), the
//! contest monitor ranker, problem manifest processing and a number of
//! small decision procedures of the sandbox and setup tools.

pub mod pom;
pub mod valuer_proto;
pub mod cfg;
pub mod ordered;
pub mod group;
pub mod text;
pub mod fiber;
pub mod valuer;
pub mod minion;
pub mod ranker;
pub mod manifest;
pub mod pps_api;
pub mod ppc;
pub mod pps_cli;
pub mod pps_server;
pub mod problem_loader;
pub mod setup;
pub mod userlist;
pub mod importer;
pub mod soft;
pub mod valuer_cfg;
pub mod jail;
pub mod components;
pub mod xml;
