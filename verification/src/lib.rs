//! Verified core of the workflow daemon: the revision compiler, publication
//! rules, draft commands, and the Run bookkeeping that the service layer drives.

pub mod text;
pub mod clock;
pub mod run;
pub mod budget;
pub mod json;
pub mod model;
pub mod topology;
pub mod diagnostic;
pub mod schema;
pub mod policy;
pub mod catalog;
pub mod plan;
pub mod compiler;
pub mod publication;
pub mod diff;
pub mod draft;
pub mod config;
pub mod invocation;
pub mod trace;
pub mod live;
pub mod ident;
pub mod hub;
pub mod ledger;
pub mod scheduler;
