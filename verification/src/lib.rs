pub mod blacklist;
pub mod byte_functions;
pub mod handlers;
mod keyset;
pub mod query;
pub mod req_log;
pub mod store;
