pub mod abi;
pub mod batch;
pub mod config;
pub mod dispatch;
pub mod flush;
pub mod frame;
pub mod memory;
pub mod record;
pub mod retry;
pub mod sink;
pub mod source;
pub mod status;
pub mod text;
