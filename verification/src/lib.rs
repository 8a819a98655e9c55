//! The rules of a memory inspection service: how a process's memory is cut into chunks,
//! searched, remembered and narrowed down by later filters, and what each request is answered.
//!
//! Nothing here touches another process. Functions that need memory contents take them as
//! arguments and say which bytes they want read; the service around the library does the reading.

pub mod block;
pub mod bytes;
pub mod chunks;
pub mod filter;
pub mod filter_laws;
pub mod hexcode;
pub mod laws;
pub mod matched;
pub mod memory;
pub mod number_laws;
pub mod order;
pub mod process;
pub mod regions;
pub mod relation;
pub mod reply;
pub mod reply_laws;
pub mod requests;
pub mod scan;
pub mod scan_laws;
pub mod search;
pub mod snapshot;
pub mod store;
pub mod table;
pub mod text;
pub mod values;
pub mod view_laws;
