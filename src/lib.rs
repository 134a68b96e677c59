pub mod primes;
pub mod prio_queue;
pub mod dao;
pub mod hot_list;
pub mod sqlite_dao;
pub mod storage_backed_queue;
pub mod primer;

pub use crate::primer::Primer;
