pub mod page_pool;
pub mod layout;
