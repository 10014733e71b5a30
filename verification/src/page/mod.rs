pub mod layout;
pub mod page;
pub mod view;

pub use page::Page;
