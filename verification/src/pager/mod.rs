pub mod pager;
