pub mod articles;
pub mod pages;
pub mod users;
