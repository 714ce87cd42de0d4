pub mod budget_chat;
mod bytes;
pub mod means_to_an_end;
pub mod mob_in_the_middle;
pub mod prime_time;
pub mod smoke_test;
pub mod speed_daemon;
pub mod unusual_database;
