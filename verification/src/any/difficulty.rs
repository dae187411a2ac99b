pub mod skills;
