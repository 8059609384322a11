pub mod filepath;
