pub mod fork;
