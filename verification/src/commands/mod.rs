pub mod install;
