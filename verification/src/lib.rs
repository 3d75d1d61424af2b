//! The library behind the WSL-to-hosts service: it reads what `wsl -l -v`
//! reports, reads and rewrites the entries of a hosts file, and decides what
//! the program does for each command-line mode.
pub mod text;
pub mod wsl;
pub mod hosts;
pub mod command;
pub mod rewrite;
pub mod clock;
