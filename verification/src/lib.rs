//! Logic of a set of programs around an Epson TM-U220 receipt printer: a print
//! server with a daily lunch menu, a voting machine for name suggestions, a
//! notifier that prints the network interfaces, and bit-image graphics.
pub mod form;
pub mod graphics;
pub mod job;
pub mod menu;
pub mod network;
pub mod pbm;
pub mod server;
pub mod strings;
pub mod vote;
