//! Decision logic of an adaptive bandwidth shaper.
//!
//! Reflectors on the internet are pinged; from the delays that come back, the
//! rates of the download and the upload shaper are raised and lowered. This
//! crate holds the decisions, down to the arithmetic of the rates. Sockets,
//! netlink and files are the business of the program around it.
pub mod address;
pub mod arithmetic;
pub mod clock;
pub mod config;
pub mod config_laws;
pub mod float64;
pub mod packet;
pub mod pinger;
pub mod pinger_icmp_ts;
pub mod precision;
pub mod ratecontroller;
pub mod ratecontroller_laws;
pub mod reflector_selector;
pub mod selection_laws;
pub mod sorting;
pub mod startup;
pub mod text;
pub mod text_laws;
