//! What the outside sources send.

pub mod cninfo;
pub mod eastmoney_screen;
