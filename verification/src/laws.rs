//! Laws: what holds of the operations of this library, said by what goes into
//! them and what comes out.

pub mod client;
pub mod control;
pub mod mixing;
pub mod packets;
pub mod reception;
pub mod routing;
pub mod sequences;
pub mod texts;
