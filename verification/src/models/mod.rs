pub mod msg;
pub mod qd;
pub mod rr;
