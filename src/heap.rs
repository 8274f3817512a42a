pub mod cycliclist;
pub mod pairing;
