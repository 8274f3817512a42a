pub mod pairing;
