pub mod schnorr;
