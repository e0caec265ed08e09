pub mod bignum;
pub mod formula;
pub mod pslq;
pub mod parse;
pub mod machin;
pub mod exact;
pub mod benchmark;
pub mod space;
