pub mod bignum;
pub mod limbs;
