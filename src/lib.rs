//! A simulation of a four-party computation of `x0*x1 + x2*x3 mod p` that
//! hides each input behind a multiplicative blinding factor `g^lambda`.

pub mod arith;
pub mod fermat;
pub mod node;
pub mod protocol;
