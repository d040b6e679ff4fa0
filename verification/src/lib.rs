//! A lattice key-encapsulation mechanism over a ternary alphabet, together
//! with the duplex sponge that masks its capsules.
//!
//! The layers, from the bottom:
//! - [`trits`]: trits, trit strings and the integers they encode;
//! - [`prp`], [`spongos`], [`prng`], [`mask`]: what a permutation has to
//!   offer and the one that comes with the library, the duplex sponge over
//!   a permutation, the generator of trits and the `mask` command;
//! - [`modular`], [`poly`], [`fft`]: arithmetic modulo q = 12289 and
//!   polynomials of 1024 coefficients, in coefficient form or as values at
//!   the roots of unity;
//! - [`ntru`]: key generation, encapsulation and decapsulation.
//!
//! Every function states what it computes over mathematical models: trit
//! strings as `Seq<Trit>`, polynomials as `Seq<int>`, the sponge as a
//! [`spongos::Duplex`]. The laws that connect the functions are proved in
//! [`spongos`], [`mask`], [`prp`], [`roots`], [`ntt`], [`ring`] and
//! [`correctness`].
pub mod correctness;
pub mod err;
pub mod fft;
pub mod mask;
pub mod modular;
pub mod ntru;
pub mod ntt;
pub mod poly;
pub mod prng;
pub mod prp;
pub mod ring;
pub mod roots;
pub mod spongos;
pub mod transport;
pub mod trits;
