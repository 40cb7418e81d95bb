//! In-place iterative radix-2 fast Fourier transforms over a two-adic
//! prime field.
//!
//! Two decimation-in-time orderings are provided: natural-order input to
//! bit-reversed-order output (`in_place_nr_2radix_fft`), and bit-reversed
//! input to natural output (`in_place_rn_2radix_fft`). Each variant needs
//! its twiddle factors in a matching order, so twiddle sequences carry an
//! explicit ordering tag and a mismatched tag is rejected before any
//! element of the input is touched.
//!
//! Both variants are proved, over the bundled prime field, to compute the
//! direct discrete Fourier transform of the coefficients when given
//! correctly ordered powers of a primitive root of unity (see the
//! `correctness` module), and the direct transform is in turn proved
//! equal to polynomial evaluation at the root powers (see `dft`).

pub mod bitrev;
pub mod correctness;
pub mod dft;
pub mod fft;
pub mod field;
pub mod goldilocks;
