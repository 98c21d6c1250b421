//! Closed-form European option prices under the Black-Scholes model,
//! computed in fixed-point arithmetic with twelve decimal places.
//!
//! The evaluation chain is a polynomial approximation of the Gauss error
//! function (`erf`), the standard-normal cumulative distribution function
//! built on it (`erf::norm_cdf`), and the two closed-form pricing
//! formulas (`price::call_option_price` and `price::put_option_price`).
//! Every function carries a contract tying its result to a specification
//! of the same fixed-point computation, and the module-level laws --
//! the exact oddness of `erf`, the complement identity of the CDF tails,
//! exact put-call parity, and the exact saturation of deep in- and
//! out-of-the-money prices -- are proved from those contracts.

pub mod erf;
pub mod expo;
pub mod fixed;
pub mod logn;
pub mod price;
