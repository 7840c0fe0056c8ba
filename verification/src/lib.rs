//! Tallies the gaps between consecutive primes and fits a line to the
//! logarithm of their frequencies.
//!
//! * [`histogram`] keeps the running count of every even gap size.
//! * [`primes`] states what the tally relies on about prime numbers.
//! * [`consumer`] walks a stream of primes, feeds the histogram and says
//!   when a report is due.
//! * [`decimal`] holds the decimal numbers of arbitrary precision that the
//!   fit is computed in.
//! * [`regression`] fits the line: slope, intercept and coefficient of
//!   determination.

pub mod consumer;
pub mod decimal;
pub mod histogram;
pub mod primes;
pub mod regression;
