//! A universal-life pricing engine: rate-table assembly, a month-by-month
//! account-value projection, and a bisection search for the smallest annual
//! premium that keeps the policy solvent to maturity. All quantities are
//! fixed-point integers with one unit equal to `table::SCALE` ticks.
pub mod table;
pub mod engine;
pub mod laws;
pub mod solver;
