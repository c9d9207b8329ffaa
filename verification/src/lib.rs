//! A little library of Python-flavoured value types built around an
//! arbitrary-precision signed integer.
//!
//! The heart of the crate is [`Int`], a sign-magnitude big integer stored as
//! little-endian chunks in base 10^18, together with the four basic operators,
//! a combined quotient/remainder division, and a family of derived algorithms
//! (modular exponentiation, integer square root, logarithm, gcd/lcm, primality
//! testing, factorial, fast-doubling Fibonacci, Ackermann, hyperoperation and
//! bounded random generation).  Around it stand a rational type ([`Fraction`]),
//! a repeating-decimal type ([`Decimal`]) and a handful of small containers.
#![verifier::loop_isolation(false)]

pub mod algos;
pub mod arith;
pub mod bigint;
pub mod chunks;
pub mod complex;
pub mod decimal;
pub mod deque;
pub mod detail;
pub mod dict;
pub mod fmt;
pub mod fraction;
pub mod list;
pub mod ordered_set;
pub mod strtype;
pub mod strutil;
pub mod utility;

pub use arith::tdiv;
pub use arith::tmod;
pub use bigint::ArithError;
pub use bigint::Int;
pub use bigint::Sign;
pub use complex::ParseComplexError;
pub use decimal::Decimal;
pub use decimal::ParseDecimalError;
pub use deque::Deque;
pub use dict::Dict;
pub use fmt::ParseIntError;
pub use fraction::Fraction;
pub use fraction::ParseFractionError;
pub use list::List;
pub use ordered_set::OrderedSet;
pub use strtype::Str;
