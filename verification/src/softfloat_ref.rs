//! IEEE-754 binary64 operations in integer arithmetic.
pub mod add;
pub mod berkeley_div;
pub mod berkeley_sqrt;
pub mod compare;
pub mod convert;
pub mod div;
pub mod encoding;
pub mod mul;
pub mod recip;
pub mod recip_sqrt;
pub mod sqrt;

pub use crate::model::IeeeClass;
pub use crate::softfloat_ref::add::{fadd, fsub};
pub use crate::softfloat_ref::berkeley_div::fdiv_berkeley;
pub use crate::softfloat_ref::berkeley_sqrt::fsqrt_berkeley;
pub use crate::softfloat_ref::compare::{feq, fge, fgt, fle, flt};
pub use crate::softfloat_ref::convert::{
    cvt_f32_to_f64, cvt_f64_to_f32, cvt_f64_to_i64, cvt_i64_to_f64, cvt_u64_to_f64,
};
pub use crate::softfloat_ref::div::fdiv;
pub use crate::softfloat_ref::encoding::{classify, CANONICAL_QNAN, POS_INF};
pub use crate::softfloat_ref::mul::{fma, fmul};
pub use crate::softfloat_ref::sqrt::{fsqrt, isqrt_u128};
