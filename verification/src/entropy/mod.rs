pub mod rice;
pub mod rans;
pub mod tans;
