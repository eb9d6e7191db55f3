//! The actions a transaction carries, with what each contributes to the
//! transaction's value balance.
pub mod output;
pub mod swap;
pub mod swap_claim;
