//! Parsers and evaluators for three small arithmetic languages written with
//! curly braces: plain arithmetic (`ae`), arithmetic with `with` bindings
//! (`wae`), and a lazy language with first-class functions (`lfae`).
//!
//! Numbers stay exact terms over their literals ([`num::Num`]); turning a
//! term into a machine float is the caller's last step.
pub mod ae;
pub mod lfae;
pub mod lfae_text;
pub mod num;
pub mod text;
pub mod wae;
pub mod wae_text;
