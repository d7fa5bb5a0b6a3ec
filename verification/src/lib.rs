//! Core logic of a small quiz / problem-sharing application: validation of
//! free-response answers against declared restrictions and solutions, exact
//! decimal arithmetic backing the numeric checks, structural grading of
//! multiple-choice and checklist answers, and the recommendation ledger that
//! keeps a user's recommended-problem set consistent with each problem's
//! recommendation counter.

pub mod decimal;
pub mod ledger;
pub mod problems;
pub mod text;
pub mod user;
