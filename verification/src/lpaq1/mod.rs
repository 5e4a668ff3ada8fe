//! LPAQ1: context mixing over seven bit predictors.

pub mod mixer;
pub mod hashtable;
pub mod matchmodel;
pub mod context;
pub mod predictor;
pub mod codec;
