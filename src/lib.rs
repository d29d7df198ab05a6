//! Small supervised-learning toolkit over labelled 2-D points: the input line
//! format, the train/validation partition, and a k-nearest-neighbours
//! classifier with leave-one-out evaluation.

pub mod knn;
pub mod record;
pub mod training;
