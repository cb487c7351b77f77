//! Question answering over calendar documents: text extraction from DOCX
//! document XML, calendar event parsing, rule-based answers and the data
//! preparation for a month classifier.

pub mod doc_loader;
pub mod events;
pub mod ml_dataset;
pub mod ml_tokenizer;
pub mod ml_train;
pub mod pattern;
pub mod qa;
pub mod text;
