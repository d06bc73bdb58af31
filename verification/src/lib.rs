//! Fuzzy extraction of data from HTML documents.
//!
//! A field of interest is described by a *signature* of the element that
//! holds it (tag, attributes, depth, position, text length).  A model of a
//! page is a set of such signatures together with the signature of the
//! element that groups them; extraction looks for the elements of another
//! instance of the page whose signatures are close to those of the model.
pub mod compare;
pub mod dom;
pub mod model;
pub mod signature;
pub mod score;
pub mod selector;
pub mod text;
pub mod utils;
