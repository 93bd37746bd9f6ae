//! Office Open XML packages read and repaired token by token, with every
//! token and every part a repair does not address left as it was.
#![allow(unused_imports)]

pub mod strs;
pub mod opc;
pub mod error;
pub mod xml;
pub mod token;
pub mod rels;
pub mod word;
pub mod ids;
pub mod xlsx;
pub mod text;
pub mod package;
pub mod pptx;
pub mod docx;
pub mod chart;
pub mod inherit;
pub mod style;
pub mod workbook;
pub mod plan;
pub mod rewrite;
pub mod sheet;
pub mod writer;
