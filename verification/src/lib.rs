//! Photo2Cull: which photos to keep, decided by focus, classified by subject,
//! ranked by an Overall score and rid of duplicates.
//!
//! The modules hold everything that is decided or computed; drawing, threads,
//! files and the detection models are the program's.

pub mod animal;
pub mod app;
pub mod classify;
pub mod culling;
pub mod dedupe;
pub mod fixed;
pub mod listing;
pub mod metrics;
pub mod path;
pub mod photo;
pub mod pipeline;
pub mod preview;
pub mod rank;
pub mod raster;
pub mod raw;
pub mod scan;
pub mod select;
pub mod selection;
pub mod sharpness;
pub mod stats;
