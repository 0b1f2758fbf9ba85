//! Session core of a folder slideshow viewer: folder scanning, the aggregate
//! image list with its browsing position, the focus timer with its one-shot
//! alarm, and the persisted settings.

pub mod alarm;
pub mod config;
pub mod paths;
pub mod scan;
pub mod session;
