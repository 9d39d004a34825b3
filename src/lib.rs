//! Extracts the events of an iCalendar object model that fall on a given
//! day, orders them by start time and renders each as a one-line record.

pub mod instant;
pub mod event;
pub mod agenda;
pub mod render;
pub mod laws;
