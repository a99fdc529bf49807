//! Help-request waiting list for a teaching-assistant workflow.
//!
//! The verified core is [`help_queue`]: an ordered collection of outstanding
//! help requests keyed by group, served first-come first-served and safe to
//! share between threads.
pub mod google_services;
pub mod help_queue;
pub mod queue_laws;
pub mod request_map;
pub mod web_server;
