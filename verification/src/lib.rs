pub mod application;
pub mod event_manager;
pub mod events;
pub mod logger;
pub mod ring_buffer;
