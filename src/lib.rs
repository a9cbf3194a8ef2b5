pub mod blocker;
pub mod cert;
pub mod configuration;
pub mod events;
pub mod exclusion;
pub mod statistics;
pub mod text;
