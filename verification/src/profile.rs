pub mod config;
pub mod monitor_config;
pub mod profile;
pub mod profiles;
pub mod profiles_manager;
pub mod validation_error;
pub mod workspace_config;
