pub mod notification_error;
pub mod notifications_manager;
