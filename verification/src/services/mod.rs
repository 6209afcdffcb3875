pub mod cron;
pub mod hotkey;
pub mod notification;
pub mod tray;
pub mod update;
