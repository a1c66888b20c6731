pub mod rule;
pub mod event;
pub mod store;
pub mod cache;
pub mod notifier;
pub mod rule_store;
pub mod requests;
pub mod templates;
