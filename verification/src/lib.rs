pub mod form;
pub mod gateway;
pub mod harness;
pub mod health;
pub mod subscriptions;
