//! Resumable checkpoint subscriptions.

pub mod checkpoint_feed;
pub mod checkpoint_feed_laws;
pub mod checkpoint_resume;
pub mod messages;
pub mod subscription;
pub mod subscription_laws;
