//! Bounce-buffered vhost-user devices and zoned block configuration.

pub mod blk;
pub mod bounce;
pub mod epoll_helper;
pub mod setup;
pub mod zoned;
