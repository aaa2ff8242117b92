pub mod alarm;
pub mod animation;
pub mod byte_order;
pub mod command;
pub mod datetime;
pub mod packet;
