pub mod broadcast_handler;
pub mod collection;
pub mod message;
pub mod message_handler;
pub mod message_response;
pub mod node_info;
pub mod packet;
pub mod echo_handler;
pub mod generate_handler;
pub mod helpers;
pub mod payload;
pub mod topology;
pub mod topology_handler;
