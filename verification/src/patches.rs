//! The patches, one module each.
pub mod player_domain_cache;
pub mod handle_socket_data;
