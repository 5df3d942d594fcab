pub mod config;
pub mod inertia_node;
