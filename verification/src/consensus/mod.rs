pub mod immunity;
