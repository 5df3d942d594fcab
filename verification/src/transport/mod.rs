pub mod bluetooth_adv;
pub mod dns_spore;
pub mod evolution;
pub mod fountain;
pub mod fragments;
pub mod immunity;
pub mod lora;
pub mod metabolism;
pub mod poe;
pub mod ultrasound;
pub mod wifi_stego;
