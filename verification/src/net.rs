pub mod addr;
pub mod ecn;
pub mod error;
pub mod ip;
pub mod udp;
pub mod translator;
pub mod routes;
