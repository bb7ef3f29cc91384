//! The verified core of the Tarish sharing daemons.

pub mod address;
pub mod browse;
pub mod clock;
pub mod connection;
pub mod ctl;
pub mod discovery;
pub mod discovery_laws;
pub mod dns;
pub mod dns_laws;
pub mod endpoint;
pub mod framed;
pub mod handover;
pub mod http;
pub mod http_laws;
pub mod httpd;
pub mod httpd_laws;
pub mod link;
pub mod mdns;
pub mod mdns_laws;
pub mod mux;
pub mod naming;
pub mod netlink;
pub mod order;
pub mod outbound;
pub mod peers;
pub mod plist;
pub mod plist_laws;
pub mod policy;
pub mod quickshare;
pub mod radio;
pub mod random;
pub mod send;
pub mod sharing;
pub mod text;
pub mod transfer_laws;
pub mod transfers;
pub mod utf16;
pub mod wire;
