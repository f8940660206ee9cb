pub mod bytesutil;
pub mod rules;
pub mod stats;
pub mod conn;
pub mod addr;
pub mod backend;
pub mod socks5;
pub mod forwarder;
pub mod sniff;
pub mod portfilter;
pub mod pkg_uid;
pub mod selinux;
pub mod settings;
pub mod zconfig;
pub mod daemon;
pub mod singbox;
pub mod iptport;
pub mod ports;
pub mod health;
pub mod system;
pub mod iplist;
pub mod nfqws_filters;
