pub mod draw;
pub mod geodata;
pub mod http_server;
pub mod mapcss;
pub mod perf_stats;
pub mod tile;
pub mod util;
