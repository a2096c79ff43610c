use evergreen::fronter::{attempt_again, ConnPool, POOL_MAX};
use evergreen::config::{config_path, ConfigToml, DEFAULT_CONFIG};
use evergreen::fronter::{conn_expired, fresh_top, get_head, pool_has_room, post_head, Fronter, HTTP_HOST};
use evergreen::logger::{Level, MasterLogger};
use evergreen::models::{AppErr, ErrorCode};
use evergreen::shipment::SpringTank;
use evergreen::spring::{Spring, TankBatch, MAX_READ, SERVER_BATCH_LIMIT};
use evergreen::sys_now;
use evergreen::text::{push_decimal, push_hex2};
use evergreen::tracker::{format_bytes, ConnectionStats};
use evergreen::uid::UniqueId;
use evergreen::utils::SocksHost;

fn float_text(bytes: u64) -> String {
    const KB: u64 = 1024;
    const MB: u64 = KB * 1024;
    const GB: u64 = MB * 1024;
    if bytes == 0 {
        "0".to_string()
    } else if bytes >= GB {
        format!("{:.1}GB", bytes as f64 / GB as f64)
    } else if bytes >= MB {
        format!("{:.1}MB", bytes as f64 / MB as f64)
    } else if bytes >= KB {
        format!("{:.1}KB", bytes as f64 / KB as f64)
    } else {
        format!("{}B", bytes)
    }
}

#[test]
fn byte_counts_as_text() {
    assert_eq!(format_bytes(0), "0");
    assert_eq!(format_bytes(1), "1B");
    assert_eq!(format_bytes(1023), "1023B");
    assert_eq!(format_bytes(1024), "1.0KB");
    assert_eq!(format_bytes(1536), "1.5KB");
    assert_eq!(format_bytes(1_048_575), "1024.0KB");
    assert_eq!(format_bytes(1_048_576), "1.0MB");
    assert_eq!(format_bytes(3 * 1_073_741_824 + 107_374_183), "3.1GB");
    assert_eq!(format_bytes(u64::MAX), "17179869184.0GB");
}

#[test]
fn byte_counts_match_float_formatting() {
    let mut samples: Vec<u64> = vec![1280, 1792, 2304, 1_310_720, 1_835_008, 1_342_177_280, 1_879_048_192];
    let mut x: u64 = 1;
    while x < u64::MAX / 3 {
        samples.push(x);
        samples.push(x + 1);
        samples.push(x.wrapping_mul(7) / 5);
        x = x * 3 + 1;
    }
    for k in 0..64u32 {
        samples.push(1u64 << k);
        samples.push((1u64 << k).wrapping_sub(1));
        samples.push(u64::MAX >> k);
    }
    for b in samples {
        assert_eq!(format_bytes(b), float_text(b), "bytes {b}");
    }
}

#[test]
fn stats_text() {
    let stats = ConnectionStats::new();
    assert_eq!(stats.to_text(), "\u{2193}0 / \u{2191}0");
    stats.record_read(2048);
    stats.record_read(0);
    stats.record_written(10);
    let copy = stats.clone();
    copy.record_written(5);
    assert_eq!(stats.to_text(), "\u{2193}2.0KB / \u{2191}15B");
}

#[test]
fn decimal_and_hex_text() {
    let mut s = String::from("x");
    push_decimal(&mut s, 0);
    push_decimal(&mut s, 90210);
    push_hex2(&mut s, 0x0a);
    push_hex2(&mut s, 0xff);
    assert_eq!(s, "x0902100aff");
}

#[test]
fn logger_filters_and_line_head() {
    let l = MasterLogger;
    assert!(l.enabled("evergreen::fronter", Level::Debug));
    assert!(l.enabled("evergreen", Level::Error));
    assert!(!l.enabled("evergreen", Level::Trace));
    assert!(!l.enabled("rustls::client", Level::Error));
    assert!(!l.enabled("hyper_util", Level::Info));
    assert!(l.enabled("hyper", Level::Info));
    assert_eq!(
        l.line_head(Level::Warn, Some(17), "app", 42),
        "{\x1b[33m17\x1b[0m}[\x1b[33mW\x1b[0m]{\x1b[33mapp\x1b[32m:\x1b[93m42\x1b[0m}: "
    );
    assert_eq!(
        l.line_head(Level::Info, None, "m", 0),
        "[\x1b[32mI\x1b[0m]{\x1b[32mm\x1b[32m:\x1b[93m0\x1b[0m}: "
    );
    assert_eq!(MasterLogger::style(Level::Trace), ("\x1b[36m", "T"));
    assert_eq!(MasterLogger::style(Level::Error), ("\x1b[31m", "E"));
}

#[test]
fn clock_reads_seconds() {
    let a = sys_now();
    assert!(a > 1_600_000_000);
    let b = evergreen::logger::now();
    assert!(b >= a);
}

#[test]
fn config_file_from_arguments() {
    let args = |v: &[&str]| v.iter().map(|s| s.to_string()).collect::<Vec<String>>();
    assert_eq!(config_path(&args(&["efg"]), DEFAULT_CONFIG), "efg.toml");
    assert_eq!(config_path(&args(&["efg", "-c", "a.toml"]), DEFAULT_CONFIG), "a.toml");
    assert_eq!(config_path(&args(&["efg", "x", "--config", "b.toml", "-c", "c.toml"]), DEFAULT_CONFIG), "b.toml");
    assert_eq!(config_path(&args(&["efg", "-c"]), DEFAULT_CONFIG), "efg.toml");
    assert_eq!(config_path(&args(&["efg", "--conf", "x"]), "config.toml"), "config.toml");
    assert_eq!(config_path(&args(&[]), "d"), "d");
}

#[test]
fn example_settings() {
    let c = ConfigToml::def();
    assert_eq!(c.proxy, "127.0.0.1:6007");
    assert_eq!(c.alzahra, vec!["http://94.183.183.223:9920".to_string()]);
    assert_eq!(c.script_ids, vec![("your google script ids".to_string(), "this scripts auth token".to_string())]);
    assert_eq!(c.users.len(), 1);
    assert_eq!(c.users[0].user, "user");
    assert_eq!(c.users[0].pass, "pass");
}

#[test]
fn error_answers() {
    assert_eq!(ErrorCode::BadRequest.status(), 400);
    assert_eq!(ErrorCode::Forbidden.status(), 403);
    assert_eq!(ErrorCode::BadAuth.status(), 403);
    assert_eq!(ErrorCode::NotFound.status(), 404);
    assert_eq!(ErrorCode::Unknown.status(), 500);
    assert_eq!(ErrorCode::DatabaseError.status(), 500);
    assert_eq!(ErrorCode::default(), ErrorCode::Unknown);
    let e = AppErr::from(ErrorCode::NotFound);
    assert_eq!(e.status, 404);
    assert_eq!(e.code, ErrorCode::NotFound);
    assert!(e.debug.is_none());
    let e = AppErr::from(ErrorCode::BadRequest).debug("invalid base64");
    assert_eq!(e.status, 400);
    assert_eq!(e.debug.as_deref(), Some("invalid base64"));
    let s = AppErr::server_error();
    assert_eq!(s.status, 500);
    assert_eq!(s.code, ErrorCode::ServerError);
}

#[test]
fn relay_requests() {
    let ids = vec![("s1".to_string(), "k1".to_string()), ("s2".to_string(), "k2".to_string())];
    let mut f = Fronter::new("http://h:1", ids);
    assert_eq!(f.proxy_url, "http://h:1/api/proxy/bin-batch/");
    assert_eq!(f.http_host, HTTP_HOST);
    assert_eq!(f.exec_path(), "/macros/s/s1/exec?t=http://h:1/api/proxy/bin-batch/&a=k1");
    assert_eq!(f.exec_path(), "/macros/s/s2/exec?t=http://h:1/api/proxy/bin-batch/&a=k2");
    assert_eq!(f.exec_path(), "/macros/s/s1/exec?t=http://h:1/api/proxy/bin-batch/&a=k1");
    f.dev_available = true;
    assert_eq!(f.exec_path(), "/macros/s/s2/dev?t=http://h:1/api/proxy/bin-batch/&a=k2");
    assert_eq!(
        post_head("/p?q", "script.google.com", 1234),
        "POST /p?q HTTP/1.1\r\nHOST: script.google.com\r\nContent-Type: text/plain\r\nContent-Length: 1234\r\nAccept-Encoding: gzip\r\nConnection: keep-alive\r\n\r\n"
    );
    assert_eq!(
        get_head("/x", "h.example"),
        "GET /x HTTP/1.1\r\nHOST: h.example\r\nAccept-Encoding: gzip\r\nConnection: keep-alive\r\n\r\n"
    );
}

#[test]
fn connection_pool_decisions() {
    assert!(!conn_expired(45));
    assert!(conn_expired(46));
    assert!(pool_has_room(49));
    assert!(!pool_has_room(50));
    assert_eq!(fresh_top(&[]), None);
    assert_eq!(fresh_top(&[10, 50, 60]), Some(0));
    assert_eq!(fresh_top(&[10, 20, 60]), Some(1));
    assert_eq!(fresh_top(&[10, 20, 30]), Some(2));
    assert_eq!(fresh_top(&[46, 47]), None);
}

fn tank(id: u64, ended: bool, data: Vec<u8>) -> SpringTank {
    SpringTank { id: UniqueId::new(id), ended, host: SocksHost::Domain("a.b".into()), port: 1, data }
}

#[test]
fn spring_tanks() {
    let spring = Spring { id: UniqueId::new(5), host: SocksHost::Ipv4([9, 9, 9, 9]), port: 99, user: None };
    let mut pending = b"abcdef".to_vec();
    let t = spring.to_tank(false, &mut pending);
    assert_eq!(t.data, b"abcdef".to_vec());
    assert!(pending.is_empty());
    assert_eq!(t.id, spring.id);
    assert_eq!(t.port, 99);
    assert_eq!(t.host, SocksHost::Ipv4([9, 9, 9, 9]));
    assert!(!t.ended);
    let mut pending = b"xyz".to_vec();
    let t = spring.to_tank(true, &mut pending);
    assert!(t.ended);
    assert!(t.data.is_empty());
    assert_eq!(pending, b"xyz".to_vec());
    let mut pending = vec![1u8; MAX_READ + 3];
    let mut data = vec![0u8];
    assert!(!Spring::read_data(&mut pending, &mut data));
    assert_eq!(data.len(), MAX_READ + 1);
    assert_eq!(pending, vec![1u8; 3]);
    assert!(Spring::worth_shipping(&tank(1, true, vec![])));
    assert!(Spring::worth_shipping(&tank(1, false, vec![0])));
    assert!(!Spring::worth_shipping(&tank(1, false, vec![])));
}

#[test]
fn tank_batches() {
    let mut b = TankBatch::new(10);
    assert!(!b.full());
    b.add(tank(1, false, vec![]));
    b.add(tank(2, false, vec![1, 2, 3]));
    b.add(tank(3, true, vec![]));
    assert_eq!(b.collected, 3);
    assert_eq!(b.tanks.len(), 2);
    assert_eq!(b.ended.len(), 1);
    assert_eq!(b.ended[0], b.tanks[1].id);
    assert!(!b.full());
    b.add(tank(4, true, vec![0; 7]));
    assert!(b.full());
    assert_eq!(b.collected, 10);
    assert_eq!(b.tanks.len(), 3);
    assert_eq!(b.ended.len(), 2);
    assert_eq!(TankBatch::new(SERVER_BATCH_LIMIT).limit, 7 * 1024 * 1024);
}

#[test]
fn clock_reading_to_seconds() {
    assert_eq!(evergreen::secs_or_zero(Some(1_700_000_000)), 1_700_000_000);
    assert_eq!(evergreen::secs_or_zero(None), 0);
}

#[test]
fn identifier_layout() {
    let id = UniqueId::from_parts(7, 1_700_000_000, 0xdead_beef);
    let mut out = Vec::new();
    id.write(&mut out);
    let mut expected = 7u64.to_le_bytes().to_vec();
    expected.extend_from_slice(&1_700_000_000u64.to_le_bytes());
    expected.extend_from_slice(&0xdead_beefu64.to_le_bytes());
    assert_eq!(out, expected);
    assert_eq!(UniqueId::read(&out, 0).unwrap(), id);
    assert_ne!(UniqueId::from_parts(7, 1_700_000_000, 1), id);
    let fresh = UniqueId::new(9);
    let mut out = Vec::new();
    fresh.write(&mut out);
    assert_eq!(&out[..8], &9u64.to_le_bytes());
    let secs = u64::from_le_bytes(out[8..16].try_into().unwrap());
    assert!(secs > 1_600_000_000);
}

#[test]
fn status_codes_and_retries() {
    let mut e = AppErr::from(ErrorCode::NotFound);
    assert_eq!(e.status_code(), 404);
    e.status = 42;
    assert_eq!(e.status_code(), 500);
    e.status = 999;
    assert_eq!(e.status_code(), 999);
    assert!(attempt_again(0));
    assert!(attempt_again(2));
    assert!(!attempt_again(3));
}

#[test]
fn connection_pool_bounds() {
    let mut p: ConnPool<u32> = ConnPool::new();
    for i in 0..60u32 {
        assert_eq!(p.offer(i), (i as usize) < POOL_MAX);
    }
    assert_eq!(p.len(), POOL_MAX);
    p.release(99, 10);
    assert_eq!(p.len(), POOL_MAX + 1);
    p.release(98, 46);
    assert_eq!(p.len(), POOL_MAX + 1);
    let mut ages = vec![0u64; p.len()];
    ages[POOL_MAX] = 100;
    ages[POOL_MAX - 1] = 100;
    assert_eq!(p.acquire(&ages), Some(48));
    assert_eq!(p.len(), 48);
    let ages: Vec<u64> = (0..48).map(|i| if i % 2 == 0 { 50 } else { 1 }).collect();
    p.retain_fresh(&ages);
    assert_eq!(p.len(), 24);
    assert_eq!(*p.get(0), 1);
    assert_eq!(*p.get(23), 47);
    assert_eq!(p.acquire(&vec![60u64; 24]), None);
    assert_eq!(p.len(), 0);
}

#[test]
fn tank_batch_knows_its_springs() {
    let mut b = TankBatch::new(100);
    let t = tank(1, false, vec![1]);
    let id = t.id;
    assert!(!b.holds(id));
    b.add(t);
    assert!(b.holds(id));
    assert!(!b.holds(UniqueId::new(2)));
}
