//! Byte counters of the proxied traffic and their text.
use crate::text::{decimal, digit_char, push_char, push_decimal, push_str};
use std::sync::atomic::AtomicU64;
use std::sync::Arc;
use vstd::prelude::*;

verus! {

/// Bytes in a kibibyte.
pub const KB: u64 = 1024;

/// Bytes in a mebibyte.
pub const MB: u64 = 1048576;

/// Bytes in a gibibyte.
pub const GB: u64 = 1073741824;

/// The spacing of the 64-bit floating-point numbers around `b`: 1 below 2^53, doubling at each
/// further power of two.
pub open spec fn f64_spacing(b: u64) -> nat {
    if b < 0x20_0000_0000_0000 {
        1
    } else if b < 0x40_0000_0000_0000 {
        2
    } else if b < 0x80_0000_0000_0000 {
        4
    } else if b < 0x100_0000_0000_0000 {
        8
    } else if b < 0x200_0000_0000_0000 {
        16
    } else if b < 0x400_0000_0000_0000 {
        32
    } else if b < 0x800_0000_0000_0000 {
        64
    } else if b < 0x1000_0000_0000_0000 {
        128
    } else if b < 0x2000_0000_0000_0000 {
        256
    } else if b < 0x4000_0000_0000_0000 {
        512
    } else if b < 0x8000_0000_0000_0000 {
        1024
    } else {
        2048
    }
}

/// `b` converted to a 64-bit floating-point number: the nearest multiple of the spacing, a tie
/// going to the even multiple.
pub open spec fn f64_of(b: u64) -> nat {
    let p = f64_spacing(b);
    let q = b as nat / p;
    let r = b as nat % p;
    if 2 * r > p || (2 * r == p && q % 2 == 1) {
        (q + 1) * p
    } else {
        q * p
    }
}

/// `v / unit` in tenths, rounded to the nearest tenth, a tie going to the even tenth.
pub open spec fn tenths(v: nat, unit: nat) -> nat {
    let q = (10 * v) / unit;
    let r = (10 * v) % unit;
    if 2 * r > unit || (2 * r == unit && q % 2 == 1) {
        q + 1
    } else {
        q
    }
}

/// A number of tenths written with one decimal: `12.3` for 123.
pub open spec fn one_decimal(t: nat) -> Seq<char> {
    decimal(t / 10) + seq!['.', digit_char(t % 10)]
}

/// The text of a byte count: `0`, plain bytes with `B`, or kibi-, mebi- or gibibytes with one
/// decimal and `KB`, `MB` or `GB`.
pub open spec fn bytes_text(bytes: u64) -> Seq<char> {
    if bytes == 0 {
        seq!['0']
    } else if bytes >= GB {
        one_decimal(tenths(f64_of(bytes), GB as nat)) + seq!['G', 'B']
    } else if bytes >= MB {
        one_decimal(tenths(bytes as nat, MB as nat)) + seq!['M', 'B']
    } else if bytes >= KB {
        one_decimal(tenths(bytes as nat, KB as nat)) + seq!['K', 'B']
    } else {
        decimal(bytes as nat) + seq!['B']
    }
}

fn spacing(b: u64) -> (p: u64)
    ensures
        p == f64_spacing(b),
        1 <= p <= 2048,
{
    if b < 0x20_0000_0000_0000 {
        1
    } else if b < 0x40_0000_0000_0000 {
        2
    } else if b < 0x80_0000_0000_0000 {
        4
    } else if b < 0x100_0000_0000_0000 {
        8
    } else if b < 0x200_0000_0000_0000 {
        16
    } else if b < 0x400_0000_0000_0000 {
        32
    } else if b < 0x800_0000_0000_0000 {
        64
    } else if b < 0x1000_0000_0000_0000 {
        128
    } else if b < 0x2000_0000_0000_0000 {
        256
    } else if b < 0x4000_0000_0000_0000 {
        512
    } else if b < 0x8000_0000_0000_0000 {
        1024
    } else {
        2048
    }
}

fn push_tenths(s: &mut String, v: u128, unit: u64)
    requires
        v <= 0x1_0000_0000_0000_0800,
        unit >= 1024,
    ensures
        final(s)@ == old(s)@ + one_decimal(tenths(v as nat, unit as nat)),
{
    let u = unit as u128;
    let q = (10 * v) / u;
    let r = (10 * v) % u;
    assert(q < 0xffff_ffff_ffff_ffff) by (nonlinear_arith)
        requires
            q == (10 * v) / (u as int),
            v <= 0x1_0000_0000_0000_0800,
            u >= 1024,
    {
        assert(10 * v <= 10 * 0x1_0000_0000_0000_0800);
        assert((10 * v) / (u as int) <= (10 * v) / 1024) by {
            vstd::arithmetic::div_mod::lemma_div_is_ordered_by_denominator(10 * v, 1024, u as int);
        }
    }
    let t128 = if 2 * r > u || (2 * r == u && q % 2 == 1) {
        q + 1
    } else {
        q
    };
    let t = t128 as u64;
    push_decimal(s, t / 10);
    push_char(s, '.');
    push_char(s, (48u8 + (t % 10) as u8) as char);
    assert(final(s)@ =~= old(s)@ + one_decimal(tenths(v as nat, unit as nat)));
}

/// The text of a byte count.
pub fn format_bytes(bytes: u64) -> (r: String)
    ensures
        r@ == bytes_text(bytes),
{
    let mut s = String::new();
    if bytes == 0 {
        push_char(&mut s, '0');
    } else if bytes >= GB {
        let p = spacing(bytes);
        let q = bytes / p;
        let rem = bytes % p;
        assert(q * p + rem == bytes && q * p <= bytes) by (nonlinear_arith)
            requires
                q == bytes / p,
                rem == bytes % p,
                1 <= p,
        {
        }
        assert((q + 1) * p == q * p + p) by (nonlinear_arith);
        let v: u128 = if 2 * rem > p || (2 * rem == p && q % 2 == 1) {
            (q as u128 + 1) * p as u128
        } else {
            q as u128 * p as u128
        };
        assert(v <= 0x1_0000_0000_0000_0800);
        push_tenths(&mut s, v, GB);
        push_char(&mut s, 'G');
        push_char(&mut s, 'B');
    } else if bytes >= MB {
        push_tenths(&mut s, bytes as u128, MB);
        push_char(&mut s, 'M');
        push_char(&mut s, 'B');
    } else if bytes >= KB {
        push_tenths(&mut s, bytes as u128, KB);
        push_char(&mut s, 'K');
        push_char(&mut s, 'B');
    } else {
        push_decimal(&mut s, bytes);
        push_char(&mut s, 'B');
    }
    assert(s@ =~= bytes_text(bytes));
    s
}


/// The text of the traffic counters: bytes received, then bytes sent.
pub open spec fn stats_text(read: u64, written: u64) -> Seq<char> {
    seq!['\u{2193}'] + bytes_text(read) + seq![' ', '/', ' ', '\u{2191}'] + bytes_text(written)
}

/// Counters of the bytes read from and written to a set of connections, shared between tasks.
#[derive(Debug, Clone)]
pub struct ConnectionStats {
    pub bytes_read: Arc<AtomicU64>,
    pub bytes_written: Arc<AtomicU64>,
}

fn byte_count(n: usize) -> (r: u64)
    ensures
        r == n,
{
    n as u64
}

impl ConnectionStats {
    /// Counters that start at zero.
    pub fn new() -> (r: ConnectionStats) {
        ConnectionStats {
            bytes_read: Arc::new(AtomicU64::new(0)),
            bytes_written: Arc::new(AtomicU64::new(0)),
        }
    }

    /// Counts `n` bytes read; a read of nothing leaves the counter alone.
    pub fn record_read(&self, n: usize) {
        if n > 0 {
            self.bytes_read.fetch_add(byte_count(n), std::sync::atomic::Ordering::Relaxed);
        }
    }

    /// Counts `n` bytes written; a write of nothing leaves the counter alone.
    pub fn record_written(&self, n: usize) {
        if n > 0 {
            self.bytes_written.fetch_add(byte_count(n), std::sync::atomic::Ordering::Relaxed);
        }
    }

    /// The text of the counters as they are read now; other tasks may change them meanwhile.
    pub fn to_text(&self) -> (s: String)
        ensures
            exists|r: u64, w: u64| s@ == stats_text(r, w),
    {
        let r = self.bytes_read.load(std::sync::atomic::Ordering::Relaxed);
        let w = self.bytes_written.load(std::sync::atomic::Ordering::Relaxed);
        let mut s = String::new();
        push_char(&mut s, '\u{2193}');
        let a = format_bytes(r);
        push_str(&mut s, a.as_str());
        push_char(&mut s, ' ');
        push_char(&mut s, '/');
        push_char(&mut s, ' ');
        push_char(&mut s, '\u{2191}');
        let b = format_bytes(w);
        push_str(&mut s, b.as_str());
        assert(s@ =~= stats_text(r, w));
        s
    }
}

} // verus!
