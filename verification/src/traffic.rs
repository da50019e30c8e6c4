//! Traffic accounting and human-readable formatting of sizes and durations.
use vstd::prelude::*;
use vstd::arithmetic::power2::pow2;
use crate::text::{push_char, ascii_char};
use crate::clock::{instant_now, nanos_since};

verus! {

/// The character of decimal digit `d`.
pub open spec fn digit_char(d: nat) -> char {
    (48 + d) as char
}

/// `n` in decimal, without leading zeros.
pub open spec fn decimal(n: nat) -> Seq<char>
    decreases n,
{
    if n < 10 {
        seq![digit_char(n)]
    } else {
        decimal(n / 10).push(digit_char(n % 10))
    }
}

/// `n` (below 100) as exactly two decimal digits.
pub open spec fn two_digits(n: nat) -> Seq<char> {
    seq![digit_char(n / 10), digit_char(n % 10)]
}

/// `a / d` rounded to the nearest integer, ties to the even one.
pub open spec fn round_half_even(a: nat, d: nat) -> nat {
    let q = a / d;
    let r = a % d;
    if 2 * r > d || (2 * r == d && q % 2 == 1) {
        q + 1
    } else {
        q
    }
}

/// How many low bits of `x` do not fit a 53-bit significand.
pub open spec fn excess_bits(x: nat) -> nat
    decreases x,
{
    if x < pow2(53) || x == 0 {
        0
    } else {
        1 + excess_bits(x / 2)
    }
}

/// The value of `x as f64`: `x` rounded to 53 significant bits, ties to
/// even.
pub open spec fn f64_of(x: nat) -> nat {
    let e = excess_bits(x);
    round_half_even(x, pow2(e)) * pow2(e)
}

/// `x / 2^k` in hundredths, rounded as `{:.2}` formatting rounds.
pub open spec fn hundredths(x: nat, k: nat) -> nat {
    round_half_even(x * 100, pow2(k))
}

/// A number of hundredths written with two decimals.
pub open spec fn fixed2(n: nat) -> Seq<char> {
    decimal(n / 100) + seq!['.'] + two_digits(n % 100)
}

/// `bytes` in the largest unit (B, KB, MB, GB, TB, each 1024 of the
/// previous) in which it is at least one, with two decimals above bytes.
pub open spec fn bytes_text(bytes: u64) -> Seq<char> {
    if bytes < 1024 {
        decimal(bytes as nat) + seq![' ', 'B']
    } else if bytes < pow2(20) {
        fixed2(hundredths(bytes as nat, 10)) + seq![' ', 'K', 'B']
    } else if bytes < pow2(30) {
        fixed2(hundredths(bytes as nat, 20)) + seq![' ', 'M', 'B']
    } else if bytes < pow2(40) {
        fixed2(hundredths(bytes as nat, 30)) + seq![' ', 'G', 'B']
    } else {
        fixed2(hundredths(f64_of(bytes as nat), 40)) + seq![' ', 'T', 'B']
    }
}

/// The character for "day".
pub open spec fn day_char() -> char {
    '\u{5929}'
}

/// `secs` as `HH:MM:SS`, preceded by the number of days and the day
/// character when there is at least one day.
pub open spec fn duration_text(secs: u64) -> Seq<char> {
    let days = secs / 86400;
    let hours = (secs % 86400) / 3600;
    let minutes = (secs % 3600) / 60;
    let seconds = secs % 60;
    let clock = two_digits(hours as nat) + seq![':'] + two_digits(minutes as nat) + seq![':']
        + two_digits(seconds as nat);
    if days > 0 {
        decimal(days as nat) + seq![day_char(), ' '] + clock
    } else {
        clock
    }
}

fn digit(d: u128) -> (c: char)
    requires
        d < 10,
    ensures
        c == digit_char(d as nat),
{
    ascii_char(48 + d as u8)
}

/// Appends `n` in decimal.
fn push_decimal(s: &mut String, n: u128)
    ensures
        final(s)@ == old(s)@ + decimal(n as nat),
    decreases n,
{
    if n >= 10 {
        push_decimal(s, n / 10);
    }
    push_char(s, digit(n % 10));
    assert(final(s)@ =~= old(s)@ + decimal(n as nat));
}

/// Appends `n` (below 100) as two digits.
fn push_two_digits(s: &mut String, n: u128)
    requires
        n < 100,
    ensures
        final(s)@ == old(s)@ + two_digits(n as nat),
{
    push_char(s, digit(n / 10));
    push_char(s, digit(n % 10));
    assert(final(s)@ =~= old(s)@ + two_digits(n as nat));
}

/// Appends the characters of `t`.
fn push_all(s: &mut String, t: &[char])
    ensures
        final(s)@ == old(s)@ + t@,
{
    let mut i: usize = 0;
    while i < t.len()
        invariant
            i <= t@.len(),
            s@ == old(s)@ + t@.subrange(0, i as int),
        decreases t@.len() - i,
    {
        push_char(s, t[i]);
        i = i + 1;
        assert(s@ =~= old(s)@ + t@.subrange(0, i as int));
    }
    assert(t@.subrange(0, t@.len() as int) =~= t@);
}

fn round_half_even_exec(a: u128, d: u128) -> (r: u128)
    requires
        d > 0,
        a / d < u128::MAX,
    ensures
        r == round_half_even(a as nat, d as nat),
{
    let q = a / d;
    let rem = a % d;
    if rem > d - rem || (rem == d - rem && q % 2 == 1) {
        q + 1
    } else {
        q
    }
}

proof fn lemma_pow2_values()
    ensures
        pow2(10) == 1024,
        pow2(20) == 1048576,
        pow2(30) == 1073741824,
        pow2(40) == 1099511627776,
        pow2(53) == 9007199254740992,
        pow2(64) == 18446744073709551616,
{
    vstd::arithmetic::power2::lemma2_to64();
    vstd::arithmetic::power2::lemma2_to64_rest();
}

/// `x as f64`, as an integer.
fn f64_value(x: u64) -> (v: u128)
    ensures
        v == f64_of(x as nat),
        v <= pow2(64),
{
    proof {
        lemma_pow2_values();
        vstd::arithmetic::power2::lemma2_to64();
        assert(x as nat / 1 == x);
    }
    let mut y: u64 = x;
    let mut e: u32 = 0;
    let mut scale: u128 = 1;
    while y >= 9007199254740992
        invariant
            y == x as nat / pow2(e as nat),
            scale == pow2(e as nat),
            excess_bits(x as nat) == e + excess_bits(y as nat),
            e <= 11,
            y as nat * pow2(e as nat) <= x,
            pow2(53) == 9007199254740992,
            pow2(64) == 18446744073709551616,
        decreases y,
    {
        proof {
            vstd::arithmetic::power2::lemma_pow2_unfold((e + 1) as nat);
            vstd::arithmetic::power2::lemma_pow2_pos(e as nat);
            vstd::arithmetic::div_mod::lemma_div_denominator(x as int, pow2(e as nat) as int, 2);
            assert(pow2(e as nat) * 2 == pow2((e + 1) as nat));
            vstd::arithmetic::power2::lemma2_to64();
            if e >= 11 {
                if e > 11 {
                    vstd::arithmetic::power2::lemma_pow2_strictly_increases(11, e as nat);
                }
                assert(false) by (nonlinear_arith)
                    requires
                        y as nat * pow2(e as nat) <= x,
                        y >= 9007199254740992,
                        pow2(e as nat) >= 2048,
                        x < 18446744073709551616,
                ;
            }
            vstd::arithmetic::power2::lemma_pow2_strictly_increases(e as nat, 11);
            assert((y / 2) as nat * pow2((e + 1) as nat) <= x) by (nonlinear_arith)
                requires
                    y as nat * pow2(e as nat) <= x,
                    pow2((e + 1) as nat) == pow2(e as nat) * 2,
            ;
        }
        y = y / 2;
        e = e + 1;
        scale = scale * 2;
    }
    proof {
        vstd::arithmetic::power2::lemma_pow2_pos(e as nat);
        vstd::arithmetic::div_mod::lemma_div_is_ordered_by_denominator(x as int, 1, pow2(e as nat) as int);
    }
    let q = round_half_even_exec(x as u128, scale);
    assert(q <= pow2(53)) by {
        assert(x as nat / pow2(e as nat) < pow2(53));
    }
    proof {
        vstd::arithmetic::power2::lemma_pow2_adds(53, e as nat);
        if 53 + e < 64 {
            vstd::arithmetic::power2::lemma_pow2_strictly_increases(53 + e as nat, 64);
        }
        assert(q * scale <= pow2(53) * pow2(e as nat)) by (nonlinear_arith)
            requires
                q <= pow2(53),
                scale == pow2(e as nat),
        ;
    }
    q * scale
}

/// Formats a byte count for display: "0 B", "1.00 KB", "1.50 MB", ... up
/// to TB.
pub fn format_bytes(bytes: u64) -> (s: String)
    ensures
        s@ == bytes_text(bytes),
{
    proof {
        lemma_pow2_values();
    }
    let mut s = String::new();
    if bytes < 1024 {
        push_decimal(&mut s, bytes as u128);
        push_all(&mut s, &[' ', 'B']);
    } else {
        let (value, scale, unit): (u128, u128, [char; 3]) = if bytes < 1048576 {
            (bytes as u128, 1024, [' ', 'K', 'B'])
        } else if bytes < 1073741824 {
            (bytes as u128, 1048576, [' ', 'M', 'B'])
        } else if bytes < 1099511627776 {
            (bytes as u128, 1073741824, [' ', 'G', 'B'])
        } else {
            (f64_value(bytes), 1099511627776, [' ', 'T', 'B'])
        };
        assert((value * 100) as u128 / scale < u128::MAX) by (nonlinear_arith)
            requires
                value <= 18446744073709551616,
                scale >= 1024,
        ;
        let n = round_half_even_exec(value * 100, scale);
        push_decimal(&mut s, n / 100);
        push_char(&mut s, '.');
        push_two_digits(&mut s, n % 100);
        push_all(&mut s, &unit);
    }
    s
}

/// Formats a duration in seconds as `HH:MM:SS`, with the number of days in
/// front when there is at least one.
pub fn format_duration(secs: u64) -> (s: String)
    ensures
        s@ == duration_text(secs),
{
    let days = secs / 86400;
    let hours = (secs % 86400) / 3600;
    let minutes = (secs % 3600) / 60;
    let seconds = secs % 60;
    let mut s = String::new();
    if days > 0 {
        push_decimal(&mut s, days as u128);
        push_char(&mut s, '\u{5929}');
        push_char(&mut s, ' ');
    }
    push_two_digits(&mut s, hours as u128);
    push_char(&mut s, ':');
    push_two_digits(&mut s, minutes as u128);
    push_char(&mut s, ':');
    push_two_digits(&mut s, seconds as u128);
    s
}

// ---------------------------------------------------------------------------
// Speed and counters

/// How long samples are kept, in nanoseconds.
pub const SAMPLE_WINDOW_NANOS: u128 = 5_000_000_000;

/// A measured rate: `bytes` over `nanos` nanoseconds (never zero).
#[derive(Debug, Clone, Copy, PartialEq, Eq, Structural)]
pub struct Rate {
    pub bytes: u128,
    pub nanos: u128,
}

/// The samples (time in nanoseconds, bytes) still kept at `now`: those less
/// than the window old.
pub open spec fn samples_kept(samples: Seq<(u128, u64)>, now: u128) -> Seq<(u128, u64)>
    decreases samples.len(),
{
    if samples.len() == 0 {
        Seq::empty()
    } else {
        let r = samples_kept(samples.drop_last(), now);
        if samples.last().0 + SAMPLE_WINDOW_NANOS > now {
            r.push(samples.last())
        } else {
            r
        }
    }
}

/// Total bytes of the samples.
pub open spec fn bytes_total(samples: Seq<(u128, u64)>) -> nat
    decreases samples.len(),
{
    if samples.len() == 0 {
        0
    } else {
        bytes_total(samples.drop_last()) + samples.last().1 as nat
    }
}

/// The rate over the samples: the bytes after the first sample over the
/// time from the first to the last, when there are two samples or more and
/// that time is not zero.
pub open spec fn samples_rate(samples: Seq<(u128, u64)>) -> Option<Rate> {
    if samples.len() < 2 {
        None
    } else {
        let first = samples[0].0;
        let last = samples.last().0;
        let span = if last >= first { last - first } else { 0 };
        if span == 0 {
            None
        } else {
            Some(Rate { bytes: bytes_total(samples.drop_first()) as u128, nanos: span as u128 })
        }
    }
}

/// Recent samples of one direction and the last rate measured.
pub struct SpeedHistory {
    samples: Vec<(u128, u64)>,
    last_rate: Option<Rate>,
}

/// What a speed history holds.
pub struct SpeedHistoryView {
    pub samples: Seq<(u128, u64)>,
    pub last_rate: Option<Rate>,
}

impl View for SpeedHistory {
    type V = SpeedHistoryView;

    closed spec fn view(&self) -> SpeedHistoryView {
        SpeedHistoryView { samples: self.samples@, last_rate: self.last_rate }
    }
}

proof fn lemma_bytes_total_bound(samples: Seq<(u128, u64)>)
    ensures
        bytes_total(samples) <= samples.len() * 0xFFFF_FFFF_FFFF_FFFFnat,
    decreases samples.len(),
{
    if samples.len() > 0 {
        lemma_bytes_total_bound(samples.drop_last());
        assert((samples.len() - 1) * 0xFFFF_FFFF_FFFF_FFFFnat + 0xFFFF_FFFF_FFFF_FFFFnat
            == samples.len() * 0xFFFF_FFFF_FFFF_FFFFnat) by (nonlinear_arith);
    }
}

impl SpeedHistory {
    /// No samples and no rate yet.
    pub fn new() -> (h: SpeedHistory)
        ensures
            h@.samples == Seq::<(u128, u64)>::empty(),
            h@.last_rate is None,
    {
        SpeedHistory { samples: Vec::new(), last_rate: None }
    }

    /// Adds a sample of `bytes` at `now` and forgets those older than the
    /// window.
    pub fn add_sample(&mut self, now: u128, bytes: u64)
        ensures
            final(self)@.samples == samples_kept(old(self)@.samples.push((now, bytes)), now),
            final(self)@.last_rate == old(self)@.last_rate,
    {
        self.samples.push((now, bytes));
        let ghost all = self.samples@;
        let mut kept: Vec<(u128, u64)> = Vec::new();
        let mut i: usize = 0;
        while i < self.samples.len()
            invariant
                i <= self.samples@.len(),
                self.samples@ == all,
                kept@ == samples_kept(all.take(i as int), now),
            decreases self.samples@.len() - i,
        {
            let s = self.samples[i];
            assert(all.take(i + 1).drop_last() =~= all.take(i as int));
            if s.0 >= now || now - s.0 < SAMPLE_WINDOW_NANOS {
                proof {
                    assert(s.0 + SAMPLE_WINDOW_NANOS > now);
                }
                kept.push(s);
            }
            i = i + 1;
        }
        assert(all.take(all.len() as int) =~= all);
        self.samples = kept;
    }

    /// The rate over the kept samples; when none can be measured, the last
    /// rate measured (if any).
    pub fn rate(&mut self) -> (r: Option<Rate>)
        ensures
            final(self)@.samples == old(self)@.samples,
            r == match samples_rate(old(self)@.samples) {
                Some(x) => Some(x),
                None => old(self)@.last_rate,
            },
            final(self)@.last_rate == r,
    {
        let n = self.samples.len();
        if n < 2 {
            return self.last_rate;
        }
        let first = self.samples[0].0;
        let last = self.samples[n - 1].0;
        let span = if last >= first { last - first } else { 0 };
        if span == 0 {
            return self.last_rate;
        }
        let ghost rest = self.samples@.drop_first();
        let mut total: u128 = 0;
        let mut i: usize = 1;
        while i < n
            invariant
                1 <= i <= n,
                n == self.samples@.len(),
                rest == self.samples@.drop_first(),
                total == bytes_total(rest.take(i - 1)),
            decreases n - i,
        {
            proof {
                lemma_bytes_total_bound(rest.take(i - 1));
                assert(rest.take(i as int).drop_last() =~= rest.take(i - 1));
                assert((i - 1) * 0xFFFF_FFFF_FFFF_FFFFnat + 0xFFFF_FFFF_FFFF_FFFFnat <= u128::MAX)
                    by (nonlinear_arith)
                    requires
                        i <= n,
                        n <= usize::MAX,
                ;
            }
            total = total + self.samples[i].1 as u128;
            i = i + 1;
        }
        assert(rest.take(n - 1) =~= rest);
        let r = Rate { bytes: total, nanos: span };
        self.last_rate = Some(r);
        Some(r)
    }
}

/// `n` reduced modulo 2^64, as a counter that wraps around holds it.
pub open spec fn wrap64(n: int) -> u64 {
    (n % 0x1_0000_0000_0000_0000) as u64
}

/// A snapshot of the traffic counters and measured rates.
#[derive(Debug, Clone, Copy)]
pub struct TrafficSnapshot {
    pub bytes_sent: u64,
    pub bytes_received: u64,
    pub upload: Option<Rate>,
    pub download: Option<Rate>,
    pub active_connections: u64,
    pub total_connections: u64,
    pub uptime_secs: u64,
}

/// Counts bytes and connections and measures speeds. Counters wrap around
/// like atomic counters do.
pub struct TrafficMonitor {
    bytes_sent: u64,
    bytes_received: u64,
    active_connections: u64,
    total_connections: u64,
    start: std::time::Instant,
    sent: SpeedHistory,
    received: SpeedHistory,
}

/// The counters of a traffic monitor.
pub struct TrafficCounts {
    pub bytes_sent: u64,
    pub bytes_received: u64,
    pub active_connections: u64,
    pub total_connections: u64,
}

impl TrafficMonitor {
    /// The counters.
    pub closed spec fn counts(&self) -> TrafficCounts {
        TrafficCounts {
            bytes_sent: self.bytes_sent,
            bytes_received: self.bytes_received,
            active_connections: self.active_connections,
            total_connections: self.total_connections,
        }
    }

    /// Upload samples and last rate.
    pub closed spec fn upload(&self) -> SpeedHistoryView {
        self.sent@
    }

    /// Download samples and last rate.
    pub closed spec fn download(&self) -> SpeedHistoryView {
        self.received@
    }

    /// All counters zero, no samples; the clock starts now.
    pub fn new() -> (m: TrafficMonitor)
        ensures
            m.counts() == (TrafficCounts {
                bytes_sent: 0,
                bytes_received: 0,
                active_connections: 0,
                total_connections: 0,
            }),
            m.upload().samples == Seq::<(u128, u64)>::empty(),
            m.upload().last_rate is None,
            m.download().samples == Seq::<(u128, u64)>::empty(),
            m.download().last_rate is None,
    {
        TrafficMonitor {
            bytes_sent: 0,
            bytes_received: 0,
            active_connections: 0,
            total_connections: 0,
            start: instant_now(),
            sent: SpeedHistory::new(),
            received: SpeedHistory::new(),
        }
    }

    /// Counts `bytes` sent at `now` (nanoseconds since the monitor started).
    pub fn record_sent_at(&mut self, bytes: u64, now: u128)
        ensures
            final(self).counts() == (TrafficCounts {
                bytes_sent: wrap64(old(self).counts().bytes_sent + bytes),
                ..old(self).counts()
            }),
            final(self).upload().samples == samples_kept(old(self).upload().samples.push((now, bytes)), now),
            final(self).upload().last_rate == old(self).upload().last_rate,
            final(self).download() == old(self).download(),
    {
        self.bytes_sent = self.bytes_sent.wrapping_add(bytes);
        self.sent.add_sample(now, bytes);
    }

    /// Counts `bytes` received at `now` (nanoseconds since the monitor
    /// started).
    pub fn record_received_at(&mut self, bytes: u64, now: u128)
        ensures
            final(self).counts() == (TrafficCounts {
                bytes_received: wrap64(old(self).counts().bytes_received + bytes),
                ..old(self).counts()
            }),
            final(self).download().samples == samples_kept(old(self).download().samples.push((now, bytes)), now),
            final(self).download().last_rate == old(self).download().last_rate,
            final(self).upload() == old(self).upload(),
    {
        self.bytes_received = self.bytes_received.wrapping_add(bytes);
        self.received.add_sample(now, bytes);
    }

    /// Counts `bytes` sent now.
    pub fn record_sent(&mut self, bytes: u64)
        ensures
            final(self).counts() == (TrafficCounts {
                bytes_sent: wrap64(old(self).counts().bytes_sent + bytes),
                ..old(self).counts()
            }),
            exists|now: u128|
                final(self).upload().samples == #[trigger] samples_kept(
                    old(self).upload().samples.push((now, bytes)),
                    now,
                ),
            final(self).download() == old(self).download(),
    {
        let now = nanos_since(&self.start);
        self.record_sent_at(bytes, now);
    }

    /// Counts `bytes` received now.
    pub fn record_received(&mut self, bytes: u64)
        ensures
            final(self).counts() == (TrafficCounts {
                bytes_received: wrap64(old(self).counts().bytes_received + bytes),
                ..old(self).counts()
            }),
            exists|now: u128|
                final(self).download().samples == #[trigger] samples_kept(
                    old(self).download().samples.push((now, bytes)),
                    now,
                ),
            final(self).upload() == old(self).upload(),
    {
        let now = nanos_since(&self.start);
        self.record_received_at(bytes, now);
    }

    /// A connection opened: one more active, one more in total.
    pub fn connection_opened(&mut self)
        ensures
            final(self).counts() == (TrafficCounts {
                active_connections: wrap64(old(self).counts().active_connections + 1),
                total_connections: wrap64(old(self).counts().total_connections + 1),
                ..old(self).counts()
            }),
            final(self).upload() == old(self).upload(),
            final(self).download() == old(self).download(),
    {
        self.active_connections = self.active_connections.wrapping_add(1);
        self.total_connections = self.total_connections.wrapping_add(1);
    }

    /// A connection closed: one fewer active.
    pub fn connection_closed(&mut self)
        ensures
            final(self).counts() == (TrafficCounts {
                active_connections: wrap64(old(self).counts().active_connections - 1),
                ..old(self).counts()
            }),
            final(self).upload() == old(self).upload(),
            final(self).download() == old(self).download(),
    {
        self.active_connections = self.active_connections.wrapping_sub(1);
    }

    /// The counters, the current rates, and the time since the monitor
    /// started, with `now` the nanoseconds since then.
    pub fn stats_at(&mut self, now: u128) -> (s: TrafficSnapshot)
        ensures
            s.bytes_sent == old(self).counts().bytes_sent,
            s.bytes_received == old(self).counts().bytes_received,
            s.active_connections == old(self).counts().active_connections,
            s.total_connections == old(self).counts().total_connections,
            s.uptime_secs == (now / 1_000_000_000) as u64,
            s.upload == match samples_rate(old(self).upload().samples) {
                Some(x) => Some(x),
                None => old(self).upload().last_rate,
            },
            s.download == match samples_rate(old(self).download().samples) {
                Some(x) => Some(x),
                None => old(self).download().last_rate,
            },
            final(self).counts() == old(self).counts(),
            final(self).upload().samples == old(self).upload().samples,
            final(self).upload().last_rate == s.upload,
            final(self).download().samples == old(self).download().samples,
            final(self).download().last_rate == s.download,
    {
        let upload = self.sent.rate();
        let download = self.received.rate();
        TrafficSnapshot {
            bytes_sent: self.bytes_sent,
            bytes_received: self.bytes_received,
            upload,
            download,
            active_connections: self.active_connections,
            total_connections: self.total_connections,
            uptime_secs: #[verifier::truncate] ((now / 1_000_000_000) as u64),
        }
    }

    /// The counters, the current rates, and the time since the monitor
    /// started.
    pub fn get_stats(&mut self) -> (s: TrafficSnapshot)
        ensures
            s.bytes_sent == old(self).counts().bytes_sent,
            s.bytes_received == old(self).counts().bytes_received,
            s.active_connections == old(self).counts().active_connections,
            s.total_connections == old(self).counts().total_connections,
            s.upload == match samples_rate(old(self).upload().samples) {
                Some(x) => Some(x),
                None => old(self).upload().last_rate,
            },
            s.download == match samples_rate(old(self).download().samples) {
                Some(x) => Some(x),
                None => old(self).download().last_rate,
            },
            final(self).counts() == old(self).counts(),
    {
        let now = nanos_since(&self.start);
        self.stats_at(now)
    }

    /// Sets the byte and connection counters back to zero; samples, rates
    /// and the start time are kept.
    pub fn reset(&mut self)
        ensures
            final(self).counts() == (TrafficCounts {
                bytes_sent: 0,
                bytes_received: 0,
                active_connections: 0,
                total_connections: 0,
            }),
            final(self).upload() == old(self).upload(),
            final(self).download() == old(self).download(),
    {
        self.bytes_sent = 0;
        self.bytes_received = 0;
        self.active_connections = 0;
        self.total_connections = 0;
    }
}

} // verus!
