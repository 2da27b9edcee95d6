//! Throughput and DNS telemetry: parsing the daemons' textual counter dumps
//! and deriving rates from them.

use vstd::prelude::*;
use crate::text::{
    digits_val, find_char_from, has_prefix, is_digit_seq, lemma_prefix_len_unique, lines_spec,
    parse_u64, prefix_len, split_lines, split_ws, tokens_spec, views_of,
};

verus! {

/// Cumulative interface counters and the rates derived from two samples.
pub struct NetStats {
    /// Cumulative received bytes at the latest sample.
    pub last_rx: u64,
    /// Cumulative transmitted bytes at the latest sample.
    pub last_tx: u64,
    /// Receive rate over the last interval, kilobits per second.
    pub kbps_rx: u32,
    /// Transmit rate over the last interval, kilobits per second.
    pub kbps_tx: u32,
}

/// Resolver counters and the rates derived from them.
pub struct DnsStats {
    /// Queries answered in total.
    pub total_queries: u64,
    /// Queries answered out of the cache.
    pub cache_hits: u64,
    /// Queries answered with a blocked-domain response.
    pub blocked_count: u64,
    /// Cache hits as an integer percentage of total queries.
    pub hit_rate: u32,
    /// Blocked answers as an integer percentage of total queries.
    pub block_rate: u32,
    /// Average answer latency in microseconds.
    pub avg_response_us: u64,
    /// The current top blocked domains, best effort.
    pub blocked_domains: Vec<String>,
}

/// A digit string that fits a `u64`.
pub open spec fn parses_u64(s: Seq<char>) -> bool {
    s.len() > 0 && is_digit_seq(s) && digits_val(s) <= u64::MAX
}

/// The rate, in kilobits per second, between two cumulative byte counters:
/// zero when the counter moved backwards (a reset), clipped at the largest
/// representable rate.
pub open spec fn rate_kbps_spec(prev: int, cur: int) -> int {
    if prev <= cur {
        let r = (cur - prev) * 8 / 1024;
        if r > u32::MAX as int {
            u32::MAX as int
        } else {
            r
        }
    } else {
        0
    }
}

/// Derive the interval rate from two cumulative readings.
pub fn rate_kbps(prev: u64, cur: u64) -> (r: u32)
    ensures
        r as int == rate_kbps_spec(prev as int, cur as int),
{
    if cur < prev {
        return 0;
    }
    let d = cur - prev;
    let q = d / 128;
    proof {
        assert(d * 8 / 1024 == d / 128) by (nonlinear_arith);
    }
    if q > 0xFFFF_FFFFu64 {
        u32::MAX
    } else {
        q as u32
    }
}

/// An integer percentage of a total: zero on an empty total, clipped at one
/// hundred when the part exceeds the total.
pub open spec fn percent_spec(part: int, total: int) -> int {
    if total <= 0 {
        0
    } else if part > total {
        100
    } else {
        part * 100 / total
    }
}

/// Derive an integer percentage, guarded against a zero total.
pub fn rate_percent(part: u64, total: u64) -> (r: u32)
    ensures
        r as int == percent_spec(part as int, total as int),
        r <= 100,
{
    if total == 0 {
        return 0;
    }
    if part > total {
        return 100;
    }
    let p: u128 = (part as u128) * 100 / (total as u128);
    proof {
        assert((part as int) * 100 / (total as int) <= 100) by (nonlinear_arith)
            requires
                0 < total <= u64::MAX,
                0 <= part <= total,
        ;
    }
    p as u32
}

/// The two counters on the first line of a transfer dump, when that line
/// carries at least three tokens whose second and third are numbers.
pub open spec fn transfer_sample(t: Seq<char>) -> Option<(nat, nat)> {
    let ls = lines_spec(t);
    if ls.len() == 0 {
        None
    } else {
        let toks = tokens_spec(ls[0]);
        if toks.len() >= 3 && parses_u64(toks[1]) && parses_u64(toks[2]) {
            Some((digits_val(toks[1]), digits_val(toks[2])))
        } else {
            None
        }
    }
}

/// Read the cumulative counters out of a transfer dump into `stats`. A
/// missing dump or an unrecognized first line leaves the counters as they
/// were; the derived rates are never touched here.
pub fn get_net_stats(output: &Option<String>, stats: &mut NetStats)
    ensures
        ({
            let sample = match *output {
                Some(t) => transfer_sample(t@),
                None => None,
            };
            match sample {
                Some(p) => final(stats).last_rx == p.0 && final(stats).last_tx == p.1,
                None => final(stats).last_rx == old(stats).last_rx && final(stats).last_tx == old(
                    stats,
                ).last_tx,
            }
        }),
        final(stats).kbps_rx == old(stats).kbps_rx,
        final(stats).kbps_tx == old(stats).kbps_tx,
{
    let t = match output {
        Some(t) => t,
        None => {
            return ;
        },
    };
    let lines = split_lines(t.as_str());
    if lines.len() == 0 {
        return ;
    }
    let toks = split_ws(lines[0].as_str());
    proof {
        assert(lines@[0]@ == views_of(lines@)[0]);
    }
    if toks.len() < 3 {
        return ;
    }
    let rx = parse_u64(toks[1].as_str());
    let tx = parse_u64(toks[2].as_str());
    proof {
        assert(toks@[1]@ == views_of(toks@)[1]);
        assert(toks@[2]@ == views_of(toks@)[2]);
    }
    match (rx, tx) {
        (Some(rxv), Some(txv)) => {
            stats.last_rx = rxv;
            stats.last_tx = txv;
        },
        _ => {},
    }
}

/// Stop predicate of the counter-value parser: a second separator ends the
/// value.
pub open spec fn eq_stop() -> spec_fn(char) -> bool {
    |c: char| c == '='
}

/// The numeric value a `key=value` line carries for `key` (the key text
/// includes the separator): the text after the key up to any further
/// separator, when it is all digits.
pub open spec fn kv_value(line: Seq<char>, key: Seq<char>) -> Option<nat> {
    if key.is_prefix_of(line) {
        let rest = line.skip(key.len() as int);
        let v = rest.take(prefix_len(rest, eq_stop()) as int);
        if parses_u64(v) {
            Some(digits_val(v))
        } else {
            None
        }
    } else {
        None
    }
}

/// The value of the last line that carries `key` with a readable value.
pub open spec fn last_counter(lines: Seq<Seq<char>>, key: Seq<char>) -> Option<nat>
    decreases lines.len(),
{
    if lines.len() == 0 {
        None
    } else {
        match kv_value(lines.last(), key) {
            Some(v) => Some(v),
            None => last_counter(lines.drop_last(), key),
        }
    }
}

/// Parse the value one `key=value` line carries for `key`.
pub fn parse_counter_line(line: &str, key: &str) -> (r: Option<u64>)
    ensures
        match r {
            Some(v) => kv_value(line@, key@) == Some(v as nat),
            None => kv_value(line@, key@) is None,
        },
{
    if !has_prefix(line, key) {
        return None;
    }
    let np = key.unicode_len();
    let n = line.unicode_len();
    let rest = line.substring_char(np, n);
    proof {
        assert(rest@ =~= line@.skip(key@.len() as int));
    }
    let rn = rest.unicode_len();
    let cut = match find_char_from(rest, '=', 0) {
        Some(j) => j,
        None => rn,
    };
    proof {
        assert forall|m: int| 0 <= m < cut implies !(eq_stop()(rest@[m])) by {
            assert(rest@[m] != '=');
        }
        if (cut as int) < rest@.len() {
            assert(eq_stop()(rest@[cut as int]));
        }
        lemma_prefix_len_unique(rest@, eq_stop(), cut as int);
    }
    let v = rest.substring_char(0, cut);
    proof {
        assert(v@ =~= rest@.take(prefix_len(rest@, eq_stop()) as int));
    }
    parse_u64(v)
}

/// Powers of ten.
pub open spec fn pow10(n: nat) -> nat
    decreases n,
{
    if n == 0 {
        1
    } else {
        10 * pow10((n - 1) as nat)
    }
}

/// A digit string is bounded by the power of ten of its length.
pub proof fn lemma_digits_val_bound(s: Seq<char>)
    requires
        is_digit_seq(s),
    ensures
        digits_val(s) < pow10(s.len()),
    decreases s.len(),
{
    if s.len() == 0 {
    } else {
        assert forall|i: int| 0 <= i < s.drop_last().len() implies crate::text::is_digit_char(
            #[trigger] s.drop_last()[i],
        ) by {
            assert(s.drop_last()[i] == s[i]);
        }
        lemma_digits_val_bound(s.drop_last());
        assert(crate::text::is_digit_char(s.last()));
        assert(crate::text::digit_char_val(s.last()) <= 9);
    }
}

/// Executable powers of ten for the fraction scale.
fn pow10_small(n: u64) -> (r: u64)
    requires
        n <= 6,
    ensures
        r == pow10(n as nat),
{
    proof {
        reveal_with_fuel(pow10, 8);
    }
    if n == 0 {
        1
    } else if n == 1 {
        10
    } else if n == 2 {
        100
    } else if n == 3 {
        1000
    } else if n == 4 {
        10000
    } else if n == 5 {
        100000
    } else {
        1000000
    }
}

/// Stop predicate of the decimal parser: the fraction separator.
pub open spec fn dot_stop() -> spec_fn(char) -> bool {
    |c: char| c == '.'
}

/// A decimal fraction scaled to microseconds: its first six digits, padded
/// with zeros on the right when shorter.
pub open spec fn frac_us(f: Seq<char>) -> nat {
    if f.len() >= 6 {
        digits_val(f.take(6))
    } else {
        digits_val(f) * pow10((6 - f.len()) as nat)
    }
}

/// A latency in seconds, written as a plain decimal number, read as whole
/// microseconds: integer and fraction parts are digit strings (at least one
/// of them non-empty), precision beyond microseconds is dropped, and a value
/// past the representable range is rejected.
pub open spec fn micros_value(v: Seq<char>) -> Option<nat> {
    let ip_len = prefix_len(v, dot_stop()) as int;
    if ip_len == v.len() {
        if v.len() > 0 && is_digit_seq(v) && digits_val(v) * 1000000 <= u64::MAX {
            Some((digits_val(v) * 1000000) as nat)
        } else {
            None
        }
    } else {
        let ip = v.take(ip_len);
        let fp = v.skip(ip_len + 1);
        if ip.len() + fp.len() > 0 && is_digit_seq(ip) && is_digit_seq(fp) && digits_val(ip)
            * 1000000 + frac_us(fp) <= u64::MAX {
            Some((digits_val(ip) * 1000000 + frac_us(fp)) as nat)
        } else {
            None
        }
    }
}

/// Is every character a digit?
fn all_digits(s: &str) -> (r: bool)
    ensures
        r == is_digit_seq(s@),
{
    let n = s.unicode_len();
    let mut i: usize = 0;
    while i < n
        invariant
            n == s@.len(),
            0 <= i <= n,
            forall|j: int| 0 <= j < i ==> crate::text::is_digit_char(s@[j]),
        decreases n - i,
    {
        let c = s.get_char(i);
        if !(c >= '0' && c <= '9') {
            return false;
        }
        i += 1;
    }
    true
}

/// Powers of ten multiply by adding exponents.
proof fn lemma_pow10_split(a: nat, b: nat)
    ensures
        pow10(a) * pow10(b) == pow10(a + b),
    decreases a,
{
    if a == 0 {
    } else {
        lemma_pow10_split((a - 1) as nat, b);
        assert(pow10(a) == 10 * pow10((a - 1) as nat));
        assert(pow10(a + b) == 10 * pow10((a + b - 1) as nat));
        assert((10 * pow10((a - 1) as nat)) * pow10(b) == 10 * (pow10((a - 1) as nat) * pow10(b)))
            by (nonlinear_arith);
    }
}

/// Scale a digit-string fraction to microseconds.
fn frac_us_exec(fp: &str) -> (r: u64)
    requires
        is_digit_seq(fp@),
    ensures
        r as nat == frac_us(fp@),
        r < 1000000,
{
    let n = fp.unicode_len();
    if n >= 6 {
        let head = fp.substring_char(0, 6);
        proof {
            assert(head@ =~= fp@.take(6));
            assert forall|j: int| 0 <= j < head@.len() implies crate::text::is_digit_char(
                #[trigger] head@[j],
            ) by {
                assert(head@[j] == fp@[j]);
            }
            lemma_digits_val_bound(head@);
            reveal_with_fuel(pow10, 8);
        }
        match parse_u64(head) {
            Some(x) => x,
            None => {
                proof {
                    assert(false);
                }
                0
            },
        }
    } else if n == 0 {
        proof {
            assert(fp@ =~= Seq::<char>::empty());
            assert(digits_val(fp@) == 0);
        }
        0
    } else {
        proof {
            lemma_digits_val_bound(fp@);
            reveal_with_fuel(pow10, 8);
        }
        match parse_u64(fp) {
            Some(x) => {
                let scale = pow10_small(6 - n as u64);
                proof {
                    lemma_pow10_split(fp@.len(), (6 - fp@.len()) as nat);
                    assert(digits_val(fp@) * pow10((6 - fp@.len()) as nat) < pow10(fp@.len())
                        * pow10((6 - fp@.len()) as nat)) by (nonlinear_arith)
                        requires
                            digits_val(fp@) < pow10(fp@.len()),
                            pow10((6 - fp@.len()) as nat) > 0,
                    ;
                    assert(pow10((6 - fp@.len()) as nat) > 0) by {
                        reveal_with_fuel(pow10, 8);
                    }
                    assert(pow10(6) == 1000000) by {
                        reveal_with_fuel(pow10, 8);
                    }
                }
                x * scale
            },
            None => {
                proof {
                    reveal_with_fuel(pow10, 8);
                    assert(false);
                }
                0
            },
        }
    }
}

/// Parse a decimal number of seconds into whole microseconds.
pub fn parse_micros(v: &str) -> (r: Option<u64>)
    ensures
        match r {
            Some(x) => micros_value(v@) == Some(x as nat),
            None => micros_value(v@) is None,
        },
{
    let n = v.unicode_len();
    let dot = find_char_from(v, '.', 0);
    let cut = match dot {
        Some(j) => j,
        None => n,
    };
    proof {
        assert forall|m: int| 0 <= m < cut implies !(dot_stop()(v@[m])) by {
            assert(v@[m] != '.');
        }
        if (cut as int) < v@.len() {
            assert(dot_stop()(v@[cut as int]));
        }
        lemma_prefix_len_unique(v@, dot_stop(), cut as int);
    }
    if cut == n {
        // no fraction separator: whole seconds
        match parse_u64(v) {
            Some(x) => {
                if x <= u64::MAX / 1000000 {
                    proof {
                        assert(digits_val(v@) * 1000000 <= u64::MAX) by (nonlinear_arith)
                            requires
                                digits_val(v@) <= u64::MAX as nat / 1000000,
                        ;
                    }
                    Some(x * 1000000)
                } else {
                    proof {
                        assert(digits_val(v@) * 1000000 > u64::MAX) by (nonlinear_arith)
                            requires
                                digits_val(v@) > u64::MAX as nat / 1000000,
                        ;
                    }
                    None
                }
            },
            None => None,
        }
    } else {
        let ip = v.substring_char(0, cut);
        let fp = v.substring_char(cut + 1, n);
        proof {
            assert(ip@ =~= v@.take(cut as int));
            assert(fp@ =~= v@.skip(cut as int + 1));
        }
        if ip.unicode_len() == 0 && fp.unicode_len() == 0 {
            return None;
        }
        if !all_digits(ip) || !all_digits(fp) {
            return None;
        }
        let ipv: u64 = if ip.unicode_len() == 0 {
            proof {
                assert(ip@ =~= Seq::<char>::empty());
            }
            0
        } else {
            match parse_u64(ip) {
                Some(x) => x,
                None => {
                    proof {
                        assert(digits_val(ip@) * 1000000 > u64::MAX) by (nonlinear_arith)
                            requires
                                digits_val(ip@) > u64::MAX as nat,
                        ;
                    }
                    return None;
                },
            }
        };
        if ipv > u64::MAX / 1000000 {
            proof {
                assert(digits_val(ip@) * 1000000 > u64::MAX) by (nonlinear_arith)
                    requires
                        digits_val(ip@) > u64::MAX as nat / 1000000,
                ;
            }
            return None;
        }
        proof {
            assert(digits_val(ip@) * 1000000 <= u64::MAX) by (nonlinear_arith)
                requires
                    digits_val(ip@) <= u64::MAX as nat / 1000000,
            ;
        }
        let fracv = frac_us_exec(fp);
        let whole = ipv * 1000000;
        if whole > u64::MAX - fracv {
            return None;
        }
        Some(whole + fracv)
    }
}

/// The latency a `key=value` line carries for `key`, in microseconds.
pub open spec fn kv_micros(line: Seq<char>, key: Seq<char>) -> Option<nat> {
    if key.is_prefix_of(line) {
        let rest = line.skip(key.len() as int);
        micros_value(rest.take(prefix_len(rest, eq_stop()) as int))
    } else {
        None
    }
}

/// The latency of the last line that carries `key` with a readable value.
pub open spec fn last_micros(lines: Seq<Seq<char>>, key: Seq<char>) -> Option<nat>
    decreases lines.len(),
{
    if lines.len() == 0 {
        None
    } else {
        match kv_micros(lines.last(), key) {
            Some(v) => Some(v),
            None => last_micros(lines.drop_last(), key),
        }
    }
}

/// Parse the latency one `key=value` line carries for `key`.
pub fn parse_latency_line(line: &str, key: &str) -> (r: Option<u64>)
    ensures
        match r {
            Some(v) => kv_micros(line@, key@) == Some(v as nat),
            None => kv_micros(line@, key@) is None,
        },
{
    if !has_prefix(line, key) {
        return None;
    }
    let np = key.unicode_len();
    let n = line.unicode_len();
    let rest = line.substring_char(np, n);
    proof {
        assert(rest@ =~= line@.skip(key@.len() as int));
    }
    let rn = rest.unicode_len();
    let cut = match find_char_from(rest, '=', 0) {
        Some(j) => j,
        None => rn,
    };
    proof {
        assert forall|m: int| 0 <= m < cut implies !(eq_stop()(rest@[m])) by {
            assert(rest@[m] != '=');
        }
        if (cut as int) < rest@.len() {
            assert(eq_stop()(rest@[cut as int]));
        }
        lemma_prefix_len_unique(rest@, eq_stop(), cut as int);
    }
    let v = rest.substring_char(0, cut);
    proof {
        assert(v@ =~= rest@.take(prefix_len(rest@, eq_stop()) as int));
    }
    parse_micros(v)
}

/// The value of the last readable `key` line, or a fallback.
pub open spec fn counter_or(lines: Seq<Seq<char>>, key: Seq<char>, dflt: u64) -> u64 {
    match last_counter(lines, key) {
        Some(v) => v as u64,
        None => dflt,
    }
}

/// The latency of the last readable `key` line, or a fallback.
pub open spec fn micros_or(lines: Seq<Seq<char>>, key: Seq<char>, dflt: u64) -> u64 {
    match last_micros(lines, key) {
        Some(v) => v as u64,
        None => dflt,
    }
}

/// Read the resolver statistics dump into `stats`. Unknown lines are
/// ignored; a recognized counter keeps its previous value when its line does
/// not parse; the two rates are derived from the final counters, zero when
/// no query was answered. The blocked-domain list is not touched here.
pub fn get_dns_stats(output: &Option<String>, stats: &mut DnsStats)
    ensures
        final(stats).blocked_domains == old(stats).blocked_domains,
        match *output {
            None => *final(stats) == *old(stats),
            Some(t) => {
                let ls = lines_spec(t@);
                &&& final(stats).total_queries == counter_or(
                    ls,
                    "total.num.queries="@,
                    old(stats).total_queries,
                )
                &&& final(stats).cache_hits == counter_or(
                    ls,
                    "total.num.cachehits="@,
                    old(stats).cache_hits,
                )
                &&& final(stats).blocked_count == counter_or(
                    ls,
                    "num.answer.rcode.NXDOMAIN="@,
                    old(stats).blocked_count,
                )
                &&& final(stats).avg_response_us == micros_or(
                    ls,
                    "total.answer.time.avg="@,
                    old(stats).avg_response_us,
                )
                &&& final(stats).hit_rate as int == if final(stats).total_queries > 0 {
                    percent_spec(
                        final(stats).cache_hits as int,
                        final(stats).total_queries as int,
                    )
                } else {
                    0
                }
                &&& final(stats).block_rate as int == if final(stats).total_queries > 0 {
                    percent_spec(
                        final(stats).blocked_count as int,
                        final(stats).total_queries as int,
                    )
                } else {
                    0
                }
            },
        },
{
    let t = match output {
        Some(t) => t,
        None => {
            return ;
        },
    };
    let lines = split_lines(t.as_str());
    let mut tq = stats.total_queries;
    let mut ch = stats.cache_hits;
    let mut bc = stats.blocked_count;
    let mut us = stats.avg_response_us;
    let ghost tq0 = stats.total_queries;
    let ghost ch0 = stats.cache_hits;
    let ghost bc0 = stats.blocked_count;
    let ghost us0 = stats.avg_response_us;
    let mut i: usize = 0;
    proof {
        assert(views_of(lines@).take(0) =~= Seq::<Seq<char>>::empty());
    }
    while i < lines.len()
        invariant
            views_of(lines@) == lines_spec(t@),
            0 <= i <= lines.len(),
            tq == counter_or(views_of(lines@).take(i as int), "total.num.queries="@, tq0),
            ch == counter_or(views_of(lines@).take(i as int), "total.num.cachehits="@, ch0),
            bc == counter_or(views_of(lines@).take(i as int), "num.answer.rcode.NXDOMAIN="@, bc0),
            us == micros_or(views_of(lines@).take(i as int), "total.answer.time.avg="@, us0),
        decreases lines.len() - i,
    {
        let line: &str = lines[i].as_str();
        let r_tq = parse_counter_line(line, "total.num.queries=");
        let r_ch = parse_counter_line(line, "total.num.cachehits=");
        let r_bc = parse_counter_line(line, "num.answer.rcode.NXDOMAIN=");
        let r_us = parse_latency_line(line, "total.answer.time.avg=");
        proof {
            let upto = views_of(lines@).take(i as int + 1);
            assert(upto.last() == line@);
            assert(upto.drop_last() =~= views_of(lines@).take(i as int));
        }
        match r_tq {
            Some(v) => {
                tq = v;
            },
            None => {},
        }
        match r_ch {
            Some(v) => {
                ch = v;
            },
            None => {},
        }
        match r_bc {
            Some(v) => {
                bc = v;
            },
            None => {},
        }
        match r_us {
            Some(v) => {
                us = v;
            },
            None => {},
        }
        i += 1;
    }
    proof {
        assert(views_of(lines@).take(lines@.len() as int) =~= views_of(lines@));
    }
    stats.total_queries = tq;
    stats.cache_hits = ch;
    stats.blocked_count = bc;
    stats.avg_response_us = us;
    if tq > 0 {
        stats.hit_rate = rate_percent(ch, tq);
        stats.block_rate = rate_percent(bc, tq);
    } else {
        stats.hit_rate = 0;
        stats.block_rate = 0;
    }
}

} // verus!