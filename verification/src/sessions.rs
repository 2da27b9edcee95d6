//! Per-peer session telemetry: resolving kernel-reported keys to record
//! names, formatting session ages and lifetime transfer totals, and the
//! system uptime read-out.

use vstd::prelude::*;
use crate::record::first_client_key;
use crate::text::{
    decimal_of, digits_val, is_space_char, lemma_prefix_len, lemma_prefix_len_unique, lines_spec,
    parse_u64, prefix_len, split_lines, split_ws, str_eq, tokens_spec, u64_to_string, views_of,
};
use crate::telemetry::parses_u64;

verus! {

/// The views of a vector of string pairs.
pub open spec fn pair_views(v: Seq<(String, String)>) -> Seq<(Seq<char>, Seq<char>)> {
    v.map_values(|p: (String, String)| (p.0@, p.1@))
}

/// The display name for a key no record annotates: its first eight
/// characters (fewer when the key is shorter) and an ellipsis marker.
pub open spec fn fallback_name(key: Seq<char>) -> Seq<char> {
    (if key.len() <= 8 {
        key
    } else {
        key.take(8)
    }) + "..."@
}

/// The display name for a kernel-reported key: the name of the first record
/// whose client-key annotation is exactly the key, or the fallback.
pub open spec fn resolve_name_spec(key: Seq<char>, recs: Seq<(Seq<char>, Seq<char>)>) -> Seq<char>
    decreases recs.len(),
{
    if recs.len() == 0 {
        fallback_name(key)
    } else if first_client_key(lines_spec(recs[0].1)) == Some(key) {
        recs[0].0
    } else {
        resolve_name_spec(key, recs.drop_first())
    }
}

/// Name-resolution fallback law: a key that no record annotates resolves to
/// its truncated prefix with the ellipsis marker, whatever the record set.
pub proof fn lemma_resolve_fallback(key: Seq<char>, recs: Seq<(Seq<char>, Seq<char>)>)
    requires
        forall|i: int|
            0 <= i < recs.len() ==> first_client_key(lines_spec((#[trigger] recs[i]).1)) != Some(
                key,
            ),
    ensures
        resolve_name_spec(key, recs) == fallback_name(key),
    decreases recs.len(),
{
    if recs.len() > 0 {
        assert(first_client_key(lines_spec(recs[0].1)) != Some(key));
        assert forall|i: int| 0 <= i < recs.drop_first().len() implies first_client_key(
            lines_spec((#[trigger] recs.drop_first()[i]).1),
        ) != Some(key) by {
            assert(recs.drop_first()[i] == recs[i + 1]);
        }
        lemma_resolve_fallback(key, recs.drop_first());
    }
}

/// Resolve a kernel-reported key to a display name by scanning the stored
/// records, given as name and text pairs.
pub fn resolve_peer_name(pubkey: &str, records: &Vec<(String, String)>) -> (r: String)
    ensures
        r@ == resolve_name_spec(pubkey@, pair_views(records@)),
{
    let mut i: usize = 0;
    proof {
        assert(pair_views(records@).skip(0) =~= pair_views(records@));
    }
    while i < records.len()
        invariant
            0 <= i <= records.len(),
            resolve_name_spec(pubkey@, pair_views(records@)) == resolve_name_spec(
                pubkey@,
                pair_views(records@).skip(i as int),
            ),
        decreases records.len() - i,
    {
        proof {
            let tail = pair_views(records@).skip(i as int);
            assert(tail[0] == pair_views(records@)[i as int]);
            assert(tail.drop_first() =~= pair_views(records@).skip(i as int + 1));
        }
        let matched = match crate::record::extract_client_key(records[i].1.as_str()) {
            Some(k) => str_eq(k.as_str(), pubkey),
            None => false,
        };
        if matched {
            return records[i].0.clone();
        }
        i += 1;
    }
    proof {
        assert(pair_views(records@).skip(i as int).len() == 0);
    }
    let n = pubkey.unicode_len();
    let cut = if n <= 8 {
        n
    } else {
        8
    };
    let head = pubkey.substring_char(0, cut);
    proof {
        if n <= 8 {
            assert(head@ =~= pubkey@);
        } else {
            assert(head@ =~= pubkey@.take(8));
        }
    }
    head.to_owned().concat("...")
}

/// The age of a handshake: how far the timestamp lies in the past, zero for
/// one that reads as the future.
pub open spec fn session_age(now: int, ts: int) -> nat {
    if ts <= now {
        (now - ts) as nat
    } else {
        0
    }
}

/// An age formatted in seconds, minutes or hours tiers.
pub open spec fn duration_text(diff: nat) -> Seq<char> {
    if diff < 60 {
        decimal_of(diff) + "s ago"@
    } else if diff < 3600 {
        decimal_of(diff / 60) + "m "@ + decimal_of(diff % 60) + "s ago"@
    } else {
        decimal_of(diff / 3600) + "h "@ + decimal_of((diff % 3600) / 60) + "m ago"@
    }
}

/// Format the time since a handshake.
pub fn get_session_duration(now_ts: u64, handshake_ts: u64) -> (r: String)
    ensures
        r@ == duration_text(session_age(now_ts as int, handshake_ts as int)),
{
    let diff: u64 = if handshake_ts <= now_ts {
        now_ts - handshake_ts
    } else {
        0
    };
    if diff < 60 {
        let out = u64_to_string(diff).concat("s ago");
        proof {
            assert(out@ =~= duration_text(diff as nat));
        }
        out
    } else if diff < 3600 {
        let out = u64_to_string(diff / 60).concat("m ").concat(u64_to_string(diff % 60).as_str())
            .concat("s ago");
        proof {
            assert(out@ =~= duration_text(diff as nat));
        }
        out
    } else {
        let out = u64_to_string(diff / 3600).concat("h ").concat(
            u64_to_string((diff % 3600) / 60).as_str(),
        ).concat("m ago");
        proof {
            assert(out@ =~= duration_text(diff as nat));
        }
        out
    }
}

/// A count of hundredths formatted with two decimal places.
pub open spec fn two_dec(hundredths: nat) -> Seq<char> {
    decimal_of(hundredths / 100) + "."@ + (if hundredths % 100 < 10 {
        seq!['0'] + decimal_of(hundredths % 100)
    } else {
        decimal_of(hundredths % 100)
    })
}

/// Format a count of hundredths with two decimal places.
pub fn format_two_dec(hundredths: u64) -> (r: String)
    ensures
        r@ == two_dec(hundredths as nat),
{
    let whole = u64_to_string(hundredths / 100);
    let frac = hundredths % 100;
    let out = if frac < 10 {
        whole.concat(".0").concat(u64_to_string(frac).as_str())
    } else {
        whole.concat(".").concat(u64_to_string(frac).as_str())
    };
    proof {
        reveal_strlit(".");
        reveal_strlit(".0");
        assert(out@ =~= two_dec(hundredths as nat));
    }
    out
}

/// Stop predicate of the whitespace trimmers.
pub open spec fn nonspace_stop() -> spec_fn(char) -> bool {
    |c: char| !is_space_char(c)
}

/// How many whitespace characters end `s`.
pub open spec fn trailing_spaces(s: Seq<char>) -> nat
    decreases s.len(),
{
    if s.len() == 0 {
        0
    } else if !is_space_char(s.last()) {
        0
    } else {
        (1 + trailing_spaces(s.drop_last())) as nat
    }
}

/// Characterization of [`trailing_spaces`]: the trailing run is whitespace.
proof fn lemma_trailing(s: Seq<char>)
    ensures
        trailing_spaces(s) <= s.len(),
        forall|j: int| s.len() - trailing_spaces(s) <= j < s.len() ==> is_space_char(s[j]),
    decreases s.len(),
{
    if s.len() == 0 {
    } else if !is_space_char(s.last()) {
    } else {
        lemma_trailing(s.drop_last());
        assert forall|j: int| s.len() - trailing_spaces(s) <= j < s.len() implies is_space_char(
            s[j],
        ) by {
            if j < s.len() - 1 {
                assert(s.drop_last()[j] == s[j]);
            }
        }
    }
}

/// Characterization of [`trailing_spaces`], converse direction.
proof fn lemma_trailing_unique(s: Seq<char>, t: int)
    requires
        0 <= t <= s.len(),
        forall|j: int| s.len() - t <= j < s.len() ==> is_space_char(s[j]),
        t < s.len() ==> !is_space_char(s[s.len() - t - 1]),
    ensures
        trailing_spaces(s) == t,
    decreases s.len(),
{
    if s.len() == 0 {
    } else if t == 0 {
        assert(!is_space_char(s.last()));
    } else {
        assert(is_space_char(s.last()));
        lemma_trailing_unique(s.drop_last(), t - 1);
    }
}

/// `s` with its leading and trailing whitespace removed.
pub open spec fn trim_spec(s: Seq<char>) -> Seq<char> {
    let a = prefix_len(s, nonspace_stop()) as int;
    if a == s.len() {
        Seq::empty()
    } else {
        s.subrange(a, s.len() - trailing_spaces(s))
    }
}

/// Count the leading whitespace of `s`.
fn leading_ws(s: &str) -> (r: usize)
    ensures
        r == prefix_len(s@, nonspace_stop()),
{
    let n = s.unicode_len();
    let mut i: usize = 0;
    while i < n
        invariant
            n == s@.len(),
            0 <= i <= n,
            forall|j: int| 0 <= j < i ==> is_space_char(s@[j]),
        decreases n - i,
    {
        let c = s.get_char(i);
        if !crate::text::is_space(c) {
            proof {
                assert forall|j: int| 0 <= j < i implies !(nonspace_stop()(s@[j])) by {}
                lemma_prefix_len_unique(s@, nonspace_stop(), i as int);
            }
            return i;
        }
        i += 1;
    }
    proof {
        assert forall|j: int| 0 <= j < s@.len() implies !(nonspace_stop()(s@[j])) by {}
        lemma_prefix_len_unique(s@, nonspace_stop(), s@.len() as int);
    }
    n
}

/// Count the trailing whitespace of `s`.
fn trailing_ws(s: &str) -> (r: usize)
    ensures
        r == trailing_spaces(s@),
{
    let n = s.unicode_len();
    let mut t: usize = 0;
    while t < n
        invariant
            n == s@.len(),
            0 <= t <= n,
            forall|j: int| s@.len() - t <= j < s@.len() ==> is_space_char(s@[j]),
        decreases n - t,
    {
        let c = s.get_char(n - 1 - t);
        if !crate::text::is_space(c) {
            proof {
                lemma_trailing_unique(s@, t as int);
            }
            return t;
        }
        t += 1;
    }
    proof {
        lemma_trailing_unique(s@, s@.len() as int);
    }
    n
}

/// Remove the leading and trailing whitespace of `s`.
pub fn trim_str(s: &str) -> (r: String)
    ensures
        r@ == trim_spec(s@),
{
    let n = s.unicode_len();
    let a = leading_ws(s);
    if a == n {
        proof {
            reveal_strlit("");
            assert(""@ =~= Seq::<char>::empty());
        }
        return "".to_owned();
    }
    let t = trailing_ws(s);
    proof {
        lemma_prefix_len(s@, nonspace_stop());
        lemma_trailing(s@);
        assert(!is_space_char(s@[a as int]));
        // the non-space character at `a` bounds the trailing run
        if (a as int) >= s@.len() - trailing_spaces(s@) {
            assert(is_space_char(s@[a as int]));
        }
    }
    s.substring_char(a, n - t).to_owned()
}

/// Where `needle` first occurs in `hay`.
pub open spec fn find_sub_spec(hay: Seq<char>, needle: Seq<char>) -> Option<nat>
    decreases hay.len(),
{
    if needle.is_prefix_of(hay) {
        Some(0)
    } else if hay.len() == 0 {
        None
    } else {
        match find_sub_spec(hay.drop_first(), needle) {
            Some(i) => Some((i + 1) as nat),
            None => None,
        }
    }
}

/// `find_sub_spec` finds the least occurrence.
proof fn lemma_find_sub_at(hay: Seq<char>, needle: Seq<char>, k: int)
    requires
        0 <= k <= hay.len(),
        needle.is_prefix_of(hay.skip(k)),
        forall|j: int| 0 <= j < k ==> !needle.is_prefix_of(hay.skip(j)),
    ensures
        find_sub_spec(hay, needle) == Some(k as nat),
    decreases k,
{
    if k == 0 {
        assert(hay.skip(0) =~= hay);
    } else {
        assert(hay.skip(0) =~= hay);
        assert(!needle.is_prefix_of(hay));
        let d = hay.drop_first();
        assert(d =~= hay.skip(1));
        assert(d.skip(k - 1) =~= hay.skip(k));
        assert forall|j: int| 0 <= j < k - 1 implies !needle.is_prefix_of(d.skip(j)) by {
            assert(d.skip(j) =~= hay.skip(j + 1));
        }
        lemma_find_sub_at(d, needle, k - 1);
    }
}

/// `find_sub_spec` misses nothing.
proof fn lemma_find_sub_none(hay: Seq<char>, needle: Seq<char>)
    requires
        forall|j: int| 0 <= j <= hay.len() ==> !needle.is_prefix_of(hay.skip(j)),
    ensures
        find_sub_spec(hay, needle) is None,
    decreases hay.len(),
{
    assert(hay.skip(0) =~= hay);
    if hay.len() > 0 {
        let d = hay.drop_first();
        assert forall|j: int| 0 <= j <= d.len() implies !needle.is_prefix_of(d.skip(j)) by {
            assert(d.skip(j) =~= hay.skip(j + 1));
        }
        lemma_find_sub_none(d, needle);
    }
}

/// Find the first occurrence of `p` in `s`.
pub fn find_sub(s: &str, p: &str) -> (r: Option<usize>)
    ensures
        match r {
            Some(i) => find_sub_spec(s@, p@) == Some(i as nat),
            None => find_sub_spec(s@, p@) is None,
        },
{
    let n = s.unicode_len();
    let np = p.unicode_len();
    if np > n {
        proof {
            assert forall|j: int| 0 <= j <= s@.len() implies !p@.is_prefix_of(s@.skip(j)) by {
                assert(s@.skip(j).len() < p@.len());
            }
            lemma_find_sub_none(s@, p@);
        }
        return None;
    }
    let mut i: usize = 0;
    while i <= n - np
        invariant
            n == s@.len(),
            np == p@.len(),
            np <= n,
            0 <= i <= n - np + 1,
            forall|j: int| 0 <= j < i ==> !p@.is_prefix_of(s@.skip(j)),
        decreases n - np + 1 - i,
    {
        let tail = s.substring_char(i, n);
        proof {
            assert(tail@ =~= s@.skip(i as int));
        }
        if crate::text::has_prefix(tail, p) {
            proof {
                lemma_find_sub_at(s@, p@, i as int);
            }
            return Some(i);
        }
        i += 1;
    }
    proof {
        assert forall|j: int| 0 <= j <= s@.len() implies !p@.is_prefix_of(s@.skip(j)) by {
            if j > n - np {
                assert(s@.skip(j).len() < p@.len());
            }
        }
        lemma_find_sub_none(s@, p@);
    }
    None
}

/// Stop predicate of the uptime parser: the read-out ends at a comma.
pub open spec fn comma_stop() -> spec_fn(char) -> bool {
    |c: char| c == ','
}

/// The uptime read-out of an uptime report: the text between the first
/// `up ` marker and the next comma, or the sentinel `Unknown` when no
/// marker is present.
pub open spec fn uptime_spec(t: Seq<char>) -> Seq<char> {
    let tr = trim_spec(t);
    match find_sub_spec(tr, "up "@) {
        Some(i) => {
            let rest = tr.skip(i + "up "@.len() as int);
            rest.take(prefix_len(rest, comma_stop()) as int)
        },
        None => "Unknown"@,
    }
}

/// Read the uptime portion out of an uptime report.
pub fn get_system_uptime(output: &Option<String>) -> (r: String)
    ensures
        r@ == match *output {
            Some(t) => uptime_spec(t@),
            None => "Unknown"@,
        },
{
    let t = match output {
        Some(t) => t,
        None => {
            return "Unknown".to_owned();
        },
    };
    let trimmed = trim_str(t.as_str());
    let tr: &str = trimmed.as_str();
    let i = match find_sub(tr, "up ") {
        Some(i) => i,
        None => {
            return "Unknown".to_owned();
        },
    };
    let np = "up ".unicode_len();
    let n = tr.unicode_len();
    proof {
        // the found occurrence fits inside the text
        lemma_find_sub_bounds(tr@, "up "@);
    }
    let rest = tr.substring_char(i + np, n);
    proof {
        assert(rest@ =~= tr@.skip(i as int + "up "@.len() as int));
    }
    let rn = rest.unicode_len();
    let cut = match crate::text::find_char_from(rest, ',', 0) {
        Some(j) => j,
        None => rn,
    };
    proof {
        assert forall|m: int| 0 <= m < cut implies !(comma_stop()(rest@[m])) by {
            assert(rest@[m] != ',');
        }
        if (cut as int) < rest@.len() {
            assert(comma_stop()(rest@[cut as int]));
        }
        lemma_prefix_len_unique(rest@, comma_stop(), cut as int);
    }
    rest.substring_char(0, cut).to_owned()
}

/// The session entry one handshake line yields: a line of at least two
/// tokens whose second is a positive number becomes a resolved name and a
/// formatted age; other lines yield nothing.
pub open spec fn session_entry_of(
    line: Seq<char>,
    recs: Seq<(Seq<char>, Seq<char>)>,
    now: int,
) -> Option<(Seq<char>, Seq<char>)> {
    let toks = tokens_spec(line);
    if toks.len() >= 2 && parses_u64(toks[1]) && digits_val(toks[1]) > 0 {
        Some(
            (
                resolve_name_spec(toks[0], recs),
                duration_text(session_age(now, digits_val(toks[1]) as int)),
            ),
        )
    } else {
        None
    }
}

/// The session entries of a handshake dump, in report order.
pub open spec fn session_entries(
    lines: Seq<Seq<char>>,
    recs: Seq<(Seq<char>, Seq<char>)>,
    now: int,
) -> Seq<(Seq<char>, Seq<char>)>
    decreases lines.len(),
{
    if lines.len() == 0 {
        seq![]
    } else {
        let rest = session_entries(lines.drop_first(), recs, now);
        match session_entry_of(lines[0], recs, now) {
            Some(e) => seq![e] + rest,
            None => rest,
        }
    }
}

/// A byte counter token read as a number, zero when unreadable.
pub open spec fn bytes_of(tok: Seq<char>) -> nat {
    if parses_u64(tok) {
        digits_val(tok)
    } else {
        0
    }
}

/// The lifetime transfer read-out of one peer: received bytes in hundredths
/// of a mebibyte, transmitted bytes in hundredths of a gibibyte, both with
/// two decimal places.
pub open spec fn usage_text(rx: Seq<char>, tx: Seq<char>) -> Seq<char> {
    two_dec(bytes_of(rx) * 100 / 1048576) + " MB RX / "@ + two_dec(bytes_of(tx) * 100 / 1073741824)
        + " GB TX"@
}

/// The usage entry one transfer line yields: a line of at least three
/// tokens becomes a resolved name and a formatted transfer read-out.
pub open spec fn usage_entry_of(line: Seq<char>, recs: Seq<(Seq<char>, Seq<char>)>) -> Option<
    (Seq<char>, Seq<char>),
> {
    let toks = tokens_spec(line);
    if toks.len() >= 3 {
        Some((resolve_name_spec(toks[0], recs), usage_text(toks[1], toks[2])))
    } else {
        None
    }
}

/// The usage entries of a transfer dump, in report order.
pub open spec fn usage_entries(
    lines: Seq<Seq<char>>,
    recs: Seq<(Seq<char>, Seq<char>)>,
) -> Seq<(Seq<char>, Seq<char>)>
    decreases lines.len(),
{
    if lines.len() == 0 {
        seq![]
    } else {
        let rest = usage_entries(lines.drop_first(), recs);
        match usage_entry_of(lines[0], recs) {
            Some(e) => seq![e] + rest,
            None => rest,
        }
    }
}

/// Pushing a pair and then taking views appends its views.
proof fn lemma_pair_views_push(v: Seq<(String, String)>, x: (String, String))
    ensures
        pair_views(v.push(x)) == pair_views(v).push((x.0@, x.1@)),
{
    assert(pair_views(v.push(x)) =~= pair_views(v).push((x.0@, x.1@)));
}

/// Scale a byte counter to hundredths of the given unit.
fn hundredths_of_unit(tok: &str, unit: u64) -> (r: u64)
    requires
        unit >= 100,
    ensures
        r as nat == bytes_of(tok@) * 100 / unit as nat,
{
    let v: u64 = match parse_u64(tok) {
        Some(x) => x,
        None => 0,
    };
    let h: u128 = (v as u128) * 100 / (unit as u128);
    proof {
        assert((v as int) * 100 / (unit as int) <= v as int) by (nonlinear_arith)
            requires
                unit >= 100,
                v >= 0,
        ;
    }
    h as u64
}

/// The session entries of a handshake dump.
fn session_list(handshakes: &str, records: &Vec<(String, String)>, now_ts: u64) -> (r: Vec<
    (String, String),
>)
    ensures
        pair_views(r@) == session_entries(
            lines_spec(handshakes@),
            pair_views(records@),
            now_ts as int,
        ),
{
    let ghost recs = pair_views(records@);
    let lines = split_lines(handshakes);
    let mut out: Vec<(String, String)> = Vec::new();
    let mut i: usize = 0;
    proof {
        assert(views_of(lines@).skip(0) =~= views_of(lines@));
        assert(pair_views(out@) + session_entries(views_of(lines@), recs, now_ts as int)
            =~= session_entries(views_of(lines@), recs, now_ts as int));
    }
    while i < lines.len()
        invariant
            recs == pair_views(records@),
            views_of(lines@) == lines_spec(handshakes@),
            0 <= i <= lines.len(),
            session_entries(views_of(lines@), recs, now_ts as int) == pair_views(out@)
                + session_entries(views_of(lines@).skip(i as int), recs, now_ts as int),
        decreases lines.len() - i,
    {
        let line: &str = lines[i].as_str();
        proof {
            let tail = views_of(lines@).skip(i as int);
            assert(tail[0] == line@);
            assert(tail.drop_first() =~= views_of(lines@).skip(i as int + 1));
        }
        let toks = split_ws(line);
        let mut entry: Option<(String, String)> = None;
        if toks.len() >= 2 {
            proof {
                assert(toks@[0]@ == tokens_spec(line@)[0]);
                assert(toks@[1]@ == tokens_spec(line@)[1]);
            }
            match parse_u64(toks[1].as_str()) {
                Some(ts) => {
                    if ts > 0 {
                        let name = resolve_peer_name(toks[0].as_str(), records);
                        let age = get_session_duration(now_ts, ts);
                        entry = Some((name, age));
                    }
                },
                None => {},
            }
        }
        match entry {
            Some(e) => {
                proof {
                    let tail = views_of(lines@).skip(i as int);
                    assert(session_entry_of(line@, recs, now_ts as int) == Some((e.0@, e.1@)));
                    assert(session_entries(tail, recs, now_ts as int) == seq![(e.0@, e.1@)]
                        + session_entries(
                        views_of(lines@).skip(i as int + 1),
                        recs,
                        now_ts as int,
                    ));
                    lemma_pair_views_push(out@, e);
                    assert(pair_views(out@) + (seq![(e.0@, e.1@)] + session_entries(
                        views_of(lines@).skip(i as int + 1),
                        recs,
                        now_ts as int,
                    )) =~= pair_views(out@.push(e)) + session_entries(
                        views_of(lines@).skip(i as int + 1),
                        recs,
                        now_ts as int,
                    ));
                }
                out.push(e);
            },
            None => {
                proof {
                    let tail = views_of(lines@).skip(i as int);
                    assert(session_entry_of(line@, recs, now_ts as int) is None);
                    assert(session_entries(tail, recs, now_ts as int) == session_entries(
                        views_of(lines@).skip(i as int + 1),
                        recs,
                        now_ts as int,
                    ));
                }
            },
        }
        i += 1;
    }
    proof {
        assert(views_of(lines@).skip(i as int).len() == 0);
        assert(pair_views(out@) + session_entries(
            Seq::<Seq<char>>::empty(),
            recs,
            now_ts as int,
        ) =~= pair_views(out@));
    }
    out
}

/// The usage entries of a transfer dump.
fn usage_list(transfers: &str, records: &Vec<(String, String)>) -> (r: Vec<(String, String)>)
    ensures
        pair_views(r@) == usage_entries(lines_spec(transfers@), pair_views(records@)),
{
    let ghost recs = pair_views(records@);
    let lines = split_lines(transfers);
    let mut out: Vec<(String, String)> = Vec::new();
    let mut i: usize = 0;
    proof {
        assert(views_of(lines@).skip(0) =~= views_of(lines@));
        assert(pair_views(out@) + usage_entries(views_of(lines@), recs) =~= usage_entries(
            views_of(lines@),
            recs,
        ));
    }
    while i < lines.len()
        invariant
            recs == pair_views(records@),
            views_of(lines@) == lines_spec(transfers@),
            0 <= i <= lines.len(),
            usage_entries(views_of(lines@), recs) == pair_views(out@) + usage_entries(
                views_of(lines@).skip(i as int),
                recs,
            ),
        decreases lines.len() - i,
    {
        let line: &str = lines[i].as_str();
        proof {
            let tail = views_of(lines@).skip(i as int);
            assert(tail[0] == line@);
            assert(tail.drop_first() =~= views_of(lines@).skip(i as int + 1));
        }
        let toks = split_ws(line);
        if toks.len() >= 3 {
            proof {
                assert(toks@[0]@ == tokens_spec(line@)[0]);
                assert(toks@[1]@ == tokens_spec(line@)[1]);
                assert(toks@[2]@ == tokens_spec(line@)[2]);
            }
            let name = resolve_peer_name(toks[0].as_str(), records);
            let rx_h = hundredths_of_unit(toks[1].as_str(), 1048576);
            let tx_h = hundredths_of_unit(toks[2].as_str(), 1073741824);
            let text = format_two_dec(rx_h).concat(" MB RX / ").concat(
                format_two_dec(tx_h).as_str(),
            ).concat(" GB TX");
            proof {
                assert(text@ =~= usage_text(tokens_spec(line@)[1], tokens_spec(line@)[2]));
            }
            let e = (name, text);
            proof {
                let tail = views_of(lines@).skip(i as int);
                assert(usage_entry_of(line@, recs) == Some((e.0@, e.1@)));
                assert(usage_entries(tail, recs) == seq![(e.0@, e.1@)] + usage_entries(
                    views_of(lines@).skip(i as int + 1),
                    recs,
                ));
                lemma_pair_views_push(out@, e);
                assert(pair_views(out@) + (seq![(e.0@, e.1@)] + usage_entries(
                    views_of(lines@).skip(i as int + 1),
                    recs,
                )) =~= pair_views(out@.push(e)) + usage_entries(
                    views_of(lines@).skip(i as int + 1),
                    recs,
                ));
            }
            out.push(e);
        } else {
            proof {
                let tail = views_of(lines@).skip(i as int);
                assert(usage_entry_of(line@, recs) is None);
                assert(usage_entries(tail, recs) == usage_entries(
                    views_of(lines@).skip(i as int + 1),
                    recs,
                ));
            }
        }
        i += 1;
    }
    proof {
        assert(views_of(lines@).skip(i as int).len() == 0);
        assert(pair_views(out@) + usage_entries(Seq::<Seq<char>>::empty(), recs) =~= pair_views(
            out@,
        ));
    }
    out
}

/// Cap a list at five entries, then pad it with blank pairs to exactly five.
fn cap_and_pad(mut v: Vec<(String, String)>) -> (r: Vec<(String, String)>)
    ensures
        r@.len() == 5,
        forall|i: int|
            0 <= i < 5 ==> #[trigger] pair_views(r@)[i] == if i < pair_views(v@).len() && i < 5 {
                pair_views(v@)[i]
            } else {
                (Seq::<char>::empty(), Seq::<char>::empty())
            },
{
    let ghost full = pair_views(v@);
    v.truncate(5);
    proof {
        if full.len() > 5 {
            assert(pair_views(v@) =~= full.take(5));
        }
    }
    while v.len() < 5
        invariant
            v@.len() <= 5,
            forall|i: int|
                0 <= i < v@.len() ==> #[trigger] pair_views(v@)[i] == if i < full.len() && i < 5 {
                    full[i]
                } else {
                    (Seq::<char>::empty(), Seq::<char>::empty())
                },
            full.len() >= 5 ==> v@.len() == 5,
            full.len() < 5 ==> v@.len() >= full.len(),
        decreases 5 - v@.len(),
    {
        let ghost before = v@;
        let blank = (String::new(), String::new());
        proof {
            lemma_pair_views_push(before, blank);
        }
        v.push(blank);
        proof {
            assert forall|i: int| 0 <= i < v@.len() implies #[trigger] pair_views(v@)[i] == if i
                < full.len() && i < 5 {
                full[i]
            } else {
                (Seq::<char>::empty(), Seq::<char>::empty())
            } by {
                if i < before.len() {
                    assert(pair_views(v@)[i] == pair_views(before)[i]);
                }
            }
        }
    }
    v
}

/// The dashboard's two per-peer panes: active sessions from the handshake
/// dump and lifetime usage from the transfer dump, each resolved against the
/// stored records, capped at five entries and padded with blanks to five.
pub fn get_active_peers_with_usage(
    handshakes: &Option<String>,
    transfers: &Option<String>,
    records: &Vec<(String, String)>,
    now_ts: u64,
) -> (r: (Vec<(String, String)>, Vec<(String, String)>))
    ensures
        ({
            let se = session_entries(
                match *handshakes {
                    Some(t) => lines_spec(t@),
                    None => Seq::empty(),
                },
                pair_views(records@),
                now_ts as int,
            );
            let ue = usage_entries(
                match *transfers {
                    Some(t) => lines_spec(t@),
                    None => Seq::empty(),
                },
                pair_views(records@),
            );
            &&& r.0@.len() == 5
            &&& r.1@.len() == 5
            &&& forall|i: int|
                0 <= i < 5 ==> #[trigger] pair_views(r.0@)[i] == if i < se.len() && i < 5 {
                    se[i]
                } else {
                    (Seq::<char>::empty(), Seq::<char>::empty())
                }
            &&& forall|i: int|
                0 <= i < 5 ==> #[trigger] pair_views(r.1@)[i] == if i < ue.len() && i < 5 {
                    ue[i]
                } else {
                    (Seq::<char>::empty(), Seq::<char>::empty())
                }
        }),
{
    let sessions = match handshakes {
        Some(t) => session_list(t.as_str(), records, now_ts),
        None => Vec::new(),
    };
    let usage = match transfers {
        Some(t) => usage_list(t.as_str(), records),
        None => Vec::new(),
    };
    proof {
        assert(pair_views(Seq::<(String, String)>::empty()) =~= Seq::<(
            Seq<char>,
            Seq<char>,
        )>::empty());
    }
    (cap_and_pad(sessions), cap_and_pad(usage))
}

/// A found occurrence lies within the text and is a real occurrence.
proof fn lemma_find_sub_bounds(hay: Seq<char>, needle: Seq<char>)
    ensures
        match find_sub_spec(hay, needle) {
            Some(i) => 0 <= i && i + needle.len() <= hay.len() && needle.is_prefix_of(
                hay.skip(i as int),
            ),
            None => true,
        },
    decreases hay.len(),
{
    if needle.is_prefix_of(hay) {
        assert(hay.skip(0) =~= hay);
    } else if hay.len() == 0 {
    } else {
        lemma_find_sub_bounds(hay.drop_first(), needle);
        if find_sub_spec(hay.drop_first(), needle) is Some {
            let i = find_sub_spec(hay.drop_first(), needle).unwrap();
            assert(hay.drop_first().skip(i as int) =~= hay.skip(i as int + 1));
        }
    }
}

} // verus!
