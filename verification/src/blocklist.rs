//! The top-blocked-domain list: extraction from the resolver log, frequency
//! ranking, and the fallback chain ending in a fixed built-in list.

use vstd::prelude::*;
use vstd::pervasive::VecAdditionalExecFns;
use crate::text::{has_prefix, lines_spec, split_lines, split_ws, str_eq, tokens_spec, views_of};

verus! {

/// `needle` occurs somewhere in `hay`.
pub open spec fn has_sub(hay: Seq<char>, needle: Seq<char>) -> bool {
    exists|i: int| 0 <= i <= hay.len() && needle.is_prefix_of(hay.skip(i))
}

/// Substring search, character by character.
pub fn contains_sub(s: &str, p: &str) -> (r: bool)
    ensures
        r == has_sub(s@, p@),
{
    let n = s.unicode_len();
    let np = p.unicode_len();
    if np > n {
        proof {
            assert forall|i: int| 0 <= i <= s@.len() implies !p@.is_prefix_of(s@.skip(i)) by {
                assert(s@.skip(i).len() < p@.len());
            }
        }
        return false;
    }
    let mut i: usize = 0;
    while i <= n - np
        invariant
            n == s@.len(),
            np == p@.len(),
            np <= n,
            0 <= i <= n - np + 1,
            forall|j: int| 0 <= j < i ==> !p@.is_prefix_of(s@.skip(j)),
        decreases n - np + 1 - i,
    {
        let tail = s.substring_char(i, n);
        proof {
            assert(tail@ =~= s@.skip(i as int));
        }
        if has_prefix(tail, p) {
            return true;
        }
        i += 1;
    }
    proof {
        assert forall|j: int| 0 <= j <= s@.len() implies !p@.is_prefix_of(s@.skip(j)) by {
            if j > n - np {
                assert(s@.skip(j).len() < p@.len());
            }
        }
    }
    false
}

/// The blocked name one resolver log line reports: the eighth token of a
/// line that mentions the blocked-response code.
pub open spec fn nx_name_of(line: Seq<char>) -> Option<Seq<char>> {
    if has_sub(line, "NXDOMAIN"@) && tokens_spec(line).len() >= 8 {
        Some(tokens_spec(line)[7])
    } else {
        None
    }
}

/// Every blocked name a resolver log reports, in log order.
pub open spec fn nx_names(lines: Seq<Seq<char>>) -> Seq<Seq<char>>
    decreases lines.len(),
{
    if lines.len() == 0 {
        seq![]
    } else {
        let rest = nx_names(lines.drop_first());
        match nx_name_of(lines[0]) {
            Some(x) => seq![x] + rest,
            None => rest,
        }
    }
}

/// Extract the blocked names out of a resolver log.
pub fn nxdomain_names(log: &str) -> (r: Vec<String>)
    ensures
        views_of(r@) == nx_names(lines_spec(log@)),
{
    let lines = split_lines(log);
    let mut out: Vec<String> = Vec::new();
    let mut i: usize = 0;
    proof {
        assert(views_of(lines@).skip(0) =~= views_of(lines@));
        assert(views_of(out@) + nx_names(views_of(lines@)) =~= nx_names(views_of(lines@)));
    }
    while i < lines.len()
        invariant
            views_of(lines@) == lines_spec(log@),
            0 <= i <= lines.len(),
            nx_names(views_of(lines@)) == views_of(out@) + nx_names(
                views_of(lines@).skip(i as int),
            ),
        decreases lines.len() - i,
    {
        let line: &str = lines[i].as_str();
        proof {
            let tail = views_of(lines@).skip(i as int);
            assert(tail[0] == line@);
            assert(tail.drop_first() =~= views_of(lines@).skip(i as int + 1));
        }
        if contains_sub(line, "NXDOMAIN") {
            let toks = split_ws(line);
            if toks.len() >= 8 {
                let name = toks[7].clone();
                proof {
                    assert(name@ == views_of(toks@)[7]);
                    let tail = views_of(lines@).skip(i as int);
                    assert(nx_names(tail) == seq![name@] + nx_names(
                        views_of(lines@).skip(i as int + 1),
                    ));
                    crate::text::lemma_views_push(out@, name);
                    assert(views_of(out@) + (seq![name@] + nx_names(
                        views_of(lines@).skip(i as int + 1),
                    )) =~= views_of(out@.push(name)) + nx_names(views_of(lines@).skip(i as int + 1)));
                }
                out.push(name);
            }
        }
        i += 1;
    }
    proof {
        assert(views_of(lines@).skip(i as int).len() == 0);
        assert(views_of(out@) + nx_names(Seq::<Seq<char>>::empty()) =~= views_of(out@));
    }
    out
}

/// The zone a blocklist line declares: the second token of a line starting
/// with the zone keyword.
pub open spec fn zone_name_of(line: Seq<char>) -> Option<Seq<char>> {
    if "local-zone:"@.is_prefix_of(line) && tokens_spec(line).len() >= 2 {
        Some(tokens_spec(line)[1])
    } else {
        None
    }
}

/// Every zone a blocklist declares, in file order.
pub open spec fn zone_names(lines: Seq<Seq<char>>) -> Seq<Seq<char>>
    decreases lines.len(),
{
    if lines.len() == 0 {
        seq![]
    } else {
        let rest = zone_names(lines.drop_first());
        match zone_name_of(lines[0]) {
            Some(x) => seq![x] + rest,
            None => rest,
        }
    }
}

/// Extract the declared zones out of a blocklist text.
pub fn blocklist_zones(text: &str) -> (r: Vec<String>)
    ensures
        views_of(r@) == zone_names(lines_spec(text@)),
{
    let lines = split_lines(text);
    let mut out: Vec<String> = Vec::new();
    let mut i: usize = 0;
    proof {
        assert(views_of(lines@).skip(0) =~= views_of(lines@));
        assert(views_of(out@) + zone_names(views_of(lines@)) =~= zone_names(views_of(lines@)));
    }
    while i < lines.len()
        invariant
            views_of(lines@) == lines_spec(text@),
            0 <= i <= lines.len(),
            zone_names(views_of(lines@)) == views_of(out@) + zone_names(
                views_of(lines@).skip(i as int),
            ),
        decreases lines.len() - i,
    {
        let line: &str = lines[i].as_str();
        proof {
            let tail = views_of(lines@).skip(i as int);
            assert(tail[0] == line@);
            assert(tail.drop_first() =~= views_of(lines@).skip(i as int + 1));
        }
        if has_prefix(line, "local-zone:") {
            let toks = split_ws(line);
            if toks.len() >= 2 {
                let name = toks[1].clone();
                proof {
                    assert(name@ == views_of(toks@)[1]);
                    let tail = views_of(lines@).skip(i as int);
                    assert(zone_names(tail) == seq![name@] + zone_names(
                        views_of(lines@).skip(i as int + 1),
                    ));
                    crate::text::lemma_views_push(out@, name);
                    assert(views_of(out@) + (seq![name@] + zone_names(
                        views_of(lines@).skip(i as int + 1),
                    )) =~= views_of(out@.push(name)) + zone_names(
                        views_of(lines@).skip(i as int + 1),
                    ));
                }
                out.push(name);
            } else {
                proof {
                    let tail = views_of(lines@).skip(i as int);
                    assert(zone_names(tail) == zone_names(views_of(lines@).skip(i as int + 1)));
                }
            }
        } else {
            proof {
                let tail = views_of(lines@).skip(i as int);
                assert(zone_names(tail) == zone_names(views_of(lines@).skip(i as int + 1)));
            }
        }
        i += 1;
    }
    proof {
        assert(views_of(lines@).skip(i as int).len() == 0);
        assert(views_of(out@) + zone_names(Seq::<Seq<char>>::empty()) =~= views_of(out@));
    }
    out
}

/// The fixed example list the fallback chain ends in.
pub open spec fn builtin_blocked() -> Seq<Seq<char>> {
    seq![
        "doubleclick.net"@,
        "googlesyndication.com"@,
        "googleadservices.com"@,
        "googletagmanager.com"@,
        "googletagservices.com"@,
        "facebook.com"@,
        "fbcdn.net"@,
        "amazon-adsystem.com"@,
        "s.youtube.com"@,
        "pagead2.googlesyndication.com"@,
    ]
}

/// Build the fixed example list.
pub fn builtin_blocked_domains() -> (r: Vec<String>)
    ensures
        views_of(r@) == builtin_blocked(),
{
    let mut out: Vec<String> = Vec::new();
    out.push("doubleclick.net".to_owned());
    out.push("googlesyndication.com".to_owned());
    out.push("googleadservices.com".to_owned());
    out.push("googletagmanager.com".to_owned());
    out.push("googletagservices.com".to_owned());
    out.push("facebook.com".to_owned());
    out.push("fbcdn.net".to_owned());
    out.push("amazon-adsystem.com".to_owned());
    out.push("s.youtube.com".to_owned());
    out.push("pagead2.googlesyndication.com".to_owned());
    proof {
        assert(views_of(out@) =~= builtin_blocked());
    }
    out
}

/// How often `x` occurs in `xs`.
pub open spec fn count_of(xs: Seq<Seq<char>>, x: Seq<char>) -> nat
    decreases xs.len(),
{
    if xs.len() == 0 {
        0
    } else {
        (if xs[0] == x {
            1nat
        } else {
            0nat
        }) + count_of(xs.drop_first(), x)
    }
}

/// Appending one element raises its count by one and no other.
proof fn lemma_count_push(xs: Seq<Seq<char>>, y: Seq<char>, x: Seq<char>)
    ensures
        count_of(xs.push(y), x) == count_of(xs, x) + (if y == x {
            1int
        } else {
            0int
        }),
    decreases xs.len(),
{
    if xs.len() == 0 {
        assert(xs.push(y).drop_first() =~= Seq::<Seq<char>>::empty());
        assert(xs.push(y)[0] == y);
        assert(count_of(Seq::<Seq<char>>::empty(), x) == 0);
        assert(count_of(xs, x) == 0);
    } else {
        lemma_count_push(xs.drop_first(), y, x);
        assert(xs.push(y).drop_first() =~= xs.drop_first().push(y));
        assert(xs.push(y)[0] == xs[0]);
        assert(count_of(xs.push(y), x) == (if xs[0] == x {
            1int
        } else {
            0int
        }) + count_of(xs.drop_first().push(y), x));
    }
}

/// A count never exceeds the length.
proof fn lemma_count_le_len(xs: Seq<Seq<char>>, x: Seq<char>)
    ensures
        count_of(xs, x) <= xs.len(),
    decreases xs.len(),
{
    if xs.len() > 0 {
        lemma_count_le_len(xs.drop_first(), x);
    }
}

/// An element that does not occur counts zero; one that occurs counts at
/// least one.
proof fn lemma_count_contains(xs: Seq<Seq<char>>, x: Seq<char>)
    ensures
        xs.contains(x) <==> count_of(xs, x) > 0,
    decreases xs.len(),
{
    if xs.len() > 0 {
        lemma_count_contains(xs.drop_first(), x);
        if xs[0] == x {
        } else {
            assert(xs.contains(x) <==> xs.drop_first().contains(x)) by {
                if xs.contains(x) {
                    let j = choose|j: int| 0 <= j < xs.len() && xs[j] == x;
                    assert(xs.drop_first()[j - 1] == x);
                }
                if xs.drop_first().contains(x) {
                    let j = choose|j: int|
                        0 <= j < xs.drop_first().len() && xs.drop_first()[j] == x;
                    assert(xs[j + 1] == x);
                }
            }
        }
    }
}

/// The index of `name` among `keys`, if it is there.
fn find_key(keys: &Vec<String>, name: &str) -> (r: Option<usize>)
    ensures
        match r {
            Some(j) => j < keys@.len() && keys@[j as int]@ == name@,
            None => forall|m: int| 0 <= m < keys@.len() ==> (#[trigger] keys@[m])@ != name@,
        },
{
    let mut j: usize = 0;
    while j < keys.len()
        invariant
            0 <= j <= keys@.len(),
            forall|m: int| 0 <= m < j ==> (#[trigger] keys@[m])@ != name@,
        decreases keys.len() - j,
    {
        if str_eq(keys[j].as_str(), name) {
            return Some(j);
        }
        j += 1;
    }
    None
}

/// Tally the distinct names and how often each occurs.
fn tally(names: &Vec<String>) -> (r: (Vec<String>, Vec<u64>))
    ensures
        r.0@.len() == r.1@.len(),
        forall|a: int, b: int|
            0 <= a < b < r.0@.len() ==> (#[trigger] r.0@[a])@ != (#[trigger] r.0@[b])@,
        forall|j: int|
            0 <= j < r.0@.len() ==> (#[trigger] r.1@[j]) as nat == count_of(
                views_of(names@),
                r.0@[j]@,
            ) && views_of(names@).contains(r.0@[j]@),
        forall|x: Seq<char>|
            views_of(names@).contains(x) ==> exists|j: int|
                0 <= j < r.0@.len() && (#[trigger] r.0@[j])@ == x,
{
    let ghost ns = views_of(names@);
    let mut keys: Vec<String> = Vec::new();
    let mut counts: Vec<u64> = Vec::new();
    let mut i: usize = 0;
    proof {
        assert(views_of(names@).take(0) =~= Seq::<Seq<char>>::empty());
    }
    while i < names.len()
        invariant
            ns == views_of(names@),
            0 <= i <= names.len(),
            keys@.len() == counts@.len(),
            forall|a: int, b: int|
                0 <= a < b < keys@.len() ==> (#[trigger] keys@[a])@ != (#[trigger] keys@[b])@,
            forall|j: int|
                0 <= j < keys@.len() ==> (#[trigger] counts@[j]) as nat == count_of(
                    ns.take(i as int),
                    keys@[j]@,
                ) && ns.take(i as int).contains(keys@[j]@),
            forall|x: Seq<char>|
                ns.take(i as int).contains(x) ==> exists|j: int|
                    0 <= j < keys@.len() && (#[trigger] keys@[j])@ == x,
        decreases names.len() - i,
    {
        let name: &str = names[i].as_str();
        proof {
            assert(name@ == ns[i as int]);
            assert(ns.take(i as int + 1) =~= ns.take(i as int).push(ns[i as int]));
        }
        let found = find_key(&keys, name);
        match found {
            Some(j) => {
                let c = counts[j];
                proof {
                    assert(counts@[j as int] as nat == count_of(ns.take(i as int), keys@[j as int]@));
                    lemma_count_le_len(ns.take(i as int), keys@[j as int]@);
                }
                let ghost old_counts = counts@;
                counts.set(j, c + 1);
                proof {
                    assert forall|m: int| 0 <= m < keys@.len() implies (#[trigger] counts@[m]) as nat
                        == count_of(ns.take(i as int + 1), keys@[m]@) && ns.take(
                        i as int + 1,
                    ).contains(keys@[m]@) by {
                        assert(old_counts[m] as nat == count_of(ns.take(i as int), keys@[m]@));
                        assert(ns.take(i as int).contains(keys@[m]@));
                        lemma_count_push(ns.take(i as int), ns[i as int], keys@[m]@);
                        if m != j {
                            assert(keys@[m]@ != keys@[j as int]@);
                            assert(counts@[m] == old_counts[m]);
                        }
                        let w = choose|w: int|
                            0 <= w < ns.take(i as int).len() && #[trigger] ns.take(i as int)[w]
                                == keys@[m]@;
                        assert(ns.take(i as int + 1)[w] == keys@[m]@);
                    }
                    assert forall|x: Seq<char>| #[trigger] ns.take(i as int + 1).contains(
                        x,
                    ) implies exists|m: int| 0 <= m < keys@.len() && (#[trigger] keys@[m])@ == x by {
                        let w = choose|w: int|
                            0 <= w < ns.take(i as int + 1).len() && #[trigger] ns.take(i as int + 1)[w]
                                == x;
                        if w < i {
                            assert(ns.take(i as int)[w] == x);
                            assert(ns.take(i as int).contains(x));
                        } else {
                            assert(x == name@);
                            assert(keys@[j as int]@ == x);
                        }
                    }
                }
            },
            None => {
                proof {
                    lemma_count_contains(ns.take(i as int), name@);
                    if ns.take(i as int).contains(name@) {
                        let m = choose|m: int|
                            0 <= m < keys@.len() && (#[trigger] keys@[m])@ == name@;
                    }
                    assert(count_of(ns.take(i as int), name@) == 0);
                }
                let owned = names[i].clone();
                let ghost old_keys = keys@;
                let ghost old_counts = counts@;
                keys.push(owned);
                counts.push(1);
                proof {
                    assert forall|m: int| 0 <= m < keys@.len() implies (#[trigger] counts@[m]) as nat
                        == count_of(ns.take(i as int + 1), keys@[m]@) && ns.take(
                        i as int + 1,
                    ).contains(keys@[m]@) by {
                        lemma_count_push(ns.take(i as int), ns[i as int], keys@[m]@);
                        if m < keys@.len() - 1 {
                            assert(keys@[m] == old_keys[m]);
                            assert(old_counts[m] as nat == count_of(ns.take(i as int), old_keys[m]@));
                            assert(ns.take(i as int).contains(keys@[m]@));
                            assert(keys@[m]@ != name@);
                            let w = choose|w: int|
                                0 <= w < ns.take(i as int).len() && #[trigger] ns.take(i as int)[w]
                                    == keys@[m]@;
                            assert(ns.take(i as int + 1)[w] == keys@[m]@);
                        } else {
                            assert(keys@[m]@ == name@);
                            assert(ns.take(i as int + 1)[i as int] == name@);
                        }
                    }
                    assert forall|x: Seq<char>| #[trigger] ns.take(i as int + 1).contains(
                        x,
                    ) implies exists|m: int| 0 <= m < keys@.len() && (#[trigger] keys@[m])@ == x by {
                        let w = choose|w: int|
                            0 <= w < ns.take(i as int + 1).len() && #[trigger] ns.take(i as int + 1)[w]
                                == x;
                        if w < i {
                            assert(ns.take(i as int)[w] == x);
                            assert(ns.take(i as int).contains(x));
                            let m = choose|m: int|
                                0 <= m < old_keys.len() && (#[trigger] old_keys[m])@ == x;
                            assert(keys@[m]@ == x);
                        } else {
                            assert(keys@[keys@.len() - 1]@ == x);
                        }
                    }
                    assert forall|a: int, b: int| 0 <= a < b < keys@.len() implies (
                    #[trigger] keys@[a])@ != (#[trigger] keys@[b])@ by {
                        if b < keys@.len() - 1 {
                            assert(keys@[a] == old_keys[a] && keys@[b] == old_keys[b]);
                        } else {
                            assert(keys@[a] == old_keys[a]);
                            assert(keys@[b]@ == name@);
                            assert(old_keys[a]@ != name@);
                        }
                    }
                }
            },
        }
        i += 1;
    }
    proof {
        assert(ns.take(names@.len() as int) =~= ns);
    }
    (keys, counts)
}

/// The names ranked by how often they occur, most frequent first, capped at
/// `limit` entries.
pub open spec fn ranked(ns: Seq<Seq<char>>, r: Seq<Seq<char>>, limit: int) -> bool {
    &&& r.len() <= limit
    &&& (forall|a: int, b: int| 0 <= a < b < r.len() ==> r[a] != r[b])
    &&& (forall|i: int| 0 <= i < r.len() ==> ns.contains(#[trigger] r[i]))
    &&& (forall|a: int, b: int|
        0 <= a <= b < r.len() ==> count_of(ns, r[a]) >= count_of(ns, r[b]))
    &&& (forall|x: Seq<char>|
        ns.contains(x) && !r.contains(x) && r.len() > 0 ==> count_of(ns, x) <= count_of(
            ns,
            r[r.len() - 1],
        ))
    &&& (r.len() < limit ==> forall|x: Seq<char>| ns.contains(x) ==> r.contains(x))
    &&& (ns.len() > 0 && limit > 0 ==> r.len() > 0)
}

/// Rank the names by frequency and keep the most frequent `limit` of them.
pub fn top_frequent(names: &Vec<String>, limit: usize) -> (r: Vec<String>)
    ensures
        ranked(views_of(names@), views_of(r@), limit as int),
{
    let ghost ns = views_of(names@);
    let tallied = tally(names);
    let mut keys = tallied.0;
    let mut counts = tallied.1;
    let mut out: Vec<String> = Vec::new();
    while out.len() < limit && keys.len() > 0
        invariant
            ns == views_of(names@),
            keys@.len() == counts@.len(),
            out@.len() <= limit,
            forall|j: int|
                0 <= j < keys@.len() ==> (#[trigger] counts@[j]) as nat == count_of(
                    ns,
                    keys@[j]@,
                ) && ns.contains(keys@[j]@),
            forall|a: int, b: int|
                0 <= a < b < keys@.len() ==> (#[trigger] keys@[a])@ != (#[trigger] keys@[b])@,
            forall|a: int, b: int|
                0 <= a < b < out@.len() ==> (#[trigger] out@[a])@ != (#[trigger] out@[b])@,
            forall|i: int| 0 <= i < out@.len() ==> ns.contains((#[trigger] out@[i])@),
            forall|o: int, j: int|
                0 <= o < out@.len() && 0 <= j < keys@.len() ==> (#[trigger] out@[o])@ != (
                #[trigger] keys@[j])@,
            forall|a: int, b: int|
                0 <= a <= b < out@.len() ==> count_of(ns, (#[trigger] out@[a])@) >= count_of(
                    ns,
                    (#[trigger] out@[b])@,
                ),
            forall|o: int, j: int|
                0 <= o < out@.len() && 0 <= j < keys@.len() ==> count_of(
                    ns,
                    (#[trigger] out@[o])@,
                ) >= (#[trigger] counts@[j]),
            forall|x: Seq<char>|
                ns.contains(x) ==> views_of(out@).contains(x) || exists|j: int|
                    0 <= j < keys@.len() && (#[trigger] keys@[j])@ == x,
        decreases limit - out@.len(),
    {
        let mut m: usize = 0;
        let mut j: usize = 1;
        while j < keys.len()
            invariant
                keys@.len() == counts@.len(),
                keys@.len() > 0,
                0 <= m < keys@.len(),
                m < j <= keys@.len() || (m == 0 && j <= 1),
                forall|w: int| 0 <= w < j ==> #[trigger] counts@[w] <= counts@[m as int],
            decreases keys.len() - j,
        {
            if counts[j] > counts[m] {
                m = j;
            }
            j += 1;
        }
        let ghost old_keys = keys@;
        let ghost old_counts = counts@;
        let ghost old_out = out@;
        let chosen = keys.swap_remove(m);
        let _ = counts.swap_remove(m);
        proof {
            assert(keys@ =~= old_keys.update(m as int, old_keys.last()).drop_last());
            assert(counts@ =~= old_counts.update(m as int, old_counts.last()).drop_last());
            assert(chosen@ == old_keys[m as int]@);
            assert(old_counts[m as int] as nat == count_of(ns, chosen@));
            assert forall|j2: int| 0 <= j2 < keys@.len() implies (#[trigger] counts@[j2]) as nat
                == count_of(ns, keys@[j2]@) && ns.contains(keys@[j2]@) && chosen@
                != keys@[j2]@ by {
                if j2 == m {
                    assert(keys@[j2] == old_keys[old_keys.len() - 1]);
                    assert(counts@[j2] == old_counts[old_counts.len() - 1]);
                } else {
                    assert(keys@[j2] == old_keys[j2]);
                    assert(counts@[j2] == old_counts[j2]);
                }
            }
        }
        out.push(chosen);
        proof {
            crate::text::lemma_views_push(old_out, chosen);
            assert forall|x: Seq<char>| ns.contains(x) implies views_of(out@).contains(x)
                || exists|j2: int| 0 <= j2 < keys@.len() && (#[trigger] keys@[j2])@ == x by {
                if views_of(old_out).contains(x) {
                    let w = choose|w: int|
                        0 <= w < views_of(old_out).len() && #[trigger] views_of(old_out)[w] == x;
                    assert(views_of(out@)[w] == x);
                } else {
                    let j2 = choose|j2: int|
                        0 <= j2 < old_keys.len() && (#[trigger] old_keys[j2])@ == x;
                    if j2 == m {
                        assert(views_of(out@)[out@.len() - 1] == x);
                    } else if j2 == old_keys.len() - 1 {
                        if m == old_keys.len() - 1 {
                            assert(views_of(out@)[out@.len() - 1] == x);
                        } else {
                            assert(keys@[m as int]@ == x);
                        }
                    } else {
                        assert(keys@[j2]@ == x);
                    }
                }
            }
            assert forall|o: int, j2: int|
                0 <= o < out@.len() && 0 <= j2 < keys@.len() implies count_of(
                ns,
                (#[trigger] out@[o])@,
            ) >= (#[trigger] counts@[j2]) by {
                if o < out@.len() - 1 {
                    assert(out@[o] == old_out[o]);
                    if j2 == m {
                        assert(counts@[j2] == old_counts[old_counts.len() - 1]);
                    } else {
                        assert(counts@[j2] == old_counts[j2]);
                    }
                } else {
                    assert(out@[o] == chosen);
                    if j2 == m {
                        assert(counts@[j2] == old_counts[old_counts.len() - 1]);
                        assert(old_counts[old_counts.len() - 1] <= old_counts[m as int]);
                    } else {
                        assert(counts@[j2] == old_counts[j2]);
                        assert(old_counts[j2] <= old_counts[m as int]);
                    }
                }
            }
            assert forall|a: int, b: int| 0 <= a <= b < out@.len() implies count_of(
                ns,
                (#[trigger] out@[a])@,
            ) >= count_of(ns, (#[trigger] out@[b])@) by {
                if b < out@.len() - 1 {
                    assert(out@[a] == old_out[a] && out@[b] == old_out[b]);
                } else if a < out@.len() - 1 {
                    assert(out@[a] == old_out[a]);
                    assert(out@[b] == chosen);
                    assert(count_of(ns, old_out[a]@) >= old_counts[m as int]);
                }
            }
        }
    }
    proof {
        assert(ranked(ns, views_of(out@), limit as int)) by {
            if out@.len() < limit {
                // the selection stopped because nothing was left to choose
                assert(keys@.len() == 0);
                assert forall|x: Seq<char>| ns.contains(x) implies views_of(out@).contains(x) by {}
            }
            if ns.len() > 0 && limit > 0 {
                assert(ns.contains(ns[0]));
                if out@.len() == 0 {
                    assert(views_of(out@).contains(ns[0]) || exists|j: int|
                        0 <= j < keys@.len() && (#[trigger] keys@[j])@ == ns[0]);
                    assert(keys@.len() == 0);
                }
            }
            assert forall|x: Seq<char>|
                ns.contains(x) && !views_of(out@).contains(x) && views_of(out@).len()
                    > 0 implies count_of(ns, x) <= count_of(
                ns,
                views_of(out@)[views_of(out@).len() - 1],
            ) by {
                let j = choose|j: int| 0 <= j < keys@.len() && (#[trigger] keys@[j])@ == x;
                assert(counts@[j] as nat == count_of(ns, x));
                assert(count_of(ns, out@[out@.len() - 1]@) >= counts@[j]);
            }
        }
    }
    out
}

/// The first `limit` entries of a list.
pub open spec fn take_up_to(xs: Seq<Seq<char>>, limit: int) -> Seq<Seq<char>> {
    if xs.len() <= limit {
        xs
    } else {
        xs.take(limit)
    }
}

/// The top blocked domains, by the three-tier fallback chain: the resolver
/// log ranked by frequency; failing that, the first zones of the blocklist;
/// failing that, the fixed built-in list. The dashboard always gets a list.
pub fn get_top_blocked_domains(resolver_log: &Option<String>, blocklist: &Option<String>) -> (r:
    Vec<String>)
    ensures
        ({
            let names = match *resolver_log {
                Some(t) => nx_names(lines_spec(t@)),
                None => Seq::empty(),
            };
            let zones = match *blocklist {
                Some(t) => zone_names(lines_spec(t@)),
                None => Seq::empty(),
            };
            if names.len() > 0 {
                ranked(names, views_of(r@), 10)
            } else if zones.len() > 0 {
                views_of(r@) == take_up_to(zones, 10)
            } else {
                views_of(r@) == builtin_blocked()
            }
        }),
{
    match resolver_log {
        Some(t) => {
            let names = nxdomain_names(t.as_str());
            if names.len() > 0 {
                return top_frequent(&names, 10);
            }
        },
        None => {},
    }
    match blocklist {
        Some(t) => {
            let mut zones = blocklist_zones(t.as_str());
            if zones.len() > 0 {
                let ghost before = zones@;
                zones.truncate(10);
                proof {
                    if before.len() > 10 {
                        assert(views_of(zones@) =~= take_up_to(views_of(before), 10));
                    } else {
                        assert(views_of(zones@) =~= take_up_to(views_of(before), 10));
                    }
                }
                return zones;
            }
        },
        None => {},
    }
    builtin_blocked_domains()
}

/// The resolver allow-list line that exempts one domain.
pub fn whitelist_zone_line(domain: &str) -> (r: String)
    ensures
        r@ == "local-zone: \""@ + domain@ + "\" transparent"@,
{
    let out = "local-zone: \"".to_owned().concat(domain).concat("\" transparent");
    proof {
        assert(out@ =~= "local-zone: \""@ + domain@ + "\" transparent"@);
    }
    out
}

/// The ordered steps of one blocklist update.
#[derive(Clone, Copy, Debug, PartialEq, Eq, Structural)]
pub enum UpdateStep {
    /// Fetch the published blocklist into the staging path.
    Download,
    /// Run the resolver's syntax check over the staged file.
    Validate,
    /// Restart the resolver so it loads the new list.
    Restart,
    /// Confirm the resolver came back up.
    ConfirmRunning,
}

/// Where a blocklist update stands after one step ran. A failed validation
/// asks for the staged artifact to be removed, so that a broken list never
/// stays active.
#[derive(Clone, Copy, Debug, PartialEq, Eq, Structural)]
pub enum UpdateProgress {
    /// The step succeeded; this one runs next.
    Advance(UpdateStep),
    /// The step failed with this error; the flag asks for the staged file
    /// to be deleted.
    Halted(crate::GatewayError, bool),
    /// The update is complete and active.
    Complete,
}

/// Sequence the blocklist update: download, validate, restart, confirm;
/// a validation failure reports `ValidationFailed` and discards the staged
/// file, any other failure reports the external command failure.
pub fn update_advance(step: UpdateStep, ok: bool) -> (r: UpdateProgress)
    ensures
        ok ==> r == match step {
            UpdateStep::Download => UpdateProgress::Advance(UpdateStep::Validate),
            UpdateStep::Validate => UpdateProgress::Advance(UpdateStep::Restart),
            UpdateStep::Restart => UpdateProgress::Advance(UpdateStep::ConfirmRunning),
            UpdateStep::ConfirmRunning => UpdateProgress::Complete,
        },
        !ok ==> r == match step {
            UpdateStep::Validate => UpdateProgress::Halted(
                crate::GatewayError::ValidationFailed,
                true,
            ),
            _ => UpdateProgress::Halted(crate::GatewayError::ExternalCommandFailed, false),
        },
{
    if ok {
        match step {
            UpdateStep::Download => UpdateProgress::Advance(UpdateStep::Validate),
            UpdateStep::Validate => UpdateProgress::Advance(UpdateStep::Restart),
            UpdateStep::Restart => UpdateProgress::Advance(UpdateStep::ConfirmRunning),
            UpdateStep::ConfirmRunning => UpdateProgress::Complete,
        }
    } else {
        match step {
            UpdateStep::Validate => UpdateProgress::Halted(
                crate::GatewayError::ValidationFailed,
                true,
            ),
            _ => UpdateProgress::Halted(crate::GatewayError::ExternalCommandFailed, false),
        }
    }
}

} // verus!
