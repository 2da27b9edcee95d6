//! The declarative peer record: its fixed textual layout, rendering, and the
//! parsers that read the assigned address and the client-key annotation back
//! out of the stored text.

use vstd::prelude::*;
use crate::text::{
    find_char_from, has_prefix, join_lines, lemma_lines_of_join, lemma_prefix_len_unique,
    lines_spec, prefix_len, split_lines, views_of,
};

verus! {

/// Everything that goes into one rendered peer record.
pub struct PeerConfig {
    /// The peer's own public key; stored as a leading annotation so that the
    /// record can be matched against kernel-reported keys later.
    pub client_pub: String,
    /// The peer's private key.
    pub client_priv: String,
    /// The assigned pool address, without a prefix length.
    pub address: String,
    /// The gateway's pool address, handed to the peer as its resolver.
    pub gateway_addr: String,
    /// The gateway's public key.
    pub server_pub: String,
    /// The gateway's externally routable host.
    pub endpoint_host: String,
}

/// A field may stand on one record line: it must not hold a newline.
pub open spec fn line_ok(l: Seq<char>) -> bool {
    !l.contains('\n')
}

impl PeerConfig {
    /// Fields that render into a well-formed record: one line each, and an
    /// address free of a prefix-length separator.
    pub open spec fn wf(self) -> bool {
        &&& line_ok(self.client_pub@)
        &&& line_ok(self.client_priv@)
        &&& line_ok(self.address@)
        &&& line_ok(self.gateway_addr@)
        &&& line_ok(self.server_pub@)
        &&& line_ok(self.endpoint_host@)
        &&& !self.address@.contains('/')
    }
}

/// The fixed record layout, line by line.
pub open spec fn record_lines(c: PeerConfig) -> Seq<Seq<char>> {
    seq![
        "# ClientPublicKey = "@ + c.client_pub@,
        "[Interface]"@,
        "PrivateKey = "@ + c.client_priv@,
        "Address = "@ + c.address@ + "/32"@,
        "DNS = "@ + c.gateway_addr@,
        Seq::<char>::empty(),
        "[Peer]"@,
        "PublicKey = "@ + c.server_pub@,
        "Endpoint = "@ + c.endpoint_host@ + ":51820"@,
        "AllowedIPs = 0.0.0.0/0"@,
    ]
}

/// The full record text: its lines, each closed by a newline.
pub open spec fn record_text(c: PeerConfig) -> Seq<char> {
    join_lines(record_lines(c))
}

/// Stop predicate for the address parser: the prefix-length separator.
pub open spec fn slash_stop() -> spec_fn(char) -> bool {
    |c: char| c == '/'
}

/// The address carried by one `Address = ` line: the text between the key
/// and the first `/`, or the whole rest when no `/` follows.
pub open spec fn addr_of_line(l: Seq<char>) -> Seq<char> {
    let rest = l.skip("Address = "@.len() as int);
    rest.take(prefix_len(rest, slash_stop()) as int)
}

/// The address of the first `Address = ` line, if any.
pub open spec fn first_addr(lines: Seq<Seq<char>>) -> Option<Seq<char>>
    decreases lines.len(),
{
    if lines.len() == 0 {
        None
    } else if "Address = "@.is_prefix_of(lines[0]) {
        Some(addr_of_line(lines[0]))
    } else {
        first_addr(lines.drop_first())
    }
}

/// The value of the first client-key annotation line, if any.
pub open spec fn first_client_key(lines: Seq<Seq<char>>) -> Option<Seq<char>>
    decreases lines.len(),
{
    if lines.len() == 0 {
        None
    } else if "# ClientPublicKey = "@.is_prefix_of(lines[0]) {
        Some(lines[0].skip("# ClientPublicKey = "@.len() as int))
    } else {
        first_client_key(lines.drop_first())
    }
}

/// Read the assigned address out of a stored record, with the sentinel
/// `Unknown` when no address line is present.
pub fn extract_address(text: &str) -> (r: String)
    ensures
        r@ == match first_addr(lines_spec(text@)) {
            Some(a) => a,
            None => "Unknown"@,
        },
{
    match extract_address_opt(text) {
        Some(a) => a,
        None => "Unknown".to_owned(),
    }
}

/// Read the assigned address out of a stored record, if an address line is
/// present at all.
pub fn extract_address_opt(text: &str) -> (r: Option<String>)
    ensures
        match r {
            Some(v) => first_addr(lines_spec(text@)) == Some(v@),
            None => first_addr(lines_spec(text@)) is None,
        },
{
    let lines = split_lines(text);
    let mut i: usize = 0;
    proof {
        assert(views_of(lines@).skip(0) =~= views_of(lines@));
    }
    while i < lines.len()
        invariant
            views_of(lines@) == lines_spec(text@),
            0 <= i <= lines.len(),
            first_addr(lines_spec(text@)) == first_addr(views_of(lines@).skip(i as int)),
        decreases lines.len() - i,
    {
        let line: &str = lines[i].as_str();
        proof {
            let tail = views_of(lines@).skip(i as int);
            assert(tail[0] == line@);
            assert(tail.drop_first() =~= views_of(lines@).skip(i as int + 1));
        }
        if has_prefix(line, "Address = ") {
            let np = "Address = ".unicode_len();
            let n = line.unicode_len();
            let rest = line.substring_char(np, n);
            proof {
                assert(rest@ =~= line@.skip("Address = "@.len() as int));
            }
            let rn = rest.unicode_len();
            let cut = match find_char_from(rest, '/', 0) {
                Some(j) => j,
                None => rn,
            };
            proof {
                assert forall|m: int| 0 <= m < cut implies !(slash_stop()(rest@[m])) by {
                    assert(rest@[m] != '/');
                }
                if (cut as int) < rest@.len() {
                    assert(slash_stop()(rest@[cut as int]));
                }
                lemma_prefix_len_unique(rest@, slash_stop(), cut as int);
            }
            let out = rest.substring_char(0, cut).to_owned();
            proof {
                assert(out@ =~= addr_of_line(line@));
                assert(first_addr(views_of(lines@).skip(i as int)) == Some(addr_of_line(line@)));
            }
            return Some(out);
        }
        proof {
            let tail = views_of(lines@).skip(i as int);
            assert(first_addr(tail) == first_addr(tail.drop_first()));
        }
        i += 1;
    }
    proof {
        assert(views_of(lines@).skip(i as int).len() == 0);
    }
    None
}

/// Read the client-key annotation out of a stored record.
pub fn extract_client_key(text: &str) -> (r: Option<String>)
    ensures
        match r {
            Some(v) => first_client_key(lines_spec(text@)) == Some(v@),
            None => first_client_key(lines_spec(text@)) is None,
        },
{
    let lines = split_lines(text);
    let mut i: usize = 0;
    proof {
        assert(views_of(lines@).skip(0) =~= views_of(lines@));
    }
    while i < lines.len()
        invariant
            views_of(lines@) == lines_spec(text@),
            0 <= i <= lines.len(),
            first_client_key(lines_spec(text@)) == first_client_key(
                views_of(lines@).skip(i as int),
            ),
        decreases lines.len() - i,
    {
        let line: &str = lines[i].as_str();
        proof {
            let tail = views_of(lines@).skip(i as int);
            assert(tail[0] == line@);
            assert(tail.drop_first() =~= views_of(lines@).skip(i as int + 1));
        }
        if has_prefix(line, "# ClientPublicKey = ") {
            let np = "# ClientPublicKey = ".unicode_len();
            let n = line.unicode_len();
            let value = line.substring_char(np, n).to_owned();
            proof {
                assert(value@ =~= line@.skip("# ClientPublicKey = "@.len() as int));
                assert(first_client_key(views_of(lines@).skip(i as int)) == Some(value@));
            }
            return Some(value);
        }
        proof {
            let tail = views_of(lines@).skip(i as int);
            assert(first_client_key(tail) == first_client_key(tail.drop_first()));
        }
        i += 1;
    }
    proof {
        assert(views_of(lines@).skip(i as int).len() == 0);
    }
    None
}

/// Joining a further line appends it, closed by a newline.
proof fn lemma_join_push(ls: Seq<Seq<char>>, l: Seq<char>)
    ensures
        join_lines(ls.push(l)) == join_lines(ls) + l + seq!['\n'],
    decreases ls.len(),
{
    if ls.len() == 0 {
        assert(ls.push(l).drop_first() =~= Seq::<Seq<char>>::empty());
        assert(join_lines(ls.push(l)) == ls.push(l)[0] + seq!['\n'] + join_lines(
            Seq::<Seq<char>>::empty(),
        ));
        assert(join_lines(Seq::<Seq<char>>::empty()) == Seq::<char>::empty());
        assert(join_lines(ls) == Seq::<char>::empty());
        assert(join_lines(ls.push(l)) =~= join_lines(ls) + l + seq!['\n']);
    } else {
        lemma_join_push(ls.drop_first(), l);
        assert(ls.push(l).drop_first() =~= ls.drop_first().push(l));
        assert(ls.push(l)[0] == ls[0]);
        assert(join_lines(ls.push(l)) == ls[0] + seq!['\n'] + join_lines(ls.drop_first().push(l)));
        assert(join_lines(ls.drop_first().push(l)) == join_lines(ls.drop_first()) + l + seq!['\n']);
        assert(join_lines(ls) == ls[0] + seq!['\n'] + join_lines(ls.drop_first()));
        assert(join_lines(ls.push(l)) =~= join_lines(ls) + l + seq!['\n']);
    }
}

/// Join lines into one text, each line closed by a newline.
pub fn join_lines_exec(lines: &Vec<String>) -> (r: String)
    ensures
        r@ == join_lines(views_of(lines@)),
{
    let mut s = String::new();
    let mut i: usize = 0;
    proof {
        assert(views_of(lines@).take(0) =~= Seq::<Seq<char>>::empty());
    }
    while i < lines.len()
        invariant
            0 <= i <= lines.len(),
            s@ == join_lines(views_of(lines@).take(i as int)),
        decreases lines.len() - i,
    {
        let mut t = s;
        t.append(lines[i].as_str());
        t.append("\n");
        proof {
            reveal_strlit("\n");
            lemma_join_push(views_of(lines@).take(i as int), lines@[i as int]@);
            assert(views_of(lines@).take(i as int + 1) =~= views_of(lines@).take(i as int).push(
                lines@[i as int]@,
            ));
            assert(t@ =~= join_lines(views_of(lines@).take(i as int + 1)));
        }
        s = t;
        i += 1;
    }
    proof {
        assert(views_of(lines@).take(lines@.len() as int) =~= views_of(lines@));
    }
    s
}

/// Joining two newline-free pieces stays newline-free.
proof fn lemma_concat_line_ok(a: Seq<char>, b: Seq<char>)
    requires
        !a.contains('\n'),
        !b.contains('\n'),
    ensures
        !(a + b).contains('\n'),
{
    if (a + b).contains('\n') {
        let j = choose|j: int| 0 <= j < (a + b).len() && (a + b)[j] == '\n';
        if j < a.len() {
            assert(a[j] == '\n');
        } else {
            assert(b[j - a.len()] == '\n');
        }
    }
}

/// `first_addr` finds the first matching line.
proof fn lemma_first_addr_at(lines: Seq<Seq<char>>, k: int)
    requires
        0 <= k < lines.len(),
        forall|i: int| 0 <= i < k ==> !("Address = "@.is_prefix_of(#[trigger] lines[i])),
        "Address = "@.is_prefix_of(lines[k]),
    ensures
        first_addr(lines) == Some(addr_of_line(lines[k])),
    decreases k,
{
    if k == 0 {
    } else {
        assert(!("Address = "@.is_prefix_of(lines[0])));
        lemma_first_addr_at(lines.drop_first(), k - 1);
        assert(lines.drop_first()[k - 1] == lines[k]);
    }
}

/// `first_client_key` finds the first matching line.
proof fn lemma_first_client_key_at(lines: Seq<Seq<char>>, k: int)
    requires
        0 <= k < lines.len(),
        forall|i: int| 0 <= i < k ==> !("# ClientPublicKey = "@.is_prefix_of(#[trigger] lines[i])),
        "# ClientPublicKey = "@.is_prefix_of(lines[k]),
    ensures
        first_client_key(lines) == Some(lines[k].skip("# ClientPublicKey = "@.len() as int)),
    decreases k,
{
    if k == 0 {
    } else {
        assert(!("# ClientPublicKey = "@.is_prefix_of(lines[0])));
        lemma_first_client_key_at(lines.drop_first(), k - 1);
        assert(lines.drop_first()[k - 1] == lines[k]);
    }
}

/// The record codec round-trips: a record rendered from well-formed fields
/// parses back to the address that was assigned and to the client key that
/// was annotated.
pub proof fn lemma_record_round_trip(c: PeerConfig)
    requires
        c.wf(),
    ensures
        first_addr(lines_spec(record_text(c))) == Some(c.address@),
        first_client_key(lines_spec(record_text(c))) == Some(c.client_pub@),
{
    reveal_strlit("# ClientPublicKey = ");
    reveal_strlit("[Interface]");
    reveal_strlit("PrivateKey = ");
    reveal_strlit("Address = ");
    reveal_strlit("/32");
    reveal_strlit("DNS = ");
    reveal_strlit("[Peer]");
    reveal_strlit("PublicKey = ");
    reveal_strlit("Endpoint = ");
    reveal_strlit(":51820");
    reveal_strlit("AllowedIPs = 0.0.0.0/0");
    let ls = record_lines(c);
    assert forall|i: int| 0 <= i < ls.len() implies !(#[trigger] ls[i]).contains('\n') by {
        assert(!"# ClientPublicKey = "@.contains('\n')) by {
            if "# ClientPublicKey = "@.contains('\n') {
                let j = choose|j: int|
                    0 <= j < "# ClientPublicKey = "@.len() && "# ClientPublicKey = "@[j] == '\n';
            }
        }
        assert(!"[Interface]"@.contains('\n')) by {
            if "[Interface]"@.contains('\n') {
                let j = choose|j: int|
                    0 <= j < "[Interface]"@.len() && "[Interface]"@[j] == '\n';
            }
        }
        assert(!"PrivateKey = "@.contains('\n')) by {
            if "PrivateKey = "@.contains('\n') {
                let j = choose|j: int|
                    0 <= j < "PrivateKey = "@.len() && "PrivateKey = "@[j] == '\n';
            }
        }
        assert(!"Address = "@.contains('\n')) by {
            if "Address = "@.contains('\n') {
                let j = choose|j: int| 0 <= j < "Address = "@.len() && "Address = "@[j] == '\n';
            }
        }
        assert(!"/32"@.contains('\n')) by {
            if "/32"@.contains('\n') {
                let j = choose|j: int| 0 <= j < "/32"@.len() && "/32"@[j] == '\n';
            }
        }
        assert(!"DNS = "@.contains('\n')) by {
            if "DNS = "@.contains('\n') {
                let j = choose|j: int| 0 <= j < "DNS = "@.len() && "DNS = "@[j] == '\n';
            }
        }
        assert(!"[Peer]"@.contains('\n')) by {
            if "[Peer]"@.contains('\n') {
                let j = choose|j: int| 0 <= j < "[Peer]"@.len() && "[Peer]"@[j] == '\n';
            }
        }
        assert(!"PublicKey = "@.contains('\n')) by {
            if "PublicKey = "@.contains('\n') {
                let j = choose|j: int|
                    0 <= j < "PublicKey = "@.len() && "PublicKey = "@[j] == '\n';
            }
        }
        assert(!"Endpoint = "@.contains('\n')) by {
            if "Endpoint = "@.contains('\n') {
                let j = choose|j: int| 0 <= j < "Endpoint = "@.len() && "Endpoint = "@[j] == '\n';
            }
        }
        assert(!":51820"@.contains('\n')) by {
            if ":51820"@.contains('\n') {
                let j = choose|j: int| 0 <= j < ":51820"@.len() && ":51820"@[j] == '\n';
            }
        }
        assert(!"AllowedIPs = 0.0.0.0/0"@.contains('\n')) by {
            if "AllowedIPs = 0.0.0.0/0"@.contains('\n') {
                let j = choose|j: int|
                    0 <= j < "AllowedIPs = 0.0.0.0/0"@.len() && "AllowedIPs = 0.0.0.0/0"@[j]
                        == '\n';
            }
        }
        assert(!Seq::<char>::empty().contains('\n'));
        lemma_concat_line_ok("# ClientPublicKey = "@, c.client_pub@);
        lemma_concat_line_ok("PrivateKey = "@, c.client_priv@);
        lemma_concat_line_ok("Address = "@, c.address@);
        lemma_concat_line_ok("Address = "@ + c.address@, "/32"@);
        lemma_concat_line_ok("DNS = "@, c.gateway_addr@);
        lemma_concat_line_ok("PublicKey = "@, c.server_pub@);
        lemma_concat_line_ok("Endpoint = "@, c.endpoint_host@);
        lemma_concat_line_ok("Endpoint = "@ + c.endpoint_host@, ":51820"@);
    }
    lemma_lines_of_join(ls);
    // the address line is the first whose text starts with the address key
    assert forall|i: int| 0 <= i < 3 implies !("Address = "@.is_prefix_of(#[trigger] ls[i])) by {
        if "Address = "@.is_prefix_of(ls[0]) {
            assert(ls[0][0] == "Address = "@[0]);
        }
        if "Address = "@.is_prefix_of(ls[1]) {
            assert(ls[1][0] == "Address = "@[0]);
        }
        if "Address = "@.is_prefix_of(ls[2]) {
            assert(ls[2][0] == "Address = "@[0]);
        }
    }
    assert("Address = "@.is_prefix_of(ls[3])) by {
        assert(ls[3].subrange(0, "Address = "@.len() as int) =~= "Address = "@);
    }
    lemma_first_addr_at(ls, 3);
    assert(addr_of_line(ls[3]) == c.address@) by {
        let rest = ls[3].skip("Address = "@.len() as int);
        assert(rest =~= c.address@ + "/32"@);
        assert forall|m: int| 0 <= m < c.address@.len() implies !(slash_stop()(rest[m])) by {
            assert(rest[m] == c.address@[m]);
            if c.address@[m] == '/' {
                assert(c.address@.contains('/'));
            }
        }
        assert(rest[c.address@.len() as int] == '/');
        lemma_prefix_len_unique(rest, slash_stop(), c.address@.len() as int);
        assert(rest.take(c.address@.len() as int) =~= c.address@);
    }
    assert("# ClientPublicKey = "@.is_prefix_of(ls[0])) by {
        assert(ls[0].subrange(0, "# ClientPublicKey = "@.len() as int) =~= "# ClientPublicKey = "@);
    }
    lemma_first_client_key_at(ls, 0);
    assert(ls[0].skip("# ClientPublicKey = "@.len() as int) =~= c.client_pub@);
}

/// Pair each record name with the address parsed out of its text.
pub fn list_entries(records: &Vec<(String, String)>) -> (r: Vec<(String, String)>)
    ensures
        r@.len() == records@.len(),
        forall|i: int| 0 <= i < r@.len() ==> (#[trigger] r@[i]).0 == records@[i].0,
        forall|i: int|
            0 <= i < r@.len() ==> (#[trigger] r@[i]).1@ == match first_addr(
                lines_spec(records@[i].1@),
            ) {
                Some(a) => a,
                None => "Unknown"@,
            },
{
    let mut out: Vec<(String, String)> = Vec::new();
    let mut i: usize = 0;
    while i < records.len()
        invariant
            0 <= i <= records.len(),
            out@.len() == i,
            forall|j: int| 0 <= j < i ==> (#[trigger] out@[j]).0 == records@[j].0,
            forall|j: int|
                0 <= j < i ==> (#[trigger] out@[j]).1@ == match first_addr(
                    lines_spec(records@[j].1@),
                ) {
                    Some(a) => a,
                    None => "Unknown"@,
                },
        decreases records.len() - i,
    {
        let name = records[i].0.clone();
        let addr = extract_address(records[i].1.as_str());
        out.push((name, addr));
        i += 1;
    }
    out
}

/// Render a peer record in the fixed layout.
pub fn render_record(c: &PeerConfig) -> (r: String)
    ensures
        r@ == record_text(*c),
{
    let mut lines: Vec<String> = Vec::new();
    lines.push("# ClientPublicKey = ".to_owned().concat(c.client_pub.as_str()));
    lines.push("[Interface]".to_owned());
    lines.push("PrivateKey = ".to_owned().concat(c.client_priv.as_str()));
    lines.push("Address = ".to_owned().concat(c.address.as_str()).concat("/32"));
    lines.push("DNS = ".to_owned().concat(c.gateway_addr.as_str()));
    lines.push("".to_owned());
    lines.push("[Peer]".to_owned());
    lines.push("PublicKey = ".to_owned().concat(c.server_pub.as_str()));
    lines.push("Endpoint = ".to_owned().concat(c.endpoint_host.as_str()).concat(":51820"));
    lines.push("AllowedIPs = 0.0.0.0/0".to_owned());
    proof {
        reveal_strlit("");
        assert(""@ =~= Seq::<char>::empty());
        assert(views_of(lines@) =~= record_lines(*c));
    }
    join_lines_exec(&lines)
}

} // verus!
