//! The reconciliation engine: it drives the kernel peer table from a known
//! empty state to the state implied by the stored peer records. The kernel
//! table is modelled as a map from public key to allowed address; the engine
//! emits the executor commands and a step machine that sequences them.

use vstd::prelude::*;
use crate::GatewayError;
use crate::record::{extract_address_opt, extract_client_key, first_addr, first_client_key};
use crate::text::{lines_spec, split_ws, tokens_spec, views_of};

verus! {

/// The two fields a record must carry to be pushed: the client key from the
/// annotation and the assigned address, both non-empty. Records missing
/// either are silently skipped as incomplete.
pub open spec fn peer_fields(text: Seq<char>) -> Option<(Seq<char>, Seq<char>)> {
    match (first_client_key(lines_spec(text)), first_addr(lines_spec(text))) {
        (Some(k), Some(a)) => if k.len() > 0 && a.len() > 0 {
            Some((k, a))
        } else {
            None
        },
        _ => None,
    }
}

/// The peers a record set declares, in record order.
pub open spec fn desired_peers(texts: Seq<Seq<char>>) -> Seq<(Seq<char>, Seq<char>)>
    decreases texts.len(),
{
    if texts.len() == 0 {
        seq![]
    } else {
        let rest = desired_peers(texts.drop_first());
        match peer_fields(texts[0]) {
            Some(p) => seq![p] + rest,
            None => rest,
        }
    }
}

/// The public keys of a declared peer sequence.
pub open spec fn peer_keys(ps: Seq<(Seq<char>, Seq<char>)>) -> Set<Seq<char>>
    decreases ps.len(),
{
    if ps.len() == 0 {
        Set::empty()
    } else {
        peer_keys(ps.drop_first()).insert(ps[0].0)
    }
}

/// Installing a peer sequence into a kernel table, first to last; a later
/// entry for the same key overrides an earlier one.
pub open spec fn apply_push(
    table: Map<Seq<char>, Seq<char>>,
    ps: Seq<(Seq<char>, Seq<char>)>,
) -> Map<Seq<char>, Seq<char>>
    decreases ps.len(),
{
    if ps.len() == 0 {
        table
    } else {
        apply_push(table.insert(ps[0].0, ps[0].1), ps.drop_first())
    }
}

/// The kernel table after one full reconciliation pass over `texts`: purge
/// empties the table, then every declared peer is installed.
pub open spec fn sync_outcome(
    kernel: Map<Seq<char>, Seq<char>>,
    texts: Seq<Seq<char>>,
) -> Map<Seq<char>, Seq<char>> {
    apply_push(Map::empty(), desired_peers(texts))
}

/// After installing `ps`, the table holds exactly the prior keys and the
/// keys of `ps`, and every new entry comes from some element of `ps`.
proof fn lemma_apply_push_table(table: Map<Seq<char>, Seq<char>>, ps: Seq<(Seq<char>, Seq<char>)>)
    ensures
        apply_push(table, ps).dom() == table.dom() + peer_keys(ps),
        forall|k: Seq<char>|
            #[trigger] apply_push(table, ps).dom().contains(k) ==> (table.dom().contains(k)
                && apply_push(table, ps)[k] == table[k]) || exists|i: int|
                0 <= i < ps.len() && #[trigger] ps[i] == (k, apply_push(table, ps)[k]),
    decreases ps.len(),
{
    if ps.len() == 0 {
        assert(apply_push(table, ps).dom() =~= table.dom() + peer_keys(ps));
    } else {
        let t1 = table.insert(ps[0].0, ps[0].1);
        lemma_apply_push_table(t1, ps.drop_first());
        assert(apply_push(table, ps).dom() =~= table.dom() + peer_keys(ps)) by {
            assert(apply_push(t1, ps.drop_first()).dom() == t1.dom() + peer_keys(ps.drop_first()));
            assert(t1.dom() =~= table.dom().insert(ps[0].0));
        }
        let m = apply_push(table, ps);
        assert forall|k: Seq<char>| m.dom().contains(k) implies (table.dom().contains(k) && m[k]
            == table[k]) || exists|i: int| 0 <= i < ps.len() && #[trigger] ps[i] == (k, m[k]) by {
            assert(m == apply_push(t1, ps.drop_first()));
            assert(apply_push(t1, ps.drop_first()).dom().contains(k));
            if t1.dom().contains(k) && m[k] == t1[k] {
                if k == ps[0].0 && t1[k] == ps[0].1 {
                    assert(ps[0] == (k, m[k]));
                } else {
                    assert(table.dom().contains(k) && m[k] == table[k]);
                }
            } else {
                assert(exists|i: int|
                    0 <= i < ps.drop_first().len() && #[trigger] ps.drop_first()[i] == (k, m[k]));
                let i = choose|i: int|
                    0 <= i < ps.drop_first().len() && #[trigger] ps.drop_first()[i] == (k, m[k]);
                assert(ps.drop_first()[i] == ps[i + 1]);
                assert(ps[i + 1] == (k, m[k]));
            }
        }
    }
}

/// Reconciliation law: the outcome of a full pass is a function of the
/// record set alone; whatever the kernel held before the purge step has no
/// bearing on the resulting peer table.
pub proof fn lemma_sync_deterministic(
    k1: Map<Seq<char>, Seq<char>>,
    k2: Map<Seq<char>, Seq<char>>,
    texts: Seq<Seq<char>>,
)
    ensures
        sync_outcome(k1, texts) == sync_outcome(k2, texts),
{
}

/// Reconciliation law: a second pass over an unchanged record set leaves
/// the kernel peer table exactly where the first pass put it.
pub proof fn lemma_sync_idempotent(kernel: Map<Seq<char>, Seq<char>>, texts: Seq<Seq<char>>)
    ensures
        sync_outcome(sync_outcome(kernel, texts), texts) == sync_outcome(kernel, texts),
{
}

/// Purge law: after a full pass, the kernel holds exactly the peers the
/// record set declares — a kernel peer absent from the records is gone, and
/// every surviving entry carries a key and address from some record.
pub proof fn lemma_sync_purge_correct(kernel: Map<Seq<char>, Seq<char>>, texts: Seq<Seq<char>>)
    ensures
        sync_outcome(kernel, texts).dom() == peer_keys(desired_peers(texts)),
        forall|k: Seq<char>|
            sync_outcome(kernel, texts).dom().contains(k) ==> exists|i: int|
                0 <= i < desired_peers(texts).len() && #[trigger] desired_peers(texts)[i] == (
                k,
                sync_outcome(kernel, texts)[k],
                ),
{
    let ps = desired_peers(texts);
    lemma_apply_push_table(Map::empty(), ps);
    assert forall|k: Seq<char>| sync_outcome(kernel, texts).dom().contains(k) implies exists|i: int|
        0 <= i < desired_peers(texts).len() && #[trigger] desired_peers(texts)[i] == (
        k,
        sync_outcome(kernel, texts)[k],
    ) by {
        assert(apply_push(Map::<Seq<char>, Seq<char>>::empty(), ps).dom().contains(k));
        assert(!Map::<Seq<char>, Seq<char>>::empty().dom().contains(k));
    }
    assert(sync_outcome(kernel, texts).dom() =~= peer_keys(ps)) by {
        assert(Map::<Seq<char>, Seq<char>>::empty().dom() =~= Set::empty());
        assert(apply_push(Map::empty(), ps).dom() == Map::<Seq<char>, Seq<char>>::empty().dom()
            + peer_keys(ps));
        assert(Set::<Seq<char>>::empty() + peer_keys(ps) =~= peer_keys(ps));
    }
}

/// Parse the two push fields out of one stored record.
pub fn peer_push_fields(text: &str) -> (r: Option<(String, String)>)
    ensures
        match r {
            Some(p) => peer_fields(text@) == Some((p.0@, p.1@)),
            None => peer_fields(text@) is None,
        },
{
    let key = match extract_client_key(text) {
        Some(k) => k,
        None => {
            return None;
        },
    };
    let addr = match extract_address_opt(text) {
        Some(a) => a,
        None => {
            return None;
        },
    };
    if key.as_str().unicode_len() == 0 || addr.as_str().unicode_len() == 0 {
        return None;
    }
    Some((key, addr))
}

/// The executor command that installs one peer.
pub open spec fn push_cmd_of(p: (Seq<char>, Seq<char>)) -> Seq<char> {
    "wg set wg0 peer "@ + p.0 + " allowed-ips "@ + p.1 + "/32"@
}

/// The executor command that removes one peer.
pub open spec fn purge_cmd_of(k: Seq<char>) -> Seq<char> {
    "wg set wg0 peer "@ + k + " remove"@
}

/// The peers to purge: the first token of each non-blank line that the
/// kernel reported.
pub open spec fn purge_targets(lines: Seq<Seq<char>>) -> Seq<Seq<char>>
    decreases lines.len(),
{
    if lines.len() == 0 {
        seq![]
    } else {
        let rest = purge_targets(lines.drop_first());
        if tokens_spec(lines[0]).len() > 0 {
            seq![tokens_spec(lines[0])[0]] + rest
        } else {
            rest
        }
    }
}

/// One install command per declared peer, in record order.
pub fn push_commands(texts: &Vec<String>) -> (r: Vec<String>)
    ensures
        views_of(r@) == desired_peers(views_of(texts@)).map_values(|p| push_cmd_of(p)),
{
    let full = Ghost(desired_peers(views_of(texts@)).map_values(|p: (Seq<char>, Seq<char>)|
        push_cmd_of(p)));
    let mut out: Vec<String> = Vec::new();
    let mut i: usize = 0;
    proof {
        assert(views_of(texts@).skip(0) =~= views_of(texts@));
        assert(views_of(out@) + full@ =~= full@);
    }
    while i < texts.len()
        invariant
            full@ == desired_peers(views_of(texts@)).map_values(|p: (Seq<char>, Seq<char>)|
                push_cmd_of(p)),
            0 <= i <= texts.len(),
            full@ == views_of(out@) + desired_peers(views_of(texts@).skip(i as int)).map_values(
                |p: (Seq<char>, Seq<char>)| push_cmd_of(p),
            ),
        decreases texts.len() - i,
    {
        let text: &str = texts[i].as_str();
        proof {
            let tail = views_of(texts@).skip(i as int);
            assert(tail[0] == text@);
            assert(tail.drop_first() =~= views_of(texts@).skip(i as int + 1));
        }
        match peer_push_fields(text) {
            Some((key, addr)) => {
                let cmd = "wg set wg0 peer ".to_owned().concat(key.as_str()).concat(
                    " allowed-ips ",
                ).concat(addr.as_str()).concat("/32");
                proof {
                    assert(cmd@ =~= push_cmd_of((key@, addr@)));
                    let tail = views_of(texts@).skip(i as int);
                    assert(desired_peers(tail) == seq![(key@, addr@)] + desired_peers(
                        views_of(texts@).skip(i as int + 1),
                    ));
                    assert(desired_peers(tail).map_values(|p: (Seq<char>, Seq<char>)|
                        push_cmd_of(p)) =~= seq![cmd@] + desired_peers(
                        views_of(texts@).skip(i as int + 1),
                    ).map_values(|p: (Seq<char>, Seq<char>)| push_cmd_of(p)));
                    crate::text::lemma_views_push(out@, cmd);
                    assert(views_of(out@) + (seq![cmd@] + desired_peers(
                        views_of(texts@).skip(i as int + 1),
                    ).map_values(|p: (Seq<char>, Seq<char>)| push_cmd_of(p))) =~= views_of(
                        out@.push(cmd),
                    ) + desired_peers(views_of(texts@).skip(i as int + 1)).map_values(
                        |p: (Seq<char>, Seq<char>)| push_cmd_of(p),
                    ));
                }
                out.push(cmd);
            },
            None => {
                proof {
                    let tail = views_of(texts@).skip(i as int);
                    assert(desired_peers(tail) == desired_peers(
                        views_of(texts@).skip(i as int + 1),
                    ));
                }
            },
        }
        i += 1;
    }
    proof {
        assert(views_of(texts@).skip(i as int).len() == 0);
        assert(views_of(out@) + Seq::<(Seq<char>, Seq<char>)>::empty().map_values(
            |p: (Seq<char>, Seq<char>)| push_cmd_of(p),
        ) =~= views_of(out@));
        assert(desired_peers(views_of(texts@).skip(i as int)) =~= Seq::<(
            Seq<char>,
            Seq<char>,
        )>::empty());
    }
    out
}

/// One removal command per kernel-reported peer.
pub fn purge_commands(kernel_list: &str) -> (r: Vec<String>)
    ensures
        views_of(r@) == purge_targets(lines_spec(kernel_list@)).map_values(|k| purge_cmd_of(k)),
{
    let lines = crate::text::split_lines(kernel_list);
    let mut out: Vec<String> = Vec::new();
    let mut i: usize = 0;
    proof {
        assert(views_of(lines@).skip(0) =~= views_of(lines@));
        assert(views_of(out@) + purge_targets(views_of(lines@)).map_values(|k: Seq<char>|
            purge_cmd_of(k)) =~= purge_targets(views_of(lines@)).map_values(|k: Seq<char>|
            purge_cmd_of(k)));
    }
    while i < lines.len()
        invariant
            views_of(lines@) == lines_spec(kernel_list@),
            0 <= i <= lines.len(),
            purge_targets(views_of(lines@)).map_values(|k: Seq<char>| purge_cmd_of(k)) == views_of(
                out@,
            ) + purge_targets(views_of(lines@).skip(i as int)).map_values(|k: Seq<char>|
                purge_cmd_of(k)),
        decreases lines.len() - i,
    {
        let line: &str = lines[i].as_str();
        proof {
            let tail = views_of(lines@).skip(i as int);
            assert(tail[0] == line@);
            assert(tail.drop_first() =~= views_of(lines@).skip(i as int + 1));
        }
        let toks = split_ws(line);
        if toks.len() > 0 {
            let key: &str = toks[0].as_str();
            proof {
                assert(key@ == tokens_spec(line@)[0]);
            }
            let cmd = "wg set wg0 peer ".to_owned().concat(key).concat(" remove");
            proof {
                assert(cmd@ =~= purge_cmd_of(key@));
                let tail = views_of(lines@).skip(i as int);
                assert(purge_targets(tail) == seq![key@] + purge_targets(
                    views_of(lines@).skip(i as int + 1),
                ));
                assert(purge_targets(tail).map_values(|k: Seq<char>| purge_cmd_of(k)) =~= seq![cmd@]
                    + purge_targets(views_of(lines@).skip(i as int + 1)).map_values(|k: Seq<char>|
                    purge_cmd_of(k)));
                crate::text::lemma_views_push(out@, cmd);
                assert(views_of(out@) + (seq![cmd@] + purge_targets(
                    views_of(lines@).skip(i as int + 1),
                ).map_values(|k: Seq<char>| purge_cmd_of(k))) =~= views_of(out@.push(cmd))
                    + purge_targets(views_of(lines@).skip(i as int + 1)).map_values(|k: Seq<char>|
                    purge_cmd_of(k)));
            }
            out.push(cmd);
        } else {
            proof {
                let tail = views_of(lines@).skip(i as int);
                assert(tokens_spec(tail[0]).len() == 0);
                assert(purge_targets(tail) == purge_targets(views_of(lines@).skip(i as int + 1)));
            }
        }
        i += 1;
    }
    proof {
        assert(views_of(lines@).skip(i as int).len() == 0);
        assert(views_of(out@) + purge_targets(Seq::<Seq<char>>::empty()).map_values(
            |k: Seq<char>| purge_cmd_of(k),
        ) =~= views_of(out@));
    }
    out
}

/// The executor command that brings the interface up with the gateway
/// address and the pool mask.
pub fn interface_setup_command() -> (r: String)
    ensures
        r@ == "ifconfig wg0 inet 10.200.200.1 255.255.255.0 up"@,
{
    "ifconfig wg0 inet 10.200.200.1 255.255.255.0 up".to_owned()
}

/// The executor command that installs the gateway private key.
pub fn key_install_command() -> (r: String)
    ensures
        r@ == "wg set wg0 private-key /etc/wireguard/keys/server.key"@,
{
    "wg set wg0 private-key /etc/wireguard/keys/server.key".to_owned()
}

/// The executor command that lists the kernel's current peer keys.
pub fn kernel_peer_list_command() -> (r: String)
    ensures
        r@ == "wg show wg0 peers"@,
{
    "wg show wg0 peers".to_owned()
}

/// The executor command that reloads the firewall rule set.
pub fn firewall_reload_command() -> (r: String)
    ensures
        r@ == "pfctl -f /etc/pf.conf"@,
{
    "pfctl -f /etc/pf.conf".to_owned()
}

/// The ordered steps of one reconciliation pass.
#[derive(Clone, Copy, Debug, PartialEq, Eq, Structural)]
pub enum SyncStep {
    /// Bring the interface up with the gateway address.
    ConfigureInterface,
    /// Install the gateway private key.
    InstallKey,
    /// Remove every peer the kernel currently knows.
    PurgePeers,
    /// Install every peer the record store declares.
    PushPeers,
    /// Reload the dependent firewall rule set.
    ReloadFirewall,
}

/// Where a reconciliation pass stands after one step ran.
#[derive(Clone, Copy, Debug, PartialEq, Eq, Structural)]
pub enum SyncProgress {
    /// The step succeeded; this one runs next.
    Advance(SyncStep),
    /// The step failed; the pass stops here.
    Halted(SyncStep),
    /// All steps ran.
    Complete,
}

/// Sequence the reconciliation protocol: each step must succeed before the
/// next runs, and a failure halts the pass at the failing step.
pub fn sync_advance(step: SyncStep, ok: bool) -> (r: SyncProgress)
    ensures
        !ok ==> r == SyncProgress::Halted(step),
        ok ==> r == match step {
            SyncStep::ConfigureInterface => SyncProgress::Advance(SyncStep::InstallKey),
            SyncStep::InstallKey => SyncProgress::Advance(SyncStep::PurgePeers),
            SyncStep::PurgePeers => SyncProgress::Advance(SyncStep::PushPeers),
            SyncStep::PushPeers => SyncProgress::Advance(SyncStep::ReloadFirewall),
            SyncStep::ReloadFirewall => SyncProgress::Complete,
        },
{
    if !ok {
        return SyncProgress::Halted(step);
    }
    match step {
        SyncStep::ConfigureInterface => SyncProgress::Advance(SyncStep::InstallKey),
        SyncStep::InstallKey => SyncProgress::Advance(SyncStep::PurgePeers),
        SyncStep::PurgePeers => SyncProgress::Advance(SyncStep::PushPeers),
        SyncStep::PushPeers => SyncProgress::Advance(SyncStep::ReloadFirewall),
        SyncStep::ReloadFirewall => SyncProgress::Complete,
    }
}

/// The error a halted pass reports: a failure among the four kernel steps
/// leaves the kernel possibly inconsistent; a firewall reload failure is an
/// external failure that does not roll the applied sync back.
pub fn sync_error(step: SyncStep) -> (r: GatewayError)
    ensures
        step == SyncStep::ReloadFirewall ==> r == GatewayError::ExternalCommandFailed,
        step != SyncStep::ReloadFirewall ==> r == GatewayError::PartialReconciliation,
{
    match step {
        SyncStep::ReloadFirewall => GatewayError::ExternalCommandFailed,
        _ => GatewayError::PartialReconciliation,
    }
}

/// The executor command that installs one freshly created peer, bypassing a
/// full pass for the common case.
pub fn peer_add_command(pubkey: &str, addr: &str) -> (r: String)
    ensures
        r@ == push_cmd_of((pubkey@, addr@)),
{
    let cmd = "wg set wg0 peer ".to_owned().concat(pubkey).concat(" allowed-ips ").concat(
        addr,
    ).concat("/32");
    proof {
        assert(cmd@ =~= push_cmd_of((pubkey@, addr@)));
    }
    cmd
}

} // verus!
