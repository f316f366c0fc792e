//! The rows of an uninstall plan for what MixEngine wired into the machine itself: the hosts
//! block, the resolver, the low ports, the firewall, the trust stores, the privileged helper and
//! its log, the login entry and the `PATH`.
//!
//! Each row is decided from what a reader found. A reader that failed makes a failed row, never
//! an absent one; and what a row plans to do is the description of the operation that would undo
//! the wiring, handed in as the operation describes itself.

use vstd::prelude::*;

use crate::inventory::{
    ResidueId, Removal, Residue, Row, Outcome, row, ResolverMethod, TrustStoreMethod,
    resolver_place, resolver_place_text, trust_place, trust_place_text, firewall_label,
    firewall_label_text,
};
use crate::location::{self, Location, Part, Parts};
use crate::text;
use crate::tombstone::views;

verus! {

/// Why a reader could not answer, flattened to one line.
pub type Failure = String;

/// The managed block in this machine's hosts file.
pub open spec fn hosts_row(location: Seq<char>, managed: Result<usize, Seq<char>>, clear: Seq<char>) -> Row {
    row(
        ResidueId::HostsBlock,
        "the managed hosts block"@,
        location,
        match managed {
            Ok(n) => if n == 0 {
                Outcome::Absent
            } else {
                Outcome::Planned(clear + ", which today holds "@ + text::decimal(n as nat) + " name(s)"@)
            },
            Err(e) => Outcome::Failed(
                "this machine's hosts file could not be read, so what is in it is unknown: "@ + e,
            ),
        },
    )
}

/// The managed block in this machine's hosts file: absent when it is empty, which is a machine
/// that never had one. `managed` is how many names the block holds, as read; `clear` is how the
/// operation that empties the block describes itself.
pub fn hosts_block(location: &str, managed: &Result<usize, Failure>, clear: &str) -> (r: Residue)
    ensures
        r@ == hosts_row(
            location@,
            match managed {
                Ok(n) => Ok(*n),
                Err(e) => Err(e@),
            },
            clear@,
        ),
{
    let outcome = match managed {
        Ok(n) => if *n == 0 {
            Removal::Absent
        } else {
            let mut how = text::concat(clear, ", which today holds ");
            let digits = text::decimal_text(*n as u64);
            how.append(digits.as_str());
            how.append(" name(s)");
            Removal::Planned { how }
        },
        Err(e) => Removal::Failed {
            because: text::concat(
                "this machine's hosts file could not be read, so what is in it is unknown: ",
                e.as_str(),
            ),
        },
    };
    Residue {
        id: ResidueId::HostsBlock,
        what: text::copy("the managed hosts block"),
        location: text::copy(location),
        outcome,
    }
}

/// What the probe of this machine's resolver found.
#[derive(Debug)]
pub enum ResolverReading {
    /// No DNS server of this home's is listening, so nothing could be routed to one.
    NotListening,
    /// The resolver could not be read.
    Unreadable(Failure),
    /// The resolver was read.
    Read {
        /// The mechanism this machine routes one top-level domain with.
        method: ResolverMethod,
        /// Whether any managed domain is routed to this home's server.
        wired: bool,
        /// How the operation that takes the routing away describes itself, when there is
        /// something it could name.
        revoke: Option<String>,
    },
}

/// Whatever sends a managed top-level domain to this home's DNS server.
pub open spec fn resolver_row(reading: &ResolverReading) -> Row {
    let what = "the DNS routing for this home's managed names"@;
    match reading {
        ResolverReading::NotListening => row(
            ResidueId::ResolverWiring,
            what,
            "no DNS server of this home's is listening, so nothing can be routed to one"@,
            Outcome::Absent,
        ),
        ResolverReading::Unreadable(e) => row(
            ResidueId::ResolverWiring,
            what,
            "this machine's resolver configuration"@,
            Outcome::Failed(
                "this machine's resolver could not be read, so what it routes is unknown: "@ + e@,
            ),
        ),
        ResolverReading::Read { method, wired, revoke } => row(
            ResidueId::ResolverWiring,
            what,
            resolver_place_text(*method),
            match revoke {
                Some(how) if *wired => Outcome::Planned(how@),
                _ => Outcome::Absent,
            },
        ),
    }
}

/// Whatever sends a managed top-level domain to this home's DNS server. Planned only when
/// something is routed: a mechanism with nothing of ours in it has nothing to take away.
pub fn resolver_wiring(reading: &ResolverReading) -> (r: Residue)
    ensures
        r@ == resolver_row(reading),
{
    let what = text::copy("the DNS routing for this home's managed names");
    match reading {
        ResolverReading::NotListening => Residue {
            id: ResidueId::ResolverWiring,
            what,
            location: text::copy(
                "no DNS server of this home's is listening, so nothing can be routed to one",
            ),
            outcome: Removal::Absent,
        },
        ResolverReading::Unreadable(e) => Residue {
            id: ResidueId::ResolverWiring,
            what,
            location: text::copy("this machine's resolver configuration"),
            outcome: Removal::Failed {
                because: text::concat(
                    "this machine's resolver could not be read, so what it routes is unknown: ",
                    e.as_str(),
                ),
            },
        },
        ResolverReading::Read { method, wired, revoke } => Residue {
            id: ResidueId::ResolverWiring,
            what,
            location: resolver_place(*method),
            outcome: match revoke {
                Some(how) if *wired => Removal::Planned { how: how.clone() },
                _ => Removal::Absent,
            },
        },
    }
}

/// How this machine lets a program answer on the low ports.
#[derive(Clone, Copy, Debug, PartialEq, Eq, Structural)]
pub enum PortAccessMethod {
    /// A capability on the program's file.
    Capability,
    /// A packet-filter redirect, with its anchor and the job that enables it at boot.
    Redirect,
    /// Nothing: this system reserves no port below 1024.
    Direct,
}

/// What was read of the permission for this home's front end to answer on 80 and 443.
#[derive(Debug)]
pub enum PortReading {
    /// This home has no front end.
    NoFrontEnd,
    /// The machine could not be asked, about this program.
    Unreadable { binary: String, error: Failure },
    /// The machine answered, about this program.
    Read {
        binary: String,
        method: PortAccessMethod,
        /// Whether the permission is there.
        granted: bool,
        /// How the operation that takes it away describes itself, when there is something it
        /// could name.
        revoke: Option<String>,
    },
}

/// Where a port permission of `method` lives, as a person reads it.
pub open spec fn port_place(method: PortAccessMethod, binary: Seq<char>) -> Seq<char> {
    match method {
        PortAccessMethod::Capability => binary,
        PortAccessMethod::Redirect => "this machine's packet filter: its anchor, its block in /etc/pf.conf and the boot-time job that enables it"@,
        PortAccessMethod::Direct => "this system reserves no port below 1024, so nothing was ever granted"@,
    }
}

/// The permission for this home's front end to answer on 80 and 443.
pub open spec fn port_row(reading: &PortReading) -> Row {
    let what = "permission for this home's front end to answer on 80 and 443"@;
    match reading {
        PortReading::NoFrontEnd => row(
            ResidueId::PortAccess,
            what,
            "this home has no front end, so nothing was granted for one"@,
            Outcome::Absent,
        ),
        PortReading::Unreadable { binary, error } => row(
            ResidueId::PortAccess,
            what,
            binary@,
            Outcome::Failed("this machine could not be asked what it has granted: "@ + error@),
        ),
        PortReading::Read { binary, method, granted, revoke } => row(
            ResidueId::PortAccess,
            what,
            port_place(*method, binary@),
            match revoke {
                Some(how) if *granted => Outcome::Planned(how@),
                _ => Outcome::Absent,
            },
        ),
    }
}

/// The permission for this home's front end to answer on 80 and 443: planned only when it was
/// granted, since a system that grants nothing has nothing of ours to take away.
pub fn port_access(reading: &PortReading) -> (r: Residue)
    ensures
        r@ == port_row(reading),
{
    let what = text::copy("permission for this home's front end to answer on 80 and 443");
    match reading {
        PortReading::NoFrontEnd => Residue {
            id: ResidueId::PortAccess,
            what,
            location: text::copy("this home has no front end, so nothing was granted for one"),
            outcome: Removal::Absent,
        },
        PortReading::Unreadable { binary, error } => Residue {
            id: ResidueId::PortAccess,
            what,
            location: binary.clone(),
            outcome: Removal::Failed {
                because: text::concat(
                    "this machine could not be asked what it has granted: ",
                    error.as_str(),
                ),
            },
        },
        PortReading::Read { binary, method, granted, revoke } => {
            let location = match method {
                PortAccessMethod::Capability => binary.clone(),
                PortAccessMethod::Redirect => text::copy(
                    "this machine's packet filter: its anchor, its block in /etc/pf.conf and the boot-time job that enables it",
                ),
                PortAccessMethod::Direct => text::copy(
                    "this system reserves no port below 1024, so nothing was ever granted",
                ),
            };
            Residue {
                id: ResidueId::PortAccess,
                what,
                location,
                outcome: match revoke {
                    Some(how) if *granted => Removal::Planned { how: how.clone() },
                    _ => Removal::Absent,
                },
            }
        },
    }
}

/// Is any of `shared` true?
pub open spec fn any(shared: Seq<bool>) -> bool {
    exists|i: int| 0 <= i < shared.len() && shared[i]
}

/// The inbound rules a shared site needed, read from this home's own sites.
pub open spec fn firewall_row(sites: Result<Seq<bool>, Seq<char>>, apply: Seq<char>) -> Row {
    row(
        ResidueId::FirewallRules,
        "the firewall rules a shared site needed"@,
        firewall_label_text(),
        match sites {
            Ok(shared) => if any(shared) {
                Outcome::Planned(apply)
            } else {
                Outcome::Absent
            },
            Err(e) => Outcome::Failed(
                "this home's sites could not be read, so whether anything is shared is unknown: "@
                    + e,
            ),
        },
    )
}

/// The firewall rules are planned for removal exactly when some site is shared — wherever it
/// stands among the sites — with the plan that opens no ports, and are absent when none is; so
/// the order the sites are read in never changes the row.
pub proof fn firewall_rules_go_when_any_site_is_shared(
    shared: Seq<bool>,
    reordered: Seq<bool>,
    apply: Seq<char>,
)
    ensures
        (exists|i: int| 0 <= i < shared.len() && #[trigger] shared[i]) ==> firewall_row(Ok(shared), apply).outcome
            == Outcome::Planned(apply),
        !(exists|i: int| 0 <= i < shared.len() && #[trigger] shared[i]) ==> firewall_row(Ok(shared), apply).outcome
            == Outcome::Absent,
        firewall_row(Ok(shared), apply).id == ResidueId::FirewallRules,
        shared.to_multiset() == reordered.to_multiset() ==> firewall_row(Ok(shared), apply)
            == firewall_row(Ok(reordered), apply),
{
    broadcast use vstd::seq_lib::to_multiset_contains;

    if shared.to_multiset() == reordered.to_multiset() {
        if any(shared) {
            let i = choose|i: int| 0 <= i < shared.len() && shared[i];
            assert(shared.contains(shared[i]));
            assert(shared.to_multiset().count(true) > 0);
            assert(reordered.contains(true));
        }
        if any(reordered) {
            let i = choose|i: int| 0 <= i < reordered.len() && reordered[i];
            assert(reordered.contains(reordered[i]));
            assert(reordered.to_multiset().count(true) > 0);
            assert(shared.contains(true));
        }
    }
}

/// The inbound rules a shared site needed, read from this home's own sites rather than from the
/// machine, whose rules under other names are not MixEngine's to remove. `sites` says, for each
/// site, whether it is shared; `apply` is how the firewall plan with no ports describes itself.
pub fn firewall_rules(sites: &Result<Vec<bool>, Failure>, apply: &str) -> (r: Residue)
    ensures
        r@ == firewall_row(
            match sites {
                Ok(v) => Ok(v@),
                Err(e) => Err(e@),
            },
            apply@,
        ),
{
    let outcome = match sites {
        Ok(shared) => {
            let mut found = false;
            let mut i: usize = 0;
            while i < shared.len()
                invariant
                    i <= shared@.len(),
                    found <==> exists|k: int| 0 <= k < i && shared@[k],
                decreases shared@.len() - i,
            {
                if shared[i] {
                    found = true;
                }
                i = i + 1;
            }
            if found {
                Removal::Planned { how: text::copy(apply) }
            } else {
                Removal::Absent
            }
        },
        Err(e) => Removal::Failed {
            because: text::concat(
                "this home's sites could not be read, so whether anything is shared is unknown: ",
                e.as_str(),
            ),
        },
    };
    Residue {
        id: ResidueId::FirewallRules,
        what: text::copy("the firewall rules a shared site needed"),
        location: firewall_label(),
        outcome,
    }
}


/// What was read of this home's certificate authority in this machine's trust store.
#[derive(Debug)]
pub enum TrustReading {
    /// This home has no usable certificate authority to look for.
    NoAuthority,
    /// The store could not be read.
    Unreadable(Failure),
    /// The store was read.
    Read {
        method: TrustStoreMethod,
        /// Whether it holds this home's authority.
        installed: bool,
        /// How the operation that takes the authority out describes itself, when there is
        /// something it could name.
        remove: Option<String>,
    },
}

/// This home's certificate authority in this machine's trust store.
pub open spec fn trust_row(certs: Seq<char>, reading: &TrustReading) -> Row {
    let what = "MixEngine's certificate authority in this machine's trust store"@;
    match reading {
        TrustReading::NoAuthority => row(ResidueId::TrustStore, what, certs, Outcome::Absent),
        TrustReading::Unreadable(e) => row(
            ResidueId::TrustStore,
            what,
            "this machine's trust store"@,
            Outcome::Failed(
                "this machine's trust store could not be read, so whether it holds this authority is unknown: "@
                    + e@,
            ),
        ),
        TrustReading::Read { method, installed, remove } => row(
            ResidueId::TrustStore,
            what,
            trust_place_text(*method),
            match remove {
                Some(how) if *installed => Outcome::Planned(how@),
                _ => Outcome::Absent,
            },
        ),
    }
}

/// This home's certificate authority in this machine's trust store; `certs` is where the home
/// keeps its certificates, which is where a person looks when there is no authority at all.
pub fn trust_store(certs: &str, reading: &TrustReading) -> (r: Residue)
    ensures
        r@ == trust_row(certs@, reading),
{
    let what = text::copy("MixEngine's certificate authority in this machine's trust store");
    match reading {
        TrustReading::NoAuthority => Residue {
            id: ResidueId::TrustStore,
            what,
            location: text::copy(certs),
            outcome: Removal::Absent,
        },
        TrustReading::Unreadable(e) => Residue {
            id: ResidueId::TrustStore,
            what,
            location: text::copy("this machine's trust store"),
            outcome: Removal::Failed {
                because: text::concat(
                    "this machine's trust store could not be read, so whether it holds this authority is unknown: ",
                    e.as_str(),
                ),
            },
        },
        TrustReading::Read { method, installed, remove } => Residue {
            id: ResidueId::TrustStore,
            what,
            location: trust_place(*method),
            outcome: match remove {
                Some(how) if *installed => Removal::Planned { how: how.clone() },
                _ => Removal::Absent,
            },
        },
    }
}

/// One browser certificate database.
#[derive(Debug)]
pub struct Database {
    /// Where it is.
    pub path: String,
    /// Whose it is: the browser and profile.
    pub owner: String,
    /// Whether it holds this home's authority.
    pub installed: bool,
}

/// What was read of this home's authority in this machine's browsers.
#[derive(Debug)]
pub enum BrowserReading {
    /// This home has no usable certificate authority to look for.
    NoAuthority,
    /// Every database found.
    Reached(Vec<Database>),
    /// The tool that reads them is not on this machine, in its own words.
    NoTool(String),
    /// This system's browsers are not searched at all, in its own words.
    NotSearched(String),
    /// The browsers could not be asked.
    Unreadable(Failure),
    /// The task asking them did not finish.
    Unfinished(Failure),
}

/// How a database holding the authority is named in the row.
pub open spec fn database_name(d: Database) -> Seq<char> {
    d.path@ + " ("@ + d.owner@ + ")"@
}

/// The databases of `s` that hold the authority.
pub open spec fn holding(s: Seq<Database>) -> Seq<Database> {
    s.filter(|d: Database| d.installed)
}

/// This home's authority in this machine's browsers.
pub open spec fn browser_row(reading: &BrowserReading) -> Row {
    let what = "the same authority in this machine's browsers"@;
    match reading {
        BrowserReading::NoAuthority => row(
            ResidueId::BrowserTrust,
            what,
            "this home has no usable certificate authority, so nothing that could be named is in any store"@,
            Outcome::Absent,
        ),
        BrowserReading::Reached(databases) => {
            let held = holding(databases@);
            if held.len() == 0 {
                row(
                    ResidueId::BrowserTrust,
                    what,
                    if databases@.len() == 0 {
                        "no browser database was found on this machine"@
                    } else {
                        "no browser database on this machine holds it"@
                    },
                    Outcome::Absent,
                )
            } else {
                row(
                    ResidueId::BrowserTrust,
                    what,
                    text::joined(held.map_values(|d: Database| database_name(d)), ", "@),
                    Outcome::Planned(
                        "take MixEngine's authority out of "@ + text::decimal(held.len())
                            + " browser database(s), which needs no administrator"@,
                    ),
                )
            }
        },
        BrowserReading::NoTool(because) => row(
            ResidueId::BrowserTrust,
            what,
            because@,
            Outcome::Absent,
        ),
        BrowserReading::NotSearched(because) => row(
            ResidueId::BrowserTrust,
            what,
            because@,
            Outcome::Absent,
        ),
        BrowserReading::Unreadable(e) => row(
            ResidueId::BrowserTrust,
            what,
            "this machine's browsers"@,
            Outcome::Failed(
                "this machine's browsers could not be asked, so what they hold is unknown: "@ + e@,
            ),
        ),
        BrowserReading::Unfinished(e) => row(
            ResidueId::BrowserTrust,
            what,
            "this machine's browsers"@,
            Outcome::Failed("the task asking this machine's browsers did not finish: "@ + e@),
        ),
    }
}

/// This home's authority in this machine's browsers, which is a different question from the
/// system store. A machine without the tool, or one whose browsers are not searched, is not a
/// failure: the reading says why in its own words, and the row says that.
pub fn browser_trust(reading: &BrowserReading) -> (r: Residue)
    ensures
        r@ == browser_row(reading),
{
    let what = text::copy("the same authority in this machine's browsers");
    let (location, outcome) = match reading {
        BrowserReading::NoAuthority => (
            text::copy(
                "this home has no usable certificate authority, so nothing that could be named is in any store",
            ),
            Removal::Absent,
        ),
        BrowserReading::Reached(databases) => {
            let ghost keep = |d: Database| d.installed;
            let ghost name = |d: Database| database_name(d);
            let mut names: Vec<String> = Vec::new();
            let mut i: usize = 0;
            while i < databases.len()
                invariant
                    i <= databases@.len(),
                    keep == (|d: Database| d.installed),
                    name == (|d: Database| database_name(d)),
                    names@.map_values(|s: String| s@) == databases@.take(i as int).filter(
                        keep,
                    ).map_values(name),
                decreases databases@.len() - i,
            {
                proof {
                    text::lemma_filter_step(databases@, keep, i as int);
                }
                let ghost before = databases@.take(i as int).filter(keep);
                let d = &databases[i];
                if d.installed {
                    let ghost old_names = names@.map_values(|s: String| s@);
                    let mut n = d.path.clone();
                    n.append(" (");
                    n.append(d.owner.as_str());
                    n.append(")");
                    names.push(n);
                    assert(names@.map_values(|s: String| s@) =~= old_names.push(
                        name(databases@[i as int]),
                    ));
                    assert(databases@.take(i + 1).filter(keep) =~= before.push(databases@[i as int]));
                    assert(names@.map_values(|s: String| s@) =~= databases@.take(i + 1).filter(
                        keep,
                    ).map_values(name));
                } else {
                    assert(databases@.take(i + 1).filter(keep) =~= before);
                }
                i = i + 1;
            }
            assert(databases@.take(databases@.len() as int) =~= databases@);
            assert(names@.map_values(|s: String| s@) =~= holding(databases@).map_values(
                |d: Database| database_name(d),
            ));
            if names.len() == 0 {
                if databases.len() == 0 {
                    (text::copy("no browser database was found on this machine"), Removal::Absent)
                } else {
                    (text::copy("no browser database on this machine holds it"), Removal::Absent)
                }
            } else {
                let mut how = text::copy("take MixEngine's authority out of ");
                let digits = text::decimal_text(names.len() as u64);
                how.append(digits.as_str());
                how.append(" browser database(s), which needs no administrator");
                (text::join(&names, ", "), Removal::Planned { how })
            }
        },
        BrowserReading::NoTool(because) => (because.clone(), Removal::Absent),
        BrowserReading::NotSearched(because) => (because.clone(), Removal::Absent),
        BrowserReading::Unreadable(e) => (
            text::copy("this machine's browsers"),
            Removal::Failed {
                because: text::concat(
                    "this machine's browsers could not be asked, so what they hold is unknown: ",
                    e.as_str(),
                ),
            },
        ),
        BrowserReading::Unfinished(e) => (
            text::copy("this machine's browsers"),
            Removal::Failed {
                because: text::concat(
                    "the task asking this machine's browsers did not finish: ",
                    e.as_str(),
                ),
            },
        ),
    };
    Residue { id: ResidueId::BrowserTrust, what, location, outcome }
}

/// MixEngine's privileged helper, from where it is, whether it is there, and which package, if
/// any, placed it.
pub open spec fn helper_row_of(
    path: Option<Seq<char>>,
    present: bool,
    packaged: Option<Seq<char>>,
    remove: Seq<char>,
) -> Row {
    let what = "MixEngine's privileged helper"@;
    match path {
        None => row(
            ResidueId::PrivilegedHelper,
            what,
            "this machine will not name a directory for a privileged helper"@,
            Outcome::Absent,
        ),
        Some(p) => row(
            ResidueId::PrivilegedHelper,
            what,
            p,
            if !present {
                Outcome::Absent
            } else {
                match packaged {
                    Some(package) => Outcome::Kept(
                        "it came with the "@ + package
                            + " package, and removing that package removes it"@,
                    ),
                    None => Outcome::Planned(remove),
                }
            },
        ),
    }
}

/// The helper's row. A helper a package placed is kept and names the package, since removing it
/// would leave the package describing a file that is gone; `remove` is how the operation that
/// removes it describes itself.
pub fn helper_row(path: Option<&str>, present: bool, packaged: Option<String>, remove: &str) -> (r:
    Residue)
    ensures
        r@ == helper_row_of(
            match path {
                Some(p) => Some(p@),
                None => None,
            },
            present,
            match packaged {
                Some(p) => Some(p@),
                None => None,
            },
            remove@,
        ),
{
    let what = text::copy("MixEngine's privileged helper");
    match path {
        None => Residue {
            id: ResidueId::PrivilegedHelper,
            what,
            location: text::copy("this machine will not name a directory for a privileged helper"),
            outcome: Removal::Absent,
        },
        Some(p) => {
            let outcome = if !present {
                Removal::Absent
            } else {
                match packaged {
                    Some(package) => {
                        let mut because = text::concat("it came with the ", package.as_str());
                        because.append(" package, and removing that package removes it");
                        Removal::Kept { because }
                    },
                    None => Removal::Planned { how: text::copy(remove) },
                }
            };
            Residue { id: ResidueId::PrivilegedHelper, what, location: text::copy(p), outcome }
        },
    }
}

/// Where the log of what ran as an administrator is, in `directory`.
pub fn audit_log_path(directory: &Location) -> (r: Location)
    ensures
        r@ == directory@.push((location::PartKind::Normal, "elevate.log"@)),
{
    let name = Part::name("elevate.log");
    let parts = vec![name];
    let r = directory.join(parts.as_slice());
    assert(parts@.map_values(|p: Part| p@) =~= seq![(location::PartKind::Normal, "elevate.log"@)]);
    assert(r@ =~= directory@.push((location::PartKind::Normal, "elevate.log"@)));
    r
}

/// The record of what ran as an administrator, outside the home.
pub open spec fn audit_row(log: Option<Seq<char>>, present: bool, remove: Seq<char>) -> Row {
    let what = "the log of everything MixEngine has done as an administrator"@;
    match log {
        None => row(
            ResidueId::AuditLog,
            what,
            "this machine will not name a directory for the log"@,
            Outcome::Absent,
        ),
        Some(p) => row(
            ResidueId::AuditLog,
            what,
            p,
            if present {
                Outcome::Planned(remove)
            } else {
                Outcome::Absent
            },
        ),
    }
}

/// The record of what ran as an administrator: `log` is where it is, when this machine names a
/// directory for it, and `present` whether something is there.
pub fn audit_log(log: Option<&str>, present: bool, remove: &str) -> (r: Residue)
    ensures
        r@ == audit_row(
            match log {
                Some(p) => Some(p@),
                None => None,
            },
            present,
            remove@,
        ),
{
    let what = text::copy("the log of everything MixEngine has done as an administrator");
    match log {
        None => Residue {
            id: ResidueId::AuditLog,
            what,
            location: text::copy("this machine will not name a directory for the log"),
            outcome: Removal::Absent,
        },
        Some(p) => Residue {
            id: ResidueId::AuditLog,
            what,
            location: text::copy(p),
            outcome: if present {
                Removal::Planned { how: text::copy(remove) }
            } else {
                Removal::Absent
            },
        },
    }
}

/// What this machine starts at login for a home.
#[derive(Debug)]
pub struct AutostartReport {
    /// Where the entry is.
    pub location: String,
    /// Whether there is one.
    pub enabled: bool,
    /// Whether it starts this home's daemon, rather than another home's.
    pub for_this_home: bool,
}

/// The entry that starts this home's daemon at login.
pub open spec fn autostart_row(status: Result<&AutostartReport, Seq<char>>) -> Row {
    let what = "the entry that starts this home's daemon at login"@;
    match status {
        Ok(report) => row(
            ResidueId::AutostartEntry,
            what,
            report.location@,
            if report.enabled && report.for_this_home {
                Outcome::Planned(
                    "remove the entry that starts this home's daemon at login, which needs no administrator"@,
                )
            } else {
                Outcome::Absent
            },
        ),
        Err(e) => row(
            ResidueId::AutostartEntry,
            what,
            "this machine's login configuration"@,
            Outcome::Failed("this machine could not be asked what it starts at login: "@ + e),
        ),
    }
}

/// The entry that starts this home's daemon at login, only when it is this home's: an entry
/// naming another home is that home's to remove.
pub fn autostart_entry(status: &Result<AutostartReport, Failure>) -> (r: Residue)
    ensures
        r@ == autostart_row(
            match status {
                Ok(report) => Ok(report),
                Err(e) => Err(e@),
            },
        ),
{
    let what = text::copy("the entry that starts this home's daemon at login");
    match status {
        Ok(report) => Residue {
            id: ResidueId::AutostartEntry,
            what,
            location: report.location.clone(),
            outcome: if report.enabled && report.for_this_home {
                Removal::Planned {
                    how: text::copy(
                        "remove the entry that starts this home's daemon at login, which needs no administrator",
                    ),
                }
            } else {
                Removal::Absent
            },
        },
        Err(e) => Residue {
            id: ResidueId::AutostartEntry,
            what,
            location: text::copy("this machine's login configuration"),
            outcome: Removal::Failed {
                because: text::concat(
                    "this machine could not be asked what it starts at login: ",
                    e.as_str(),
                ),
            },
        },
    }
}

/// One place a `PATH` is set.
#[derive(Debug)]
pub struct PathPlace {
    /// Its name, as a person finds it.
    pub name: String,
    /// Whether it carries this home's commands.
    pub present: bool,
}

/// Where this home's commands are on this user's `PATH`.
#[derive(Debug)]
pub struct PathReport {
    /// The directory of this home's commands.
    pub directory: String,
    /// Every place a `PATH` is set.
    pub places: Vec<PathPlace>,
}

/// The places of `s` that carry this home's commands.
pub open spec fn carrying(s: Seq<PathPlace>) -> Seq<Seq<char>> {
    s.filter(|p: PathPlace| p.present).map_values(|p: PathPlace| p.name@)
}

/// This home's commands on this user's `PATH`.
pub open spec fn path_row(status: Result<&PathReport, Seq<char>>) -> Row {
    let what = "this home's commands on your PATH"@;
    match status {
        Ok(report) => {
            let places = carrying(report.places@);
            if places.len() == 0 {
                row(ResidueId::PathEntry, what, report.directory@, Outcome::Absent)
            } else {
                row(
                    ResidueId::PathEntry,
                    what,
                    text::joined(places, ", "@),
                    Outcome::Planned(
                        "take "@ + report.directory@ + " off your PATH in "@ + text::decimal(
                            places.len(),
                        ) + " place(s), which needs no administrator"@,
                    ),
                )
            }
        },
        Err(e) => row(
            ResidueId::PathEntry,
            what,
            "this user's PATH"@,
            Outcome::Failed("this user's PATH could not be read, so what is on it is unknown: "@ + e),
        ),
    }
}

/// This home's commands on this user's `PATH`: where they are carried, or the directory when
/// nothing carries them.
pub fn path_entry(status: &Result<PathReport, Failure>) -> (r: Residue)
    ensures
        r@ == path_row(
            match status {
                Ok(report) => Ok(report),
                Err(e) => Err(e@),
            },
        ),
{
    let what = text::copy("this home's commands on your PATH");
    match status {
        Ok(report) => {
            let ghost keep = |p: PathPlace| p.present;
            let mut names: Vec<String> = Vec::new();
            let mut i: usize = 0;
            while i < report.places.len()
                invariant
                    i <= report.places@.len(),
                    keep == (|p: PathPlace| p.present),
                    names@.map_values(|s: String| s@) == report.places@.take(i as int).filter(
                        keep,
                    ).map_values(|p: PathPlace| p.name@),
                decreases report.places@.len() - i,
            {
                proof {
                    text::lemma_filter_step(report.places@, keep, i as int);
                }
                let ghost before = report.places@.take(i as int).filter(keep);
                if report.places[i].present {
                    let ghost old_names = names@.map_values(|s: String| s@);
                    names.push(report.places[i].name.clone());
                    assert(names@.map_values(|s: String| s@) =~= old_names.push(
                        report.places@[i as int].name@,
                    ));
                    assert(report.places@.take(i + 1).filter(keep) =~= before.push(
                        report.places@[i as int],
                    ));
                    assert(names@.map_values(|s: String| s@) =~= report.places@.take(
                        i + 1,
                    ).filter(keep).map_values(|p: PathPlace| p.name@));
                } else {
                    assert(report.places@.take(i + 1).filter(keep) =~= before);
                }
                i = i + 1;
            }
            assert(report.places@.take(report.places@.len() as int) =~= report.places@);
            assert(names@.map_values(|s: String| s@) =~= carrying(report.places@));
            if names.len() == 0 {
                Residue {
                    id: ResidueId::PathEntry,
                    what,
                    location: report.directory.clone(),
                    outcome: Removal::Absent,
                }
            } else {
                let mut how = text::concat("take ", report.directory.as_str());
                how.append(" off your PATH in ");
                let digits = text::decimal_text(names.len() as u64);
                how.append(digits.as_str());
                how.append(" place(s), which needs no administrator");
                Residue {
                    id: ResidueId::PathEntry,
                    what,
                    location: text::join(&names, ", "),
                    outcome: Removal::Planned { how },
                }
            }
        },
        Err(e) => Residue {
            id: ResidueId::PathEntry,
            what,
            location: text::copy("this user's PATH"),
            outcome: Removal::Failed {
                because: text::concat(
                    "this user's PATH could not be read, so what is on it is unknown: ",
                    e.as_str(),
                ),
            },
        },
    }
}


/// The hosts block is planned for removal exactly when the file holds some managed name, absent
/// when it holds none, and failed when the file could not be read.
pub proof fn the_hosts_block_goes_when_it_holds_a_name(location: Seq<char>, managed: Result<usize, Seq<char>>, clear: Seq<char>)
    ensures
        hosts_row(location, managed, clear).id == ResidueId::HostsBlock,
        hosts_row(location, managed, clear).outcome is Planned <==> (managed matches Ok(n) && n > 0),
        hosts_row(location, managed, clear).outcome is Absent <==> (managed matches Ok(n) && n == 0),
        hosts_row(location, managed, clear).outcome is Failed <==> managed is Err,
{
}

/// The resolver's routing, the port permission and the trust store are each planned for removal
/// exactly when the reading found them in place and named an operation that takes them away; a
/// reading that failed makes a failed row, never an absent one.
pub proof fn wiring_goes_only_when_it_is_there(
    resolver: &ResolverReading,
    ports: &PortReading,
    certs: Seq<char>,
    trust: &TrustReading,
)
    ensures
        resolver_row(resolver).id == ResidueId::ResolverWiring,
        resolver_row(resolver).outcome is Planned <==> (resolver matches ResolverReading::Read {
            wired,
            revoke,
            ..
        } && *wired && revoke is Some),
        resolver_row(resolver).outcome is Failed <==> resolver is Unreadable,
        port_row(ports).id == ResidueId::PortAccess,
        port_row(ports).outcome is Planned <==> (ports matches PortReading::Read { granted, revoke, .. }
            && *granted && revoke is Some),
        port_row(ports).outcome is Failed <==> ports is Unreadable,
        trust_row(certs, trust).id == ResidueId::TrustStore,
        trust_row(certs, trust).outcome is Planned <==> (trust matches TrustReading::Read {
            installed,
            remove,
            ..
        } && *installed && remove is Some),
        trust_row(certs, trust).outcome is Failed <==> trust is Unreadable,
{
}

/// The browsers' row is planned exactly when some database reached holds the authority, and it
/// names how many do.
pub proof fn browser_trust_goes_when_a_database_holds_it(reading: &BrowserReading)
    ensures
        browser_row(reading).id == ResidueId::BrowserTrust,
        browser_row(reading).outcome is Planned <==> (reading matches BrowserReading::Reached(dbs)
            && exists|i: int| 0 <= i < dbs@.len() && (#[trigger] dbs@[i]).installed),
        browser_row(reading).outcome is Failed <==> (reading is Unreadable || reading is Unfinished),
{
    broadcast use vstd::seq::Seq::lemma_filter_pred, vstd::seq::Seq::lemma_filter_contains;

    if let BrowserReading::Reached(dbs) = reading {
        let held = holding(dbs@);
        if exists|i: int| 0 <= i < dbs@.len() && (#[trigger] dbs@[i]).installed {
            let i = choose|i: int| 0 <= i < dbs@.len() && (#[trigger] dbs@[i]).installed;
            assert(held.contains(dbs@[i]));
        }
        if held.len() > 0 {
            assert(held[0].installed);
            assert(held.contains(held[0]));
            dbs@.lemma_filter_contains_rev(|d: Database| d.installed, held[0]);
            assert(dbs@.contains(held[0]));
        }
    }
}

/// The helper is removed only when it is there and no package placed it; one a package placed is
/// kept, and one that is not there is absent.
pub proof fn the_helper_goes_only_when_no_package_placed_it(
    path: Option<Seq<char>>,
    present: bool,
    packaged: Option<Seq<char>>,
    remove: Seq<char>,
)
    ensures
        helper_row_of(path, present, packaged, remove).id == ResidueId::PrivilegedHelper,
        helper_row_of(path, present, packaged, remove).outcome is Planned <==> (path is Some && present
            && packaged is None),
        helper_row_of(path, present, packaged, remove).outcome is Kept <==> (path is Some && present
            && packaged is Some),
        helper_row_of(path, present, packaged, remove).outcome is Absent <==> (path is None || !present),
{
}

/// The audit log goes exactly when it is there; the login entry exactly when it is enabled and
/// starts this home's daemon, never another home's; the `PATH` entry exactly when some place
/// carries this home's commands.
pub proof fn login_and_path_entries_go_only_when_they_are_this_homes(
    log: Option<Seq<char>>,
    present: bool,
    remove: Seq<char>,
    autostart: Result<&AutostartReport, Seq<char>>,
    path: Result<&PathReport, Seq<char>>,
)
    ensures
        audit_row(log, present, remove).id == ResidueId::AuditLog,
        audit_row(log, present, remove).outcome is Planned <==> (log is Some && present),
        autostart_row(autostart).id == ResidueId::AutostartEntry,
        autostart_row(autostart).outcome is Planned <==> (autostart matches Ok(report)
            && report.enabled && report.for_this_home),
        autostart_row(autostart).outcome is Failed <==> autostart is Err,
        path_row(path).id == ResidueId::PathEntry,
        path_row(path).outcome is Planned <==> (path matches Ok(report) && exists|i: int|
            0 <= i < report.places@.len() && (#[trigger] report.places@[i]).present),
        path_row(path).outcome is Failed <==> path is Err,
{
    broadcast use vstd::seq::Seq::lemma_filter_pred, vstd::seq::Seq::lemma_filter_contains;

    if let Ok(report) = path {
        let kept = report.places@.filter(|p: PathPlace| p.present);
        if exists|i: int| 0 <= i < report.places@.len() && (#[trigger] report.places@[i]).present {
            let i = choose|i: int| 0 <= i < report.places@.len() && (#[trigger] report.places@[i]).present;
            assert(kept.contains(report.places@[i]));
        }
        if kept.len() > 0 {
            assert(kept[0].present);
            report.places@.lemma_filter_contains_rev(|p: PathPlace| p.present, kept[0]);
            assert(kept.contains(kept[0]));
        }
    }
}

} // verus!
