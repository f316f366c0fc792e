//! What MixEngine has written on this machine, as the rows of an uninstall plan.
//!
//! One enumeration serves the plan and the act: each row says what the thing is, where to go and
//! look, and what the uninstall does about it. A reader that fails makes a row that failed, and
//! never one that says nothing is there.

use vstd::prelude::*;

use crate::location::{self, Location, Parts};
use crate::text;
use crate::tombstone::views;

verus! {

/// Which trace of MixEngine a row is about.
#[derive(Clone, Copy, Debug, PartialEq, Eq, Structural)]
pub enum ResidueId {
    HostsBlock,
    ResolverWiring,
    PortAccess,
    FirewallRules,
    TrustStore,
    BrowserTrust,
    PrivilegedHelper,
    AuditLog,
    AutostartEntry,
    PathEntry,
    CompletedBinary,
    WindowData,
    WindowCache,
    Credentials,
    WindowCredentials,
    Home,
    RelocatedDirectory,
    InUse,
}

/// What an uninstall does, or did, about one trace.
#[derive(Debug)]
pub enum Removal {
    /// It will be removed, like this.
    Planned { how: String },
    /// It is left where it is, for this reason.
    Kept { because: String },
    /// There is nothing of ours there.
    Absent,
    /// Whether anything of ours is there could not be read, for this reason.
    Failed { because: String },
    /// Something in the way has to be closed first.
    Blocked { by: String },
    /// Its removal waits on a permission that has not been given yet.
    Enqueued { how: String },
    /// It goes when the daemon itself exits.
    OnExit { how: String },
}

/// A [`Removal`] as the contracts see it.
pub enum Outcome {
    Planned(Seq<char>),
    Kept(Seq<char>),
    Absent,
    Failed(Seq<char>),
    Blocked(Seq<char>),
    Enqueued(Seq<char>),
    OnExit(Seq<char>),
}

impl View for Removal {
    type V = Outcome;

    open spec fn view(&self) -> Outcome {
        match self {
            Removal::Planned { how } => Outcome::Planned(how@),
            Removal::Kept { because } => Outcome::Kept(because@),
            Removal::Absent => Outcome::Absent,
            Removal::Failed { because } => Outcome::Failed(because@),
            Removal::Blocked { by } => Outcome::Blocked(by@),
            Removal::Enqueued { how } => Outcome::Enqueued(how@),
            Removal::OnExit { how } => Outcome::OnExit(how@),
        }
    }
}

/// One row of an uninstall plan or report.
#[derive(Debug)]
pub struct Residue {
    /// Which trace it is.
    pub id: ResidueId,
    /// What it is, in words.
    pub what: String,
    /// Where a person can go and look at it.
    pub location: String,
    /// What the uninstall does about it.
    pub outcome: Removal,
}

/// A row as the contracts see it.
pub struct Row {
    pub id: ResidueId,
    pub what: Seq<char>,
    pub location: Seq<char>,
    pub outcome: Outcome,
}

impl View for Residue {
    type V = Row;

    open spec fn view(&self) -> Row {
        Row { id: self.id, what: self.what@, location: self.location@, outcome: self.outcome@ }
    }
}

/// A row of `id`.
pub open spec fn row(id: ResidueId, what: Seq<char>, location: Seq<char>, outcome: Outcome) -> Row {
    Row { id, what, location, outcome }
}

/// What an uninstall was asked to keep, and whether to look for what holds the directories.
#[derive(Clone, Copy, Debug)]
pub struct UninstallQuery {
    /// Leave the home where it is.
    pub keep_home: bool,
    /// Leave the directories the home was configured to keep elsewhere.
    pub keep_relocated: bool,
    /// Raise the permission prompt the removal needs.
    pub grant: bool,
    /// Do not read which programs hold something inside the directories.
    pub skip_holders: bool,
}

/// What the label of every firewall rule MixEngine writes begins with.
pub const FIREWALL_LABEL: &'static str = "MixEngine — ";

/// The label every firewall rule MixEngine writes carries.
pub open spec fn firewall_label_text() -> Seq<char> {
    FIREWALL_LABEL@ + "shared sites"@
}

/// The label every firewall rule MixEngine writes carries, composed once.
pub fn firewall_label() -> (r: String)
    ensures
        r@ == firewall_label_text(),
{
    text::concat(FIREWALL_LABEL, "shared sites")
}

/// The keys of `keys` that belong to `home`: those under `<home>/`.
pub fn ours(home: &str, keys: &Vec<String>) -> (r: Vec<String>)
    ensures
        r@.map_values(|s: String| s@) == keys@.map_values(|s: String| s@).filter(
            |k: Seq<char>| (home@ + "/"@).is_prefix_of(k),
        ),
{
    let prefix = text::concat(home, "/");
    text::keep_starting_with(keys, prefix.as_str())
}

/// How this machine sends one top-level domain to one DNS server.
#[derive(Clone, Copy, Debug, PartialEq, Eq, Structural)]
pub enum ResolverMethod {
    ResolverDirectory,
    SystemdLink,
    Nrpt,
    NoMechanism,
}

/// Which store this machine keeps its trusted authorities in.
#[derive(Clone, Copy, Debug, PartialEq, Eq, Structural)]
pub enum TrustStoreMethod {
    SystemRoot,
    SystemKeychain,
    CaCertificates,
    CaTrustAnchors,
    NoStore,
}

/// Where this machine keeps the resolver configuration, in words.
pub open spec fn resolver_place_text(method: ResolverMethod) -> Seq<char> {
    match method {
        ResolverMethod::ResolverDirectory => "this machine's per-TLD resolver files"@,
        ResolverMethod::SystemdLink => "this machine's systemd-networkd link configuration"@,
        ResolverMethod::Nrpt => "this machine's Name Resolution Policy Table"@,
        ResolverMethod::NoMechanism => "this machine has no mechanism for routing one TLD to one server"@,
    }
}

/// Where this machine keeps the resolver configuration, in words and not as a path: two of the
/// mechanisms are not files.
pub fn resolver_place(method: ResolverMethod) -> (r: String)
    ensures
        r@ == resolver_place_text(method),
{
    match method {
        ResolverMethod::ResolverDirectory => text::copy("this machine's per-TLD resolver files"),
        ResolverMethod::SystemdLink => text::copy(
            "this machine's systemd-networkd link configuration",
        ),
        ResolverMethod::Nrpt => text::copy("this machine's Name Resolution Policy Table"),
        ResolverMethod::NoMechanism => text::copy(
            "this machine has no mechanism for routing one TLD to one server",
        ),
    }
}

/// Which store this machine keeps its trusted authorities in, in words.
pub open spec fn trust_place_text(method: TrustStoreMethod) -> Seq<char> {
    match method {
        TrustStoreMethod::SystemRoot => "this machine's Root store, under Local Machine"@,
        TrustStoreMethod::SystemKeychain => "this machine's System keychain"@,
        TrustStoreMethod::CaCertificates => "this machine's certificate anchors directory"@,
        TrustStoreMethod::CaTrustAnchors => "this machine's certificate anchors directory"@,
        TrustStoreMethod::NoStore => "this machine has no system trust store MixEngine knows how to write"@,
    }
}

/// Which store this machine keeps its trusted authorities in, in words.
pub fn trust_place(method: TrustStoreMethod) -> (r: String)
    ensures
        r@ == trust_place_text(method),
{
    match method {
        TrustStoreMethod::SystemRoot => text::copy("this machine's Root store, under Local Machine"),
        TrustStoreMethod::SystemKeychain => text::copy("this machine's System keychain"),
        TrustStoreMethod::CaCertificates => text::copy("this machine's certificate anchors directory"),
        TrustStoreMethod::CaTrustAnchors => text::copy("this machine's certificate anchors directory"),
        TrustStoreMethod::NoStore => text::copy(
            "this machine has no system trust store MixEngine knows how to write",
        ),
    }
}

/// What the home row says when the home goes.
pub open spec fn home_goes_text() -> Seq<char> {
    "remove this directory and everything under it, including the databases in data/ and every certificate this home has issued"@
}

/// What a directory row says when the directory goes.
pub open spec fn directory_goes_text() -> Seq<char> {
    "remove this directory and everything under it"@
}

/// The home's own row: never absent, and kept rather than missing when it is kept.
pub open spec fn home_row(root: Seq<char>, keep: bool) -> Row {
    row(
        ResidueId::Home,
        "this home's own directory, and everything in it"@,
        root,
        if keep {
            Outcome::Kept("you asked for this home to be left where it is"@)
        } else {
            Outcome::Planned(home_goes_text())
        },
    )
}

/// `MIXENGINE_HOME` itself, the one row that is never absent: kept says so rather than the row
/// disappearing.
pub fn home(root: &str, keep: bool) -> (r: Residue)
    ensures
        r@ == home_row(root@, keep),
{
    Residue {
        id: ResidueId::Home,
        what: text::copy("this home's own directory, and everything in it"),
        location: text::copy(root),
        outcome: if keep {
            Removal::Kept { because: text::copy("you asked for this home to be left where it is") }
        } else {
            Removal::Planned {
                how: text::copy(
                    "remove this directory and everything under it, including the databases in data/ and every certificate this home has issued",
                ),
            }
        },
    }
}

/// A relocated directory's row.
pub open spec fn relocated_row(directory: Seq<char>, keep: bool) -> Row {
    row(
        ResidueId::RelocatedDirectory,
        "a directory this home was configured to keep somewhere else"@,
        directory,
        if keep {
            Outcome::Kept(
                "you asked for the directories moved out of this home to be left where they are"@,
            )
        } else {
            Outcome::Planned(directory_goes_text())
        },
    )
}

/// A directory `[paths]` has moved out of the root.
pub fn relocated(directory: &str, keep: bool) -> (r: Residue)
    ensures
        r@ == relocated_row(directory@, keep),
{
    Residue {
        id: ResidueId::RelocatedDirectory,
        what: text::copy("a directory this home was configured to keep somewhere else"),
        location: text::copy(directory),
        outcome: if keep {
            Removal::Kept {
                because: text::copy(
                    "you asked for the directories moved out of this home to be left where they are",
                ),
            }
        } else {
            Removal::Planned { how: text::copy("remove this directory and everything under it") }
        },
    }
}

/// A tombstone's row, under the id of the directory it was.
pub open spec fn tombstone_row(id: ResidueId, path: Seq<char>) -> Row {
    row(
        id,
        "a directory an earlier uninstall set aside and could not finish removing"@,
        path,
        Outcome::Planned(directory_goes_text()),
    )
}

/// A tombstone an earlier uninstall renamed and could not delete: garbage, whatever is kept.
pub fn tombstone(id: ResidueId, path: &str) -> (r: Residue)
    ensures
        r@ == tombstone_row(id, path@),
{
    Residue {
        id,
        what: text::copy(
            "a directory an earlier uninstall set aside and could not finish removing",
        ),
        location: text::copy(path),
        outcome: Removal::Planned { how: text::copy("remove this directory and everything under it") },
    }
}

/// The rows for the home, each relocated directory, and every tombstone an earlier run left beside
/// them, in that order.
pub open spec fn directory_rows_of(
    root: Seq<char>,
    moved: Seq<Seq<char>>,
    root_tombstones: Seq<Seq<char>>,
    moved_tombstones: Seq<Seq<char>>,
    query: UninstallQuery,
) -> Seq<Row> {
    seq![home_row(root, query.keep_home)]
        + moved.map_values(|d: Seq<char>| relocated_row(d, query.keep_relocated))
        + root_tombstones.map_values(|t: Seq<char>| tombstone_row(ResidueId::Home, t))
        + moved_tombstones.map_values(|t: Seq<char>| tombstone_row(ResidueId::RelocatedDirectory, t))
}

/// The home, each relocated directory, and every tombstone an earlier run left beside them.
///
/// The home answers `keep_home` and the relocated directories answer `keep_relocated`; a
/// tombstone is always planned. `moved_tombstones` are those beside each relocated directory, in
/// the relocated directories' order.
pub fn directory_rows(
    root: &str,
    moved: &Vec<String>,
    root_tombstones: &Vec<String>,
    moved_tombstones: &Vec<String>,
    query: UninstallQuery,
) -> (r: Vec<Residue>)
    ensures
        views(r@) == directory_rows_of(
            root@,
            moved@.map_values(|s: String| s@),
            root_tombstones@.map_values(|s: String| s@),
            moved_tombstones@.map_values(|s: String| s@),
            query,
        ),
{
    let mut r: Vec<Residue> = Vec::new();
    r.push(home(root, query.keep_home));
    let ghost base = views(r@);
    assert(base =~= seq![home_row(root@, query.keep_home)]);
    let ghost mv = moved@.map_values(|s: String| s@);
    let mut i: usize = 0;
    while i < moved.len()
        invariant
            mv == moved@.map_values(|s: String| s@),
            i <= moved@.len(),
            views(r@) == base + mv.take(i as int).map_values(
                |d: Seq<char>| relocated_row(d, query.keep_relocated),
            ),
        decreases moved@.len() - i,
    {
        let x = relocated(moved[i].as_str(), query.keep_relocated);
        let ghost before = views(r@);
        r.push(x);
        assert(views(r@) =~= before.push(x@));
        i = i + 1;
        assert(views(r@) =~= base + mv.take(i as int).map_values(
            |d: Seq<char>| relocated_row(d, query.keep_relocated),
        ));
    }
    assert(mv.take(moved@.len() as int) =~= mv);
    let ghost base2 = views(r@);
    let ghost rt = root_tombstones@.map_values(|s: String| s@);
    let mut i: usize = 0;
    while i < root_tombstones.len()
        invariant
            rt == root_tombstones@.map_values(|s: String| s@),
            i <= root_tombstones@.len(),
            views(r@) == base2 + rt.take(i as int).map_values(
                |t: Seq<char>| tombstone_row(ResidueId::Home, t),
            ),
        decreases root_tombstones@.len() - i,
    {
        let x = tombstone(ResidueId::Home, root_tombstones[i].as_str());
        let ghost before = views(r@);
        r.push(x);
        assert(views(r@) =~= before.push(x@));
        i = i + 1;
        assert(views(r@) =~= base2 + rt.take(i as int).map_values(
            |t: Seq<char>| tombstone_row(ResidueId::Home, t),
        ));
    }
    assert(rt.take(root_tombstones@.len() as int) =~= rt);
    let ghost base3 = views(r@);
    let ghost mt = moved_tombstones@.map_values(|s: String| s@);
    let mut i: usize = 0;
    while i < moved_tombstones.len()
        invariant
            mt == moved_tombstones@.map_values(|s: String| s@),
            i <= moved_tombstones@.len(),
            views(r@) == base3 + mt.take(i as int).map_values(
                |t: Seq<char>| tombstone_row(ResidueId::RelocatedDirectory, t),
            ),
        decreases moved_tombstones@.len() - i,
    {
        let x = tombstone(ResidueId::RelocatedDirectory, moved_tombstones[i].as_str());
        let ghost before = views(r@);
        r.push(x);
        assert(views(r@) =~= before.push(x@));
        i = i + 1;
        assert(views(r@) =~= base3 + mt.take(i as int).map_values(
            |t: Seq<char>| tombstone_row(ResidueId::RelocatedDirectory, t),
        ));
    }
    assert(mt.take(moved_tombstones@.len() as int) =~= mt);
    r
}

/// The directories an uninstall would remove: the ones nobody asked to keep.
pub open spec fn going_of(root: Parts, moved: Seq<Parts>, query: UninstallQuery) -> Seq<Parts> {
    (if query.keep_home { Seq::empty() } else { seq![root] }) + (if query.keep_relocated {
        Seq::empty()
    } else {
        moved
    })
}

/// The directories this uninstall would remove: the ones nobody asked to keep.
pub fn going(root: &Location, moved: &[Location], query: UninstallQuery) -> (r: Vec<Location>)
    ensures
        views(r@) == going_of(root@, views(moved@), query),
{
    let mut r: Vec<Location> = Vec::new();
    if !query.keep_home {
        r.push(root.copy());
    }
    let ghost base = views(r@);
    assert(base =~= (if query.keep_home { Seq::<Parts>::empty() } else { seq![root@] }));
    if !query.keep_relocated {
        let mut i: usize = 0;
        while i < moved.len()
            invariant
                i <= moved@.len(),
                views(r@) == base + views(moved@).take(i as int),
            decreases moved@.len() - i,
        {
            let x = moved[i].copy();
            let ghost before = views(r@);
            r.push(x);
            assert(views(r@) =~= before.push(x@));
            i = i + 1;
            assert(views(r@) =~= base + views(moved@).take(i as int));
        }
        assert(views(moved@).take(moved@.len() as int) =~= views(moved@));
    } else {
        assert(views(r@) =~= base + Seq::<Parts>::empty());
    }
    r
}

/// Is `d` a directory the home was configured to keep outside its root?
pub open spec fn moved_out_of(d: Parts, root: Parts) -> bool {
    d != root && !root.is_prefix_of(d)
}

/// The directories the home's paths name that lie outside its root, in their own order. On an
/// ordinary home there are none: only a relocation puts one of them somewhere else.
pub fn moved_out(root: &Location, directories: &[Location]) -> (r: Vec<Location>)
    ensures
        views(r@) == views(directories@).filter(|d: Parts| moved_out_of(d, root@)),
{
    let ghost all = views(directories@);
    let ghost keep = |d: Parts| moved_out_of(d, root@);
    let mut r: Vec<Location> = Vec::new();
    let mut i: usize = 0;
    while i < directories.len()
        invariant
            all == views(directories@),
            keep == (|d: Parts| moved_out_of(d, root@)),
            i <= directories@.len(),
            views(r@) == all.take(i as int).filter(keep),
        decreases directories@.len() - i,
    {
        proof {
            text::lemma_filter_step(all, keep, i as int);
        }
        let d = &directories[i];
        assert(all[i as int] == d@);
        if !d.same(root) && !d.starts_with(root) {
            let ghost before = views(r@);
            r.push(d.copy());
            assert(views(r@) =~= before.push(d@));
        }
        i = i + 1;
    }
    assert(all.take(directories@.len() as int) =~= all);
    r
}

/// The home answers `keep_home` and each relocated directory `keep_relocated`, and what the plan
/// says of each agrees with what the uninstall removes: a directory goes exactly when its row is
/// not kept. A tombstone beside either is planned whatever is kept.
pub proof fn a_directory_goes_exactly_when_its_row_is_not_kept(
    root: Parts,
    moved: Seq<Parts>,
    root_text: Seq<char>,
    moved_text: Seq<Seq<char>>,
    root_tombstones: Seq<Seq<char>>,
    moved_tombstones: Seq<Seq<char>>,
    query: UninstallQuery,
)
    requires
        moved_text.len() == moved.len(),
        !moved.contains(root),
    ensures
        ({
            let rows = directory_rows_of(root_text, moved_text, root_tombstones, moved_tombstones, query);
            let gone = going_of(root, moved, query);
            &&& rows[0].id == ResidueId::Home
            &&& (rows[0].outcome is Kept) == query.keep_home
            &&& gone.contains(root) == !query.keep_home
            &&& forall|i: int|
                0 <= i < moved.len() ==> (#[trigger] rows[i + 1]).id == ResidueId::RelocatedDirectory
                    && (rows[i + 1].outcome is Kept) == query.keep_relocated && gone.contains(moved[i])
                    == !query.keep_relocated
            &&& forall|j: int|
                1 + moved.len() <= j < rows.len() ==> (#[trigger] rows[j]).outcome is Planned
        }),
{
    let rows = directory_rows_of(root_text, moved_text, root_tombstones, moved_tombstones, query);
    let gone = going_of(root, moved, query);
    let head = if query.keep_home { Seq::<Parts>::empty() } else { seq![root] };
    let tail = if query.keep_relocated { Seq::<Parts>::empty() } else { moved };
    assert(gone == head + tail);
    if !query.keep_home {
        assert(gone[0] == root);
    } else if gone.contains(root) {
        let k = choose|k: int| 0 <= k < gone.len() && gone[k] == root;
        assert(tail[k] == root);
        assert(moved[k] == root);
    }
    assert forall|i: int| 0 <= i < moved.len() implies (#[trigger] rows[i + 1]).id
        == ResidueId::RelocatedDirectory && (rows[i + 1].outcome is Kept) == query.keep_relocated
        && gone.contains(moved[i]) == !query.keep_relocated by {
        if !query.keep_relocated {
            assert(gone[head.len() + i] == moved[i]);
        } else if gone.contains(moved[i]) {
            let k = choose|k: int| 0 <= k < gone.len() && gone[k] == moved[i];
            assert(head.len() == 1 && gone[0] == root);
        }
    }
}

} // verus!

verus! {

/// A folder that may or may not be there.
#[derive(Debug)]
pub struct Folder {
    /// Where it is, as a person reads it.
    pub location: String,
    /// Whether something is there, without following a link at its end.
    pub there: bool,
}

/// The MixLab window's own folders on this machine.
#[derive(Debug)]
pub struct WindowFolders {
    /// What a person made there: saved connections, histories, the sync database.
    pub data: Vec<Folder>,
    /// The webview's cache and the logs.
    pub cache: Vec<Folder>,
}

/// The row of a window data folder.
pub open spec fn window_data_row(location: Seq<char>, keep_home: bool) -> Row {
    row(
        ResidueId::WindowData,
        "MixLab's saved connections, histories and sync database"@,
        location,
        if keep_home {
            Outcome::Kept("you asked for this home's data to be left where it is"@)
        } else {
            Outcome::Planned(directory_goes_text())
        },
    )
}

/// The row of a window cache folder.
pub open spec fn window_cache_row(location: Seq<char>) -> Row {
    row(
        ResidueId::WindowCache,
        "MixLab's cache and logs"@,
        location,
        Outcome::Planned(directory_goes_text()),
    )
}

/// The locations of the folders in `s` that are there.
pub open spec fn present(s: Seq<Folder>) -> Seq<Seq<char>> {
    s.filter(|f: Folder| f.there).map_values(|f: Folder| f.location@)
}

/// The window's folder rows.
pub open spec fn window_rows_of(ours: bool, found: Option<&WindowFolders>, keep_home: bool) -> Seq<
    Row,
> {
    match found {
        Some(f) if ours => present(f.data@).map_values(
            |l: Seq<char>| window_data_row(l, keep_home),
        ) + present(f.cache@).map_values(|l: Seq<char>| window_cache_row(l)),
        _ => Seq::empty(),
    }
}

fn folder_rows(folders: &Vec<Folder>, data: bool, keep_home: bool) -> (r: Vec<Residue>)
    ensures
        views(r@) == if data {
            present(folders@).map_values(|l: Seq<char>| window_data_row(l, keep_home))
        } else {
            present(folders@).map_values(|l: Seq<char>| window_cache_row(l))
        },
{
    let ghost keep = |f: Folder| f.there;
    let ghost make = |l: Seq<char>|
        if data {
            window_data_row(l, keep_home)
        } else {
            window_cache_row(l)
        };
    let mut r: Vec<Residue> = Vec::new();
    let mut i: usize = 0;
    while i < folders.len()
        invariant
            i <= folders@.len(),
            keep == (|f: Folder| f.there),
            make == (|l: Seq<char>|
                if data {
                    window_data_row(l, keep_home)
                } else {
                    window_cache_row(l)
                }),
            views(r@) == folders@.take(i as int).filter(keep).map_values(|f: Folder| f.location@).map_values(
                make,
            ),
        decreases folders@.len() - i,
    {
        proof {
            text::lemma_filter_step(folders@, keep, i as int);
        }
        let ghost before = folders@.take(i as int).filter(keep);
        if folders[i].there {
            let location = folders[i].location.clone();
            let x = if data {
                Residue {
                    id: ResidueId::WindowData,
                    what: text::copy("MixLab's saved connections, histories and sync database"),
                    location,
                    outcome: if keep_home {
                        Removal::Kept {
                            because: text::copy(
                                "you asked for this home's data to be left where it is",
                            ),
                        }
                    } else {
                        Removal::Planned {
                            how: text::copy("remove this directory and everything under it"),
                        }
                    },
                }
            } else {
                Residue {
                    id: ResidueId::WindowCache,
                    what: text::copy("MixLab's cache and logs"),
                    location,
                    outcome: Removal::Planned {
                        how: text::copy("remove this directory and everything under it"),
                    },
                }
            };
            let ghost old_views = views(r@);
            r.push(x);
            assert(views(r@) =~= old_views.push(x@));
            assert(folders@.take(i + 1).filter(keep) =~= before.push(folders@[i as int]));
            assert(x@ == make(folders@[i as int].location@));
            assert(views(r@) =~= folders@.take(i + 1).filter(keep).map_values(
                |f: Folder| f.location@,
            ).map_values(make));
        } else {
            assert(folders@.take(i + 1).filter(keep) =~= before);
        }
        i = i + 1;
    }
    assert(folders@.take(folders@.len() as int) =~= folders@);
    assert(views(r@) =~= present(folders@).map_values(make));
    r
}

/// The MixLab window's own folders, when this is the home the installed window uses.
///
/// What a person made there follows the home, kept when it is kept; the cache and the logs go
/// whatever is kept. A folder that is not there has no row.
pub fn window_rows(ours: bool, found: Option<&WindowFolders>, keep_home: bool) -> (r: Vec<
    Residue,
>)
    ensures
        views(r@) == window_rows_of(ours, found, keep_home),
{
    match found {
        Some(f) if ours => {
            let mut r = folder_rows(&f.data, true, keep_home);
            let mut cache = folder_rows(&f.cache, false, keep_home);
            let ghost a = views(r@);
            let ghost b = views(cache@);
            r.append(&mut cache);
            assert(views(r@) =~= a + b);
            r
        },
        _ => Vec::new(),
    }
}

/// A program file an install recorded adding to itself, and whether it is still there.
#[derive(Debug)]
pub struct Recorded {
    /// Its name, without the system's executable suffix.
    pub name: String,
    /// Whether the file is there in the install's directory.
    pub there: bool,
}

/// The row for the program files an install added to itself, when any of them is still there.
pub open spec fn completed_row_of(directory: Option<Seq<char>>, recorded: Seq<Recorded>) -> Option<
    Row,
> {
    let names = recorded.filter(|x: Recorded| x.there).map_values(|x: Recorded| x.name@);
    match directory {
        Some(d) if names.len() > 0 => Some(
            row(
                ResidueId::CompletedBinary,
                "program files this install added to itself: "@ + text::joined(names, ", "@),
                d,
                Outcome::Planned("remove these files from the program's directory"@),
            ),
        ),
        _ => None,
    }
}

/// The program files this install added to itself: one row for every recorded file still there.
///
/// `directory` is the install's, as a person reads it, when it is a copy MixEngine updates itself;
/// one a package manager placed is its package's to remove, and has none.
pub fn completed_row(directory: Option<&str>, recorded: &Vec<Recorded>) -> (r: Option<Residue>)
    ensures
        match r {
            Some(x) => completed_row_of(
                match directory {
                    Some(d) => Some(d@),
                    None => None,
                },
                recorded@,
            ) == Some(x@),
            None => completed_row_of(
                match directory {
                    Some(d) => Some(d@),
                    None => None,
                },
                recorded@,
            ) is None,
        },
{
    let d = match directory {
        Some(d) => d,
        None => return None,
    };
    let ghost keep = |x: Recorded| x.there;
    let mut names: Vec<String> = Vec::new();
    let mut i: usize = 0;
    while i < recorded.len()
        invariant
            i <= recorded@.len(),
            keep == (|x: Recorded| x.there),
            names@.map_values(|s: String| s@) == recorded@.take(i as int).filter(keep).map_values(
                |x: Recorded| x.name@,
            ),
        decreases recorded@.len() - i,
    {
        proof {
            text::lemma_filter_step(recorded@, keep, i as int);
        }
        let ghost before = recorded@.take(i as int).filter(keep);
        if recorded[i].there {
            let ghost old_names = names@.map_values(|s: String| s@);
            names.push(recorded[i].name.clone());
            assert(names@.map_values(|s: String| s@) =~= old_names.push(recorded@[i as int].name@));
            assert(recorded@.take(i + 1).filter(keep) =~= before.push(recorded@[i as int]));
            assert(names@.map_values(|s: String| s@) =~= recorded@.take(i + 1).filter(keep).map_values(
                |x: Recorded| x.name@,
            ));
        } else {
            assert(recorded@.take(i + 1).filter(keep) =~= before);
        }
        i = i + 1;
    }
    assert(recorded@.take(recorded@.len() as int) =~= recorded@);
    if names.len() == 0 {
        return None;
    }
    let listed = text::join(&names, ", ");
    Some(Residue {
        id: ResidueId::CompletedBinary,
        what: text::concat("program files this install added to itself: ", listed.as_str()),
        location: text::copy(d),
        outcome: Removal::Planned {
            how: text::copy("remove these files from the program's directory"),
        },
    })
}

} // verus!

verus! {

/// The service this home's passwords are kept under in the credential store.
pub const KEYRING_SERVICE: &'static str = "mixengine";

/// The service the MixLab window's passwords are kept under.
pub const WINDOW_KEYRING_SERVICE: &'static str = "MixLab";

/// Why a credential store could not be listed.
#[derive(Debug)]
pub enum StoreError {
    /// This machine has no credential store at all.
    Unsupported,
    /// A store is there and refused, in its own words.
    Refused(String),
}

/// What the credential store holds for an uninstall.
#[derive(Debug)]
pub struct Found {
    /// This home's id, or nothing when it could not be read.
    pub home: Option<String>,
    /// Every key under this home's service.
    pub daemon: Result<Vec<String>, StoreError>,
    /// Every key under the window's service, when this is the home the window drives.
    pub window: Option<Result<Vec<String>, StoreError>>,
}

/// What a credential row says about the passwords, given whether the home is kept.
pub open spec fn credential_outcome(keep_home: bool) -> Outcome {
    if keep_home {
        Outcome::Kept(
            "you asked for this home's data to be left where it is, and the passwords it needs stay with it"@,
        )
    } else {
        Outcome::Planned("remove them from this user's credential store"@)
    }
}

fn credential_outcome_exec(keep_home: bool) -> (r: Removal)
    ensures
        r@ == credential_outcome(keep_home),
{
    if keep_home {
        Removal::Kept {
            because: text::copy(
                "you asked for this home's data to be left where it is, and the passwords it needs stay with it",
            ),
        }
    } else {
        Removal::Planned { how: text::copy("remove them from this user's credential store") }
    }
}

/// Where this home's passwords are, as a person reads it.
pub open spec fn daemon_location(home: Option<String>) -> Seq<char> {
    KEYRING_SERVICE@ + " · "@ + (match home {
        Some(h) => h@,
        None => "this home"@,
    }) + "/…"@
}

/// How many of `keys` are this home's.
pub open spec fn count_ours(home: Seq<char>, keys: Seq<Seq<char>>) -> nat {
    keys.filter(|k: Seq<char>| (home + "/"@).is_prefix_of(k)).len()
}

/// The row for this home's passwords, if it has one.
pub open spec fn daemon_rows(found: &Found, keep_home: bool) -> Seq<Row> {
    let location = daemon_location(found.home);
    match found.daemon {
        Err(StoreError::Unsupported) => Seq::empty(),
        Err(StoreError::Refused(error)) => seq![
            row(
                ResidueId::Credentials,
                "this home's passwords"@,
                location,
                Outcome::Failed("the credential store could not be listed: "@ + error@),
            ),
        ],
        Ok(keys) => match found.home {
            None => seq![
                row(
                    ResidueId::Credentials,
                    "this home's passwords"@,
                    location,
                    Outcome::Failed(
                        "this home's id could not be read, so its passwords cannot be told from another home's"@,
                    ),
                ),
            ],
            Some(h) => {
                let count = count_ours(h@, keys@.map_values(|s: String| s@));
                if count > 0 {
                    seq![
                        row(
                            ResidueId::Credentials,
                            text::decimal(count) + " "@ + (if count == 1 {
                                "password"@
                            } else {
                                "passwords"@
                            }) + " this home's services and databases use"@,
                            location,
                            credential_outcome(keep_home),
                        ),
                    ]
                } else {
                    Seq::empty()
                }
            },
        },
    }
}

/// The row for the window's passwords, if it has one.
pub open spec fn window_credential_rows(found: &Found, keep_home: bool) -> Seq<Row> {
    match found.window {
        Some(Err(StoreError::Refused(error))) => seq![
            row(
                ResidueId::WindowCredentials,
                "MixLab's saved passwords and sync sign-in"@,
                WINDOW_KEYRING_SERVICE@,
                Outcome::Failed("the credential store could not be listed: "@ + error@),
            ),
        ],
        Some(Ok(keys)) if keys@.len() > 0 => seq![
            row(
                ResidueId::WindowCredentials,
                "MixLab's saved passwords and sync sign-in"@,
                WINDOW_KEYRING_SERVICE@,
                credential_outcome(keep_home),
            ),
        ],
        _ => Seq::empty(),
    }
}

/// The credential rows follow the home: at most one for this home's passwords, first, and one
/// for the window's; none is ever absent; every row that is not a failure is kept when the home
/// is and planned for removal when it is not; and this home has a row that is not a failure
/// exactly when its id was read, its store listed, and some key in it is this home's.
pub proof fn credential_rows_follow_the_home(found: &Found, keep_home: bool)
    ensures
        ({
            let rows = daemon_rows(found, keep_home) + window_credential_rows(found, keep_home);
            &&& rows.len() <= 2
            &&& forall|i: int| 0 <= i < rows.len() ==> !((#[trigger] rows[i]).outcome is Absent)
            &&& forall|i: int|
                0 <= i < rows.len() && !((#[trigger] rows[i]).outcome is Failed) ==> rows[i].outcome
                    == credential_outcome(keep_home)
            &&& forall|i: int|
                0 <= i < rows.len() && (#[trigger] rows[i]).id == ResidueId::Credentials ==> i == 0
            &&& forall|i: int|
                0 <= i < rows.len() ==> (#[trigger] rows[i]).id == ResidueId::Credentials || rows[i].id
                    == ResidueId::WindowCredentials
            &&& forall|i: int, j: int|
                0 <= i < j < rows.len() ==> (#[trigger] rows[i]).id != (#[trigger] rows[j]).id
            &&& (exists|i: int|
                0 <= i < rows.len() && (#[trigger] rows[i]).id == ResidueId::Credentials
                    && !(rows[i].outcome is Failed)) <==> (found.home is Some && found.daemon is Ok
                && count_ours(found.home->0@, found.daemon->Ok_0@.map_values(|s: String| s@)) > 0)
        }),
{
    let d = daemon_rows(found, keep_home);
    let w = window_credential_rows(found, keep_home);
    let rows = d + w;
    assert(d.len() <= 1);
    assert(w.len() <= 1);
    assert(forall|i: int| 0 <= i < d.len() ==> (#[trigger] d[i]).id == ResidueId::Credentials);
    assert(forall|i: int| 0 <= i < w.len() ==> (#[trigger] w[i]).id == ResidueId::WindowCredentials);
    assert forall|i: int| 0 <= i < rows.len() implies (#[trigger] rows[i]).id == (if i < d.len() {
        d[i].id
    } else {
        w[i - d.len()].id
    }) && rows[i].outcome == (if i < d.len() {
        d[i].outcome
    } else {
        w[i - d.len()].outcome
    }) by {}
    if found.home is Some && found.daemon is Ok && count_ours(
        found.home->0@,
        found.daemon->Ok_0@.map_values(|s: String| s@),
    ) > 0 {
        assert(rows[0].id == ResidueId::Credentials && !(rows[0].outcome is Failed));
    }
}

/// This home's passwords and the window's, following the home.
///
/// A store with nothing of ours has no row, and neither has a machine with no store at all. A
/// store that is there and refused is a failed row, never an absent one; so is a home whose id
/// could not be read, since its keys cannot be told from another home's.
pub fn credential_rows(found: &Found, keep_home: bool) -> (r: Vec<Residue>)
    ensures
        views(r@) == daemon_rows(found, keep_home) + window_credential_rows(found, keep_home),
{
    let mut r: Vec<Residue> = Vec::new();
    let mut location = text::copy(KEYRING_SERVICE);
    location.append(" · ");
    match &found.home {
        Some(h) => location.append(h.as_str()),
        None => location.append("this home"),
    }
    location.append("/…");
    assert(location@ =~= daemon_location(found.home));
    match &found.daemon {
        Err(StoreError::Unsupported) => {},
        Err(StoreError::Refused(error)) => {
            r.push(Residue {
                id: ResidueId::Credentials,
                what: text::copy("this home's passwords"),
                location,
                outcome: Removal::Failed {
                    because: text::concat(
                        "the credential store could not be listed: ",
                        error.as_str(),
                    ),
                },
            });
        },
        Ok(keys) => match &found.home {
            None => {
                r.push(Residue {
                    id: ResidueId::Credentials,
                    what: text::copy("this home's passwords"),
                    location,
                    outcome: Removal::Failed {
                        because: text::copy(
                            "this home's id could not be read, so its passwords cannot be told from another home's",
                        ),
                    },
                });
            },
            Some(h) => {
                let mine = ours(h.as_str(), keys);
                let count = mine.len();
                if count > 0 {
                    let mut what = text::decimal_text(count as u64);
                    if count == 1 {
                        what.append(" password");
                    } else {
                        what.append(" passwords");
                    }
                    what.append(" this home's services and databases use");
                    proof {
                        assert(count as nat == count_ours(h@, keys@.map_values(|s: String| s@)));
                        reveal_strlit(" ");
                        reveal_strlit(" password");
                        reveal_strlit(" passwords");
                        reveal_strlit("password");
                        reveal_strlit("passwords");
                        if count == 1 {
                            assert(what@ =~= text::decimal(count as nat) + " "@ + "password"@
                                + " this home's services and databases use"@);
                        } else {
                            assert(what@ =~= text::decimal(count as nat) + " "@ + "passwords"@
                                + " this home's services and databases use"@);
                        }
                    }
                    r.push(Residue {
                        id: ResidueId::Credentials,
                        what,
                        location,
                        outcome: credential_outcome_exec(keep_home),
                    });
                }
            },
        },
    }
    let ghost first = views(r@);
    assert(first =~= daemon_rows(found, keep_home));
    match &found.window {
        Some(Err(StoreError::Refused(error))) => {
            r.push(Residue {
                id: ResidueId::WindowCredentials,
                what: text::copy("MixLab's saved passwords and sync sign-in"),
                location: text::copy(WINDOW_KEYRING_SERVICE),
                outcome: Removal::Failed {
                    because: text::concat(
                        "the credential store could not be listed: ",
                        error.as_str(),
                    ),
                },
            });
        },
        Some(Ok(keys)) => {
            if keys.len() > 0 {
                r.push(Residue {
                    id: ResidueId::WindowCredentials,
                    what: text::copy("MixLab's saved passwords and sync sign-in"),
                    location: text::copy(WINDOW_KEYRING_SERVICE),
                    outcome: credential_outcome_exec(keep_home),
                });
            }
        },
        _ => {},
    }
    assert(views(r@) =~= first + window_credential_rows(found, keep_home));
    r
}

} // verus!

verus! {

/// How a row names a process: `(pid N)`.
pub open spec fn pid_tag(pid: u32) -> Seq<char> {
    "(pid "@ + text::decimal(pid as nat) + ")"@
}

/// What a row in the way says last.
pub open spec fn close_and_retry() -> Seq<char> {
    "; close it and run the uninstall again"@
}

fn pid_tag_exec(pid: u32) -> (r: String)
    ensures
        r@ == pid_tag(pid),
{
    let mut r = text::copy("(pid ");
    let digits = text::decimal_text(pid as u64);
    r.append(digits.as_str());
    r.append(")");
    r
}

/// The row of a process running from a directory the uninstall removes.
pub open spec fn running_row(o: (u32, Seq<char>, Parts), separator: char) -> Row {
    row(
        ResidueId::InUse,
        o.1 + " "@ + pid_tag(o.0),
        location::display(o.2, separator),
        Outcome::Blocked(
            o.1 + " is running from a directory this uninstall removes"@ + close_and_retry(),
        ),
    )
}

/// One row per process running from a directory the uninstall removes.
pub fn running_rows(occupants: &Vec<crate::occupants::Occupant>, separator: char) -> (r: Vec<
    Residue,
>)
    ensures
        views(r@) == views(occupants@).map_values(
            |o: (u32, Seq<char>, Parts)| running_row(o, separator),
        ),
{
    let mut r: Vec<Residue> = Vec::new();
    let mut i: usize = 0;
    while i < occupants.len()
        invariant
            i <= occupants@.len(),
            views(r@) == views(occupants@).take(i as int).map_values(
                |o: (u32, Seq<char>, Parts)| running_row(o, separator),
            ),
        decreases occupants@.len() - i,
    {
        let o = &occupants[i];
        let mut what = o.name.clone();
        what.append(" ");
        let tag = pid_tag_exec(o.pid);
        what.append(tag.as_str());
        let mut by = o.name.clone();
        by.append(" is running from a directory this uninstall removes");
        by.append("; close it and run the uninstall again");
        let x = Residue {
            id: ResidueId::InUse,
            what,
            location: o.executable.display(separator),
            outcome: Removal::Blocked { by },
        };
        let ghost before = views(r@);
        r.push(x);
        proof {
            reveal_strlit(" ");
            reveal_strlit(" is running from a directory this uninstall removes");
            reveal_strlit("; close it and run the uninstall again");
            let f = |o: (u32, Seq<char>, Parts)| running_row(o, separator);
            let vs = views(occupants@);
            assert(vs[i as int] == occupants@[i as int]@);
            assert(x@.what =~= running_row(occupants@[i as int]@, separator).what);
            assert(x@.outcome == running_row(occupants@[i as int]@, separator).outcome);
            assert(x@ == f(vs[i as int]));
            assert(views(r@) =~= before.push(x@));
            assert(vs.take(i + 1) =~= vs.take(i as int).push(vs[i as int]));
            assert(vs.take(i + 1).map_values(f) =~= vs.take(i as int).map_values(f).push(f(vs[i as int])));
        }
        i = i + 1;
    }
    assert(views(occupants@).take(occupants@.len() as int) =~= views(occupants@));
    r
}

/// One line per holder of something that cannot be moved: who, and where, as a person reads it.
pub open spec fn stuck_entries(held: Seq<crate::occupants::HeldItem>, separator: char) -> Seq<
    (u32, Seq<char>, Seq<char>),
>
    decreases held.len(),
{
    if held.len() == 0 {
        Seq::empty()
    } else {
        let item = held.last();
        stuck_entries(held.drop_last(), separator) + if item.movable {
            Seq::empty()
        } else {
            item.holders@.map_values(
                |h: crate::occupants::Holder| (h.pid, h.name@, location::display(item.path@, separator)),
            )
        }
    }
}

/// The first of the first `n` entries that is `pid`'s.
pub open spec fn first_entry(es: Seq<(u32, Seq<char>, Seq<char>)>, pid: u32, n: nat) -> Option<int>
    decreases n,
{
    if n == 0 {
        None
    } else {
        match first_entry(es, pid, (n - 1) as nat) {
            Some(k) => Some(k),
            None => if es[n - 1].0 == pid {
                Some(n - 1)
            } else {
                None
            },
        }
    }
}

/// Where `pid` holds something that cannot be moved, in the order the entries say.
pub open spec fn paths_of(es: Seq<(u32, Seq<char>, Seq<char>)>, pid: u32) -> Seq<Seq<char>> {
    es.filter(of_pid(pid)).map_values(place_of())
}

/// Is an entry `pid`'s?
pub open spec fn of_pid(pid: u32) -> spec_fn((u32, Seq<char>, Seq<char>)) -> bool {
    |e: (u32, Seq<char>, Seq<char>)| e.0 == pid
}

/// The place an entry names.
pub open spec fn place_of() -> spec_fn((u32, Seq<char>, Seq<char>)) -> Seq<char> {
    |e: (u32, Seq<char>, Seq<char>)| e.2
}

/// Is `m` one of `s` that nothing in `s` comes before?
pub open spec fn is_least(s: Seq<Seq<char>>, m: Seq<char>) -> bool {
    s.contains(m) && forall|q: Seq<char>| s.contains(q) ==> !text::precedes(q, m)
}

/// The one of `s` that comes first.
pub open spec fn least(s: Seq<Seq<char>>) -> Seq<char> {
    choose|m: Seq<char>| is_least(s, m)
}

/// What a stuck row adds when there is more than the one place it names.
pub open spec fn more_text(more: nat) -> Seq<char> {
    if more == 0 {
        Seq::empty()
    } else {
        " (and "@ + text::decimal(more) + " more)"@
    }
}

/// The row for `pid`, holding something that cannot be moved: named as its first entry names it,
/// at the first place it holds in order, with a count of the rest.
pub open spec fn stuck_row(es: Seq<(u32, Seq<char>, Seq<char>)>, pid: u32) -> Row {
    let name = es[first_entry(es, pid, es.len())->0].1;
    let places = paths_of(es, pid);
    let first = least(places);
    row(
        ResidueId::InUse,
        name + " "@ + pid_tag(pid),
        first,
        Outcome::Blocked(
            name + " has "@ + first + " open, so it cannot be moved or deleted"@ + more_text(
                (places.len() - 1) as nat,
            ) + close_and_retry(),
        ),
    )
}

/// Is there a row among `running` that names `pid`?
pub open spec fn tagged(running: Seq<Row>, pid: u32) -> bool {
    exists|k: int| 0 <= k < running.len() && pid_tag(pid).is_suffix_of(#[trigger] running[k].what)
}

/// Does `pid` hold something that cannot be moved, and is it not a row for running already?
pub open spec fn wanted(es: Seq<(u32, Seq<char>, Seq<char>)>, running: Seq<Row>, pid: u32) -> bool {
    (exists|k: int| 0 <= k < es.len() && (#[trigger] es[k]).0 == pid) && !tagged(running, pid)
}

/// The pids that get a stuck row, in increasing order.
pub open spec fn stuck_pids(es: Seq<(u32, Seq<char>, Seq<char>)>, running: Seq<Row>) -> Seq<u32> {
    choose|s: Seq<u32>| crate::occupants::increasing(s) && forall|p: u32| s.contains(p) <==> wanted(es, running, p)
}

proof fn lemma_least_unique(s: Seq<Seq<char>>, m: Seq<char>)
    requires
        is_least(s, m),
    ensures
        least(s) == m,
{
    let l = least(s);
    assert(is_least(s, l));
    if l != m {
        text::lemma_precedes_total(l, m);
    }
}

proof fn lemma_first_entry_none(es: Seq<(u32, Seq<char>, Seq<char>)>, pid: u32, n: nat, k: int)
    requires
        n <= es.len(),
        0 <= k < n,
        es[k].0 == pid,
    ensures
        first_entry(es, pid, n) is Some,
    decreases n,
{
    if k < n - 1 {
        lemma_first_entry_none(es, pid, (n - 1) as nat, k);
    }
}

proof fn lemma_first_entry_stays(es: Seq<(u32, Seq<char>, Seq<char>)>, pid: u32, i: nat, n: nat)
    requires
        i < n <= es.len(),
        first_entry(es, pid, (i + 1) as nat) == Some(i as int),
    ensures
        first_entry(es, pid, n) == Some(i as int),
    decreases n - i,
{
    if n > i + 1 {
        lemma_first_entry_stays(es, pid, i, (n - 1) as nat);
    }
}


/// An entry of [`stuck_entries`] as the contracts see it.
pub open spec fn entry_views(s: Seq<(u32, String, String)>) -> Seq<(u32, Seq<char>, Seq<char>)> {
    s.map_values(|e: (u32, String, String)| (e.0, e.1@, e.2@))
}

fn stuck_entries_exec(held: &Vec<crate::occupants::HeldItem>, separator: char) -> (r: Vec<
    (u32, String, String),
>)
    ensures
        entry_views(r@) == stuck_entries(held@, separator),
{
    let mut r: Vec<(u32, String, String)> = Vec::new();
    let mut i: usize = 0;
    while i < held.len()
        invariant
            i <= held@.len(),
            entry_views(r@) == stuck_entries(held@.take(i as int), separator),
        decreases held@.len() - i,
    {
        let item = &held[i];
        let ghost base = entry_views(r@);
        proof {
            assert(held@.take(i + 1).drop_last() =~= held@.take(i as int));
            assert(held@.take(i + 1).last() == held@[i as int]);
        }
        if !item.movable {
            let place = item.path.display(separator);
            let ghost f = |h: crate::occupants::Holder|
                (h.pid, h.name@, location::display(item.path@, separator));
            let mut j: usize = 0;
            while j < item.holders.len()
                invariant
                    j <= item.holders@.len(),
                    place@ == location::display(item.path@, separator),
                    f == (|h: crate::occupants::Holder|
                        (h.pid, h.name@, location::display(item.path@, separator))),
                    entry_views(r@) == base + item.holders@.take(j as int).map_values(f),
                decreases item.holders@.len() - j,
            {
                let h = &item.holders[j];
                let ghost before = entry_views(r@);
                r.push((h.pid, h.name.clone(), place.clone()));
                assert(entry_views(r@) =~= before.push(f(item.holders@[j as int])));
                assert(item.holders@.take(j + 1) =~= item.holders@.take(j as int).push(
                    item.holders@[j as int],
                ));
                assert(item.holders@.take(j + 1).map_values(f) =~= item.holders@.take(
                    j as int,
                ).map_values(f).push(f(item.holders@[j as int])));
                j = j + 1;
            }
            assert(item.holders@.take(item.holders@.len() as int) =~= item.holders@);
        } else {
            assert(entry_views(r@) =~= base + Seq::<(u32, Seq<char>, Seq<char>)>::empty());
        }
        i = i + 1;
    }
    assert(held@.take(held@.len() as int) =~= held@);
    r
}

fn tagged_exec(running: &Vec<Residue>, pid: u32) -> (r: bool)
    ensures
        r == tagged(views(running@), pid),
{
    let tag = pid_tag_exec(pid);
    let mut k: usize = 0;
    while k < running.len()
        invariant
            k <= running@.len(),
            tag@ == pid_tag(pid),
            forall|m: int| 0 <= m < k ==> !pid_tag(pid).is_suffix_of(#[trigger] running@[m]@.what),
        decreases running@.len() - k,
    {
        if text::ends_with(running[k].what.as_str(), tag.as_str()) {
            assert(views(running@)[k as int] == running@[k as int]@);
            assert(pid_tag(pid).is_suffix_of(views(running@)[k as int].what));
            return true;
        }
        k = k + 1;
    }
    assert forall|m: int| 0 <= m < views(running@).len() implies !pid_tag(pid).is_suffix_of(
        #[trigger] views(running@)[m].what,
    ) by {
        assert(views(running@)[m] == running@[m]@);
    }
    false
}

proof fn lemma_paths_step(es: Seq<(u32, Seq<char>, Seq<char>)>, pid: u32, j: int)
    requires
        0 <= j < es.len(),
    ensures
        paths_of(es.take(j + 1), pid) == paths_of(es.take(j), pid) + (if es[j].0 == pid {
            seq![es[j].2]
        } else {
            Seq::<Seq<char>>::empty()
        }),
{
    let keep = of_pid(pid);
    let third = place_of();
    text::lemma_filter_step(es, keep, j);
    let a = es.take(j).filter(keep);
    let b = if keep(es[j]) {
        seq![es[j]]
    } else {
        Seq::<(u32, Seq<char>, Seq<char>)>::empty()
    };
    assert((a + b).map_values(third) =~= a.map_values(third) + b.map_values(third));
    if es[j].0 == pid {
        assert(b.map_values(third) =~= seq![es[j].2]);
    } else {
        assert(b.map_values(third) =~= Seq::<Seq<char>>::empty());
    }
}

fn more_exec(more: usize) -> (r: String)
    ensures
        r@ == more_text(more as nat),
{
    if more == 0 {
        String::new()
    } else {
        let mut r = text::copy(" (and ");
        let digits = text::decimal_text(more as u64);
        r.append(digits.as_str());
        r.append(" more)");
        r
    }
}

/// The row for `pid` among `es`.
fn stuck_row_exec(es: &Vec<(u32, String, String)>, pid: u32) -> (r: Residue)
    requires
        exists|k: int| 0 <= k < es@.len() && (#[trigger] es@[k]).0 == pid,
    ensures
        r@ == stuck_row(entry_views(es@), pid),
{
    let ghost ev = entry_views(es@);
    let mut name: Option<String> = None;
    let mut best: Option<String> = None;
    let mut count: usize = 0;
    let mut j: usize = 0;
    while j < es.len()
        invariant
            ev == entry_views(es@),
            j <= es@.len(),
            count == paths_of(ev.take(j as int), pid).len(),
            count <= j,
            match name {
                None => first_entry(ev, pid, j as nat) is None,
                Some(n) => first_entry(ev, pid, j as nat) matches Some(k) && 0 <= k < j
                    && n@ == ev[k].1,
            },
            match best {
                None => count == 0,
                Some(b) => is_least(paths_of(ev.take(j as int), pid), b@),
            },
        decreases es@.len() - j,
    {
        proof {
            lemma_paths_step(ev, pid, j as int);
        }
        let ghost before = paths_of(ev.take(j as int), pid);
        let e = &es[j];
        assert(ev[j as int] == (e.0, e.1@, e.2@));
        if e.0 == pid {
            if name.is_none() {
                name = Some(e.1.clone());
            }
            let ghost after = before.push(e.2@);
            assert(paths_of(ev.take(j + 1), pid) =~= after);
            match &best {
                None => {
                    proof {
                        assert(before.len() == 0);
                        assert forall|q: Seq<char>| after.contains(q) implies !text::precedes(
                            q,
                            e.2@,
                        ) by {
                            let m = choose|m: int| 0 <= m < after.len() && after[m] == q;
                            assert(m == 0);
                            text::lemma_precedes_irreflexive(e.2@);
                        }
                        assert(after[0] == e.2@);
                    }
                    best = Some(e.2.clone());
                },
                Some(b) => {
                    if text::text_precedes(e.2.as_str(), b.as_str()) {
                        proof {
                            assert forall|q: Seq<char>| after.contains(q) implies !text::precedes(
                                q,
                                e.2@,
                            ) by {
                                let m = choose|m: int| 0 <= m < after.len() && after[m] == q;
                                if m < before.len() {
                                    assert(before.contains(q));
                                    if text::precedes(q, e.2@) {
                                        text::lemma_precedes_transitive(q, e.2@, b@);
                                    }
                                } else {
                                    text::lemma_precedes_irreflexive(e.2@);
                                }
                            }
                            assert(after[after.len() - 1] == e.2@);
                        }
                        best = Some(e.2.clone());
                    } else {
                        proof {
                            assert forall|q: Seq<char>| after.contains(q) implies !text::precedes(
                                q,
                                b@,
                            ) by {
                                let m = choose|m: int| 0 <= m < after.len() && after[m] == q;
                                if m < before.len() {
                                    assert(before.contains(q));
                                }
                            }
                            let m = choose|m: int| 0 <= m < before.len() && before[m] == b@;
                            assert(after[m] == b@);
                        }
                    }
                },
            }
            count = count + 1;
        } else {
            assert(paths_of(ev.take(j + 1), pid) =~= before);
        }
        j = j + 1;
    }
    assert(ev.take(es@.len() as int) =~= ev);
    let ghost k = choose|k: int| 0 <= k < es@.len() && (#[trigger] es@[k]).0 == pid;
    assert(ev[k].0 == pid);
    assert(paths_of(ev, pid).contains(ev[k].2)) by {
        let keep = of_pid(pid);
        ev.lemma_filter_contains(keep, k);
        let f = ev.filter(keep);
        let m = choose|m: int| 0 <= m < f.len() && f[m] == ev[k];
        assert(paths_of(ev, pid)[m] == ev[k].2);
    }
    proof {
        lemma_first_entry_none(ev, pid, ev.len(), k);
    }
    let name = match name {
        Some(n) => n,
        None => {
            proof {
                assert(false);
            }
            String::new()
        },
    };
    let best = match best {
        Some(b) => b,
        None => {
            proof {
                assert(false);
            }
            String::new()
        },
    };
    proof {
        lemma_least_unique(paths_of(ev, pid), best@);
    }
    let mut what = name.clone();
    what.append(" ");
    let tag = pid_tag_exec(pid);
    what.append(tag.as_str());
    let mut by = name;
    by.append(" has ");
    by.append(best.as_str());
    by.append(" open, so it cannot be moved or deleted");
    let more = more_exec(count - 1);
    by.append(more.as_str());
    by.append("; close it and run the uninstall again");
    let r = Residue {
        id: ResidueId::InUse,
        what,
        location: best,
        outcome: Removal::Blocked { by },
    };
    proof {
        reveal_strlit(" ");
        reveal_strlit(" has ");
        reveal_strlit(" open, so it cannot be moved or deleted");
        reveal_strlit("; close it and run the uninstall again");
        assert(r@.what =~= stuck_row(ev, pid).what);
        assert(r@.outcome == stuck_row(ev, pid).outcome);
    }
    r
}

/// One row per process holding something inside a directory the uninstall removes that cannot be
/// moved, in pid order, unless that process is already a row for running from one of them.
///
/// A process is matched on the `(pid N)` a running row's `what` ends with. Its row names it as its
/// first entry does, at the first place it holds, with a count of the others.
pub fn stuck_rows(
    held: &Vec<crate::occupants::HeldItem>,
    running: &Vec<Residue>,
    separator: char,
) -> (r: Vec<Residue>)
    ensures
        views(r@) == stuck_pids(stuck_entries(held@, separator), views(running@)).map_values(
            |p: u32| stuck_row(stuck_entries(held@, separator), p),
        ),
        crate::occupants::increasing(stuck_pids(stuck_entries(held@, separator), views(running@))),
        forall|p: u32|
            #[trigger] stuck_pids(stuck_entries(held@, separator), views(running@)).contains(p)
                <==> wanted(stuck_entries(held@, separator), views(running@), p),
{
    let es = stuck_entries_exec(held, separator);
    let ghost ev = entry_views(es@);
    let ghost rv = views(running@);
    let mut pids: Vec<u32> = Vec::new();
    let mut i: usize = 0;
    while i < es.len()
        invariant
            ev == entry_views(es@),
            rv == views(running@),
            i <= es@.len(),
            crate::occupants::increasing(pids@),
            forall|p: u32| #[trigger] pids@.contains(p) <==> ((exists|k: int| 0 <= k < i && (#[trigger] ev[k]).0 == p)
                && !tagged(rv, p)),
        decreases es@.len() - i,
    {
        let p = es[i].0;
        assert(ev[i as int].0 == p);
        let ghost old_pids = pids@;
        let seen = crate::occupants::holds_pid(&pids, p);
        let here = tagged_exec(running, p);
        if !seen && !here {
            crate::occupants::insert_in_order(&mut pids, p);
        }
        proof {
            assert forall|x: u32| pids@.contains(x) <==> ((exists|k: int| 0 <= k < i + 1 && (#[trigger] ev[k]).0 == x)
                && !tagged(rv, x)) by {
                assert(pids@.contains(x) <==> (old_pids.contains(x) || (x == p && !seen && !here)));
                if exists|k: int| 0 <= k < i + 1 && (#[trigger] ev[k]).0 == x {
                    let k = choose|k: int| 0 <= k < i + 1 && (#[trigger] ev[k]).0 == x;
                    if k < i {
                        assert(exists|k: int| 0 <= k < i && (#[trigger] ev[k]).0 == x);
                    } else {
                        assert(x == p);
                        if seen {
                            assert(exists|k: int| 0 <= k < i && (#[trigger] ev[k]).0 == x);
                        }
                    }
                }
                if x == p {
                    assert(ev[i as int].0 == x);
                } else if exists|k: int| 0 <= k < i && (#[trigger] ev[k]).0 == x {
                    let k = choose|k: int| 0 <= k < i && (#[trigger] ev[k]).0 == x;
                    assert(ev[k].0 == x && k < i + 1);
                }
            }
        }
        i = i + 1;
    }
    assert(ev == stuck_entries(held@, separator));
    proof {
        assert forall|p: u32| pids@.contains(p) <==> wanted(ev, rv, p) by {
            if pids@.contains(p) {
                let k = choose|k: int| 0 <= k < i && (#[trigger] ev[k]).0 == p;
                assert(0 <= k < ev.len() && ev[k].0 == p);
            }
            if wanted(ev, rv, p) {
                let k = choose|k: int| 0 <= k < ev.len() && (#[trigger] ev[k]).0 == p;
                assert(0 <= k < es@.len() && ev[k].0 == p);
            }
        }
        assert(crate::occupants::increasing(pids@) && forall|p: u32| pids@.contains(p) <==> wanted(ev, rv, p));
        let chosen = stuck_pids(ev, rv);
        assert(crate::occupants::increasing(chosen) && forall|p: u32| chosen.contains(p) <==> wanted(ev, rv, p));
        crate::occupants::lemma_increasing_unique(pids@, chosen);
    }
    let ghost f = |p: u32| stuck_row(ev, p);
    let mut r: Vec<Residue> = Vec::new();
    let mut i: usize = 0;
    while i < pids.len()
        invariant
            ev == entry_views(es@),
            i <= pids@.len(),
            f == (|p: u32| stuck_row(ev, p)),
            forall|p: u32| pids@.contains(p) ==> exists|k: int| 0 <= k < es@.len() && (#[trigger] es@[k]).0 == p,
            views(r@) == pids@.take(i as int).map_values(f),
        decreases pids@.len() - i,
    {
        let p = pids[i];
        assert(pids@.contains(p));
        let x = stuck_row_exec(&es, p);
        let ghost before = views(r@);
        r.push(x);
        assert(views(r@) =~= before.push(x@));
        assert(pids@.take(i + 1) =~= pids@.take(i as int).push(p));
        assert(pids@.take(i + 1).map_values(f) =~= pids@.take(i as int).map_values(f).push(f(p)));
        i = i + 1;
    }
    assert(pids@.take(pids@.len() as int) =~= pids@);
    r
}


/// Every process in the way of a directory this uninstall removes, one row per process: first
/// those running from one of them, then those holding something in one that cannot be moved and
/// that are not already a row. What can be moved is not mentioned: the rename moves it.
pub fn in_use(
    occupants: &Vec<crate::occupants::Occupant>,
    held: &Vec<crate::occupants::HeldItem>,
    separator: char,
) -> (r: Vec<Residue>)
    ensures
        views(r@) == views(occupants@).map_values(
            |o: (u32, Seq<char>, Parts)| running_row(o, separator),
        ) + stuck_pids(
            stuck_entries(held@, separator),
            views(occupants@).map_values(|o: (u32, Seq<char>, Parts)| running_row(o, separator)),
        ).map_values(|p: u32| stuck_row(stuck_entries(held@, separator), p)),
{
    let mut r = running_rows(occupants, separator);
    let mut stuck = stuck_rows(held, &r, separator);
    let ghost a = views(r@);
    let ghost b = views(stuck@);
    r.append(&mut stuck);
    assert(views(r@) =~= a + b);
    r
}

/// Is a row one of the window's folders that the plan removes?
pub open spec fn planned_window_folder(x: Row) -> bool {
    (x.id == ResidueId::WindowData || x.id == ResidueId::WindowCache) && x.outcome is Planned
}

/// Where the window's folders that the plan removes are: they are looked in for holders too.
pub fn planned_window_folders(rows: &Vec<Residue>) -> (r: Vec<String>)
    ensures
        r@.map_values(|s: String| s@) == views(rows@).filter(|x: Row| planned_window_folder(x)).map_values(
            |x: Row| x.location,
        ),
{
    let ghost all = views(rows@);
    let ghost keep = |x: Row| planned_window_folder(x);
    let mut r: Vec<String> = Vec::new();
    let mut i: usize = 0;
    while i < rows.len()
        invariant
            all == views(rows@),
            keep == (|x: Row| planned_window_folder(x)),
            i <= rows@.len(),
            r@.map_values(|s: String| s@) == all.take(i as int).filter(keep).map_values(
                |x: Row| x.location,
            ),
        decreases rows@.len() - i,
    {
        proof {
            text::lemma_filter_step(all, keep, i as int);
        }
        let ghost before = all.take(i as int).filter(keep);
        let x = &rows[i];
        assert(all[i as int] == x@);
        let folder = match x.id {
            ResidueId::WindowData => true,
            ResidueId::WindowCache => true,
            _ => false,
        };
        let planned = match &x.outcome {
            Removal::Planned { .. } => true,
            _ => false,
        };
        if folder && planned {
            let ghost old_r = r@.map_values(|s: String| s@);
            r.push(x.location.clone());
            assert(r@.map_values(|s: String| s@) =~= old_r.push(x@.location));
            assert(all.take(i + 1).filter(keep) =~= before.push(all[i as int]));
            assert(r@.map_values(|s: String| s@) =~= all.take(i + 1).filter(keep).map_values(
                |x: Row| x.location,
            ));
        } else {
            assert(all.take(i + 1).filter(keep) =~= before);
        }
        i = i + 1;
    }
    assert(all.take(rows@.len() as int) =~= all);
    r
}


/// Which row the machine's rows hold at each place, in the order the act works through them.
pub open spec fn machine_id(i: int) -> ResidueId {
    if i == 0 {
        ResidueId::HostsBlock
    } else if i == 1 {
        ResidueId::ResolverWiring
    } else if i == 2 {
        ResidueId::PortAccess
    } else if i == 3 {
        ResidueId::FirewallRules
    } else if i == 4 {
        ResidueId::TrustStore
    } else if i == 5 {
        ResidueId::BrowserTrust
    } else if i == 6 {
        ResidueId::PrivilegedHelper
    } else if i == 7 {
        ResidueId::AuditLog
    } else if i == 8 {
        ResidueId::AutostartEntry
    } else {
        ResidueId::PathEntry
    }
}

/// Are `rows` the machine's ten rows, each the one its place is for?
pub open spec fn machine_ids(rows: Seq<Row>) -> bool {
    rows.len() == 10 && forall|i: int| 0 <= i < 10 ==> (#[trigger] rows[i]).id == machine_id(i)
}

/// The rows that describe the machine itself rather than this user or this home: the hosts block,
/// the resolver's wiring, the port permission, the firewall rules, the trust store, the browsers,
/// the privileged helper, its audit log, the autostart entry and the PATH entry, in that order.
#[derive(Debug)]
pub struct MachineRows {
    rows: Vec<Residue>,
}

impl MachineRows {
    #[verifier::type_invariant]
    spec fn well_formed(self) -> bool {
        machine_ids(views(self.rows@))
    }
}

impl View for MachineRows {
    type V = Seq<Row>;

    closed spec fn view(&self) -> Seq<Row> {
        views(self.rows@)
    }
}

fn id_is(x: &Residue, id: ResidueId) -> (r: bool)
    ensures
        r == (x@.id == id),
{
    x.id == id
}

impl MachineRows {
    /// The machine's rows, when each is the row its place is for; nothing when one is not.
    pub fn new(
        hosts: Residue,
        resolver: Residue,
        ports: Residue,
        firewall: Residue,
        trust: Residue,
        browsers: Residue,
        helper: Residue,
        audit: Residue,
        autostart: Residue,
        path: Residue,
    ) -> (r: Option<MachineRows>)
        ensures
            r is Some <==> machine_ids(
                seq![hosts@, resolver@, ports@, firewall@, trust@, browsers@, helper@, audit@, autostart@, path@],
            ),
            r matches Some(m) ==> m@ == seq![
                hosts@,
                resolver@,
                ports@,
                firewall@,
                trust@,
                browsers@,
                helper@,
                audit@,
                autostart@,
                path@,
            ],
    {
        let ghost want = seq![
            hosts@,
            resolver@,
            ports@,
            firewall@,
            trust@,
            browsers@,
            helper@,
            audit@,
            autostart@,
            path@,
        ];
        let right = id_is(&hosts, ResidueId::HostsBlock) && id_is(&resolver, ResidueId::ResolverWiring)
            && id_is(&ports, ResidueId::PortAccess) && id_is(&firewall, ResidueId::FirewallRules)
            && id_is(&trust, ResidueId::TrustStore) && id_is(&browsers, ResidueId::BrowserTrust)
            && id_is(&helper, ResidueId::PrivilegedHelper) && id_is(&audit, ResidueId::AuditLog)
            && id_is(&autostart, ResidueId::AutostartEntry) && id_is(&path, ResidueId::PathEntry);
        if !right {
            proof {
                if machine_ids(want) {
                    assert(want[0].id == machine_id(0));
                    assert(want[1].id == machine_id(1));
                    assert(want[2].id == machine_id(2));
                    assert(want[3].id == machine_id(3));
                    assert(want[4].id == machine_id(4));
                    assert(want[5].id == machine_id(5));
                    assert(want[6].id == machine_id(6));
                    assert(want[7].id == machine_id(7));
                    assert(want[8].id == machine_id(8));
                    assert(want[9].id == machine_id(9));
                }
            }
            return None;
        }
        let rows = vec![hosts, resolver, ports, firewall, trust, browsers, helper, audit, autostart, path];
        assert(views(rows@) =~= want);
        Some(MachineRows { rows })
    }
}

proof fn lemma_views_add<T: View>(a: Seq<T>, b: Seq<T>)
    ensures
        views(a + b) == views(a) + views(b),
{
    assert(views(a + b) =~= views(a) + views(b));
}

/// The completed row as a sequence of none or one.
pub open spec fn optional_row(r: Option<Row>) -> Seq<Row> {
    match r {
        Some(x) => seq![x],
        None => Seq::empty(),
    }
}

/// Everything before this home's own row: the machine, what this install added to itself, the
/// window's folders and the credentials.
pub open spec fn before_home(
    machine: Seq<Row>,
    directory: Option<Seq<char>>,
    recorded: Seq<Recorded>,
    ours: bool,
    window: Option<&WindowFolders>,
    found: &Found,
    keep_home: bool,
) -> Seq<Row> {
    machine + optional_row(completed_row_of(directory, recorded)) + window_rows_of(ours, window, keep_home)
        + daemon_rows(found, keep_home) + window_credential_rows(found, keep_home)
}

proof fn lemma_no_home_before(
    machine: Seq<Row>,
    directory: Option<Seq<char>>,
    recorded: Seq<Recorded>,
    ours: bool,
    window: Option<&WindowFolders>,
    found: &Found,
    keep_home: bool,
)
    requires
        machine_ids(machine),
    ensures
        forall|j: int|
            0 <= j < before_home(machine, directory, recorded, ours, window, found, keep_home).len() ==> (
            #[trigger] before_home(machine, directory, recorded, ours, window, found, keep_home)[j]).id
                != ResidueId::Home,
{
    credential_rows_follow_the_home(found, keep_home);
    let c = optional_row(completed_row_of(directory, recorded));
    let w = window_rows_of(ours, window, keep_home);
    let k = daemon_rows(found, keep_home) + window_credential_rows(found, keep_home);
    let all = before_home(machine, directory, recorded, ours, window, found, keep_home);
    assert(all =~= machine + c + w + k);
    assert forall|j: int| 0 <= j < all.len() implies (#[trigger] all[j]).id != ResidueId::Home by {
        if j < 10 {
            assert(all[j] == machine[j]);
            assert(machine[j].id == machine_id(j));
        } else if j < 10 + c.len() {
            assert(all[j] == c[j - 10]);
        } else if j < 10 + c.len() + w.len() {
            let i = j - 10 - c.len();
            assert(all[j] == w[i]);
            if let Some(f) = window {
                if ours {
                    let d = present(f.data@);
                    if i < d.len() {
                        assert(w[i] == window_data_row(d[i], keep_home));
                    } else {
                        assert(w[i] == window_cache_row(present(f.cache@)[i - d.len()]));
                    }
                }
            }
        } else {
            assert(all[j] == k[j - 10 - c.len() - w.len()]);
        }
    }
}

/// Everything this machine holds of MixEngine's, in a fixed order: the machine first, then what
/// this install added to itself, the window's folders, the credentials, this home's directories,
/// and last whatever is in the way of removing them — so a person reading the plan reads it in
/// the order it will happen. It reads nothing and writes nothing: every reading is an argument.
pub fn take(
    machine: MachineRows,
    directory: Option<&str>,
    recorded: &Vec<Recorded>,
    ours: bool,
    window: Option<&WindowFolders>,
    found: &Found,
    root: &str,
    moved: &Vec<String>,
    root_tombstones: &Vec<String>,
    moved_tombstones: &Vec<String>,
    query: UninstallQuery,
    in_use: Vec<Residue>,
) -> (r: Vec<Residue>)
    ensures
        ({
            let dir = match directory {
                Some(d) => Some(d@),
                None => None,
            };
            let head = before_home(machine@, dir, recorded@, ours, window, found, query.keep_home);
            &&& views(r@) == head + directory_rows_of(
                root@,
                moved@.map_values(|s: String| s@),
                root_tombstones@.map_values(|s: String| s@),
                moved_tombstones@.map_values(|s: String| s@),
                query,
            ) + views(in_use@)
            &&& forall|i: int| 0 <= i < 10 ==> (#[trigger] views(r@)[i]).id == machine_id(i)
            &&& views(r@)[head.len() as int] == home_row(root@, query.keep_home)
            &&& forall|j: int| 0 <= j < head.len() ==> (#[trigger] views(r@)[j]).id != ResidueId::Home
        }),
{
    proof {
        use_type_invariant(&machine);
    }
    let ghost m = machine@;
    let mut r = machine.rows;
    assert(views(r@) == m);
    let ghost dir = match directory {
        Some(d) => Some(d@),
        None => None,
    };
    let completed = completed_row(directory, recorded);
    match completed {
        Some(x) => {
            let ghost before = r@;
            r.push(x);
            assert(views(r@) =~= views(before).push(x@));
        },
        None => {},
    }
    assert(views(r@) =~= m + optional_row(completed_row_of(dir, recorded@)));
    let ghost before = r@;
    let mut w = window_rows(ours, window, query.keep_home);
    let ghost wv = w@;
    r.append(&mut w);
    proof {
        lemma_views_add(before, wv);
    }
    let ghost before = r@;
    let mut c = credential_rows(found, query.keep_home);
    let ghost cv = c@;
    r.append(&mut c);
    proof {
        lemma_views_add(before, cv);
    }
    let ghost head = views(r@);
    assert(head =~= before_home(m, dir, recorded@, ours, window, found, query.keep_home));
    let ghost before = r@;
    let mut d = directory_rows(root, moved, root_tombstones, moved_tombstones, query);
    let ghost dv = d@;
    r.append(&mut d);
    proof {
        lemma_views_add(before, dv);
    }
    let ghost before = r@;
    let mut in_use = in_use;
    let ghost uv = in_use@;
    r.append(&mut in_use);
    proof {
        lemma_views_add(before, uv);
        lemma_no_home_before(m, dir, recorded@, ours, window, found, query.keep_home);
        let all = views(r@);
        assert forall|i: int| 0 <= i < 10 implies (#[trigger] views(r@)[i]).id == machine_id(i) by {
            assert(all[i] == head[i]);
            assert(head[i] == m[i]);
        }
        assert forall|j: int| 0 <= j < head.len() implies (#[trigger] views(r@)[j]).id != ResidueId::Home by {
            assert(all[j] == head[j]);
        }
    }
    r
}

} // verus!
