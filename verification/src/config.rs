//! Configuration model: bundles, bundle groups, servers and workspaces.
//!
//! Groups, servers and workspaces are association lists whose keys are kept
//! in strictly increasing lexicographic order, so every traversal of a group
//! is deterministic and wildcard expansion is lexicographic by construction.

use vstd::pervasive::VecAdditionalExecFns;
use vstd::prelude::*;

use crate::text::{find_char_from, join_path, lex_lt, sorted_insert, sorted_lex, str_concat,
    str_eq, str_lt, str_to_string};
use crate::text::{first_index_of, lemma_lex_asym, lemma_lex_connected, lemma_lex_irrefl,
    lemma_lex_trans, spec_join_path};

verus! {

/// Command field of a bundle: either a single command string or a list.
/// Its mathematical value is the normalized ordered sequence of commands.
#[derive(Debug, Clone)]
pub enum Cmd {
    /// A single command string.
    Single(String),
    /// Multiple commands executed in sequence.
    Multiple(Vec<String>),
}

impl View for Cmd {
    type V = Seq<Seq<char>>;

    open spec fn view(&self) -> Seq<Seq<char>> {
        match self {
            Cmd::Single(s) => seq![s@],
            Cmd::Multiple(v) => v.deep_view(),
        }
    }
}

impl Cmd {
    /// Normalize to an owned list of command strings.
    #[verifier::loop_isolation(false)]
    pub fn to_vec(&self) -> (r: Vec<String>)
        ensures
            r.deep_view() == self@,
    {
        match self {
            Cmd::Single(s) => {
                let mut v: Vec<String> = Vec::new();
                v.push(s.clone());
                proof {
                    assert(v.deep_view() =~= self@);
                }
                v
            },
            Cmd::Multiple(cmds) => {
                let mut v: Vec<String> = Vec::new();
                let mut i: usize = 0;
                while i < cmds.len()
                    invariant
                        i <= cmds.len(),
                        v.deep_view() == cmds.deep_view().take(i as int),
                    decreases cmds.len() - i,
                {
                    let c = cmds[i].clone();
                    proof {
                        assert(c == cmds@[i as int]);
                    }
                    let ghost pre = v.deep_view();
                    v.push(c);
                    proof {
                        assert(v.deep_view() =~= pre.push(c@));
                        assert(c@ == cmds.deep_view()[i as int]);
                        assert(cmds.deep_view().take(i + 1) =~= pre.push(c@));
                    }
                    i += 1;
                }
                proof {
                    assert(cmds.deep_view().take(cmds@.len() as int) =~= cmds.deep_view());
                }
                v
            },
        }
    }
}

/// Pane layout choices, mapping to the multiplexer's built-in layouts.
#[derive(Debug, Clone, Copy, PartialEq, Eq, Structural)]
pub enum Layout {
    /// Spread panes evenly in both directions.
    Tiled,
    /// Side-by-side panes.
    Vertical,
    /// Stacked panes.
    Horizontal,
}

impl Default for Layout {
    fn default() -> (r: Self)
        ensures
            r == Layout::Tiled,
    {
        Layout::Tiled
    }
}

impl Layout {
    /// The layout name understood by tmux's `select-layout`.
    pub fn to_tmux_layout(&self) -> (r: &'static str)
        ensures
            *self == Layout::Tiled ==> r@ == "tiled"@,
            *self == Layout::Vertical ==> r@ == "even-horizontal"@,
            *self == Layout::Horizontal ==> r@ == "even-vertical"@,
    {
        match self {
            Layout::Tiled => "tiled",
            Layout::Vertical => "even-horizontal",
            Layout::Horizontal => "even-vertical",
        }
    }
}

/// Global default settings applied when not overridden.
#[derive(Debug, Clone)]
pub struct Defaults {
    /// Default layout for panes when not specified elsewhere.
    pub layout: Option<Layout>,
}

impl Default for Defaults {
    fn default() -> (r: Self)
        ensures
            r.layout is None,
    {
        Defaults { layout: None }
    }
}

/// A single bundle entry: commands plus an optional target pane and
/// pass-through attributes.
#[derive(Debug, Clone)]
pub struct BundleEntry {
    /// Commands to execute; may reference other bundles with `@group.name`.
    pub cmd: Cmd,
    /// Target pane index; inherited from the referrer when absent.
    pub pane: Option<u32>,
    /// Optional role identifier, not interpreted by the resolver.
    pub role: Option<String>,
    /// Layout override for this bundle, not interpreted by the resolver.
    pub layout: Option<Layout>,
}

/// Mathematical value of a bundle entry.
pub struct BundleEntryV {
    /// The normalized command sequence.
    pub cmds: Seq<Seq<char>>,
    /// The optional explicit pane.
    pub pane: Option<u32>,
    /// The pass-through role attribute.
    pub role: Option<Seq<char>>,
    /// The pass-through layout attribute.
    pub layout: Option<Layout>,
}

impl View for BundleEntry {
    type V = BundleEntryV;

    open spec fn view(&self) -> BundleEntryV {
        BundleEntryV {
            cmds: self.cmd@,
            pane: self.pane,
            role: self.role.deep_view(),
            layout: self.layout,
        }
    }
}

/// SSH server configuration for remote connections.
#[derive(Debug, Clone)]
pub struct ServerConfig {
    /// SSH host in `user@ip` format.
    pub host: String,
    /// Whether to disconnect (send "exit") after commands complete.
    pub disconnect: bool,
    /// Commands to run after connecting.
    pub cmd: Option<Cmd>,
}

/// Mathematical value of a server configuration.
pub struct ServerConfigV {
    /// The SSH host string.
    pub host: Seq<char>,
    /// Whether to disconnect after the commands.
    pub disconnect: bool,
    /// The normalized optional command sequence.
    pub cmd: Option<Seq<Seq<char>>>,
}

impl View for ServerConfig {
    type V = ServerConfigV;

    open spec fn view(&self) -> ServerConfigV {
        ServerConfigV {
            host: self.host@,
            disconnect: self.disconnect,
            cmd: match self.cmd {
                Some(c) => Some(c@),
                None => None,
            },
        }
    }
}

/// A window definition within a workspace.
#[derive(Debug, Clone)]
pub struct WindowDef {
    /// Number of panes to create in this window.
    pub panes: u32,
    /// Layout for the window's panes.
    pub layout: Option<Layout>,
    /// Commands to run in each pane of this window.
    pub cmd: Option<Cmd>,
    /// Optional window name.
    pub name: Option<String>,
}

/// Mathematical value of a window definition.
pub struct WindowDefV {
    /// Number of panes.
    pub panes: u32,
    /// Layout for the panes.
    pub layout: Option<Layout>,
    /// The normalized optional command sequence.
    pub cmd: Option<Seq<Seq<char>>>,
    /// The optional window name.
    pub name: Option<Seq<char>>,
}

impl View for WindowDef {
    type V = WindowDefV;

    open spec fn view(&self) -> WindowDefV {
        WindowDefV {
            panes: self.panes,
            layout: self.layout,
            cmd: match self.cmd {
                Some(c) => Some(c@),
                None => None,
            },
            name: self.name.deep_view(),
        }
    }
}

/// A workspace: several windows, optionally connected over SSH.
#[derive(Debug, Clone)]
pub struct Workspace {
    /// SSH host (`user@ip`); when set, each pane connects to it.
    pub host: Option<String>,
    /// Base directory to change to in each pane.
    pub dir: Option<String>,
    /// Window definitions for this workspace.
    pub windows: Vec<WindowDef>,
}

impl Workspace {
    /// The command that prepares a pane of this workspace: connect over SSH
    /// and change directory, only connect, only change directory, or
    /// nothing.
    pub fn setup_command(&self) -> (r: Option<String>)
        ensures
            self@.host is Some && self@.dir is Some ==> (r matches Some(c) && c@ == "ssh -t "@
                + self@.host->Some_0 + " \"cd "@ + self@.dir->Some_0 + " && exec \\$SHELL -l\""@),
            self@.host is Some && self@.dir is None ==> (r matches Some(c) && c@ == "ssh "@
                + self@.host->Some_0),
            self@.host is None && self@.dir is Some ==> (r matches Some(c) && c@ == "cd "@
                + self@.dir->Some_0),
            self@.host is None && self@.dir is None ==> r is None,
    {
        match (&self.host, &self.dir) {
            (Some(h), Some(d)) => {
                let mut c = String::from_str("ssh -t ");
                c.append(h.as_str());
                c.append(" \"cd ");
                c.append(d.as_str());
                c.append(" && exec \\$SHELL -l\"");
                Some(c)
            },
            (Some(h), None) => Some(str_concat("ssh ", h.as_str())),
            (None, Some(d)) => Some(str_concat("cd ", d.as_str())),
            (None, None) => None,
        }
    }
}

/// Mathematical value of a workspace.
pub struct WorkspaceV {
    /// The optional SSH host.
    pub host: Option<Seq<char>>,
    /// The optional base directory.
    pub dir: Option<Seq<char>>,
    /// The window definitions.
    pub windows: Seq<WindowDefV>,
}

impl View for Workspace {
    type V = WorkspaceV;

    open spec fn view(&self) -> WorkspaceV {
        WorkspaceV {
            host: self.host.deep_view(),
            dir: self.dir.deep_view(),
            windows: Seq::new(self.windows@.len(), |i: int| self.windows@[i]@),
        }
    }
}

/// Mathematical value of a group: its entries as an ordered association
/// sequence.
pub type GroupV = Seq<(Seq<char>, BundleEntryV)>;

/// Mathematical value of an entries vector.
pub open spec fn entries_view(v: Seq<(String, BundleEntry)>) -> GroupV {
    v.map_values(|q: (String, BundleEntry)| (q.0@, q.1@))
}

/// Mathematical value of the whole configuration.
pub struct ConfigV {
    /// The default layout, when one is configured.
    pub defaults: Option<Layout>,
    /// Server configurations keyed by name.
    pub servers: Seq<(Seq<char>, ServerConfigV)>,
    /// Bundle groups keyed by group name; each group is keyed by entry name.
    pub bundles: Seq<(Seq<char>, GroupV)>,
    /// Workspaces keyed by name.
    pub workspaces: Seq<(Seq<char>, WorkspaceV)>,
}

/// Look a key up in an association sequence: the value at the first
/// occurrence of `k`, if any.
pub open spec fn find_key<V>(s: Seq<(Seq<char>, V)>, k: Seq<char>) -> Option<V>
    decreases s.len(),
{
    if s.len() == 0 {
        None
    } else if s[0].0 == k {
        Some(s[0].1)
    } else {
        find_key(s.drop_first(), k)
    }
}

/// An association sequence whose keys are strictly increasing.
pub open spec fn sorted_kv<V>(s: Seq<(Seq<char>, V)>) -> bool {
    forall|i: int, j: int| 0 <= i < j < s.len() ==> lex_lt(s[i].0, s[j].0)
}

impl ConfigV {
    /// Well-formedness: all association sequences have strictly increasing
    /// keys, so keys are unique and iteration is lexicographic.
    pub open spec fn wf(self) -> bool {
        &&& sorted_kv(self.servers)
        &&& sorted_kv(self.bundles)
        &&& sorted_kv(self.workspaces)
        &&& forall|i: int| 0 <= i < self.bundles.len() ==> sorted_kv(#[trigger] self.bundles[i].1)
    }
}

/// Split a bundle path at its first dot into group and entry name.
pub open spec fn spec_split_path(path: Seq<char>) -> Option<(Seq<char>, Seq<char>)> {
    let d = first_index_of(path, '.', 0);
    if d == path.len() {
        None
    } else {
        Some((path.take(d), path.skip(d + 1)))
    }
}

/// The bundle a path denotes: split the path, find the group, then the
/// entry.
pub open spec fn spec_get_bundle(cfg: ConfigV, path: Seq<char>) -> Option<BundleEntryV> {
    match spec_split_path(path) {
        None => None,
        Some((group, name)) => match find_key(cfg.bundles, group) {
            None => None,
            Some(entries) => find_key(entries, name),
        },
    }
}

/// A successful lookup names an index holding the key.
pub proof fn lemma_find_key_index<V>(s: Seq<(Seq<char>, V)>, k: Seq<char>)
    requires
        find_key(s, k) is Some,
    ensures
        exists|i: int|
            0 <= i < s.len() && s[i].0 == k && find_key(s, k) == Some(s[i].1),
    decreases s.len(),
{
    if s.len() > 0 && s[0].0 != k {
        lemma_find_key_index(s.drop_first(), k);
        let i = choose|i: int|
            0 <= i < s.drop_first().len() && s.drop_first()[i].0 == k && find_key(
                s.drop_first(),
                k,
            ) == Some(s.drop_first()[i].1);
        assert(s[i + 1].0 == k && find_key(s, k) == Some(s[i + 1].1));
    }
}

/// Insert a pair into an association sequence, keeping keys sorted: the new
/// pair lands before the first key not lexicographically below it, and
/// replaces that key when equal.
pub open spec fn insert_kv<V>(s: Seq<(Seq<char>, V)>, k: Seq<char>, v: V) -> Seq<(Seq<char>, V)>
    decreases s.len(),
{
    if s.len() == 0 {
        seq![(k, v)]
    } else if lex_lt(k, s[0].0) {
        seq![(k, v)] + s
    } else if k == s[0].0 {
        seq![(k, v)] + s.drop_first()
    } else {
        seq![s[0]] + insert_kv(s.drop_first(), k, v)
    }
}

/// The value that a sorted-scan insertion would replace: the value at the
/// first position whose key is not lexicographically below `k`, when that
/// key equals `k`.
pub open spec fn scan_key<V>(s: Seq<(Seq<char>, V)>, k: Seq<char>) -> Option<V>
    decreases s.len(),
{
    if s.len() == 0 {
        None
    } else if lex_lt(s[0].0, k) {
        scan_key(s.drop_first(), k)
    } else if s[0].0 == k {
        Some(s[0].1)
    } else {
        None
    }
}

/// What adding one bundle does to the groups: the entry is inserted into
/// the group the scan finds (or a fresh group), and the group is inserted
/// among the groups.
pub open spec fn spec_add_bundle(
    bundles: Seq<(Seq<char>, GroupV)>,
    g: Seq<char>,
    n: Seq<char>,
    e: BundleEntryV,
) -> Seq<(Seq<char>, GroupV)> {
    let base = match scan_key(bundles, g) {
        None => Seq::<(Seq<char>, BundleEntryV)>::empty(),
        Some(entries) => entries,
    };
    insert_kv(bundles, g, insert_kv(base, n, e))
}

/// The keys of an association sequence, in order.
pub open spec fn spec_keys<V>(s: Seq<(Seq<char>, V)>) -> Seq<Seq<char>> {
    s.map_values(|p: (Seq<char>, V)| p.0)
}

/// The paths of one group's entries, in entry order.
pub open spec fn group_paths(gname: Seq<char>, entries: GroupV) -> Seq<Seq<char>> {
    entries.map_values(|p: (Seq<char>, BundleEntryV)| spec_join_path(gname, p.0))
}

/// All bundle paths, group by group, in configuration order.
pub open spec fn all_paths(bundles: Seq<(Seq<char>, GroupV)>) -> Seq<Seq<char>>
    decreases bundles.len(),
{
    if bundles.len() == 0 {
        Seq::empty()
    } else {
        group_paths(bundles[0].0, bundles[0].1) + all_paths(bundles.drop_first())
    }
}

/// When all keys before position `i` are below `k`, insertion only touches
/// the rest.
pub proof fn lemma_insert_kv_prefix<V>(s: Seq<(Seq<char>, V)>, k: Seq<char>, v: V, i: int)
    requires
        0 <= i <= s.len(),
        forall|m: int| 0 <= m < i ==> lex_lt(s[m].0, k),
    ensures
        insert_kv(s, k, v) == s.take(i) + insert_kv(s.skip(i), k, v),
    decreases i,
{
    if i == 0 {
        assert(s.skip(0) =~= s);
        assert(s.take(0) + insert_kv(s, k, v) =~= insert_kv(s, k, v));
    } else {
        lemma_lex_asym(s[0].0, k);
        let t = s.drop_first();
        assert forall|m: int| 0 <= m < i - 1 implies lex_lt(t[m].0, k) by {
            assert(t[m] == s[m + 1]);
        }
        lemma_insert_kv_prefix(t, k, v, i - 1);
        assert(s.take(i) =~= seq![s[0]] + t.take(i - 1));
        assert(s.skip(i) =~= t.skip(i - 1));
        assert(seq![s[0]] + (t.take(i - 1) + insert_kv(t.skip(i - 1), k, v)) =~= (seq![s[0]]
            + t.take(i - 1)) + insert_kv(t.skip(i - 1), k, v));
    }
}

/// When all keys before position `i` are below `k`, the scan is decided by
/// the rest.
pub proof fn lemma_scan_key_prefix<V>(s: Seq<(Seq<char>, V)>, k: Seq<char>, i: int)
    requires
        0 <= i <= s.len(),
        forall|m: int| 0 <= m < i ==> lex_lt(s[m].0, k),
    ensures
        scan_key(s, k) == scan_key(s.skip(i), k),
    decreases i,
{
    if i == 0 {
        assert(s.skip(0) =~= s);
    } else {
        let t = s.drop_first();
        assert forall|m: int| 0 <= m < i - 1 implies lex_lt(t[m].0, k) by {
            assert(t[m] == s[m + 1]);
        }
        lemma_scan_key_prefix(t, k, i - 1);
        assert(s.skip(i) =~= t.skip(i - 1));
    }
}

/// Every pair of the insertion result is the new pair or one of the
/// original pairs.
pub proof fn lemma_insert_kv_elems<V>(s: Seq<(Seq<char>, V)>, k: Seq<char>, v: V)
    ensures
        forall|i: int|
            0 <= i < insert_kv(s, k, v).len() ==> #[trigger] insert_kv(s, k, v)[i] == (k, v)
                || s.contains(insert_kv(s, k, v)[i]),
    decreases s.len(),
{
    let r = insert_kv(s, k, v);
    if s.len() == 0 {
    } else if lex_lt(k, s[0].0) {
        assert forall|i: int| 0 <= i < r.len() implies r[i] == (k, v) || s.contains(r[i]) by {
            if i >= 1 {
                assert(r[i] == s[i - 1]);
            }
        }
    } else if k == s[0].0 {
        assert forall|i: int| 0 <= i < r.len() implies r[i] == (k, v) || s.contains(r[i]) by {
            if i >= 1 {
                assert(r[i] == s.drop_first()[i - 1]);
                assert(r[i] == s[i]);
            }
        }
    } else {
        lemma_insert_kv_elems(s.drop_first(), k, v);
        assert forall|i: int| 0 <= i < r.len() implies r[i] == (k, v) || s.contains(r[i]) by {
            if i == 0 {
                assert(r[0] == s[0]);
            } else {
                let rr = insert_kv(s.drop_first(), k, v);
                assert(r[i] == rr[i - 1]);
                if rr[i - 1] != (k, v) {
                    let m = choose|m: int|
                        0 <= m < s.drop_first().len() && s.drop_first()[m] == rr[i - 1];
                    assert(s[m + 1] == rr[i - 1]);
                }
            }
        }
    }
}

/// The position a sorted insertion targets: the first index whose key is
/// not lexicographically below `key`.
#[verifier::loop_isolation(false)]
fn find_insert_pos<T>(v: &Vec<(String, T)>, key: &str) -> (r: usize)
    ensures
        r <= v@.len(),
        forall|m: int| 0 <= m < r ==> lex_lt(v@[m].0@, key@),
        r < v@.len() ==> !lex_lt(v@[r as int].0@, key@),
{
    let mut i: usize = 0;
    while i < v.len()
        invariant
            i <= v.len(),
            forall|m: int| 0 <= m < i ==> lex_lt(v@[m].0@, key@),
        decreases v.len() - i,
    {
        if !str_lt(v[i].0.as_str(), key) {
            return i;
        }
        i += 1;
    }
    v.len()
}

/// Insertion keeps the keys strictly sorted.
pub proof fn lemma_insert_kv_sorted<V>(s: Seq<(Seq<char>, V)>, k: Seq<char>, v: V)
    requires
        sorted_kv(s),
    ensures
        sorted_kv(insert_kv(s, k, v)),
    decreases s.len(),
{
    let r = insert_kv(s, k, v);
    if s.len() == 0 {
    } else if lex_lt(k, s[0].0) {
        assert forall|i: int, j: int| 0 <= i < j < r.len() implies lex_lt(r[i].0, r[j].0) by {
            if i == 0 {
                assert(r[j] == s[j - 1]);
                if j > 1 {
                    lemma_lex_trans(k, s[0].0, s[j - 1].0);
                }
            } else {
                assert(r[i] == s[i - 1]);
                assert(r[j] == s[j - 1]);
            }
        }
    } else if k == s[0].0 {
        assert forall|i: int, j: int| 0 <= i < j < r.len() implies lex_lt(r[i].0, r[j].0) by {
            if i == 0 {
                assert(r[j] == s[j]);
            } else {
                assert(r[i] == s[i]);
                assert(r[j] == s[j]);
            }
        }
    } else {
        lemma_lex_irrefl(k);
        lemma_lex_connected(k, s[0].0);
        let t = s.drop_first();
        assert forall|m: int, n: int| 0 <= m < n < t.len() implies lex_lt(t[m].0, t[n].0) by {
            assert(t[m] == s[m + 1]);
            assert(t[n] == s[n + 1]);
        }
        assert(sorted_kv(t));
        lemma_insert_kv_sorted(t, k, v);
        lemma_insert_kv_elems(t, k, v);
        let rr = insert_kv(t, k, v);
        assert forall|i: int, j: int| 0 <= i < j < r.len() implies lex_lt(r[i].0, r[j].0) by {
            if i == 0 {
                assert(r[j] == rr[j - 1]);
                if rr[j - 1] == (k, v) {
                    assert(lex_lt(s[0].0, k));
                } else {
                    let m = choose|m: int| 0 <= m < t.len() && t[m] == rr[j - 1];
                    assert(t[m] == s[m + 1]);
                    assert(lex_lt(s[0].0, s[m + 1].0));
                }
            } else {
                assert(r[i] == rr[i - 1]);
                assert(r[j] == rr[j - 1]);
            }
        }
    }
}

/// Top-level configuration: defaults, servers, bundle groups and
/// workspaces. The association lists are kept sorted by key.
#[derive(Debug, Clone)]
pub struct Config {
    /// Global default settings.
    pub defaults: Defaults,
    servers: Vec<(String, ServerConfig)>,
    bundles: Vec<(String, Vec<(String, BundleEntry)>)>,
    workspaces: Vec<(String, Workspace)>,
}

impl View for Config {
    type V = ConfigV;

    closed spec fn view(&self) -> ConfigV {
        ConfigV {
            defaults: self.defaults.layout,
            servers: self.servers@.map_values(|p: (String, ServerConfig)| (p.0@, p.1@)),
            bundles: self.bundles@.map_values(
                |p: (String, Vec<(String, BundleEntry)>)| (p.0@, entries_view(p.1@)),
            ),
            workspaces: self.workspaces@.map_values(|p: (String, Workspace)| (p.0@, p.1@)),
        }
    }
}

impl Default for Config {
    fn default() -> (r: Config)
        ensures
            r@.wf(),
            r@.defaults is None,
            r@.servers == Seq::<(Seq<char>, ServerConfigV)>::empty(),
            r@.bundles == Seq::<(Seq<char>, GroupV)>::empty(),
            r@.workspaces == Seq::<(Seq<char>, WorkspaceV)>::empty(),
    {
        Config::new()
    }
}

impl Config {
    /// An empty configuration.
    pub fn new() -> (r: Config)
        ensures
            r@.wf(),
            r@.defaults is None,
            r@.servers == Seq::<(Seq<char>, ServerConfigV)>::empty(),
            r@.bundles == Seq::<(Seq<char>, GroupV)>::empty(),
            r@.workspaces == Seq::<(Seq<char>, WorkspaceV)>::empty(),
    {
        let c = Config {
            defaults: Defaults { layout: None },
            servers: Vec::new(),
            bundles: Vec::new(),
            workspaces: Vec::new(),
        };
        proof {
            assert(c@.servers =~= Seq::<(Seq<char>, ServerConfigV)>::empty());
            assert(c@.bundles =~= Seq::<(Seq<char>, GroupV)>::empty());
            assert(c@.workspaces =~= Seq::<(Seq<char>, WorkspaceV)>::empty());
        }
        c
    }

    /// Look up a bundle by its `group.name` path.
    #[verifier::loop_isolation(false)]
    pub fn get_bundle(&self, path: &str) -> (r: Option<&BundleEntry>)
        ensures
            match r {
                Some(b) => spec_get_bundle(self@, path@) == Some(b@),
                None => spec_get_bundle(self@, path@) is None,
            },
    {
        let len = path.unicode_len();
        let d = find_char_from(path, '.', 0);
        if d == len {
            return None;
        }
        let group = path.substring_char(0, d);
        let name = path.substring_char(d + 1, len);
        proof {
            assert(group@ =~= path@.take(d as int));
            assert(name@ =~= path@.skip(d + 1));
        }
        match self.get_group(group) {
            None => None,
            Some(entries) => {
                proof {
                    assert(entries_view(entries@).skip(0) =~= entries_view(entries@));
                }
                let mut i: usize = 0;
                while i < entries.len()
                    invariant
                        i <= entries.len(),
                        find_key(entries_view(entries@), name@) == find_key(
                            entries_view(entries@).skip(i as int),
                            name@,
                        ),
                    decreases entries.len() - i,
                {
                    if str_eq(entries[i].0.as_str(), name) {
                        proof {
                            assert(entries_view(entries@).skip(i as int)[0]
                                == (entries@[i as int].0@, entries@[i as int].1@));
                            assert(find_key(entries_view(entries@).skip(i as int), name@)
                                == Some(entries@[i as int].1@));
                            assert(spec_split_path(path@) == Some((group@, name@)));
                            assert(spec_get_bundle(self@, path@)
                                == Some(entries@[i as int].1@));
                        }
                        return Some(&entries[i].1);
                    }
                    proof {
                        assert(entries_view(entries@).skip(i as int).drop_first()
                            =~= entries_view(entries@).skip(i + 1));
                    }
                    i += 1;
                }
                proof {
                    assert(entries_view(entries@).skip(entries@.len() as int)
                        =~= Seq::<(Seq<char>, BundleEntryV)>::empty());
                }
                None
            },
        }
    }

    /// All entries of a group, in key order, or `None` when the group does
    /// not exist.
    #[verifier::loop_isolation(false)]
    pub fn get_group(&self, group: &str) -> (r: Option<&Vec<(String, BundleEntry)>>)
        ensures
            match r {
                Some(entries) => find_key(self@.bundles, group@) == Some(entries_view(entries@)),
                None => find_key(self@.bundles, group@) is None,
            },
    {
        proof {
            assert(self@.bundles.skip(0) =~= self@.bundles);
        }
        let mut i: usize = 0;
        while i < self.bundles.len()
            invariant
                i <= self.bundles.len(),
                find_key(self@.bundles, group@) == find_key(
                    self@.bundles.skip(i as int),
                    group@,
                ),
            decreases self.bundles.len() - i,
        {
            if str_eq(self.bundles[i].0.as_str(), group) {
                proof {
                    assert(self@.bundles.skip(i as int)[0] == (
                        self.bundles@[i as int].0@,
                        entries_view(self.bundles@[i as int].1@),
                    ));
                }
                return Some(&self.bundles[i].1);
            }
            proof {
                assert(self@.bundles.skip(i as int).drop_first() =~= self@.bundles.skip(i + 1));
            }
            i += 1;
        }
        proof {
            assert(self@.bundles.skip(self.bundles@.len() as int)
                =~= Seq::<(Seq<char>, GroupV)>::empty());
        }
        None
    }

    /// Add or replace a server configuration under a name, keeping the
    /// server list sorted by name.
    #[verifier::loop_isolation(false)]
    pub fn add_server(&mut self, name: &str, server: ServerConfig)
        ensures
            final(self)@.servers == insert_kv(old(self)@.servers, name@, server@),
            final(self)@.bundles == old(self)@.bundles,
            final(self)@.workspaces == old(self)@.workspaces,
            final(self)@.defaults == old(self)@.defaults,
            old(self)@.wf() ==> final(self)@.wf(),
    {
        let ghost s0 = self@.servers;
        let pos = find_insert_pos(&self.servers, name);
        proof {
            assert forall|m: int| 0 <= m < pos implies lex_lt(s0[m].0, name@) by {
                assert(s0[m] == (self.servers@[m].0@, self.servers@[m].1@));
            }
            lemma_insert_kv_prefix(s0, name@, server@, pos as int);
            if pos < s0.len() {
                assert(s0.skip(pos as int)[0] == s0[pos as int]);
                assert(s0[pos as int].0 == self.servers@[pos as int].0@);
            }
        }
        let is_replace = pos < self.servers.len() && str_eq(self.servers[pos].0.as_str(), name);
        if is_replace {
            proof {
                lemma_lex_irrefl(name@);
                assert(s0.skip(pos as int).drop_first() =~= s0.skip(pos + 1));
            }
            self.servers.set(pos, (str_to_string(name), server));
            proof {
                assert(self@.servers =~= s0.update(pos as int, (name@, server@)));
                assert(s0.take(pos as int) + (seq![(name@, server@)] + s0.skip(pos + 1))
                    =~= s0.update(pos as int, (name@, server@)));
            }
        } else {
            proof {
                if pos < s0.len() {
                    lemma_lex_connected(name@, s0[pos as int].0);
                } else {
                    assert(s0.skip(pos as int) =~= Seq::<(Seq<char>, ServerConfigV)>::empty());
                }
            }
            self.servers.insert(pos, (str_to_string(name), server));
            proof {
                assert(self@.servers =~= s0.insert(pos as int, (name@, server@)));
                if pos < s0.len() {
                    assert(s0.take(pos as int) + (seq![(name@, server@)] + s0.skip(pos as int))
                        =~= s0.insert(pos as int, (name@, server@)));
                } else {
                    assert(s0.take(pos as int) + seq![(name@, server@)] =~= s0.insert(
                        pos as int,
                        (name@, server@),
                    ));
                }
            }
        }
        proof {
            assert(self@.servers == insert_kv(s0, name@, server@));
            if old(self)@.wf() {
                lemma_insert_kv_sorted(s0, name@, server@);
            }
        }
    }

    /// Add or replace a workspace under a name, keeping the workspace list
    /// sorted by name.
    #[verifier::loop_isolation(false)]
    pub fn add_workspace(&mut self, name: &str, workspace: Workspace)
        ensures
            final(self)@.workspaces == insert_kv(old(self)@.workspaces, name@, workspace@),
            final(self)@.bundles == old(self)@.bundles,
            final(self)@.servers == old(self)@.servers,
            final(self)@.defaults == old(self)@.defaults,
            old(self)@.wf() ==> final(self)@.wf(),
    {
        let ghost s0 = self@.workspaces;
        let pos = find_insert_pos(&self.workspaces, name);
        proof {
            assert forall|m: int| 0 <= m < pos implies lex_lt(s0[m].0, name@) by {
                assert(s0[m] == (self.workspaces@[m].0@, self.workspaces@[m].1@));
            }
            lemma_insert_kv_prefix(s0, name@, workspace@, pos as int);
            if pos < s0.len() {
                assert(s0.skip(pos as int)[0] == s0[pos as int]);
                assert(s0[pos as int].0 == self.workspaces@[pos as int].0@);
            }
        }
        let is_replace = pos < self.workspaces.len() && str_eq(
            self.workspaces[pos].0.as_str(),
            name,
        );
        if is_replace {
            proof {
                lemma_lex_irrefl(name@);
                assert(s0.skip(pos as int).drop_first() =~= s0.skip(pos + 1));
            }
            self.workspaces.set(pos, (str_to_string(name), workspace));
            proof {
                assert(self@.workspaces =~= s0.update(pos as int, (name@, workspace@)));
                assert(s0.take(pos as int) + (seq![(name@, workspace@)] + s0.skip(pos + 1))
                    =~= s0.update(pos as int, (name@, workspace@)));
            }
        } else {
            proof {
                if pos < s0.len() {
                    lemma_lex_connected(name@, s0[pos as int].0);
                } else {
                    assert(s0.skip(pos as int) =~= Seq::<(Seq<char>, WorkspaceV)>::empty());
                }
            }
            self.workspaces.insert(pos, (str_to_string(name), workspace));
            proof {
                assert(self@.workspaces =~= s0.insert(pos as int, (name@, workspace@)));
                if pos < s0.len() {
                    assert(s0.take(pos as int) + (seq![(name@, workspace@)] + s0.skip(pos as int))
                        =~= s0.insert(pos as int, (name@, workspace@)));
                } else {
                    assert(s0.take(pos as int) + seq![(name@, workspace@)] =~= s0.insert(
                        pos as int,
                        (name@, workspace@),
                    ));
                }
            }
        }
        proof {
            assert(self@.workspaces == insert_kv(s0, name@, workspace@));
            if old(self)@.wf() {
                lemma_insert_kv_sorted(s0, name@, workspace@);
            }
        }
    }

    /// Add or replace a bundle entry under `group` and `name`, keeping both
    /// the group list and the group's entries sorted.
    #[verifier::loop_isolation(false)]
    pub fn add_bundle(&mut self, group: &str, name: &str, entry: BundleEntry)
        ensures
            final(self)@.bundles == spec_add_bundle(old(self)@.bundles, group@, name@, entry@),
            final(self)@.servers == old(self)@.servers,
            final(self)@.workspaces == old(self)@.workspaces,
            final(self)@.defaults == old(self)@.defaults,
            old(self)@.wf() ==> final(self)@.wf(),
    {
        let ghost b0 = self@.bundles;
        let pos = find_insert_pos(&self.bundles, group);
        proof {
            assert forall|m: int| 0 <= m < pos implies lex_lt(b0[m].0, group@) by {
                assert(b0[m] == (self.bundles@[m].0@, entries_view(self.bundles@[m].1@)));
            }
            lemma_scan_key_prefix(b0, group@, pos as int);
            if pos < b0.len() {
                assert(b0.skip(pos as int)[0] == b0[pos as int]);
                assert(b0[pos as int].0 == self.bundles@[pos as int].0@);
            }
        }
        let is_replace = pos < self.bundles.len() && str_eq(self.bundles[pos].0.as_str(), group);
        if is_replace {
            proof {
                lemma_lex_irrefl(group@);
            }
            let removed = self.bundles.remove(pos);
            let (gname, mut entries) = removed;
            let ghost e0 = entries_view(entries@);
            proof {
                assert(e0 == b0[pos as int].1);
                assert(scan_key(b0, group@) == Some(e0));
            }
            let epos = find_insert_pos(&entries, name);
            proof {
                assert forall|m: int| 0 <= m < epos implies lex_lt(e0[m].0, name@) by {
                    assert(e0[m] == (entries@[m].0@, entries@[m].1@));
                }
                lemma_insert_kv_prefix(e0, name@, entry@, epos as int);
                if epos < e0.len() {
                    assert(e0.skip(epos as int)[0] == e0[epos as int]);
                    assert(e0[epos as int].0 == entries@[epos as int].0@);
                }
            }
            let e_replace = epos < entries.len() && str_eq(entries[epos].0.as_str(), name);
            if e_replace {
                proof {
                    lemma_lex_irrefl(name@);
                    assert(e0.skip(epos as int).drop_first() =~= e0.skip(epos + 1));
                }
                entries.set(epos, (str_to_string(name), entry));
                proof {
                    assert(entries_view(entries@) =~= e0.update(epos as int, (name@, entry@)));
                    assert(e0.take(epos as int) + (seq![(name@, entry@)] + e0.skip(epos + 1))
                        =~= e0.update(epos as int, (name@, entry@)));
                }
            } else {
                proof {
                    if epos < e0.len() {
                        lemma_lex_connected(name@, e0[epos as int].0);
                    } else {
                        assert(e0.skip(epos as int) =~= Seq::<(Seq<char>, BundleEntryV)>::empty());
                    }
                }
                entries.insert(epos, (str_to_string(name), entry));
                proof {
                    assert(entries_view(entries@) =~= e0.insert(epos as int, (name@, entry@)));
                    if epos < e0.len() {
                        assert(e0.take(epos as int) + (seq![(name@, entry@)] + e0.skip(
                            epos as int,
                        )) =~= e0.insert(epos as int, (name@, entry@)));
                    } else {
                        assert(e0.take(epos as int) + seq![(name@, entry@)] =~= e0.insert(
                            epos as int,
                            (name@, entry@),
                        ));
                    }
                }
            }
            let ghost e1 = entries_view(entries@);
            proof {
                assert(e1 == insert_kv(e0, name@, entry@));
                assert(b0.skip(pos as int).drop_first() =~= b0.skip(pos + 1));
            }
            self.bundles.insert(pos, (gname, entries));
            proof {
                assert(self@.bundles =~= b0.update(pos as int, (group@, e1)));
                assert(b0.take(pos as int) + (seq![(group@, e1)] + b0.skip(pos + 1))
                    =~= b0.update(pos as int, (group@, e1)));
                lemma_insert_kv_prefix(b0, group@, e1, pos as int);
                assert(self@.bundles == spec_add_bundle(b0, group@, name@, entry@));
                if old(self)@.wf() {
                    lemma_insert_kv_sorted(b0, group@, e1);
                    lemma_insert_kv_sorted(e0, name@, entry@);
                    assert forall|i: int| 0 <= i < self@.bundles.len() implies sorted_kv(
                        #[trigger] self@.bundles[i].1,
                    ) by {
                        if i != pos {
                            assert(self@.bundles[i] == b0[i]);
                        }
                    }
                }
            }
        } else {
            let mut entries: Vec<(String, BundleEntry)> = Vec::new();
            entries.push((str_to_string(name), entry));
            let ghost e1 = entries_view(entries@);
            proof {
                assert(e1 =~= seq![(name@, entry@)]);
                if pos < b0.len() {
                    assert(scan_key(b0, group@) is None);
                } else {
                    assert(b0.skip(pos as int) =~= Seq::<(Seq<char>, GroupV)>::empty());
                }
                assert(e1 == insert_kv(Seq::<(Seq<char>, BundleEntryV)>::empty(), name@, entry@));
                lemma_insert_kv_prefix(b0, group@, e1, pos as int);
                if pos < b0.len() {
                    lemma_lex_connected(group@, b0[pos as int].0);
                }
            }
            self.bundles.insert(pos, (str_to_string(group), entries));
            proof {
                assert(self@.bundles =~= b0.insert(pos as int, (group@, e1)));
                if pos < b0.len() {
                    assert(b0.take(pos as int) + (seq![(group@, e1)] + b0.skip(pos as int))
                        =~= b0.insert(pos as int, (group@, e1)));
                } else {
                    assert(b0.take(pos as int) + seq![(group@, e1)] =~= b0.insert(
                        pos as int,
                        (group@, e1),
                    ));
                }
                assert(self@.bundles == spec_add_bundle(b0, group@, name@, entry@));
                if old(self)@.wf() {
                    lemma_insert_kv_sorted(b0, group@, e1);
                    lemma_insert_kv_elems(b0, group@, e1);
                    assert forall|i: int| 0 <= i < self@.bundles.len() implies sorted_kv(
                        #[trigger] self@.bundles[i].1,
                    ) by {
                        if self@.bundles[i] != (group@, e1) {
                            let m = choose|m: int|
                                0 <= m < b0.len() && b0[m] == self@.bundles[i];
                        }
                    }
                }
            }
        }
    }

    /// All server names, in the list's (sorted) order.
    #[verifier::loop_isolation(false)]
    pub fn list_servers(&self) -> (r: Vec<String>)
        ensures
            r.deep_view() == spec_keys(self@.servers),
    {
        let mut r: Vec<String> = Vec::new();
        let mut i: usize = 0;
        proof {
            assert(r.deep_view() =~= spec_keys(self@.servers).take(0));
        }
        while i < self.servers.len()
            invariant
                i <= self.servers.len(),
                r.deep_view() == spec_keys(self@.servers).take(i as int),
            decreases self.servers.len() - i,
        {
            let ghost pre = r.deep_view();
            r.push(self.servers[i].0.clone());
            proof {
                assert(r.deep_view() =~= pre.push(self.servers@[i as int].0@));
                assert(spec_keys(self@.servers).take(i + 1) =~= pre.push(
                    self.servers@[i as int].0@,
                ));
            }
            i += 1;
        }
        proof {
            assert(spec_keys(self@.servers).take(self.servers@.len() as int) =~= spec_keys(
                self@.servers,
            ));
        }
        r
    }

    /// All workspace names, in the list's (sorted) order.
    #[verifier::loop_isolation(false)]
    pub fn list_workspaces(&self) -> (r: Vec<String>)
        ensures
            r.deep_view() == spec_keys(self@.workspaces),
    {
        let mut r: Vec<String> = Vec::new();
        let mut i: usize = 0;
        proof {
            assert(r.deep_view() =~= spec_keys(self@.workspaces).take(0));
        }
        while i < self.workspaces.len()
            invariant
                i <= self.workspaces.len(),
                r.deep_view() == spec_keys(self@.workspaces).take(i as int),
            decreases self.workspaces.len() - i,
        {
            let ghost pre = r.deep_view();
            r.push(self.workspaces[i].0.clone());
            proof {
                assert(r.deep_view() =~= pre.push(self.workspaces@[i as int].0@));
                assert(spec_keys(self@.workspaces).take(i + 1) =~= pre.push(
                    self.workspaces@[i as int].0@,
                ));
            }
            i += 1;
        }
        proof {
            assert(spec_keys(self@.workspaces).take(self.workspaces@.len() as int) =~= spec_keys(
                self@.workspaces,
            ));
        }
        r
    }

    /// All bundle paths in `group.name` form, sorted lexicographically.
    #[verifier::loop_isolation(false)]
    pub fn list_bundles(&self) -> (r: Vec<String>)
        ensures
            sorted_lex(r.deep_view()),
            r.deep_view().to_multiset() == all_paths(self@.bundles).to_multiset(),
    {
        broadcast use vstd::seq_lib::group_to_multiset_ensures;

        let ghost bv = self@.bundles;
        let mut paths: Vec<String> = Vec::new();
        let mut gi: usize = 0;
        proof {
            assert(bv.skip(0) =~= bv);
            assert(paths.deep_view() =~= Seq::<Seq<char>>::empty());
            assert(paths.deep_view() + all_paths(bv) =~= all_paths(bv));
        }
        while gi < self.bundles.len()
            invariant
                gi <= self.bundles.len(),
                all_paths(bv) == paths.deep_view() + all_paths(bv.skip(gi as int)),
            decreases self.bundles.len() - gi,
        {
            proof {
                assert(bv.len() == self.bundles@.len());
                assert(bv.skip(gi as int)[0] == bv[gi as int]);
                assert(bv.skip(gi as int).drop_first() =~= bv.skip(gi + 1));
            }
            let ghost gname_v = bv[gi as int].0;
            let ghost ev = bv[gi as int].1;
            let ghost base = paths.deep_view();
            let mut ei: usize = 0;
            proof {
                assert(group_paths(gname_v, ev.take(0)) =~= Seq::<Seq<char>>::empty());
                assert(base + group_paths(gname_v, ev.take(0)) =~= base);
            }
            while ei < self.bundles[gi].1.len()
                invariant
                    gi < self.bundles@.len(),
                    ei <= self.bundles@[gi as int].1@.len(),
                    paths.deep_view() == base + group_paths(gname_v, ev.take(ei as int)),
                decreases self.bundles@[gi as int].1@.len() - ei,
            {
                let ghost pre = paths.deep_view();
                let p = join_path(
                    self.bundles[gi].0.as_str(),
                    self.bundles[gi].1[ei].0.as_str(),
                );
                paths.push(p);
                proof {
                    assert(bv.len() == self.bundles@.len());
                    assert(ev == entries_view(self.bundles@[gi as int].1@));
                    assert(ev.len() == self.bundles@[gi as int].1@.len());
                    assert(ev[ei as int].0 == self.bundles@[gi as int].1@[ei as int].0@);
                    assert(paths.deep_view() =~= pre.push(spec_join_path(
                        gname_v,
                        ev[ei as int].0,
                    )));
                    assert(group_paths(gname_v, ev.take(ei + 1)) =~= group_paths(
                        gname_v,
                        ev.take(ei as int),
                    ).push(spec_join_path(gname_v, ev[ei as int].0)));
                    assert(base + group_paths(gname_v, ev.take(ei + 1)) =~= pre.push(
                        spec_join_path(gname_v, ev[ei as int].0),
                    ));
                }
                ei += 1;
            }
            proof {
                assert(ev.take(ev.len() as int) =~= ev);
                assert(paths.deep_view() == base + group_paths(gname_v, ev));
                assert(base + (group_paths(gname_v, ev) + all_paths(bv.skip(gi + 1))) =~= (base
                    + group_paths(gname_v, ev)) + all_paths(bv.skip(gi + 1)));
            }
            gi += 1;
        }
        proof {
            assert(bv.skip(self.bundles@.len() as int) =~= Seq::<(Seq<char>, GroupV)>::empty());
            assert(all_paths(bv) =~= paths.deep_view()) by {
                assert(paths.deep_view() + Seq::<Seq<char>>::empty() =~= paths.deep_view());
            }
        }
        let mut r: Vec<String> = Vec::new();
        let mut k: usize = 0;
        proof {
            assert(r.deep_view() =~= Seq::<Seq<char>>::empty());
            assert(r.deep_view().to_multiset() =~= paths.deep_view().take(0).to_multiset());
        }
        while k < paths.len()
            invariant
                k <= paths.len(),
                sorted_lex(r.deep_view()),
                r.deep_view().to_multiset() == paths.deep_view().take(k as int).to_multiset(),
            decreases paths.len() - k,
        {
            let x = paths[k].clone();
            proof {
                assert(x@ == paths.deep_view()[k as int]);
                assert(paths.deep_view().take(k + 1) =~= paths.deep_view().take(k as int).push(
                    x@,
                ));
                assert(paths.deep_view().take(k as int).push(x@).to_multiset() == paths.deep_view()
                    .take(k as int).to_multiset().insert(x@));
            }
            sorted_insert(&mut r, x);
            k += 1;
        }
        proof {
            assert(paths.deep_view().take(paths@.len() as int) =~= paths.deep_view());
        }
        r
    }

    /// Look a workspace up by name.
    #[verifier::loop_isolation(false)]
    pub fn get_workspace(&self, name: &str) -> (r: Option<&Workspace>)
        ensures
            match r {
                Some(w) => find_key(self@.workspaces, name@) == Some(w@),
                None => find_key(self@.workspaces, name@) is None,
            },
    {
        proof {
            assert(self@.workspaces.skip(0) =~= self@.workspaces);
        }
        let mut i: usize = 0;
        while i < self.workspaces.len()
            invariant
                i <= self.workspaces.len(),
                find_key(self@.workspaces, name@) == find_key(
                    self@.workspaces.skip(i as int),
                    name@,
                ),
            decreases self.workspaces.len() - i,
        {
            if str_eq(self.workspaces[i].0.as_str(), name) {
                proof {
                    assert(self@.workspaces.skip(i as int)[0] == (
                        self.workspaces@[i as int].0@,
                        self.workspaces@[i as int].1@,
                    ));
                }
                return Some(&self.workspaces[i].1);
            }
            proof {
                assert(self@.workspaces.skip(i as int).drop_first() =~= self@.workspaces.skip(
                    i + 1,
                ));
            }
            i += 1;
        }
        proof {
            assert(self@.workspaces.skip(self.workspaces@.len() as int)
                =~= Seq::<(Seq<char>, WorkspaceV)>::empty());
        }
        None
    }
}

} // verus!
