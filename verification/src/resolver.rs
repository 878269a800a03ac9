//! Bundle reference resolution.
//!
//! Command strings may reference other bundles: `@group.name` expands to the
//! named bundle's commands, `@group.*` to every bundle of the group in
//! lexicographic order. References are expanded recursively; a set of paths
//! on the active expansion stack detects cycles. Expansion either flattens
//! everything into one command list, or groups commands by their target
//! pane.

use vstd::prelude::*;

use crate::config::{
    entries_view, find_key, spec_get_bundle, BundleEntry, BundleEntryV, Config, ConfigV, GroupV,
};
use crate::error::PanoutError;
use crate::text::{find_char_from, first_index_of, join_path, lemma_first_index_of,
    spec_join_path, str_eq, str_to_string};
use vstd::set_lib::lemma_len_subset;

verus! {

/// A parsed command string: a literal command or a reference.
#[derive(Debug, Clone, PartialEq, Eq)]
pub enum ResolvedRef {
    /// A plain command (not a reference).
    Command(String),
    /// Reference to a specific bundle: `@group.name`.
    BundleRef {
        /// The bundle group name.
        group: String,
        /// The bundle entry name within the group.
        name: String,
    },
    /// Reference to all bundles in a group: `@group.*`.
    GroupAll {
        /// The bundle group name.
        group: String,
    },
}

/// Mathematical value of a parsed command string.
pub enum RefV {
    /// A literal command.
    Command(Seq<char>),
    /// A reference to one bundle, as group and entry name.
    BundleRef(Seq<char>, Seq<char>),
    /// A reference to a whole group.
    GroupAll(Seq<char>),
}

impl View for ResolvedRef {
    type V = RefV;

    open spec fn view(&self) -> RefV {
        match self {
            ResolvedRef::Command(c) => RefV::Command(c@),
            ResolvedRef::BundleRef { group, name } => RefV::BundleRef(group@, name@),
            ResolvedRef::GroupAll { group } => RefV::GroupAll(group@),
        }
    }
}

/// How a command string parses. A string is a reference when it starts with
/// `@` and a dot follows somewhere after; the part before the first dot is
/// the group, the rest the entry name, with `*` denoting the whole group.
/// Everything else is the literal command itself, so parsing never fails.
pub open spec fn spec_parse_ref(s: Seq<char>) -> RefV {
    if s.len() >= 1 && s[0] == '@' {
        let d = first_index_of(s, '.', 1);
        if d == s.len() {
            RefV::Command(s)
        } else {
            let group = s.subrange(1, d);
            let rest = s.subrange(d + 1, s.len() as int);
            if rest == seq!['*'] {
                RefV::GroupAll(group)
            } else {
                RefV::BundleRef(group, rest)
            }
        }
    } else {
        RefV::Command(s)
    }
}

/// Parse a command string into a [`ResolvedRef`].
pub fn parse_ref(s: &str) -> (r: ResolvedRef)
    ensures
        r@ == spec_parse_ref(s@),
{
    let len = s.unicode_len();
    if len == 0 {
        return ResolvedRef::Command(str_to_string(s));
    }
    if s.get_char(0) != '@' {
        return ResolvedRef::Command(str_to_string(s));
    }
    let d = find_char_from(s, '.', 1);
    if d == len {
        return ResolvedRef::Command(str_to_string(s));
    }
    let group = str_to_string(s.substring_char(1, d));
    let rest = s.substring_char(d + 1, len);
    proof {
        assert(group@ == s@.subrange(1, d as int));
        assert(rest@ == s@.subrange(d + 1, s@.len() as int));
    }
    if str_eq(rest, "*") {
        proof {
            reveal_strlit("*");
            assert("*"@ =~= seq!['*']);
        }
        ResolvedRef::GroupAll { group }
    } else {
        proof {
            reveal_strlit("*");
            assert("*"@ =~= seq!['*']);
        }
        ResolvedRef::BundleRef { group, name: str_to_string(rest) }
    }
}

/// Resolution failure: either a referenced bundle path (or group) is
/// missing, or a path was re-entered while still on the expansion stack.
pub enum RErr {
    /// The payload is the missing path, or the message for a missing group.
    NotFound(Seq<char>),
    /// The payload is the re-entered path.
    Circular(Seq<char>),
}

/// How an executable error value renders a resolution failure.
pub open spec fn matches_err(e: PanoutError, r: RErr) -> bool {
    match r {
        RErr::NotFound(p) => e matches PanoutError::BundleNotFound(s) && s@ == p,
        RErr::Circular(p) => e matches PanoutError::CircularRef(s) && s@ == p,
    }
}

/// The payload reported when a wildcard's group is missing.
pub open spec fn spec_group_message(g: Seq<char>) -> Seq<char> {
    "group '"@ + g + "'"@
}

fn group_message(group: &str) -> (r: String)
    ensures
        r@ == spec_group_message(group@),
{
    let mut m = String::from_str("group '");
    m.append(group);
    m.append("'");
    m
}

/// The entry names of a group, in the group's own order.
pub open spec fn group_names(entries: GroupV) -> Seq<Seq<char>> {
    entries.map_values(|p: (Seq<char>, BundleEntryV)| p.0)
}

/// All bundle paths contributed by one group.
pub open spec fn group_path_set(gname: Seq<char>, entries: GroupV) -> Set<Seq<char>>
    decreases entries.len(),
{
    if entries.len() == 0 {
        Set::empty()
    } else {
        group_path_set(gname, entries.drop_last()).insert(
            spec_join_path(gname, entries.last().0),
        )
    }
}

/// All bundle paths of a configuration.
pub open spec fn path_set(bundles: Seq<(Seq<char>, GroupV)>) -> Set<Seq<char>>
    decreases bundles.len(),
{
    if bundles.len() == 0 {
        Set::empty()
    } else {
        path_set(bundles.drop_last()).union(
            group_path_set(bundles.last().0, bundles.last().1),
        )
    }
}

/// The bundle paths of a configuration form a finite set.
pub proof fn lemma_path_set_finite(bundles: Seq<(Seq<char>, GroupV)>)
    ensures
        path_set(bundles).finite(),
    decreases bundles.len(),
{
    if bundles.len() > 0 {
        lemma_path_set_finite(bundles.drop_last());
        lemma_group_path_set_finite(bundles.last().0, bundles.last().1);
    }
}

proof fn lemma_group_path_set_finite(gname: Seq<char>, entries: GroupV)
    ensures
        group_path_set(gname, entries).finite(),
    decreases entries.len(),
{
    if entries.len() > 0 {
        lemma_group_path_set_finite(gname, entries.drop_last());
    }
}

proof fn lemma_group_path_set_contains(gname: Seq<char>, entries: GroupV, j: int)
    requires
        0 <= j < entries.len(),
    ensures
        group_path_set(gname, entries).contains(spec_join_path(gname, entries[j].0)),
    decreases entries.len(),
{
    if j < entries.len() - 1 {
        lemma_group_path_set_contains(gname, entries.drop_last(), j);
    }
}

proof fn lemma_path_set_contains(bundles: Seq<(Seq<char>, GroupV)>, i: int, j: int)
    requires
        0 <= i < bundles.len(),
        0 <= j < bundles[i].1.len(),
    ensures
        path_set(bundles).contains(spec_join_path(bundles[i].0, bundles[i].1[j].0)),
    decreases bundles.len(),
{
    if i < bundles.len() - 1 {
        lemma_path_set_contains(bundles.drop_last(), i, j);
    } else {
        lemma_group_path_set_contains(bundles[i].0, bundles[i].1, j);
    }
}

/// A path whose lookup succeeds is one of the configuration's bundle paths.
pub proof fn lemma_get_bundle_in_path_set(cfg: ConfigV, path: Seq<char>)
    requires
        spec_get_bundle(cfg, path) is Some,
    ensures
        path_set(cfg.bundles).contains(path),
{
    let d = first_index_of(path, '.', 0);
    lemma_first_index_of(path, '.', 0);
    let g = path.take(d);
    let n = path.skip(d + 1);
    crate::config::lemma_find_key_index(cfg.bundles, g);
    let i = choose|i: int|
        0 <= i < cfg.bundles.len() && cfg.bundles[i].0 == g && find_key(cfg.bundles, g) == Some(
            cfg.bundles[i].1,
        );
    crate::config::lemma_find_key_index(cfg.bundles[i].1, n);
    let j = choose|j: int|
        0 <= j < cfg.bundles[i].1.len() && cfg.bundles[i].1[j].0 == n && find_key(
            cfg.bundles[i].1,
            n,
        ) == Some(cfg.bundles[i].1[j].1);
    lemma_path_set_contains(cfg.bundles, i, j);
    assert(spec_join_path(g, n) =~= path);
}

/// Visiting one more existing path strictly shrinks the set of paths that
/// remain unvisited; this bounds the depth of the expansion.
pub proof fn lemma_visit_decreases(p: Set<Seq<char>>, v: Set<Seq<char>>, x: Seq<char>)
    requires
        p.finite(),
        p.contains(x),
        !v.contains(x),
    ensures
        p.difference(v.insert(x)).len() < p.difference(v).len(),
{
    let a = p.difference(v);
    assert(a.subset_of(p));
    lemma_len_subset(a, p);
    assert(p.difference(v.insert(x)) =~= a.remove(x));
    assert(a.contains(x));
}

#[via_fn]
proof fn flat_resolve_decreases(cfg: ConfigV, path: Seq<char>, visited: Set<Seq<char>>) {
    if !visited.contains(path) && spec_get_bundle(cfg, path) is Some {
        lemma_path_set_finite(cfg.bundles);
        lemma_get_bundle_in_path_set(cfg, path);
        lemma_visit_decreases(path_set(cfg.bundles), visited, path);
    }
}

/// Flat resolution of one bundle path: fail on a path already being
/// visited, fail on a missing bundle, otherwise expand the bundle's
/// command list with the path added to the visiting set.
pub open spec fn flat_resolve(cfg: ConfigV, path: Seq<char>, visited: Set<Seq<char>>) -> Result<
    Seq<Seq<char>>,
    RErr,
>
    decreases path_set(cfg.bundles).difference(visited).len(), 0int, 0int,
        via flat_resolve_decreases
{
    if visited.contains(path) {
        Err(RErr::Circular(path))
    } else {
        match spec_get_bundle(cfg, path) {
            None => Err(RErr::NotFound(path)),
            Some(b) => flat_resolve_cmds(cfg, b.cmds, visited.insert(path)),
        }
    }
}

/// Flat resolution of a command list: literals are kept, references are
/// expanded in place, and the first failure aborts everything.
pub open spec fn flat_resolve_cmds(
    cfg: ConfigV,
    cmds: Seq<Seq<char>>,
    visited: Set<Seq<char>>,
) -> Result<Seq<Seq<char>>, RErr>
    decreases path_set(cfg.bundles).difference(visited).len(), 2int, cmds.len(),
{
    if cmds.len() == 0 {
        Ok(Seq::empty())
    } else {
        let head = match spec_parse_ref(cmds[0]) {
            RefV::Command(c) => Ok(seq![c]),
            RefV::BundleRef(g, n) => flat_resolve(cfg, spec_join_path(g, n), visited),
            RefV::GroupAll(g) => match find_key(cfg.bundles, g) {
                None => Err(RErr::NotFound(spec_group_message(g))),
                Some(entries) => flat_resolve_group(cfg, g, group_names(entries), visited),
            },
        };
        match head {
            Err(e) => Err(e),
            Ok(v) => match flat_resolve_cmds(cfg, cmds.drop_first(), visited) {
                Err(e) => Err(e),
                Ok(rest) => Ok(v + rest),
            },
        }
    }
}

/// Flat resolution of a whole group: each entry is resolved through its
/// path, in the group's own (lexicographic) order.
pub open spec fn flat_resolve_group(
    cfg: ConfigV,
    g: Seq<char>,
    names: Seq<Seq<char>>,
    visited: Set<Seq<char>>,
) -> Result<Seq<Seq<char>>, RErr>
    decreases path_set(cfg.bundles).difference(visited).len(), 1int, names.len(),
{
    if names.len() == 0 {
        Ok(Seq::empty())
    } else {
        match flat_resolve(cfg, spec_join_path(g, names[0]), visited) {
            Err(e) => Err(e),
            Ok(v) => match flat_resolve_group(cfg, g, names.drop_first(), visited) {
                Err(e) => Err(e),
                Ok(rest) => Ok(v + rest),
            },
        }
    }
}

/// The paths a visiting stack holds, as a set.
pub open spec fn visited_set(v: Seq<String>) -> Set<Seq<char>> {
    Set::new(|p: Seq<char>| exists|k: int| 0 <= k < v.len() && v[k]@ == p)
}

/// Pushing a path onto the visiting stack inserts it into the visited set.
proof fn lemma_visited_set_push(v: Seq<String>, s: String)
    ensures
        visited_set(v.push(s)) == visited_set(v).insert(s@),
{
    assert forall|p: Seq<char>|
        visited_set(v.push(s)).contains(p) <==> visited_set(v).insert(s@).contains(p) by {
        if visited_set(v.push(s)).contains(p) {
            let k = choose|k: int| 0 <= k < v.push(s).len() && v.push(s)[k]@ == p;
            if k < v.len() {
                assert(v[k]@ == p);
            } else {
                assert(p == s@);
            }
        }
        if visited_set(v).contains(p) {
            let k = choose|k: int| 0 <= k < v.len() && v[k]@ == p;
            assert(v.push(s)[k]@ == p);
        }
        if p == s@ {
            assert(v.push(s)[v.len() as int]@ == p);
        }
    }
    assert(visited_set(v.push(s)) =~= visited_set(v).insert(s@));
}

#[verifier::loop_isolation(false)]
fn contains_path(v: &Vec<String>, s: &str) -> (r: bool)
    ensures
        r == visited_set(v@).contains(s@),
{
    let mut k: usize = 0;
    while k < v.len()
        invariant
            k <= v.len(),
            forall|m: int| 0 <= m < k ==> v@[m]@ != s@,
        decreases v.len() - k,
    {
        if str_eq(v[k].as_str(), s) {
            return true;
        }
        k += 1;
    }
    proof {
        if visited_set(v@).contains(s@) {
            let m = choose|m: int| 0 <= m < v@.len() && v@[m]@ == s@;
        }
    }
    false
}

/// Resolve all commands for a bundle, recursively expanding references.
/// Returns the flat list of commands in execution order.
pub fn resolve_bundle(config: &Config, bundle_path: &str) -> (r: Result<Vec<String>, PanoutError>)
    ensures
        match r {
            Ok(v) => flat_resolve(config@, bundle_path@, Set::empty()) == Ok::<
                Seq<Seq<char>>,
                RErr,
            >(v.deep_view()),
            Err(e) => match flat_resolve(config@, bundle_path@, Set::empty()) {
                Ok(_) => false,
                Err(re) => matches_err(e, re),
            },
        },
{
    let mut visited: Vec<String> = Vec::new();
    proof {
        assert(visited_set(visited@) =~= Set::<Seq<char>>::empty());
    }
    resolve_flat_inner(config, bundle_path, &mut visited)
}

#[verifier::loop_isolation(false)]
#[verifier::rlimit(30)]
fn resolve_flat_inner(config: &Config, bundle_path: &str, visited: &mut Vec<String>) -> (r:
    Result<Vec<String>, PanoutError>)
    ensures
        match r {
            Ok(v) => flat_resolve(config@, bundle_path@, visited_set(old(visited)@)) == Ok::<
                Seq<Seq<char>>,
                RErr,
            >(v.deep_view()) && final(visited)@ == old(visited)@,
            Err(e) => final(visited)@ == old(visited)@ && (match flat_resolve(
                config@,
                bundle_path@,
                visited_set(old(visited)@),
            ) {
                Ok(_) => false,
                Err(re) => matches_err(e, re),
            }),
        },
    decreases path_set(config@.bundles).difference(visited_set(old(visited)@)).len(),
{
    let ghost vset0 = visited_set(old(visited)@);
    if contains_path(visited, bundle_path) {
        return Err(PanoutError::CircularRef(str_to_string(bundle_path)));
    }
    let entry = match config.get_bundle(bundle_path) {
        None => {
            return Err(PanoutError::BundleNotFound(str_to_string(bundle_path)));
        },
        Some(b) => b,
    };
    proof {
        lemma_path_set_finite(config@.bundles);
        lemma_get_bundle_in_path_set(config@, bundle_path@);
        lemma_visit_decreases(path_set(config@.bundles), vset0, bundle_path@);
    }
    let cmds = entry.cmd.to_vec();
    let ghost bv = entry@.cmds;
    let ghost vset1 = vset0.insert(bundle_path@);
    let pstr = str_to_string(bundle_path);
    proof {
        lemma_visited_set_push(visited@, pstr);
    }
    visited.push(pstr);
    let ghost v1 = visited@;
    proof {
        assert(visited_set(v1) == vset1);
    }
    let mut out: Vec<String> = Vec::new();
    let mut i: usize = 0;
    proof {
        assert(bv.skip(0) =~= bv);
        assert(out.deep_view() =~= Seq::<Seq<char>>::empty());
        let r0 = flat_resolve_cmds(config@, bv, vset1);
        if r0 is Ok {
            assert(out.deep_view() + r0->Ok_0 =~= r0->Ok_0);
        }
    }
    while i < cmds.len()
        invariant
            i <= cmds.len(),
            visited@ == v1,
            flat_resolve_cmds(config@, bv, vset1) == match flat_resolve_cmds(
                config@,
                bv.skip(i as int),
                vset1,
            ) {
                Ok(rest) => Ok::<Seq<Seq<char>>, RErr>(out.deep_view() + rest),
                Err(e) => Err::<Seq<Seq<char>>, RErr>(e),
            },
        decreases cmds.len() - i,
    {
        proof {
            assert(bv[i as int] == cmds@[i as int]@);
            assert(bv.skip(i as int)[0] == bv[i as int]);
            assert(bv.skip(i as int).drop_first() =~= bv.skip(i + 1));
        }
        let parsed = parse_ref(cmds[i].as_str());
        match parsed {
            ResolvedRef::Command(c) => {
                let ghost pre_out = out.deep_view();
                out.push(c);
                proof {
                    assert(out.deep_view() =~= pre_out.push(c@));
                    let rnext = flat_resolve_cmds(config@, bv.skip(i + 1), vset1);
                    if rnext is Ok {
                        assert(pre_out + (seq![c@] + rnext->Ok_0) =~= pre_out.push(c@)
                            + rnext->Ok_0);
                    }
                }
            },
            ResolvedRef::BundleRef { group, name } => {
                let ref_path = join_path(group.as_str(), name.as_str());
                match resolve_flat_inner(config, ref_path.as_str(), visited) {
                    Err(e) => {
                        let _ = visited.pop();
                        proof {
                            assert(visited@ =~= old(visited)@);
                        }
                        return Err(e);
                    },
                    Ok(mut sv) => {
                        let ghost pre_out = out.deep_view();
                        let ghost svd = sv.deep_view();
                        out.append(&mut sv);
                        proof {
                            assert(out.deep_view() =~= pre_out + svd);
                            let rnext = flat_resolve_cmds(config@, bv.skip(i + 1), vset1);
                            if rnext is Ok {
                                assert(pre_out + (svd + rnext->Ok_0) =~= (pre_out + svd)
                                    + rnext->Ok_0);
                            }
                        }
                    },
                }
            },
            ResolvedRef::GroupAll { group } => {
                let entries = match config.get_group(group.as_str()) {
                    None => {
                        let _ = visited.pop();
                        proof {
                            assert(visited@ =~= old(visited)@);
                        }
                        return Err(PanoutError::BundleNotFound(group_message(group.as_str())));
                    },
                    Some(es) => es,
                };
                let ghost names = group_names(entries_view(entries@));
                let mut sub_out: Vec<String> = Vec::new();
                let mut j: usize = 0;
                proof {
                    assert(names.skip(0) =~= names);
                    assert(sub_out.deep_view() =~= Seq::<Seq<char>>::empty());
                    let g0 = flat_resolve_group(config@, group@, names, vset1);
                    if g0 is Ok {
                        assert(sub_out.deep_view() + g0->Ok_0 =~= g0->Ok_0);
                    }
                }
                while j < entries.len()
                    invariant
                        j <= entries.len(),
                        visited@ == v1,
                        flat_resolve_group(config@, group@, names, vset1) == match
                            flat_resolve_group(config@, group@, names.skip(j as int), vset1) {
                            Ok(rest) => Ok::<Seq<Seq<char>>, RErr>(sub_out.deep_view() + rest),
                            Err(e) => Err::<Seq<Seq<char>>, RErr>(e),
                        },
                    decreases entries.len() - j,
                {
                    proof {
                        assert(names[j as int] == entries@[j as int].0@);
                        assert(names.skip(j as int)[0] == names[j as int]);
                        assert(names.skip(j as int).drop_first() =~= names.skip(j + 1));
                    }
                    let ref_path = join_path(group.as_str(), entries[j].0.as_str());
                    match resolve_flat_inner(config, ref_path.as_str(), visited) {
                        Err(e) => {
                            let _ = visited.pop();
                            proof {
                                assert(visited@ =~= old(visited)@);
                            }
                            return Err(e);
                        },
                        Ok(mut sv) => {
                            let ghost pre_sub = sub_out.deep_view();
                            let ghost svd = sv.deep_view();
                            sub_out.append(&mut sv);
                            proof {
                                assert(sub_out.deep_view() =~= pre_sub + svd);
                                let rnext = flat_resolve_group(
                                    config@,
                                    group@,
                                    names.skip(j + 1),
                                    vset1,
                                );
                                if rnext is Ok {
                                    assert(pre_sub + (svd + rnext->Ok_0) =~= (pre_sub + svd)
                                        + rnext->Ok_0);
                                }
                            }
                        },
                    }
                    j += 1;
                }
                proof {
                    assert(names.skip(names.len() as int) =~= Seq::<Seq<char>>::empty());
                    assert(flat_resolve_group(config@, group@, names, vset1) == Ok::<
                        Seq<Seq<char>>,
                        RErr,
                    >(sub_out.deep_view())) by {
                        assert(sub_out.deep_view() + Seq::<Seq<char>>::empty()
                            =~= sub_out.deep_view());
                    }
                }
                let ghost pre_out = out.deep_view();
                let ghost subd = sub_out.deep_view();
                out.append(&mut sub_out);
                proof {
                    assert(out.deep_view() =~= pre_out + subd);
                    let rnext = flat_resolve_cmds(config@, bv.skip(i + 1), vset1);
                    if rnext is Ok {
                        assert(pre_out + (subd + rnext->Ok_0) =~= (pre_out + subd)
                            + rnext->Ok_0);
                    }
                }
            },
        }
        i += 1;
    }
    proof {
        assert(bv.skip(cmds@.len() as int) =~= Seq::<Seq<char>>::empty());
        assert(flat_resolve_cmds(config@, bv, vset1) == Ok::<Seq<Seq<char>>, RErr>(
            out.deep_view(),
        )) by {
            assert(out.deep_view() + Seq::<Seq<char>>::empty() =~= out.deep_view());
        }
    }
    let _ = visited.pop();
    proof {
        assert(visited@ =~= old(visited)@);
    }
    Ok(out)
}

/// The pane-grouped output: pane indices paired with the commands
/// accumulated for them, ordered by first appearance of the pane.
pub type PaneSeq = Seq<(u32, Seq<Seq<char>>)>;

/// The first index holding the given pane, or the length when the pane has
/// no slot yet.
pub open spec fn find_pane(acc: PaneSeq, pane: u32) -> int
    decreases acc.len(),
{
    if acc.len() == 0 {
        0
    } else if acc[0].0 == pane {
        0
    } else {
        1 + find_pane(acc.drop_first(), pane)
    }
}

/// `find_pane` stays in bounds and points at the pane's slot when one
/// exists.
pub proof fn lemma_find_pane_props(acc: PaneSeq, pane: u32)
    ensures
        0 <= find_pane(acc, pane) <= acc.len(),
        find_pane(acc, pane) < acc.len() ==> acc[find_pane(acc, pane)].0 == pane,
    decreases acc.len(),
{
    if acc.len() > 0 && acc[0].0 != pane {
        lemma_find_pane_props(acc.drop_first(), pane);
    }
}

/// Merge commands for a pane into the output: extend the pane's existing
/// slot, or append a new slot at the end. First appearance of a pane
/// determines its position.
pub open spec fn merge_pane(acc: PaneSeq, pane: u32, cmds: Seq<Seq<char>>) -> PaneSeq {
    let i = find_pane(acc, pane);
    if i == acc.len() {
        acc.push((pane, cmds))
    } else {
        acc.update(i, (acc[i].0, acc[i].1 + cmds))
    }
}

#[via_fn]
proof fn pane_resolve_decreases(
    cfg: ConfigV,
    path: Seq<char>,
    visited: Set<Seq<char>>,
    inherited: u32,
    acc: PaneSeq,
) {
    if !visited.contains(path) && spec_get_bundle(cfg, path) is Some {
        lemma_path_set_finite(cfg.bundles);
        lemma_get_bundle_in_path_set(cfg, path);
        lemma_visit_decreases(path_set(cfg.bundles), visited, path);
    }
}

/// Pane-grouped resolution of one bundle path. The bundle's effective pane
/// is its own `pane` field, or the inherited one when absent; its direct
/// literal commands are merged under that pane after all references have
/// been expanded, and references inherit the effective pane.
pub open spec fn pane_resolve(
    cfg: ConfigV,
    path: Seq<char>,
    visited: Set<Seq<char>>,
    inherited: u32,
    acc: PaneSeq,
) -> Result<PaneSeq, RErr>
    decreases path_set(cfg.bundles).difference(visited).len(), 0int, 0int,
        via pane_resolve_decreases
{
    if visited.contains(path) {
        Err(RErr::Circular(path))
    } else {
        match spec_get_bundle(cfg, path) {
            None => Err(RErr::NotFound(path)),
            Some(b) => {
                let target = match b.pane {
                    Some(p) => p,
                    None => inherited,
                };
                match pane_resolve_cmds(cfg, b.cmds, visited.insert(path), target, acc) {
                    Err(e) => Err(e),
                    Ok((acc2, direct)) => Ok(
                        if direct.len() == 0 {
                            acc2
                        } else {
                            merge_pane(acc2, target, direct)
                        },
                    ),
                }
            },
        }
    }
}

/// Walk a command list in pane mode: referenced bundles update the
/// accumulator in place, literal commands are collected in order as the
/// bundle's direct commands.
pub open spec fn pane_resolve_cmds(
    cfg: ConfigV,
    cmds: Seq<Seq<char>>,
    visited: Set<Seq<char>>,
    target: u32,
    acc: PaneSeq,
) -> Result<(PaneSeq, Seq<Seq<char>>), RErr>
    decreases path_set(cfg.bundles).difference(visited).len(), 2int, cmds.len(),
{
    if cmds.len() == 0 {
        Ok((acc, Seq::empty()))
    } else {
        match spec_parse_ref(cmds[0]) {
            RefV::Command(c) => match pane_resolve_cmds(
                cfg,
                cmds.drop_first(),
                visited,
                target,
                acc,
            ) {
                Err(e) => Err(e),
                Ok((a, direct)) => Ok((a, seq![c] + direct)),
            },
            RefV::BundleRef(g, n) => match pane_resolve(
                cfg,
                spec_join_path(g, n),
                visited,
                target,
                acc,
            ) {
                Err(e) => Err(e),
                Ok(a2) => pane_resolve_cmds(cfg, cmds.drop_first(), visited, target, a2),
            },
            RefV::GroupAll(g) => match find_key(cfg.bundles, g) {
                None => Err(RErr::NotFound(spec_group_message(g))),
                Some(entries) => match pane_resolve_group(
                    cfg,
                    g,
                    group_names(entries),
                    visited,
                    target,
                    acc,
                ) {
                    Err(e) => Err(e),
                    Ok(a2) => pane_resolve_cmds(cfg, cmds.drop_first(), visited, target, a2),
                },
            },
        }
    }
}

/// Expand a whole group in pane mode, each entry through its path, in the
/// group's own (lexicographic) order.
pub open spec fn pane_resolve_group(
    cfg: ConfigV,
    g: Seq<char>,
    names: Seq<Seq<char>>,
    visited: Set<Seq<char>>,
    target: u32,
    acc: PaneSeq,
) -> Result<PaneSeq, RErr>
    decreases path_set(cfg.bundles).difference(visited).len(), 1int, names.len(),
{
    if names.len() == 0 {
        Ok(acc)
    } else {
        match pane_resolve(cfg, spec_join_path(g, names[0]), visited, target, acc) {
            Err(e) => Err(e),
            Ok(a2) => pane_resolve_group(cfg, g, names.drop_first(), visited, target, a2),
        }
    }
}

#[verifier::loop_isolation(false)]
fn find_pane_index(v: &Vec<(u32, Vec<String>)>, pane: u32) -> (r: usize)
    ensures
        r == find_pane(v.deep_view(), pane),
        r <= v@.len(),
{
    let ghost d = v.deep_view();
    proof {
        assert(d.skip(0) =~= d);
        lemma_find_pane_props(d, pane);
    }
    let mut k: usize = 0;
    while k < v.len()
        invariant
            k <= v.len(),
            find_pane(d, pane) == k + find_pane(d.skip(k as int), pane),
        decreases v.len() - k,
    {
        proof {
            assert(d.skip(k as int)[0] == d[k as int]);
            assert(d[k as int].0 == v@[k as int].0);
        }
        if v[k].0 == pane {
            proof {
                lemma_find_pane_props(d.skip(k as int), pane);
            }
            return k;
        }
        proof {
            assert(d.skip(k as int).drop_first() =~= d.skip(k + 1));
            lemma_find_pane_props(d.skip(k + 1), pane);
        }
        k += 1;
    }
    proof {
        assert(d.skip(v@.len() as int) =~= Seq::<(u32, Seq<Seq<char>>)>::empty());
    }
    v.len()
}

/// Resolve commands grouped by target pane, preserving pane assignments
/// from the configuration. The starting call inherits pane zero.
pub fn resolve_with_panes(config: &Config, bundle_path: &str) -> (r: Result<
    Vec<(u32, Vec<String>)>,
    PanoutError,
>)
    ensures
        match r {
            Ok(v) => pane_resolve(config@, bundle_path@, Set::empty(), 0u32, Seq::empty())
                == Ok::<PaneSeq, RErr>(v.deep_view()),
            Err(e) => match pane_resolve(config@, bundle_path@, Set::empty(), 0u32, Seq::empty()) {
                Ok(_) => false,
                Err(re) => matches_err(e, re),
            },
        },
{
    let mut visited: Vec<String> = Vec::new();
    let mut pane_cmds: Vec<(u32, Vec<String>)> = Vec::new();
    proof {
        assert(visited_set(visited@) =~= Set::<Seq<char>>::empty());
        assert(pane_cmds.deep_view() =~= Seq::<(u32, Seq<Seq<char>>)>::empty());
    }
    match resolve_panes_inner(config, bundle_path, &mut visited, &mut pane_cmds, 0) {
        Ok(_) => Ok(pane_cmds),
        Err(e) => Err(e),
    }
}

#[verifier::loop_isolation(false)]
#[verifier::rlimit(30)]
fn resolve_panes_inner(
    config: &Config,
    bundle_path: &str,
    visited: &mut Vec<String>,
    pane_cmds: &mut Vec<(u32, Vec<String>)>,
    default_pane: u32,
) -> (r: Result<(), PanoutError>)
    ensures
        match r {
            Ok(_) => pane_resolve(
                config@,
                bundle_path@,
                visited_set(old(visited)@),
                default_pane,
                old(pane_cmds).deep_view(),
            ) == Ok::<PaneSeq, RErr>(final(pane_cmds).deep_view()) && final(visited)@ == old(
                visited,
            )@,
            Err(e) => final(visited)@ == old(visited)@ && (match pane_resolve(
                config@,
                bundle_path@,
                visited_set(old(visited)@),
                default_pane,
                old(pane_cmds).deep_view(),
            ) {
                Ok(_) => false,
                Err(re) => matches_err(e, re),
            }),
        },
    decreases path_set(config@.bundles).difference(visited_set(old(visited)@)).len(),
{
    let ghost vset0 = visited_set(old(visited)@);
    let ghost acc0 = old(pane_cmds).deep_view();
    if contains_path(visited, bundle_path) {
        return Err(PanoutError::CircularRef(str_to_string(bundle_path)));
    }
    let entry = match config.get_bundle(bundle_path) {
        None => {
            return Err(PanoutError::BundleNotFound(str_to_string(bundle_path)));
        },
        Some(b) => b,
    };
    proof {
        lemma_path_set_finite(config@.bundles);
        lemma_get_bundle_in_path_set(config@, bundle_path@);
        lemma_visit_decreases(path_set(config@.bundles), vset0, bundle_path@);
    }
    let target_pane = match entry.pane {
        Some(p) => p,
        None => default_pane,
    };
    let cmds = entry.cmd.to_vec();
    let ghost bv = entry@.cmds;
    let ghost vset1 = vset0.insert(bundle_path@);
    let pstr = str_to_string(bundle_path);
    proof {
        lemma_visited_set_push(visited@, pstr);
    }
    visited.push(pstr);
    let ghost v1 = visited@;
    proof {
        assert(visited_set(v1) == vset1);
    }
    let mut direct: Vec<String> = Vec::new();
    let mut i: usize = 0;
    proof {
        assert(bv.skip(0) =~= bv);
        assert(direct.deep_view() =~= Seq::<Seq<char>>::empty());
        let r0 = pane_resolve_cmds(config@, bv, vset1, target_pane, acc0);
        if r0 is Ok {
            assert(direct.deep_view() + r0->Ok_0.1 =~= r0->Ok_0.1);
        }
    }
    while i < cmds.len()
        invariant
            i <= cmds.len(),
            visited@ == v1,
            pane_resolve_cmds(config@, bv, vset1, target_pane, acc0) == match pane_resolve_cmds(
                config@,
                bv.skip(i as int),
                vset1,
                target_pane,
                pane_cmds.deep_view(),
            ) {
                Ok((a, d2)) => Ok::<(PaneSeq, Seq<Seq<char>>), RErr>((a, direct.deep_view() + d2)),
                Err(e) => Err::<(PaneSeq, Seq<Seq<char>>), RErr>(e),
            },
        decreases cmds.len() - i,
    {
        proof {
            assert(bv[i as int] == cmds@[i as int]@);
            assert(bv.skip(i as int)[0] == bv[i as int]);
            assert(bv.skip(i as int).drop_first() =~= bv.skip(i + 1));
        }
        let parsed = parse_ref(cmds[i].as_str());
        match parsed {
            ResolvedRef::Command(c) => {
                let ghost pre_direct = direct.deep_view();
                direct.push(c);
                proof {
                    assert(direct.deep_view() =~= pre_direct.push(c@));
                    let rnext = pane_resolve_cmds(
                        config@,
                        bv.skip(i + 1),
                        vset1,
                        target_pane,
                        pane_cmds.deep_view(),
                    );
                    if rnext is Ok {
                        assert(pre_direct + (seq![c@] + rnext->Ok_0.1) =~= pre_direct.push(c@)
                            + rnext->Ok_0.1);
                    }
                }
            },
            ResolvedRef::BundleRef { group, name } => {
                let ref_path = join_path(group.as_str(), name.as_str());
                match resolve_panes_inner(config, ref_path.as_str(), visited, pane_cmds,
                    target_pane) {
                    Err(e) => {
                        let _ = visited.pop();
                        proof {
                            assert(visited@ =~= old(visited)@);
                        }
                        return Err(e);
                    },
                    Ok(_) => {},
                }
            },
            ResolvedRef::GroupAll { group } => {
                let entries = match config.get_group(group.as_str()) {
                    None => {
                        let _ = visited.pop();
                        proof {
                            assert(visited@ =~= old(visited)@);
                        }
                        return Err(PanoutError::BundleNotFound(group_message(group.as_str())));
                    },
                    Some(es) => es,
                };
                let ghost names = group_names(entries_view(entries@));
                let ghost acc_g = pane_cmds.deep_view();
                let mut j: usize = 0;
                proof {
                    assert(names.skip(0) =~= names);
                }
                while j < entries.len()
                    invariant
                        j <= entries.len(),
                        visited@ == v1,
                        pane_resolve_group(config@, group@, names, vset1, target_pane, acc_g)
                            == pane_resolve_group(
                            config@,
                            group@,
                            names.skip(j as int),
                            vset1,
                            target_pane,
                            pane_cmds.deep_view(),
                        ),
                    decreases entries.len() - j,
                {
                    proof {
                        assert(names[j as int] == entries@[j as int].0@);
                        assert(names.skip(j as int)[0] == names[j as int]);
                        assert(names.skip(j as int).drop_first() =~= names.skip(j + 1));
                    }
                    let ref_path = join_path(group.as_str(), entries[j].0.as_str());
                    match resolve_panes_inner(config, ref_path.as_str(), visited, pane_cmds,
                        target_pane) {
                        Err(e) => {
                            let _ = visited.pop();
                            proof {
                                assert(visited@ =~= old(visited)@);
                            }
                            return Err(e);
                        },
                        Ok(_) => {},
                    }
                    j += 1;
                }
                proof {
                    assert(names.skip(names.len() as int) =~= Seq::<Seq<char>>::empty());
                }
            },
        }
        i += 1;
    }
    proof {
        assert(bv.skip(cmds@.len() as int) =~= Seq::<Seq<char>>::empty());
        assert(pane_resolve_cmds(config@, bv, vset1, target_pane, acc0) == Ok::<
            (PaneSeq, Seq<Seq<char>>),
            RErr,
        >((pane_cmds.deep_view(), direct.deep_view()))) by {
            assert(direct.deep_view() + Seq::<Seq<char>>::empty() =~= direct.deep_view());
        }
    }
    if !direct.is_empty() {
        let ghost acc_f = pane_cmds.deep_view();
        let ghost direct_d = direct.deep_view();
        let idx = find_pane_index(pane_cmds, target_pane);
        proof {
            lemma_find_pane_props(acc_f, target_pane);
        }
        if idx < pane_cmds.len() {
            let removed = pane_cmds.remove(idx);
            let (epane, mut ecmds) = removed;
            proof {
                assert((epane, ecmds.deep_view()) == acc_f[idx as int]);
            }
            let ghost pre_e = ecmds.deep_view();
            ecmds.append(&mut direct);
            proof {
                assert(ecmds.deep_view() =~= pre_e + direct_d);
            }
            pane_cmds.insert(idx, (epane, ecmds));
            proof {
                assert(pane_cmds.deep_view() =~= merge_pane(acc_f, target_pane, direct_d));
            }
        } else {
            pane_cmds.push((target_pane, direct));
            proof {
                assert(pane_cmds.deep_view() =~= merge_pane(acc_f, target_pane, direct_d));
            }
        }
    }
    let _ = visited.pop();
    proof {
        assert(visited@ =~= old(visited)@);
    }
    Ok(())
}

} // verus!
