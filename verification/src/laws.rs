//! Laws of the resolver, stated and proved against the specification
//! functions that the executable functions are verified to implement.

use vstd::prelude::*;

use crate::config::{
    find_key, insert_kv, lemma_find_key_index, scan_key, sorted_kv, spec_add_bundle,
    spec_get_bundle, BundleEntryV, ConfigV, GroupV,
};
use crate::resolver::{
    find_pane, flat_resolve, flat_resolve_cmds, flat_resolve_group, group_names,
    lemma_find_pane_props,
    lemma_get_bundle_in_path_set, lemma_path_set_finite, lemma_visit_decreases, merge_pane,
    pane_resolve, pane_resolve_cmds, pane_resolve_group, path_set, spec_parse_ref, PaneSeq, RErr,
    RefV,
};
use crate::text::{first_index_of, lex_lt, spec_join_path};

verus! {

/// A string that is not a reference — it does not start with the sigil, or
/// no dot follows — parses to itself as a literal command.
pub proof fn lemma_parse_non_reference(s: Seq<char>)
    requires
        s.len() == 0 || s[0] != '@' || first_index_of(s, '.', 1) == s.len(),
    ensures
        spec_parse_ref(s) == RefV::Command(s),
{
}

/// Whatever a string parses to, a literal result is always the string
/// itself: parsing never invents or loses characters.
pub proof fn lemma_parse_command_identity(s: Seq<char>)
    ensures
        spec_parse_ref(s) matches RefV::Command(c) ==> c == s,
{
}

/// A command list with no references resolves flatly to exactly itself, in
/// declared order, under any visiting set.
pub proof fn lemma_flat_cmds_literal(cfg: ConfigV, cmds: Seq<Seq<char>>, visited: Set<Seq<char>>)
    requires
        forall|k: int| 0 <= k < cmds.len() ==> (#[trigger] spec_parse_ref(cmds[k])) is Command,
    ensures
        flat_resolve_cmds(cfg, cmds, visited) == Ok::<Seq<Seq<char>>, RErr>(cmds),
    decreases cmds.len(),
{
    if cmds.len() > 0 {
        assert(spec_parse_ref(cmds[0]) is Command);
        lemma_parse_command_identity(cmds[0]);
        assert forall|k: int| 0 <= k < cmds.drop_first().len() implies (#[trigger] spec_parse_ref(
            cmds.drop_first()[k],
        )) is Command by {
            assert(cmds.drop_first()[k] == cmds[k + 1]);
        }
        lemma_flat_cmds_literal(cfg, cmds.drop_first(), visited);
        assert(seq![cmds[0]] + cmds.drop_first() =~= cmds);
    } else {
        assert(cmds =~= Seq::<Seq<char>>::empty());
    }
}

/// Flat resolution of a bundle without references returns exactly its
/// literal commands, in declared order.
pub proof fn lemma_flat_resolve_literal_bundle(cfg: ConfigV, path: Seq<char>, b: BundleEntryV)
    requires
        spec_get_bundle(cfg, path) == Some(b),
        forall|k: int| 0 <= k < b.cmds.len() ==> (#[trigger] spec_parse_ref(b.cmds[k])) is Command,
    ensures
        flat_resolve(cfg, path, Set::empty()) == Ok::<Seq<Seq<char>>, RErr>(b.cmds),
{
    lemma_flat_cmds_literal(cfg, b.cmds, Set::empty().insert(path));
}

/// The inlining law: a bundle whose single command references another
/// bundle with only literal commands resolves to exactly that bundle's
/// commands — the same output that a synthetic bundle holding those
/// commands directly would give (by `lemma_flat_resolve_literal_bundle`).
pub proof fn lemma_flat_resolve_inline(
    cfg: ConfigV,
    path_a: Seq<char>,
    a: BundleEntryV,
    g: Seq<char>,
    n: Seq<char>,
    b: BundleEntryV,
)
    requires
        spec_get_bundle(cfg, path_a) == Some(a),
        a.cmds.len() == 1,
        spec_parse_ref(a.cmds[0]) == RefV::BundleRef(g, n),
        spec_join_path(g, n) != path_a,
        spec_get_bundle(cfg, spec_join_path(g, n)) == Some(b),
        forall|k: int| 0 <= k < b.cmds.len() ==> (#[trigger] spec_parse_ref(b.cmds[k])) is Command,
    ensures
        flat_resolve(cfg, path_a, Set::empty()) == Ok::<Seq<Seq<char>>, RErr>(b.cmds),
{
    let v1 = Set::<Seq<char>>::empty().insert(path_a);
    let pb = spec_join_path(g, n);
    assert(!Set::<Seq<char>>::empty().contains(path_a));
    assert(!v1.contains(pb));
    lemma_flat_cmds_literal(cfg, b.cmds, v1.insert(pb));
    assert(flat_resolve(cfg, pb, v1) == Ok::<Seq<Seq<char>>, RErr>(b.cmds));
    assert(a.cmds.drop_first() =~= Seq::<Seq<char>>::empty());
    assert(flat_resolve_cmds(cfg, a.cmds.drop_first(), v1) == Ok::<Seq<Seq<char>>, RErr>(
        Seq::empty(),
    ));
    assert(b.cmds + Seq::<Seq<char>>::empty() =~= b.cmds);
    assert(flat_resolve_cmds(cfg, a.cmds, v1) == Ok::<Seq<Seq<char>>, RErr>(b.cmds));
}

/// Walking a concatenated command list is walking the two halves in turn:
/// the first failure wins, successes concatenate.
pub proof fn lemma_flat_cmds_append(
    cfg: ConfigV,
    xs: Seq<Seq<char>>,
    ys: Seq<Seq<char>>,
    visited: Set<Seq<char>>,
)
    ensures
        flat_resolve_cmds(cfg, xs + ys, visited) == (match flat_resolve_cmds(cfg, xs, visited) {
            Err(e) => Err::<Seq<Seq<char>>, RErr>(e),
            Ok(a) => match flat_resolve_cmds(cfg, ys, visited) {
                Err(e) => Err::<Seq<Seq<char>>, RErr>(e),
                Ok(b) => Ok::<Seq<Seq<char>>, RErr>(a + b),
            },
        }),
    decreases xs.len(),
{
    if xs.len() == 0 {
        assert(xs =~= Seq::<Seq<char>>::empty());
        assert(xs + ys =~= ys);
        let ry = flat_resolve_cmds(cfg, ys, visited);
        if ry is Ok {
            assert(Seq::<Seq<char>>::empty() + ry->Ok_0 =~= ry->Ok_0);
        }
    } else {
        assert((xs + ys).len() > 0);
        assert((xs + ys)[0] == xs[0]);
        assert((xs + ys).drop_first() =~= xs.drop_first() + ys);
        lemma_flat_cmds_append(cfg, xs.drop_first(), ys, visited);
        let rxd = flat_resolve_cmds(cfg, xs.drop_first(), visited);
        let ry = flat_resolve_cmds(cfg, ys, visited);
        match spec_parse_ref(xs[0]) {
            RefV::Command(c) => {
                if rxd is Ok && ry is Ok {
                    assert(seq![c] + (rxd->Ok_0 + ry->Ok_0) =~= (seq![c] + rxd->Ok_0)
                        + ry->Ok_0);
                }
            },
            RefV::BundleRef(g, n) => {
                let h = flat_resolve(cfg, spec_join_path(g, n), visited);
                if h is Ok && rxd is Ok && ry is Ok {
                    assert(h->Ok_0 + (rxd->Ok_0 + ry->Ok_0) =~= (h->Ok_0 + rxd->Ok_0)
                        + ry->Ok_0);
                }
            },
            RefV::GroupAll(g) => {
                if find_key(cfg.bundles, g) is Some {
                    let entries = find_key(cfg.bundles, g)->Some_0;
                    let h = flat_resolve_group(cfg, g, group_names(entries), visited);
                    if h is Ok && rxd is Ok && ry is Ok {
                        assert(h->Ok_0 + (rxd->Ok_0 + ry->Ok_0) =~= (h->Ok_0 + rxd->Ok_0)
                            + ry->Ok_0);
                    }
                }
            },
        }
    }
}

/// Two configurations that agree on every bundle path but one.
pub open spec fn lookups_agree_except(cfg1: ConfigV, cfg2: ConfigV, pa: Seq<char>) -> bool {
    forall|p: Seq<char>|
        p != pa ==> #[trigger] spec_get_bundle(cfg1, p) == spec_get_bundle(cfg2, p)
}

/// Two configurations whose groups exist alike and list the same entry
/// names in the same order.
pub open spec fn groups_agree(cfg1: ConfigV, cfg2: ConfigV) -> bool {
    forall|g: Seq<char>|
        #![trigger find_key(cfg1.bundles, g)]
        match (find_key(cfg1.bundles, g), find_key(cfg2.bundles, g)) {
            (Option::None, Option::None) => true,
            (Option::Some(e1), Option::Some(e2)) => group_names(e1) == group_names(e2),
            _ => false,
        }
}

/// While the differing path is on the visiting stack it is never consulted
/// (re-entering it is a cycle in both configurations), so flat resolution
/// cannot tell two configurations apart that differ only there.
pub proof fn lemma_flat_resolve_config_agree(
    cfg1: ConfigV,
    cfg2: ConfigV,
    pa: Seq<char>,
    p: Seq<char>,
    visited: Set<Seq<char>>,
)
    requires
        lookups_agree_except(cfg1, cfg2, pa),
        groups_agree(cfg1, cfg2),
        visited.contains(pa),
    ensures
        flat_resolve(cfg1, p, visited) == flat_resolve(cfg2, p, visited),
    decreases path_set(cfg1.bundles).difference(visited).len(), 0int, 0int,
{
    if !visited.contains(p) {
        assert(p != pa);
        assert(spec_get_bundle(cfg1, p) == spec_get_bundle(cfg2, p));
        if spec_get_bundle(cfg1, p) is Some {
            let b = spec_get_bundle(cfg1, p)->Some_0;
            lemma_path_set_finite(cfg1.bundles);
            lemma_get_bundle_in_path_set(cfg1, p);
            lemma_visit_decreases(path_set(cfg1.bundles), visited, p);
            lemma_flat_cmds_config_agree(cfg1, cfg2, pa, b.cmds, visited.insert(p));
        }
    }
}

proof fn lemma_flat_cmds_config_agree(
    cfg1: ConfigV,
    cfg2: ConfigV,
    pa: Seq<char>,
    cmds: Seq<Seq<char>>,
    visited: Set<Seq<char>>,
)
    requires
        lookups_agree_except(cfg1, cfg2, pa),
        groups_agree(cfg1, cfg2),
        visited.contains(pa),
    ensures
        flat_resolve_cmds(cfg1, cmds, visited) == flat_resolve_cmds(cfg2, cmds, visited),
    decreases path_set(cfg1.bundles).difference(visited).len(), 2int, cmds.len(),
{
    if cmds.len() > 0 {
        lemma_flat_cmds_config_agree(cfg1, cfg2, pa, cmds.drop_first(), visited);
        match spec_parse_ref(cmds[0]) {
            RefV::Command(_) => {},
            RefV::BundleRef(g, n) => {
                lemma_flat_resolve_config_agree(cfg1, cfg2, pa, spec_join_path(g, n), visited);
            },
            RefV::GroupAll(g) => {
                assert(match (find_key(cfg1.bundles, g), find_key(cfg2.bundles, g)) {
                    (Option::None, Option::None) => true,
                    (Option::Some(e1), Option::Some(e2)) => group_names(e1) == group_names(e2),
                    _ => false,
                });
                if find_key(cfg1.bundles, g) is Some {
                    let e1 = find_key(cfg1.bundles, g)->Some_0;
                    lemma_flat_group_config_agree(cfg1, cfg2, pa, g, group_names(e1), visited);
                }
            },
        }
    }
}

proof fn lemma_flat_group_config_agree(
    cfg1: ConfigV,
    cfg2: ConfigV,
    pa: Seq<char>,
    g: Seq<char>,
    names: Seq<Seq<char>>,
    visited: Set<Seq<char>>,
)
    requires
        lookups_agree_except(cfg1, cfg2, pa),
        groups_agree(cfg1, cfg2),
        visited.contains(pa),
    ensures
        flat_resolve_group(cfg1, g, names, visited) == flat_resolve_group(cfg2, g, names, visited),
    decreases path_set(cfg1.bundles).difference(visited).len(), 1int, names.len(),
{
    if names.len() > 0 {
        lemma_flat_resolve_config_agree(cfg1, cfg2, pa, spec_join_path(g, names[0]), visited);
        lemma_flat_group_config_agree(cfg1, cfg2, pa, g, names.drop_first(), visited);
    }
}

/// The general inlining law: a reference standing anywhere in a bundle's
/// command list may be replaced, in place, by the referenced bundle's
/// literal commands without changing the flat result. The two
/// configurations agree everywhere but at the edited bundle, whose list
/// carries the reference at position `i` in the one and the referenced
/// commands spliced in at `i` in the other.
pub proof fn lemma_flat_resolve_inline_at(
    cfg1: ConfigV,
    cfg2: ConfigV,
    pa: Seq<char>,
    a1: BundleEntryV,
    a2: BundleEntryV,
    i: int,
    g: Seq<char>,
    n: Seq<char>,
    b: BundleEntryV,
)
    requires
        lookups_agree_except(cfg1, cfg2, pa),
        groups_agree(cfg1, cfg2),
        spec_get_bundle(cfg1, pa) == Some(a1),
        spec_get_bundle(cfg2, pa) == Some(a2),
        0 <= i < a1.cmds.len(),
        spec_parse_ref(a1.cmds[i]) == RefV::BundleRef(g, n),
        spec_join_path(g, n) != pa,
        spec_get_bundle(cfg1, spec_join_path(g, n)) == Some(b),
        forall|k: int| 0 <= k < b.cmds.len() ==> (#[trigger] spec_parse_ref(b.cmds[k])) is Command,
        a2.cmds == a1.cmds.take(i) + b.cmds + a1.cmds.skip(i + 1),
    ensures
        flat_resolve(cfg1, pa, Set::empty()) == flat_resolve(cfg2, pa, Set::empty()),
{
    let v1 = Set::<Seq<char>>::empty().insert(pa);
    let pb = spec_join_path(g, n);
    assert(v1.contains(pa));
    assert(!Set::<Seq<char>>::empty().contains(pa));
    assert(!v1.contains(pb));

    // the referenced bundle resolves to its literal commands
    lemma_flat_cmds_literal(cfg1, b.cmds, v1.insert(pb));
    assert(flat_resolve(cfg1, pb, v1) == Ok::<Seq<Seq<char>>, RErr>(b.cmds));
    lemma_flat_cmds_literal(cfg2, b.cmds, v1);

    // split the first bundle's list around the reference
    let xs = a1.cmds.take(i);
    let mid = seq![a1.cmds[i]];
    let rest = a1.cmds.skip(i + 1);
    assert(a1.cmds =~= xs + (mid + rest));
    lemma_flat_cmds_append(cfg1, xs, mid + rest, v1);
    lemma_flat_cmds_append(cfg1, mid, rest, v1);
    assert(mid[0] == a1.cmds[i]);
    assert(mid.drop_first() =~= Seq::<Seq<char>>::empty());
    assert(flat_resolve_cmds(cfg1, mid.drop_first(), v1) == Ok::<Seq<Seq<char>>, RErr>(
        Seq::empty(),
    ));
    assert(b.cmds + Seq::<Seq<char>>::empty() =~= b.cmds);
    assert(flat_resolve_cmds(cfg1, mid, v1) == Ok::<Seq<Seq<char>>, RErr>(b.cmds));

    // split the second bundle's list the same way
    assert(a2.cmds =~= xs + (b.cmds + rest));
    lemma_flat_cmds_append(cfg2, xs, b.cmds + rest, v1);
    lemma_flat_cmds_append(cfg2, b.cmds, rest, v1);

    // away from the reference the two configurations resolve alike
    lemma_flat_cmds_config_agree(cfg1, cfg2, pa, xs, v1);
    lemma_flat_cmds_config_agree(cfg1, cfg2, pa, rest, v1);
    assert(flat_resolve_cmds(cfg1, a1.cmds, v1) == flat_resolve_cmds(cfg2, a2.cmds, v1));
}

/// Literal commands before position `k` only prepend themselves: the rest
/// of the walk decides the outcome.
pub proof fn lemma_flat_cmds_literal_prefix(
    cfg: ConfigV,
    cmds: Seq<Seq<char>>,
    visited: Set<Seq<char>>,
    k: int,
)
    requires
        0 <= k <= cmds.len(),
        forall|j: int| 0 <= j < k ==> (#[trigger] spec_parse_ref(cmds[j])) is Command,
    ensures
        flat_resolve_cmds(cfg, cmds, visited) == match flat_resolve_cmds(
            cfg,
            cmds.skip(k),
            visited,
        ) {
            Ok(rest) => Ok::<Seq<Seq<char>>, RErr>(cmds.take(k) + rest),
            Err(e) => Err::<Seq<Seq<char>>, RErr>(e),
        },
    decreases k,
{
    if k == 0 {
        assert(cmds.skip(0) =~= cmds);
        let r = flat_resolve_cmds(cfg, cmds, visited);
        if r is Ok {
            assert(cmds.take(0) + r->Ok_0 =~= r->Ok_0);
        }
    } else {
        lemma_parse_command_identity(cmds[0]);
        let t = cmds.drop_first();
        assert forall|j: int| 0 <= j < k - 1 implies (#[trigger] spec_parse_ref(
            t[j],
        )) is Command by {
            assert(t[j] == cmds[j + 1]);
        }
        lemma_flat_cmds_literal_prefix(cfg, t, visited, k - 1);
        assert(cmds.skip(k) =~= t.skip(k - 1));
        assert(cmds.take(k) =~= seq![cmds[0]] + t.take(k - 1));
        let r = flat_resolve_cmds(cfg, cmds.skip(k), visited);
        if r is Ok {
            assert(seq![cmds[0]] + (t.take(k - 1) + r->Ok_0) =~= (seq![cmds[0]] + t.take(k - 1))
                + r->Ok_0);
        }
    }
}

/// A bundle whose first reference points back at the bundle's own path
/// fails with a circular-reference error on that path, whatever literal
/// commands precede the reference.
pub proof fn lemma_flat_resolve_self_cycle(
    cfg: ConfigV,
    path: Seq<char>,
    b: BundleEntryV,
    k: int,
    g: Seq<char>,
    n: Seq<char>,
)
    requires
        spec_get_bundle(cfg, path) == Some(b),
        0 <= k < b.cmds.len(),
        forall|j: int| 0 <= j < k ==> (#[trigger] spec_parse_ref(b.cmds[j])) is Command,
        spec_parse_ref(b.cmds[k]) == RefV::BundleRef(g, n),
        spec_join_path(g, n) == path,
    ensures
        flat_resolve(cfg, path, Set::empty()) == Err::<Seq<Seq<char>>, RErr>(RErr::Circular(path)),
{
    let v1 = Set::empty().insert(path);
    lemma_flat_cmds_literal_prefix(cfg, b.cmds, v1, k);
    assert(b.cmds.skip(k)[0] == b.cmds[k]);
    assert(flat_resolve(cfg, path, v1) == Err::<Seq<Seq<char>>, RErr>(RErr::Circular(path)));
}

/// Two bundles that reference each other fail with a circular-reference
/// error on the path that is re-entered: the one the resolution started
/// from.
pub proof fn lemma_flat_resolve_mutual_cycle(
    cfg: ConfigV,
    pa: Seq<char>,
    pb: Seq<char>,
    a: BundleEntryV,
    b: BundleEntryV,
    ga: Seq<char>,
    na: Seq<char>,
    gb: Seq<char>,
    nb: Seq<char>,
)
    requires
        pa != pb,
        spec_get_bundle(cfg, pa) == Some(a),
        spec_get_bundle(cfg, pb) == Some(b),
        a.cmds.len() >= 1,
        b.cmds.len() >= 1,
        spec_parse_ref(a.cmds[0]) == RefV::BundleRef(ga, na),
        spec_join_path(ga, na) == pb,
        spec_parse_ref(b.cmds[0]) == RefV::BundleRef(gb, nb),
        spec_join_path(gb, nb) == pa,
    ensures
        flat_resolve(cfg, pa, Set::empty()) == Err::<Seq<Seq<char>>, RErr>(RErr::Circular(pa)),
{
    let v1 = Set::empty().insert(pa);
    let v2 = v1.insert(pb);
    assert(!v1.contains(pb));
    assert(v2.contains(pa));
    assert(flat_resolve(cfg, pa, v2) == Err::<Seq<Seq<char>>, RErr>(RErr::Circular(pa)));
    assert(flat_resolve(cfg, pb, v1) == Err::<Seq<Seq<char>>, RErr>(RErr::Circular(pa)));
}

/// Sibling references are resolved against the same visiting set: the
/// first expansion leaves the set as it found it, so a shared target (a
/// diamond) is expanded once per reference and reports no cycle.
pub proof fn lemma_flat_siblings(
    cfg: ConfigV,
    r1: Seq<char>,
    r2: Seq<char>,
    g1: Seq<char>,
    n1: Seq<char>,
    g2: Seq<char>,
    n2: Seq<char>,
    visited: Set<Seq<char>>,
)
    requires
        spec_parse_ref(r1) == RefV::BundleRef(g1, n1),
        spec_parse_ref(r2) == RefV::BundleRef(g2, n2),
    ensures
        flat_resolve_cmds(cfg, seq![r1, r2], visited) == match (
            flat_resolve(cfg, spec_join_path(g1, n1), visited),
            flat_resolve(cfg, spec_join_path(g2, n2), visited),
        ) {
            (Err(e), _) => Err::<Seq<Seq<char>>, RErr>(e),
            (Ok(_), Err(e)) => Err::<Seq<Seq<char>>, RErr>(e),
            (Ok(v1), Ok(v2)) => Ok::<Seq<Seq<char>>, RErr>(v1 + v2),
        },
{
    reveal_with_fuel(flat_resolve_cmds, 3);
    let cmds = seq![r1, r2];
    assert(cmds[0] == r1);
    assert(cmds.drop_first() =~= seq![r2]);
    assert(cmds.drop_first()[0] == r2);
    assert(cmds.drop_first().drop_first() =~= Seq::<Seq<char>>::empty());
    let s1 = flat_resolve(cfg, spec_join_path(g1, n1), visited);
    let s2 = flat_resolve(cfg, spec_join_path(g2, n2), visited);
    if s2 is Ok {
        assert(flat_resolve_cmds(cfg, cmds.drop_first(), visited) == Ok::<Seq<Seq<char>>, RErr>(
            s2->Ok_0 + Seq::<Seq<char>>::empty(),
        ));
        assert(s2->Ok_0 + Seq::<Seq<char>>::empty() =~= s2->Ok_0);
    }
}

/// Under a well-formed configuration, wildcard expansion walks the group's
/// entry names in strictly increasing lexicographic order, whatever order
/// they were added in.
pub proof fn lemma_group_names_sorted(cfg: ConfigV, g: Seq<char>, entries: GroupV)
    requires
        cfg.wf(),
        find_key(cfg.bundles, g) == Some(entries),
    ensures
        forall|i: int, j: int|
            0 <= i < j < group_names(entries).len() ==> lex_lt(
                #[trigger] group_names(entries)[i],
                #[trigger] group_names(entries)[j],
            ),
{
    lemma_find_key_index(cfg.bundles, g);
    let gi = choose|gi: int|
        0 <= gi < cfg.bundles.len() && cfg.bundles[gi].0 == g && find_key(cfg.bundles, g) == Some(
            cfg.bundles[gi].1,
        );
    assert(sorted_kv(entries));
    assert forall|i: int, j: int| 0 <= i < j < group_names(entries).len() implies lex_lt(
        #[trigger] group_names(entries)[i],
        #[trigger] group_names(entries)[j],
    ) by {
        assert(group_names(entries)[i] == entries[i].0);
        assert(group_names(entries)[j] == entries[j].0);
    }
}

/// A bundle with an explicit pane ignores the inherited pane entirely: the
/// resolution result is the same whatever pane the referrer passed down.
pub proof fn lemma_pane_override(
    cfg: ConfigV,
    path: Seq<char>,
    b: BundleEntryV,
    visited: Set<Seq<char>>,
    acc: PaneSeq,
    i1: u32,
    i2: u32,
)
    requires
        spec_get_bundle(cfg, path) == Some(b),
        b.pane is Some,
    ensures
        pane_resolve(cfg, path, visited, i1, acc) == pane_resolve(cfg, path, visited, i2, acc),
{
}

/// A command list with no references contributes itself, in order, as the
/// direct commands, and leaves the accumulator alone.
pub proof fn lemma_pane_cmds_literal(
    cfg: ConfigV,
    cmds: Seq<Seq<char>>,
    visited: Set<Seq<char>>,
    target: u32,
    acc: PaneSeq,
)
    requires
        forall|k: int| 0 <= k < cmds.len() ==> (#[trigger] spec_parse_ref(cmds[k])) is Command,
    ensures
        pane_resolve_cmds(cfg, cmds, visited, target, acc) == Ok::<(PaneSeq, Seq<Seq<char>>), RErr>(
            (acc, cmds),
        ),
    decreases cmds.len(),
{
    if cmds.len() > 0 {
        assert(spec_parse_ref(cmds[0]) is Command);
        lemma_parse_command_identity(cmds[0]);
        assert forall|k: int| 0 <= k < cmds.drop_first().len() implies (#[trigger] spec_parse_ref(
            cmds.drop_first()[k],
        )) is Command by {
            assert(cmds.drop_first()[k] == cmds[k + 1]);
        }
        lemma_pane_cmds_literal(cfg, cmds.drop_first(), visited, target, acc);
        assert(pane_resolve_cmds(cfg, cmds.drop_first(), visited, target, acc) == Ok::<
            (PaneSeq, Seq<Seq<char>>),
            RErr,
        >((acc, cmds.drop_first())));
        assert(seq![cmds[0]] + cmds.drop_first() =~= cmds);
    } else {
        assert(cmds =~= Seq::<Seq<char>>::empty());
    }
}

/// Pane-grouped resolution of a bundle without references: its commands
/// land, in order, under its effective pane — its own pane when set, else
/// the inherited one.
pub proof fn lemma_pane_resolve_literal_bundle(
    cfg: ConfigV,
    path: Seq<char>,
    b: BundleEntryV,
    visited: Set<Seq<char>>,
    inherited: u32,
    acc: PaneSeq,
)
    requires
        !visited.contains(path),
        spec_get_bundle(cfg, path) == Some(b),
        b.cmds.len() >= 1,
        forall|k: int| 0 <= k < b.cmds.len() ==> (#[trigger] spec_parse_ref(b.cmds[k])) is Command,
    ensures
        pane_resolve(cfg, path, visited, inherited, acc) == Ok::<PaneSeq, RErr>(
            merge_pane(
                acc,
                match b.pane {
                    Some(p) => p,
                    None => inherited,
                },
                b.cmds,
            ),
        ),
{
    let target = match b.pane {
        Some(p) => p,
        None => inherited,
    };
    lemma_pane_cmds_literal(cfg, b.cmds, visited.insert(path), target, acc);
}

/// No pane index appears twice in the output.
pub open spec fn unique_panes(acc: PaneSeq) -> bool {
    forall|i: int, j: int| 0 <= i < j < acc.len() ==> acc[i].0 != acc[j].0
}

/// Merging preserves pane uniqueness: a pane that already has a slot is
/// extended in place, a new pane gets one fresh slot at the end.
pub proof fn lemma_merge_pane_unique(acc: PaneSeq, pane: u32, cmds: Seq<Seq<char>>)
    requires
        unique_panes(acc),
    ensures
        unique_panes(merge_pane(acc, pane, cmds)),
{
    lemma_find_pane_props(acc, pane);
    let fp = find_pane(acc, pane);
    let r = merge_pane(acc, pane, cmds);
    if fp == acc.len() {
        assert forall|i: int, j: int| 0 <= i < j < r.len() implies r[i].0 != r[j].0 by {
            if j == r.len() - 1 {
                assert(r[i].0 == acc[i].0);
                if acc[i].0 == pane {
                    assert(fp <= i) by {
                        lemma_find_pane_first(acc, pane, i);
                    }
                }
            }
        }
    } else {
        assert forall|i: int, j: int| 0 <= i < j < r.len() implies r[i].0 != r[j].0 by {
            assert(r[i].0 == acc[i].0);
            assert(r[j].0 == acc[j].0);
        }
    }
}

/// `find_pane` points at the first occurrence: any slot holding the pane is
/// at or after it.
pub proof fn lemma_find_pane_first(acc: PaneSeq, pane: u32, i: int)
    requires
        0 <= i < acc.len(),
        acc[i].0 == pane,
    ensures
        find_pane(acc, pane) <= i,
    decreases acc.len(),
{
    if acc.len() > 0 && acc[0].0 != pane {
        assert(acc.drop_first()[i - 1].0 == pane);
        lemma_find_pane_first(acc.drop_first(), pane, i - 1);
    }
}

/// Pane-grouped resolution keeps pane indices unique: however many bundles
/// feed one pane, the output holds a single merged slot for it, placed
/// where the pane first appeared.
pub proof fn lemma_pane_resolve_unique(
    cfg: ConfigV,
    path: Seq<char>,
    visited: Set<Seq<char>>,
    inherited: u32,
    acc: PaneSeq,
)
    requires
        unique_panes(acc),
    ensures
        pane_resolve(cfg, path, visited, inherited, acc) matches Ok(out) ==> unique_panes(out),
    decreases path_set(cfg.bundles).difference(visited).len(), 0int, 0int,
{
    if !visited.contains(path) && spec_get_bundle(cfg, path) is Some {
        let b = spec_get_bundle(cfg, path)->Some_0;
        let target = match b.pane {
            Some(p) => p,
            None => inherited,
        };
        lemma_path_set_finite(cfg.bundles);
        lemma_get_bundle_in_path_set(cfg, path);
        lemma_visit_decreases(path_set(cfg.bundles), visited, path);
        lemma_pane_cmds_unique(cfg, b.cmds, visited.insert(path), target, acc);
        let r = pane_resolve_cmds(cfg, b.cmds, visited.insert(path), target, acc);
        if r is Ok {
            let (acc2, direct) = r->Ok_0;
            if direct.len() > 0 {
                lemma_merge_pane_unique(acc2, target, direct);
            }
        }
    }
}

proof fn lemma_pane_cmds_unique(
    cfg: ConfigV,
    cmds: Seq<Seq<char>>,
    visited: Set<Seq<char>>,
    target: u32,
    acc: PaneSeq,
)
    requires
        unique_panes(acc),
    ensures
        pane_resolve_cmds(cfg, cmds, visited, target, acc) matches Ok(out) ==> unique_panes(
            out.0,
        ),
    decreases path_set(cfg.bundles).difference(visited).len(), 2int, cmds.len(),
{
    if cmds.len() > 0 {
        match spec_parse_ref(cmds[0]) {
            RefV::Command(_) => {
                lemma_pane_cmds_unique(cfg, cmds.drop_first(), visited, target, acc);
            },
            RefV::BundleRef(g, n) => {
                lemma_pane_resolve_unique(cfg, spec_join_path(g, n), visited, target, acc);
                let r = pane_resolve(cfg, spec_join_path(g, n), visited, target, acc);
                if r is Ok {
                    lemma_pane_cmds_unique(cfg, cmds.drop_first(), visited, target, r->Ok_0);
                }
            },
            RefV::GroupAll(g) => {
                if find_key(cfg.bundles, g) is Some {
                    let entries = find_key(cfg.bundles, g)->Some_0;
                    lemma_pane_group_unique(cfg, g, group_names(entries), visited, target, acc);
                    let r = pane_resolve_group(cfg, g, group_names(entries), visited, target, acc);
                    if r is Ok {
                        lemma_pane_cmds_unique(cfg, cmds.drop_first(), visited, target, r->Ok_0);
                    }
                }
            },
        }
    }
}

proof fn lemma_pane_group_unique(
    cfg: ConfigV,
    g: Seq<char>,
    names: Seq<Seq<char>>,
    visited: Set<Seq<char>>,
    target: u32,
    acc: PaneSeq,
)
    requires
        unique_panes(acc),
    ensures
        pane_resolve_group(cfg, g, names, visited, target, acc) matches Ok(out) ==> unique_panes(
            out,
        ),
    decreases path_set(cfg.bundles).difference(visited).len(), 1int, names.len(),
{
    if names.len() > 0 {
        lemma_pane_resolve_unique(cfg, spec_join_path(g, names[0]), visited, target, acc);
        let r = pane_resolve(cfg, spec_join_path(g, names[0]), visited, target, acc);
        if r is Ok {
            lemma_pane_group_unique(cfg, g, names.drop_first(), visited, target, r->Ok_0);
        }
    }
}

/// Sorted insertion finds the key it just placed.
proof fn lemma_scan_key_insert_same<V>(s: Seq<(Seq<char>, V)>, k: Seq<char>, v: V)
    ensures
        scan_key(insert_kv(s, k, v), k) == Some(v),
    decreases s.len(),
{
    crate::text::lemma_lex_irrefl(k);
    if s.len() > 0 && !lex_lt(k, s[0].0) && k != s[0].0 {
        crate::text::lemma_lex_connected(k, s[0].0);
        lemma_scan_key_insert_same(s.drop_first(), k, v);
        assert(insert_kv(s, k, v).drop_first() =~= insert_kv(s.drop_first(), k, v));
    }
}

/// Inserting twice under one key keeps only the second value.
proof fn lemma_insert_kv_overwrite<V>(s: Seq<(Seq<char>, V)>, k: Seq<char>, v1: V, v2: V)
    ensures
        insert_kv(insert_kv(s, k, v1), k, v2) == insert_kv(s, k, v2),
    decreases s.len(),
{
    crate::text::lemma_lex_irrefl(k);
    if s.len() == 0 {
        assert(insert_kv(insert_kv(s, k, v1), k, v2) =~= insert_kv(s, k, v2));
    } else if lex_lt(k, s[0].0) || k == s[0].0 {
        assert(insert_kv(insert_kv(s, k, v1), k, v2) =~= insert_kv(s, k, v2));
    } else {
        crate::text::lemma_lex_connected(k, s[0].0);
        lemma_insert_kv_overwrite(s.drop_first(), k, v1, v2);
        assert(insert_kv(s, k, v1).drop_first() =~= insert_kv(s.drop_first(), k, v1));
        assert(insert_kv(insert_kv(s, k, v1), k, v2) =~= seq![s[0]] + insert_kv(
            insert_kv(s.drop_first(), k, v1),
            k,
            v2,
        ));
        assert(insert_kv(s, k, v2) =~= seq![s[0]] + insert_kv(s.drop_first(), k, v2));
    }
}

/// Sorted insertion of two pairs with distinct keys commutes.
proof fn lemma_insert_kv_commutes<V>(
    s: Seq<(Seq<char>, V)>,
    k1: Seq<char>,
    v1: V,
    k2: Seq<char>,
    v2: V,
)
    requires
        k1 != k2,
    ensures
        insert_kv(insert_kv(s, k1, v1), k2, v2) == insert_kv(insert_kv(s, k2, v2), k1, v1),
    decreases s.len(),
{
    crate::text::lemma_lex_connected(k1, k2);
    crate::text::lemma_lex_irrefl(k1);
    crate::text::lemma_lex_irrefl(k2);
    if lex_lt(k1, k2) {
        crate::text::lemma_lex_asym(k1, k2);
    } else {
        crate::text::lemma_lex_asym(k2, k1);
    }
    let a1 = insert_kv(s, k1, v1);
    let a2 = insert_kv(s, k2, v2);
    if s.len() == 0 {
        assert(a1 =~= seq![(k1, v1)]);
        assert(a2 =~= seq![(k2, v2)]);
        if lex_lt(k2, k1) {
            assert(insert_kv(a1, k2, v2) =~= seq![(k2, v2)] + a1);
            assert(a2.drop_first() =~= Seq::<(Seq<char>, V)>::empty());
            assert(insert_kv(a2.drop_first(), k1, v1) =~= seq![(k1, v1)]);
            assert(insert_kv(a2, k1, v1) =~= seq![a2[0]] + insert_kv(a2.drop_first(), k1, v1));
            assert(insert_kv(a1, k2, v2) =~= insert_kv(a2, k1, v1));
        } else {
            assert(insert_kv(a2, k1, v1) =~= seq![(k1, v1)] + a2);
            assert(a1.drop_first() =~= Seq::<(Seq<char>, V)>::empty());
            assert(insert_kv(a1.drop_first(), k2, v2) =~= seq![(k2, v2)]);
            assert(insert_kv(a1, k2, v2) =~= seq![a1[0]] + insert_kv(a1.drop_first(), k2, v2));
            assert(insert_kv(a1, k2, v2) =~= insert_kv(a2, k1, v1));
        }
    } else {
        let h = s[0].0;
        let t = s.drop_first();
        crate::text::lemma_lex_connected(k1, h);
        crate::text::lemma_lex_connected(k2, h);
        if lex_lt(h, k1) && lex_lt(h, k2) {
            crate::text::lemma_lex_asym(h, k1);
            crate::text::lemma_lex_asym(h, k2);
            lemma_insert_kv_commutes(t, k1, v1, k2, v2);
            assert(a1 =~= seq![s[0]] + insert_kv(t, k1, v1));
            assert(a2 =~= seq![s[0]] + insert_kv(t, k2, v2));
            assert(a1.drop_first() =~= insert_kv(t, k1, v1));
            assert(a2.drop_first() =~= insert_kv(t, k2, v2));
            assert(insert_kv(a1, k2, v2) =~= seq![s[0]] + insert_kv(insert_kv(t, k1, v1), k2, v2));
            assert(insert_kv(a2, k1, v1) =~= seq![s[0]] + insert_kv(insert_kv(t, k2, v2), k1, v1));
            assert(insert_kv(a1, k2, v2) =~= insert_kv(a2, k1, v1));
        } else if !lex_lt(h, k1) && lex_lt(h, k2) {
            // k1 lands at the head, k2 after it; so k1 is below k2
            crate::text::lemma_lex_asym(h, k2);
            if lex_lt(k2, k1) {
                crate::text::lemma_lex_trans(h, k2, k1);
            }
            assert(lex_lt(k1, k2));
            assert(a2 =~= seq![s[0]] + insert_kv(t, k2, v2));
            assert(a2.drop_first() =~= insert_kv(t, k2, v2));
            if lex_lt(k1, h) {
                assert(a1 =~= seq![(k1, v1)] + s);
                assert(a1.drop_first() =~= s);
                assert(insert_kv(a1, k2, v2) =~= seq![(k1, v1)] + insert_kv(s, k2, v2));
                assert(insert_kv(a2, k1, v1) =~= seq![(k1, v1)] + a2);
            } else {
                assert(k1 == h);
                assert(a1 =~= seq![(k1, v1)] + t);
                assert(a1.drop_first() =~= t);
                assert(insert_kv(a1, k2, v2) =~= seq![(k1, v1)] + insert_kv(t, k2, v2));
                assert(insert_kv(a2, k1, v1) =~= seq![(k1, v1)] + a2.drop_first());
            }
            assert(insert_kv(a1, k2, v2) =~= insert_kv(a2, k1, v1));
        } else if lex_lt(h, k1) && !lex_lt(h, k2) {
            // mirror image: k2 lands at the head, k1 after it
            crate::text::lemma_lex_asym(h, k1);
            if lex_lt(k1, k2) {
                crate::text::lemma_lex_trans(h, k1, k2);
            }
            assert(lex_lt(k2, k1));
            assert(a1 =~= seq![s[0]] + insert_kv(t, k1, v1));
            assert(a1.drop_first() =~= insert_kv(t, k1, v1));
            if lex_lt(k2, h) {
                assert(a2 =~= seq![(k2, v2)] + s);
                assert(a2.drop_first() =~= s);
                assert(insert_kv(a2, k1, v1) =~= seq![(k2, v2)] + insert_kv(s, k1, v1));
                assert(insert_kv(a1, k2, v2) =~= seq![(k2, v2)] + a1);
            } else {
                assert(k2 == h);
                assert(a2 =~= seq![(k2, v2)] + t);
                assert(a2.drop_first() =~= t);
                assert(insert_kv(a2, k1, v1) =~= seq![(k2, v2)] + insert_kv(t, k1, v1));
                assert(insert_kv(a1, k2, v2) =~= seq![(k2, v2)] + a1.drop_first());
            }
            assert(insert_kv(a1, k2, v2) =~= insert_kv(a2, k1, v1));
        } else {
            // both keys land at the head; at most one can equal it
            if lex_lt(k1, k2) {
                if lex_lt(k1, h) {
                    assert(a1 =~= seq![(k1, v1)] + s);
                    assert(a1.drop_first() =~= s);
                } else {
                    assert(k1 == h);
                    assert(a1 =~= seq![(k1, v1)] + t);
                    assert(a1.drop_first() =~= t);
                }
                assert(lex_lt(k2, h) || k2 == h);
                assert(insert_kv(a1, k2, v2) =~= seq![(k1, v1)] + insert_kv(a1.drop_first(), k2, v2));
                if lex_lt(k2, h) {
                    assert(a2 =~= seq![(k2, v2)] + s);
                } else {
                    assert(a2 =~= seq![(k2, v2)] + t);
                }
                assert(insert_kv(a2, k1, v1) =~= seq![(k1, v1)] + a2);
                if k1 == h {
                    // then k2 is strictly below h, hence below k1: contradiction
                    assert(lex_lt(k2, h) || k2 == h);
                    crate::text::lemma_lex_asym(k1, k2);
                    assert(false);
                }
                assert(lex_lt(k1, h));
                assert(a1.drop_first() =~= s);
                assert(insert_kv(a1, k2, v2) =~= seq![(k1, v1)] + a2);
                assert(insert_kv(a1, k2, v2) =~= insert_kv(a2, k1, v1));
            } else {
                assert(lex_lt(k2, k1));
                if lex_lt(k2, h) {
                    assert(a2 =~= seq![(k2, v2)] + s);
                    assert(a2.drop_first() =~= s);
                } else {
                    assert(k2 == h);
                    assert(a2 =~= seq![(k2, v2)] + t);
                    assert(a2.drop_first() =~= t);
                }
                assert(insert_kv(a2, k1, v1) =~= seq![(k2, v2)] + insert_kv(a2.drop_first(), k1, v1));
                if lex_lt(k1, h) {
                    assert(a1 =~= seq![(k1, v1)] + s);
                } else {
                    assert(a1 =~= seq![(k1, v1)] + t);
                }
                assert(insert_kv(a1, k2, v2) =~= seq![(k2, v2)] + a1);
                if k2 == h {
                    crate::text::lemma_lex_asym(k2, k1);
                    assert(lex_lt(k1, h) || k1 == h);
                    assert(false);
                }
                assert(lex_lt(k2, h));
                assert(a2.drop_first() =~= s);
                assert(insert_kv(a2, k1, v1) =~= seq![(k2, v2)] + a1);
                assert(insert_kv(a1, k2, v2) =~= insert_kv(a2, k1, v1));
            }
        }
    }
}

/// Insertion order does not matter: adding two differently named entries
/// to a group yields the same configuration either way, so wildcard
/// expansion (which follows the group's stored order) cannot see the order
/// in which the configuration was built.
pub proof fn lemma_add_bundle_commutes(
    bundles: Seq<(Seq<char>, GroupV)>,
    g: Seq<char>,
    n1: Seq<char>,
    e1: BundleEntryV,
    n2: Seq<char>,
    e2: BundleEntryV,
)
    requires
        n1 != n2,
    ensures
        spec_add_bundle(spec_add_bundle(bundles, g, n1, e1), g, n2, e2) == spec_add_bundle(
            spec_add_bundle(bundles, g, n2, e2),
            g,
            n1,
            e1,
        ),
{
    let base = match scan_key(bundles, g) {
        None => Seq::<(Seq<char>, BundleEntryV)>::empty(),
        Some(entries) => entries,
    };
    let x1 = insert_kv(base, n1, e1);
    let x2 = insert_kv(base, n2, e2);
    lemma_scan_key_insert_same(bundles, g, x1);
    lemma_scan_key_insert_same(bundles, g, x2);
    lemma_insert_kv_overwrite(bundles, g, x1, insert_kv(x1, n2, e2));
    lemma_insert_kv_overwrite(bundles, g, x2, insert_kv(x2, n1, e1));
    lemma_insert_kv_commutes(base, n1, e1, n2, e2);
}

/// Looking up a nonexistent bundle path fails with the path's not-found
/// error, in flat mode and in pane-grouped mode alike.
pub proof fn lemma_resolve_missing(cfg: ConfigV, path: Seq<char>, inherited: u32, acc: PaneSeq)
    requires
        spec_get_bundle(cfg, path) is None,
    ensures
        flat_resolve(cfg, path, Set::empty()) == Err::<Seq<Seq<char>>, RErr>(
            RErr::NotFound(path),
        ),
        pane_resolve(cfg, path, Set::empty(), inherited, acc) == Err::<PaneSeq, RErr>(
            RErr::NotFound(path),
        ),
{
}

} // verus!
