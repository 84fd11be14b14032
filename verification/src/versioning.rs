//! Compatibility of the on-disk import format across released versions.
//!
//! The release history is a list of directed links `from -> to`, each marked
//! compatible or incompatible.  An import made under version `a` can be read
//! under version `b` exactly when `a == b` or the history contains a chain of
//! all-compatible links from `a` to `b`.

use crate::models::CompatibilityStatus;
use vstd::prelude::*;
use vstd::seq_lib::lemma_seq_contains_after_push;

use crate::strutil::str_eq;

verus! {

/// One link in the version history chain.
#[derive(Debug, Clone)]
pub struct VersionLink {
    pub from: String,
    pub to: String,
    pub compatibility: CompatibilityStatus,
}

/// The view of one link: source name, target name, and whether it is a
/// compatible upgrade.
pub open spec fn link_view(l: VersionLink) -> (Seq<char>, Seq<char>, bool) {
    (l.from@, l.to@, l.compatibility == CompatibilityStatus::Compatible)
}

/// The views of a whole history.
pub open spec fn link_views(ls: Seq<VersionLink>) -> Seq<(Seq<char>, Seq<char>, bool)> {
    ls.map_values(|l: VersionLink| link_view(l))
}

/// The fixed version history of the import format.
pub open spec fn spec_version_history() -> Seq<(Seq<char>, Seq<char>, bool)> {
    seq![
        ("0.1.0"@, "0.2.0"@, true),
        ("0.2.0"@, "0.3.0"@, false),
        ("0.3.0"@, "0.3.1"@, true),
    ]
}

/// The current version of the import format.
pub open spec fn spec_current_version() -> Seq<char> {
    "0.3.0"@
}

/// Version history chain for the import format: `from -> to` with a
/// compatibility status on each step.
pub fn version_history() -> (r: Vec<VersionLink>)
    ensures
        link_views(r@) == spec_version_history(),
{
    let mut v: Vec<VersionLink> = Vec::new();
    v.push(VersionLink {
        from: String::from_str("0.1.0"),
        to: String::from_str("0.2.0"),
        compatibility: CompatibilityStatus::Compatible,
    });
    v.push(VersionLink {
        from: String::from_str("0.2.0"),
        to: String::from_str("0.3.0"),
        compatibility: CompatibilityStatus::Incompatible,
    });
    v.push(VersionLink {
        from: String::from_str("0.3.0"),
        to: String::from_str("0.3.1"),
        compatibility: CompatibilityStatus::Compatible,
    });
    proof {
        assert(link_views(v@) =~= spec_version_history());
    }
    v
}

/// Current version of the import format.
pub fn current_version() -> (r: String)
    ensures
        r@ == spec_current_version(),
{
    String::from_str("0.3.0")
}

/// Some history link leads from `a` to `b`; with `only_compat`, a compatible
/// one.
pub open spec fn link_step(
    links: Seq<(Seq<char>, Seq<char>, bool)>,
    a: Seq<char>,
    b: Seq<char>,
    only_compat: bool,
) -> bool {
    exists|j: int|
        0 <= j < links.len() && (#[trigger] links[j]).0 == a && links[j].1 == b && (only_compat
            ==> links[j].2)
}

/// `path` is a chain of version names leading from `from` to `to`, where each
/// step is a history link; with `only_compat`, each step must moreover be a
/// compatible link.
pub open spec fn is_link_path(
    links: Seq<(Seq<char>, Seq<char>, bool)>,
    path: Seq<Seq<char>>,
    from: Seq<char>,
    to: Seq<char>,
    only_compat: bool,
) -> bool {
    &&& path.len() >= 1
    &&& path[0] == from
    &&& path[path.len() - 1] == to
    &&& forall|i: int| #![trigger path[i]]
        0 <= i < path.len() - 1 ==> link_step(links, path[i], path[i + 1], only_compat)
}

/// `to` can be reached from `from` along history links; with `only_compat`,
/// along compatible links only.
pub open spec fn reaches(
    links: Seq<(Seq<char>, Seq<char>, bool)>,
    from: Seq<char>,
    to: Seq<char>,
    only_compat: bool,
) -> bool {
    exists|path: Seq<Seq<char>>| is_link_path(links, path, from, to, only_compat)
}

proof fn lemma_reaches_self(
    links: Seq<(Seq<char>, Seq<char>, bool)>,
    v: Seq<char>,
    only_compat: bool,
)
    ensures
        reaches(links, v, v, only_compat),
{
    let path = seq![v];
    assert(is_link_path(links, path, v, v, only_compat));
}

proof fn lemma_reaches_step(
    links: Seq<(Seq<char>, Seq<char>, bool)>,
    from: Seq<char>,
    mid: Seq<char>,
    to: Seq<char>,
    only_compat: bool,
    j: int,
)
    requires
        reaches(links, from, mid, only_compat),
        0 <= j < links.len(),
        links[j].0 == mid,
        links[j].1 == to,
        only_compat ==> links[j].2,
    ensures
        reaches(links, from, to, only_compat),
{
    let path = choose|path: Seq<Seq<char>>| is_link_path(links, path, from, mid, only_compat);
    let path2 = path.push(to);
    assert forall|i: int| #![trigger path2[i]] 0 <= i < path2.len() - 1 implies link_step(
        links,
        path2[i],
        path2[i + 1],
        only_compat,
    ) by {
        if i < path.len() - 1 {
            assert(path2[i] == path[i] && path2[i + 1] == path[i + 1]);
            assert(link_step(links, path[i], path[i + 1], only_compat));
        } else {
            assert(path2[i] == mid && path2[i + 1] == to);
            assert(0 <= j < links.len() && (links[j]).0 == mid && links[j].1 == to && (only_compat
                ==> links[j].2));
        }
    }
    assert(is_link_path(links, path2, from, to, only_compat));
}

/// Every version on a link path out of a closed set stays inside the set.
proof fn lemma_closed_reaches(
    links: Seq<(Seq<char>, Seq<char>, bool)>,
    seen: Set<Seq<char>>,
    path: Seq<Seq<char>>,
    from: Seq<char>,
    to: Seq<char>,
    only_compat: bool,
)
    requires
        is_link_path(links, path, from, to, only_compat),
        seen.contains(from),
        forall|j: int|
            0 <= j < links.len() && seen.contains((#[trigger] links[j]).0) && (only_compat
                ==> links[j].2) ==> seen.contains(links[j].1),
    ensures
        seen.contains(to),
    decreases path.len(),
{
    if path.len() == 1 {
        assert(to == from);
    } else {
        assert(link_step(links, path[0], path[1], only_compat));
        let j = choose|j: int|
            0 <= j < links.len() && (#[trigger] links[j]).0 == path[0] && links[j].1 == path[1]
                && (only_compat ==> links[j].2);
        assert(seen.contains(path[1]));
        let rest = path.drop_first();
        assert forall|i: int| #![trigger rest[i]] 0 <= i < rest.len() - 1 implies link_step(
            links,
            rest[i],
            rest[i + 1],
            only_compat,
        ) by {
            assert(rest[i] == path[i + 1] && rest[i + 1] == path[i + 2]);
            assert(link_step(links, path[i + 1], path[i + 2], only_compat));
        }
        assert(is_link_path(links, rest, path[1], to, only_compat));
        lemma_closed_reaches(links, seen, rest, path[1], to, only_compat);
    }
}

/// The views of the names in `seen`.
pub open spec fn name_views(seen: Seq<String>) -> Seq<Seq<char>> {
    seen.map_values(|s: String| s@)
}

/// Does some string in `v` have the view `s`?
fn contains_name(v: &Vec<String>, s: &str) -> (r: bool)
    ensures
        r == name_views(v@).contains(s@),
{
    let mut i: usize = 0;
    while i < v.len()
        invariant
            i <= v.len(),
            forall|k: int| 0 <= k < i ==> name_views(v@)[k] != s@,
        decreases v.len() - i,
    {
        if str_eq(v[i].as_str(), s) {
            assert(name_views(v@)[i as int] == s@);
            return true;
        }
        i = i + 1;
    }
    false
}

/// A no-duplicates list of names, each of which is either `from` or some
/// link's target, has at most one more entry than the history has links.
proof fn lemma_seen_bound(
    links: Seq<(Seq<char>, Seq<char>, bool)>,
    seen: Seq<Seq<char>>,
    from: Seq<char>,
)
    requires
        seen.no_duplicates(),
        forall|i: int|
            0 <= i < seen.len() ==> #[trigger] seen[i] == from || exists|j: int|
                0 <= j < links.len() && (#[trigger] links[j]).1 == seen[i],
    ensures
        seen.len() <= links.len() + 1,
{
    broadcast use vstd::set::group_set_axioms;

    let targets = links.map_values(|l: (Seq<char>, Seq<char>, bool)| l.1);
    let bound_set = targets.to_set().insert(from);
    assert forall|i: int| 0 <= i < seen.len() implies bound_set.contains(#[trigger] seen[i]) by {
        if seen[i] != from {
            let j = choose|j: int| 0 <= j < links.len() && (#[trigger] links[j]).1 == seen[i];
            assert(targets[j] == seen[i]);
            assert(targets.to_set().contains(seen[i]));
        }
    }
    seen.unique_seq_to_set();
    assert(seen.to_set().subset_of(bound_set));
    targets.lemma_cardinality_of_set();
    vstd::seq_lib::seq_to_set_is_finite(targets);
    assert(bound_set.len() <= targets.to_set().len() + 1);
    vstd::set_lib::lemma_len_subset(seen.to_set(), bound_set);
}

/// Can `to` be reached from `from` along the given links?  With `only_compat`,
/// only compatible links may be used.  Computed as a reachability fixpoint
/// over the (small) history list.
fn reachable(links: &Vec<VersionLink>, from: &str, to: &str, only_compat: bool) -> (r: bool)
    ensures
        r == reaches(link_views(links@), from@, to@, only_compat),
{
    let ghost lv = link_views(links@);
    let mut seen: Vec<String> = Vec::new();
    seen.push(from.to_owned());
    proof {
        lemma_reaches_self(lv, from@, only_compat);
        assert(name_views(seen@) =~= seq![from@]);
        assert(name_views(seen@)[0] == from@);
    }
    loop
        invariant
            seen@.len() >= 1,
            name_views(seen@).contains(from@),
            name_views(seen@).no_duplicates(),
            lv == link_views(links@),
            forall|i: int|
                0 <= i < seen@.len() ==> reaches(lv, from@, #[trigger] name_views(seen@)[i],
                only_compat),
            forall|i: int|
                0 <= i < seen@.len() ==> #[trigger] name_views(seen@)[i] == from@ || exists|j: int|
                    0 <= j < lv.len() && (#[trigger] lv[j]).1 == name_views(seen@)[i],
        decreases links@.len() + 1 - seen@.len(),
    {
        proof {
            lemma_seen_bound(lv, name_views(seen@), from@);
        }
        let ghost seen_before = seen@;
        let mut changed = false;
        let mut j: usize = 0;
        while j < links.len()
            invariant
                j <= links.len(),
                seen@.len() >= 1,
                name_views(seen@).contains(from@),
                name_views(seen@).no_duplicates(),
                lv == link_views(links@),
                forall|i: int|
                    0 <= i < seen@.len() ==> reaches(lv, from@, #[trigger] name_views(seen@)[i],
                    only_compat),
                forall|i: int|
                    0 <= i < seen@.len() ==> #[trigger] name_views(seen@)[i] == from@ || exists|
                        k: int,
                    |
                        0 <= k < lv.len() && (#[trigger] lv[k]).1 == name_views(seen@)[i],
                !changed ==> seen@ == seen_before,
                changed ==> seen@.len() > seen_before.len(),
                !changed ==> forall|k: int|
                    0 <= k < j && name_views(seen@).contains((#[trigger] lv[k]).0) && (only_compat
                        ==> lv[k].2) ==> name_views(seen@).contains(lv[k].1),
            decreases links.len() - j,
        {
            let link = &links[j];
            let usable = !only_compat || matches!(link.compatibility, CompatibilityStatus::Compatible);
            if usable {
                if contains_name(&seen, link.from.as_str()) {
                    if !contains_name(&seen, link.to.as_str()) {
                        proof {
                            assert(lv[j as int] == link_view(links@[j as int]));
                            let i = choose|i: int|
                                0 <= i < name_views(seen@).len() && name_views(seen@)[i]
                                    == link.from@;
                            lemma_reaches_step(lv, from@, link.from@, link.to@, only_compat,
                                j as int);
                        }
                        let ghost old_names = name_views(seen@);
                        seen.push(link.to.clone());
                        proof {
                            assert(name_views(seen@) =~= old_names.push(link.to@));
                            lemma_seq_contains_after_push(old_names, link.to@, from@);
                        }
                        changed = true;
                    }
                }
            }
            proof {
                if !changed {
                    assert(lv[j as int] == link_view(links@[j as int]));
                }
            }
            j = j + 1;
        }
        proof {
            lemma_seen_bound(lv, name_views(seen@), from@);
        }
        if !changed {
            proof {
                let seen_set = name_views(seen@).to_set();
                if reaches(lv, from@, to@, only_compat) {
                    let path = choose|path: Seq<Seq<char>>|
                        is_link_path(lv, path, from@, to@, only_compat);
                    assert forall|k: int|
                        0 <= k < lv.len() && seen_set.contains((#[trigger] lv[k]).0) && (only_compat
                            ==> lv[k].2) implies seen_set.contains(lv[k].1) by {
                        assert(name_views(seen@).contains(lv[k].0));
                        assert(name_views(seen@).contains(lv[k].1));
                    }
                    lemma_closed_reaches(lv, seen_set, path, from@, to@, only_compat);
                    assert(name_views(seen@).contains(to@));
                }
            }
            return contains_name(&seen, to);
        }
    }
}

/// Check if two versions are compatible by traversing the version chain.
/// Returns `(is_compatible, needs_update)`: equal versions are compatible and
/// current; otherwise the import is compatible exactly when an all-compatible
/// chain leads from it to the current version, and it always needs an update.
pub fn check_compatibility(import_version: &str, current_version: &str) -> (r: (bool, bool))
    ensures
        r.0 == (import_version@ == current_version@ || reaches(
            spec_version_history(),
            import_version@,
            current_version@,
            true,
        )),
        r.1 == (import_version@ != current_version@),
{
    if str_eq(import_version, current_version) {
        return (true, false);
    }
    let (found_path, has_incompatible) = find_version_path(import_version, current_version);
    if !found_path {
        proof {
            lemma_compat_implies_path(spec_version_history(), import_version@, current_version@);
        }
        return (false, true);
    }
    if has_incompatible {
        proof {
            lemma_compat_implies_path(spec_version_history(), import_version@, current_version@);
        }
        return (false, true);
    }
    (true, true)
}

/// A chain of compatible links is in particular a chain of links.
proof fn lemma_compat_implies_path(
    links: Seq<(Seq<char>, Seq<char>, bool)>,
    from: Seq<char>,
    to: Seq<char>,
)
    ensures
        reaches(links, from, to, true) ==> reaches(links, from, to, false),
{
    if reaches(links, from, to, true) {
        let path = choose|path: Seq<Seq<char>>| is_link_path(links, path, from, to, true);
        assert forall|i: int| #![trigger path[i]] 0 <= i < path.len() - 1 implies link_step(
            links,
            path[i],
            path[i + 1],
            false,
        ) by {
            assert(link_step(links, path[i], path[i + 1], true));
            let j = choose|j: int|
                0 <= j < links.len() && (#[trigger] links[j]).0 == path[i] && links[j].1 == path[i
                    + 1] && links[j].2;
            assert(0 <= j < links.len() && links[j].0 == path[i] && links[j].1 == path[i + 1] && (
            false ==> links[j].2));
        }
        assert(is_link_path(links, path, from, to, false));
    }
}

/// Find a path from `start` to `end` in the version history.
/// Returns `(path_exists, has_incompatible_link)`: whether any chain of links
/// leads from `start` to `end`, and, if so, whether every such traversal must
/// use an incompatible link.
pub fn find_version_path(start: &str, end: &str) -> (r: (bool, bool))
    ensures
        r.0 == reaches(spec_version_history(), start@, end@, false),
        r.1 == (r.0 && !reaches(spec_version_history(), start@, end@, true)),
{
    let history = version_history();
    let found = reachable(&history, start, end, false);
    let compat = reachable(&history, start, end, true);
    (found, found && !compat)
}

/// All version names that occur in the history.
pub open spec fn history_names(links: Seq<(Seq<char>, Seq<char>, bool)>) -> Set<Seq<char>> {
    Set::new(
        |v: Seq<char>|
            exists|j: int| 0 <= j < links.len() && ((#[trigger] links[j]).0 == v || links[j].1 == v),
    )
}

/// Get all versions that appear in the history and are not the current one:
/// imports carrying one of these need updating.
pub fn get_outdated_versions() -> (r: Vec<String>)
    ensures
        name_views(r@).no_duplicates(),
        forall|i: int|
            0 <= i < r@.len() ==> history_names(spec_version_history()).contains(
                #[trigger] name_views(r@)[i],
            ) && name_views(r@)[i] != spec_current_version(),
        forall|v: Seq<char>|
            history_names(spec_version_history()).contains(v) && v != spec_current_version()
                ==> name_views(r@).contains(v),
{
    let history = version_history();
    let current = current_version();
    let ghost lv = link_views(history@);
    let mut out: Vec<String> = Vec::new();
    let mut j: usize = 0;
    while j < history.len()
        invariant
            j <= history.len(),
            lv == link_views(history@),
            lv == spec_version_history(),
            current@ == spec_current_version(),
            name_views(out@).no_duplicates(),
            forall|i: int|
                0 <= i < out@.len() ==> history_names(lv).contains(#[trigger] name_views(out@)[i])
                    && name_views(out@)[i] != spec_current_version(),
            forall|k: int|
                0 <= k < j ==> ((#[trigger] lv[k]).0 == spec_current_version() || name_views(
                    out@,
                ).contains(lv[k].0)) && (lv[k].1 == spec_current_version() || name_views(
                    out@,
                ).contains(lv[k].1)),
        decreases history.len() - j,
    {
        proof {
            assert(lv[j as int] == link_view(history@[j as int]));
        }
        let ghost start_names = name_views(out@);
        let link = &history[j];
        if !str_eq(link.from.as_str(), current.as_str()) && !contains_name(&out, link.from.as_str()) {
            let ghost old_names = name_views(out@);
            out.push(link.from.clone());
            proof {
                assert(name_views(out@) =~= old_names.push(link.from@));
                assert(name_views(out@)[old_names.len() as int] == link.from@);
                assert(history_names(lv).contains(link.from@));
            }
        }
        let ghost mid_names = name_views(out@);
        proof {
            assert(mid_names.contains(lv[j as int].0) || lv[j as int].0 == spec_current_version());
            assert(mid_names.len() >= start_names.len());
            assert(forall|i: int| 0 <= i < start_names.len() ==> mid_names[i] == start_names[i]);
        }
        if !str_eq(link.to.as_str(), current.as_str()) && !contains_name(&out, link.to.as_str()) {
            let ghost old_names = name_views(out@);
            out.push(link.to.clone());
            proof {
                assert(name_views(out@) =~= old_names.push(link.to@));
                assert(name_views(out@)[old_names.len() as int] == link.to@);
                assert(history_names(lv).contains(link.to@));
            }
        }
        proof {
            let end_names = name_views(out@);
            assert(end_names.len() >= mid_names.len());
            assert(forall|i: int| 0 <= i < mid_names.len() ==> end_names[i] == mid_names[i]);
            assert forall|v: Seq<char>| mid_names.contains(v) implies end_names.contains(v) by {
                let i = choose|i: int| 0 <= i < mid_names.len() && mid_names[i] == v;
                assert(end_names[i] == v);
            }
            assert forall|v: Seq<char>| start_names.contains(v) implies end_names.contains(v) by {
                let i = choose|i: int| 0 <= i < start_names.len() && start_names[i] == v;
                assert(end_names[i] == v);
            }
            assert(end_names.contains(lv[j as int].0) || lv[j as int].0 == spec_current_version());
            assert(end_names.contains(lv[j as int].1) || lv[j as int].1 == spec_current_version());
        }
        j = j + 1;
    }
    proof {
        assert forall|v: Seq<char>|
            history_names(spec_version_history()).contains(v) && v != spec_current_version()
                implies name_views(out@).contains(v) by {
            let j = choose|j: int|
                0 <= j < lv.len() && ((#[trigger] lv[j]).0 == v || lv[j].1 == v);
        }
    }
    out
}

} // verus!
