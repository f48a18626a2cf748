//! Resolution against metadata that is held in memory: the transitive closure
//! of a set of packages over a catalog that says, for each package it knows,
//! what the package lists.

use crate::deptree::{
    copy_listed, has_key, keys, lemma_key_index, lists, opt_texts, targets, texts, unique_keys,
    DepTree, Edges,
};
use crate::resolver::{ResolveError, Resolver};
use crate::walk::{
    begun, complete, inv, is_node, lemma_begun, lemma_supplied, names_on, supplied, visited,
    Failure, Outcome, Walk,
};
use vstd::prelude::*;
use vstd::string::StringExecFns;

verus! {

/// `path` leads through `catalog`: each of its names lists the next, and none
/// of them is a key of `barrier`.
pub open spec fn is_path(catalog: Seq<Edges>, barrier: Seq<Edges>, path: Seq<Seq<char>>) -> bool {
    &&& path.len() > 0
    &&& forall|i: int| 0 <= i < path.len() ==> !has_key(barrier, #[trigger] path[i])
    &&& forall|i: int| 0 <= i < path.len() - 1 ==> lists(catalog, #[trigger] path[i], path[i + 1])
}

/// A path leads from `from` to `to`. Every name that is no key of `barrier`
/// reaches itself, whether or not the catalog knows it.
pub open spec fn reaches(
    catalog: Seq<Edges>,
    barrier: Seq<Edges>,
    from: Seq<char>,
    to: Seq<char>,
) -> bool {
    exists|path: Seq<Seq<char>>|
        #[trigger] is_path(catalog, barrier, path) && path[0] == from && path.last() == to
}

/// `n` is one of `starts` or depends on one of them, directly or through
/// other packages.
pub open spec fn reachable(catalog: Seq<Edges>, starts: Seq<Seq<char>>, n: Seq<char>) -> bool {
    exists|k: int|
        0 <= k < starts.len() && reaches(catalog, Seq::<Edges>::empty(), #[trigger] starts[k], n)
}

/// `after` is `before` with entries added at its end.
pub open spec fn is_extension(before: Seq<Edges>, after: Seq<Edges>) -> bool {
    before.len() <= after.len() && after.take(before.len() as int) == before
}

/// Each entry of `m` from position `from` on is an entry of `catalog`.
pub open spec fn taken_from(catalog: Seq<Edges>, m: Seq<Edges>, from: int) -> bool {
    forall|i: int| from <= i < m.len() ==> catalog.contains(#[trigger] m[i])
}

/// Each name that an entry of `m` from position `from` on lists is a key of
/// `m`.
pub open spec fn lists_keys(m: Seq<Edges>, from: int) -> bool {
    forall|i: int, j: int|
        from <= i < m.len() && 0 <= j < targets(m[i]).len() ==> has_key(
            m,
            #[trigger] targets(m[i])[j],
        )
}

/// The reason that comes with a package of which the catalog knows nothing.
pub open spec fn unknown_reason() -> Seq<char> {
    "package is not in the catalog"@
}

/// What the catalog answers when it is asked for `name`: what its entry lists,
/// or that it has no entry.
pub open spec fn answer(catalog: Seq<Edges>, name: Seq<char>) -> Outcome {
    if has_key(catalog, name) {
        Ok(catalog[keys(catalog).index_of(name)].deps)
    } else {
        Err(unknown_reason())
    }
}

/// The walk after the catalog has answered its requests, `steps` of them at
/// most.
pub open spec fn driven(catalog: Seq<Edges>, w: Walk, steps: nat) -> Walk
    decreases steps,
{
    if steps == 0 || w.awaiting is None {
        w
    } else {
        driven(catalog, supplied(w, answer(catalog, w.awaiting->0)), (steps - 1) as nat)
    }
}

/// The walk of `root` over `forward` at its end. It asks for no package
/// twice, so that one answer more than the catalog has entries ends it.
pub open spec fn walked(catalog: Seq<Edges>, forward: Seq<Edges>, root: Seq<char>) -> Walk {
    driven(catalog, begun(forward, root), (catalog.len() + 1) as nat)
}

/// The mapping after the walks of the first `k` of `starts`, one after the
/// other, each over what the walks before it have resolved; the failure of
/// the first walk that fails.
pub open spec fn resolved_from(catalog: Seq<Edges>, starts: Seq<Seq<char>>, k: int) -> Result<
    Seq<Edges>,
    Failure,
>
    decreases k,
{
    if k <= 0 {
        Ok(Seq::empty())
    } else {
        match resolved_from(catalog, starts, k - 1) {
            Err(failure) => Err(failure),
            Ok(forward) => {
                let w = walked(catalog, forward, starts[k - 1]);
                match w.failure {
                    Some(failure) => Err(failure),
                    None => Ok(w.forward),
                }
            },
        }
    }
}

/// Every package that the walk has added is an entry of the catalog and is
/// reached from the root.
pub open spec fn grounded(catalog: Seq<Edges>, barrier: Seq<Edges>, w: Walk) -> bool {
    forall|e: Edges| #[trigger]
        is_node(w, e) ==> catalog.contains(e) && reaches(catalog, barrier, w.root, e.name)
}

/// The keys of the catalog that the walk has not visited.
pub open spec fn unvisited(catalog: Seq<Edges>, w: Walk) -> Set<Seq<char>> {
    Set::new(|n: Seq<char>| has_key(catalog, n) && !visited(w, n))
}

/// A package that becomes visited leaves fewer keys of the catalog unvisited.
proof fn lemma_unvisited_shrinks(catalog: Seq<Edges>, w: Walk, after: Walk, name: Seq<char>)
    requires
        has_key(catalog, name),
        !visited(w, name),
        visited(after, name),
        forall|n: Seq<char>| visited(w, n) ==> visited(after, n),
    ensures
        unvisited(catalog, after).len() < unvisited(catalog, w).len(),
{
    let all = keys(catalog).to_set();
    let a = unvisited(catalog, w);
    let b = unvisited(catalog, after);
    vstd::seq_lib::seq_to_set_is_finite(keys(catalog));
    assert(a.subset_of(all));
    vstd::set_lib::lemma_len_subset(a, all);
    assert(a.contains(name));
    assert(b.subset_of(a.remove(name)));
    vstd::set_lib::lemma_len_subset(b, a.remove(name));
}

/// An extension keeps the keys and adds its new ones behind them.
proof fn lemma_extension_keys(before: Seq<Edges>, after: Seq<Edges>, n: Seq<char>)
    requires
        is_extension(before, after),
    ensures
        has_key(before, n) ==> has_key(after, n),
        has_key(after, n) && !has_key(before, n) ==> exists|i: int|
            before.len() <= i < after.len() && (#[trigger] after[i]).name == n,
{
    if has_key(before, n) {
        let i = choose|i: int| 0 <= i < keys(before).len() && keys(before)[i] == n;
        assert(after.take(before.len() as int)[i] == before[i]);
        assert(keys(after)[i] == n);
    }
    if has_key(after, n) && !has_key(before, n) {
        let i = choose|i: int| 0 <= i < keys(after).len() && keys(after)[i] == n;
        if i < before.len() {
            assert(after.take(before.len() as int)[i] == before[i]);
            assert(keys(before)[i] == n);
        }
        assert(after[i].name == n);
    }
}

/// A name that is no key of the barrier reaches itself.
pub proof fn lemma_reaches_itself(catalog: Seq<Edges>, barrier: Seq<Edges>, n: Seq<char>)
    requires
        !has_key(barrier, n),
    ensures
        reaches(catalog, barrier, n, n),
{
    let path = seq![n];
    assert(is_path(catalog, barrier, path));
}

/// What is reached reaches on: a name that a reached package lists is reached
/// too, unless it is a key of the barrier.
pub proof fn lemma_reaches_on(
    catalog: Seq<Edges>,
    barrier: Seq<Edges>,
    from: Seq<char>,
    a: Seq<char>,
    b: Seq<char>,
)
    requires
        reaches(catalog, barrier, from, a),
        lists(catalog, a, b),
        !has_key(barrier, b),
    ensures
        reaches(catalog, barrier, from, b),
{
    let path = choose|path: Seq<Seq<char>>|
        #[trigger] is_path(catalog, barrier, path) && path[0] == from && path.last() == a;
    let longer = path.push(b);
    assert forall|i: int| 0 <= i < longer.len() implies !has_key(barrier, #[trigger] longer[i]) by {
        if i < path.len() {
            assert(longer[i] == path[i]);
        }
    }
    assert forall|i: int| 0 <= i < longer.len() - 1 implies lists(
        catalog,
        #[trigger] longer[i],
        longer[i + 1],
    ) by {
        assert(longer[i] == path[i]);
        if i < path.len() - 1 {
            assert(longer[i + 1] == path[i + 1]);
        }
    }
    assert(is_path(catalog, barrier, longer));
}

/// What the walk waits for is reached from the root.
proof fn lemma_awaited_reached(catalog: Seq<Edges>, barrier: Seq<Edges>, w: Walk)
    requires
        inv(w),
        w.awaiting is Some,
        w.base == barrier.len(),
        is_extension(barrier, w.forward),
        grounded(catalog, barrier, w),
    ensures
        reaches(catalog, barrier, w.root, w.awaiting->0),
        !has_key(barrier, w.awaiting->0),
{
    let d = w.awaiting->0;
    lemma_extension_keys(barrier, w.forward, d);
    if w.stack.len() == 0 {
        lemma_reaches_itself(catalog, barrier, d);
    } else {
        let k = w.stack.len() - 1;
        let top = w.stack.last();
        assert(w.stack[k] == top);
        assert(is_node(w, top.node));
        let c = choose|c: int| 0 <= c < catalog.len() && catalog[c] == top.node;
        let j = top.next - 1;
        assert(targets(catalog[c])[j] == d);
        assert(lists(catalog, top.node.name, d));
        lemma_reaches_on(catalog, barrier, w.root, top.node.name, d);
    }
}

/// In a walk that is done, every name on a path from the root is resolved.
proof fn lemma_path_resolved(
    catalog: Seq<Edges>,
    barrier: Seq<Edges>,
    w: Walk,
    path: Seq<Seq<char>>,
    i: int,
)
    requires
        unique_keys(catalog),
        inv(w),
        complete(w),
        w.base == barrier.len(),
        is_extension(barrier, w.forward),
        grounded(catalog, barrier, w),
        is_path(catalog, barrier, path),
        path[0] == w.root,
        0 <= i < path.len(),
    ensures
        has_key(w.forward, path[i]),
    decreases i,
{
    if i > 0 {
        let a = path[i - 1];
        let b = path[i];
        lemma_path_resolved(catalog, barrier, w, path, i - 1);
        lemma_extension_keys(barrier, w.forward, a);
        let k = choose|k: int| barrier.len() <= k < w.forward.len() && (#[trigger] w.forward[k]).name == a;
        assert(is_node(w, w.forward[k]));
        let c = choose|c: int| 0 <= c < catalog.len() && catalog[c] == w.forward[k];
        assert(lists(catalog, a, b));
        let c2 = choose|c2: int|
            0 <= c2 < catalog.len() && (#[trigger] catalog[c2]).name == a && targets(
                catalog[c2],
            ).contains(b);
        lemma_key_index(catalog, c);
        lemma_key_index(catalog, c2);
        let j = choose|j: int| 0 <= j < targets(w.forward[k]).len() && targets(w.forward[k])[j] == b;
        assert(visited(w, targets(w.forward[k])[j]));
        assert(names_on(w.stack) =~= Seq::<Seq<char>>::empty());
    }
}

/// What a walk that is done has made of the mapping: the new entries come
/// from the catalog, what they list are keys, and the new keys are exactly
/// the names that the root reaches.
proof fn lemma_done(catalog: Seq<Edges>, barrier: Seq<Edges>, w: Walk)
    requires
        unique_keys(catalog),
        inv(w),
        complete(w),
        w.base == barrier.len(),
        is_extension(barrier, w.forward),
        grounded(catalog, barrier, w),
    ensures
        taken_from(catalog, w.forward, barrier.len() as int),
        lists_keys(w.forward, barrier.len() as int),
        forall|n: Seq<char>|
            has_key(w.forward, n) <==> (has_key(barrier, n) || reaches(
                catalog,
                barrier,
                w.root,
                n,
            )),
{
    assert(names_on(w.stack) =~= Seq::<Seq<char>>::empty());
    assert forall|i: int| barrier.len() <= i < w.forward.len() implies catalog.contains(
        #[trigger] w.forward[i],
    ) by {
        assert(is_node(w, w.forward[i]));
    }
    assert forall|i: int, j: int|
        barrier.len() <= i < w.forward.len() && 0 <= j < targets(w.forward[i]).len() implies has_key(
        w.forward,
        #[trigger] targets(w.forward[i])[j],
    ) by {
        assert(visited(w, targets(w.forward[i])[j]));
    }
    assert forall|n: Seq<char>|
        has_key(w.forward, n) <==> (has_key(barrier, n) || reaches(catalog, barrier, w.root, n)) by {
        lemma_extension_keys(barrier, w.forward, n);
        if has_key(w.forward, n) && !has_key(barrier, n) {
            let i = choose|i: int|
                barrier.len() <= i < w.forward.len() && (#[trigger] w.forward[i]).name == n;
            assert(is_node(w, w.forward[i]));
        }
        if reaches(catalog, barrier, w.root, n) {
            let path = choose|path: Seq<Seq<char>>|
                #[trigger] is_path(catalog, barrier, path) && path[0] == w.root && path.last() == n;
            lemma_path_resolved(catalog, barrier, w, path, path.len() - 1);
        }
    }
}

/// No more keys of the catalog are unvisited than the catalog has entries.
proof fn lemma_unvisited_bound(catalog: Seq<Edges>, w: Walk)
    ensures
        unvisited(catalog, w).len() <= catalog.len(),
{
    let all = keys(catalog).to_set();
    vstd::seq_lib::seq_to_set_is_finite(keys(catalog));
    assert(unvisited(catalog, w).subset_of(all));
    vstd::set_lib::lemma_len_subset(unvisited(catalog, w), all);
    keys(catalog).lemma_cardinality_of_set();
}

/// One step of the driven walk, where the catalog has the entry that is asked for.
proof fn lemma_driven_found(
    catalog: Seq<Edges>,
    w: Walk,
    steps: nat,
    deps: Option<Seq<Seq<char>>>,
)
    requires
        unique_keys(catalog),
        w.awaiting is Some,
        catalog.contains(Edges { name: w.awaiting->0, deps }),
        steps > 0,
    ensures
        driven(catalog, w, steps) == driven(catalog, supplied(w, Ok(deps)), (steps - 1) as nat),
{
    let c = choose|c: int| 0 <= c < catalog.len() && catalog[c] == (Edges { name: w.awaiting->0, deps });
    lemma_key_index(catalog, c);
}

/// The last step of the driven walk, where the catalog lacks what is asked for.
proof fn lemma_driven_missing(catalog: Seq<Edges>, w: Walk, steps: nat)
    requires
        w.awaiting is Some,
        !has_key(catalog, w.awaiting->0),
        steps > 0,
    ensures
        driven(catalog, w, steps) == supplied(w, Err(unknown_reason())),
{
    let after = supplied(w, Err(unknown_reason()));
    assert(after.awaiting is None);
    assert(driven(catalog, after, (steps - 1) as nat) == after);
}

/// Each entry of `m` from position `from` on has a name that `root` reaches.
pub open spec fn all_reached(
    catalog: Seq<Edges>,
    barrier: Seq<Edges>,
    root: Seq<char>,
    m: Seq<Edges>,
) -> bool {
    forall|i: int|
        barrier.len() <= i < m.len() ==> reaches(catalog, barrier, root, (#[trigger] m[i]).name)
}

/// The walk resolves `root` over `barrier` with answers from `catalog`, and
/// has not failed.
#[verifier::opaque]
spec fn on_track(catalog: Seq<Edges>, barrier: Seq<Edges>, root: Seq<char>, w: Walk) -> bool {
    &&& inv(w)
    &&& w.root == root
    &&& w.base == barrier.len()
    &&& w.failure is None
    &&& is_extension(barrier, w.forward)
    &&& grounded(catalog, barrier, w)
}

/// A walk starts on track.
proof fn lemma_track_begin(catalog: Seq<Edges>, barrier: Seq<Edges>, root: Seq<char>)
    requires
        unique_keys(barrier),
    ensures
        on_track(catalog, barrier, root, begun(barrier, root)),
{
    reveal(on_track);
    lemma_begun(barrier, root);
    assert(barrier.take(barrier.len() as int) =~= barrier);
    let w = begun(barrier, root);
    assert forall|e: Edges| #[trigger] is_node(w, e) implies catalog.contains(e) && reaches(
        catalog,
        barrier,
        w.root,
        e.name,
    ) by {}
}

/// An entry of the catalog keeps the walk on track and brings it nearer to its end.
proof fn lemma_track_found(
    catalog: Seq<Edges>,
    barrier: Seq<Edges>,
    root: Seq<char>,
    w: Walk,
    deps: Option<Seq<Seq<char>>>,
)
    requires
        on_track(catalog, barrier, root, w),
        w.awaiting is Some,
        catalog.contains(Edges { name: w.awaiting->0, deps }),
    ensures
        on_track(catalog, barrier, root, supplied(w, Ok(deps))),
        unvisited(catalog, supplied(w, Ok(deps))).len() < unvisited(catalog, w).len(),
{
    reveal(on_track);
    let outcome: Outcome = Ok(deps);
    let after = supplied(w, outcome);
    let name = w.awaiting->0;
    let node = Edges { name, deps };
    lemma_supplied(w, outcome);
    lemma_awaited_reached(catalog, barrier, w);
    assert(after.forward.take(barrier.len() as int) =~= barrier) by {
        assert forall|i: int| 0 <= i < barrier.len() implies after.forward[i] == barrier[i] by {
            assert(after.forward.take(w.forward.len() as int)[i] == w.forward[i]);
            assert(w.forward.take(barrier.len() as int)[i] == barrier[i]);
        }
    }
    assert forall|e: Edges| #[trigger] is_node(after, e) implies catalog.contains(e) && reaches(
        catalog,
        barrier,
        after.root,
        e.name,
    ) by {
        if !is_node(w, e) {
            assert(e == node);
        }
    }
    let c = choose|c: int| 0 <= c < catalog.len() && catalog[c] == node;
    assert(keys(catalog)[c] == name);
    lemma_unvisited_shrinks(catalog, w, after, name);
}

/// What a grounded walk has recorded comes from the catalog and is reached.
proof fn lemma_track_entries(catalog: Seq<Edges>, barrier: Seq<Edges>, root: Seq<char>, w: Walk)
    requires
        w.root == root,
        w.base == barrier.len(),
        grounded(catalog, barrier, w),
    ensures
        taken_from(catalog, w.forward, barrier.len() as int),
        all_reached(catalog, barrier, root, w.forward),
{
    assert forall|i: int| barrier.len() <= i < w.forward.len() implies catalog.contains(
        #[trigger] w.forward[i],
    ) && reaches(catalog, barrier, root, w.forward[i].name) by {
        assert(is_node(w, w.forward[i]));
    }
}

/// What holds of a walk on track when the catalog lacks what it asks for.
proof fn lemma_track_missing(
    catalog: Seq<Edges>,
    barrier: Seq<Edges>,
    root: Seq<char>,
    w: Walk,
    reason: Seq<char>,
)
    requires
        on_track(catalog, barrier, root, w),
        w.awaiting is Some,
    ensures
        supplied(w, Err(reason)).failure == Some(Failure { package: w.awaiting->0, reason }),
        supplied(w, Err(reason)).forward == w.forward,
        is_extension(barrier, w.forward),
        taken_from(catalog, w.forward, barrier.len() as int),
        all_reached(catalog, barrier, root, w.forward),
        reaches(catalog, barrier, root, w.awaiting->0),
{
    reveal(on_track);
    lemma_awaited_reached(catalog, barrier, w);
    lemma_track_entries(catalog, barrier, root, w);
}

/// What holds of a walk on track once it waits for nothing.
proof fn lemma_track_done(catalog: Seq<Edges>, barrier: Seq<Edges>, root: Seq<char>, w: Walk)
    requires
        unique_keys(catalog),
        on_track(catalog, barrier, root, w),
        w.awaiting is None,
    ensures
        is_extension(barrier, w.forward),
        taken_from(catalog, w.forward, barrier.len() as int),
        all_reached(catalog, barrier, root, w.forward),
        lists_keys(w.forward, barrier.len() as int),
        forall|n: Seq<char>|
            has_key(w.forward, n) <==> (has_key(barrier, n) || reaches(catalog, barrier, root, n)),
        w.failure is None,
{
    reveal(on_track);
    lemma_done(catalog, barrier, w);
    lemma_track_entries(catalog, barrier, root, w);
}

/// Resolves `package_name` with everything it depends on against `metadata`
/// and adds what is new to `forward_deps`: the entries of before stay, and
/// each new entry is the catalog's entry of a package that `package_name`
/// reaches without passing a package that was resolved before. A package in
/// a cycle of dependencies is resolved like any other. Resolution is given up
/// at the first package that is reached and that the catalog does not know.
pub fn get_dep_tree(package_name: &str, metadata: &DepTree, forward_deps: &mut DepTree) -> (r:
    Result<(), ResolveError>)
    requires
        metadata.wf(),
        old(forward_deps).wf(),
    ensures
        final(forward_deps).wf(),
        final(forward_deps)@ == walked(metadata@, old(forward_deps)@, package_name@).forward,
        walked(metadata@, old(forward_deps)@, package_name@).awaiting is None,
        is_extension(old(forward_deps)@, final(forward_deps)@),
        taken_from(metadata@, final(forward_deps)@, old(forward_deps)@.len() as int),
        all_reached(metadata@, old(forward_deps)@, package_name@, final(forward_deps)@),
        match r {
            Ok(_) => {
                &&& walked(metadata@, old(forward_deps)@, package_name@).failure is None
                &&& lists_keys(final(forward_deps)@, old(forward_deps)@.len() as int)
                &&& forall|n: Seq<char>|
                    has_key(final(forward_deps)@, n) <==> (has_key(old(forward_deps)@, n)
                        || reaches(metadata@, old(forward_deps)@, package_name@, n))
            },
            Err(e) => {
                &&& walked(metadata@, old(forward_deps)@, package_name@).failure == Some(e@)
                &&& reaches(metadata@, old(forward_deps)@, package_name@, e.package@)
                &&& !has_key(metadata@, e.package@)
                &&& e.reason@ == unknown_reason()
            },
        },
{
    let ghost barrier = forward_deps@;
    let ghost catalog = metadata@;
    let ghost root = package_name@;
    let mut tree = DepTree::new();
    core::mem::swap(forward_deps, &mut tree);
    let mut resolver = Resolver::begin(String::from_str(package_name), tree);
    let ghost mut steps: nat = (catalog.len() + 1) as nat;
    proof {
        lemma_track_begin(catalog, barrier, root);
        lemma_unvisited_bound(catalog, resolver@);
    }
    loop
        invariant
            metadata.wf(),
            catalog == metadata@,
            barrier == old(forward_deps)@,
            root == package_name@,
            resolver.wf(),
            on_track(catalog, barrier, root, resolver@),
            steps > unvisited(catalog, resolver@).len(),
            driven(catalog, resolver@, steps) == walked(catalog, barrier, root),
        ensures
            resolver.wf(),
            on_track(catalog, barrier, root, resolver@),
            resolver@.awaiting is None,
            resolver@ == walked(catalog, barrier, root),
        decreases unvisited(catalog, resolver@).len(),
    {
        let ghost w = resolver@;
        let name: String = match resolver.pending() {
            None => {
                break ;
            },
            Some(n) => n.clone(),
        };
        match metadata.position(&name) {
            Some(i) => {
                let deps = copy_listed(&metadata.entry(i).deps);
                proof {
                    let listed = opt_texts(deps);
                    assert(catalog[i as int] == Edges { name: name@, deps: listed });
                    lemma_track_found(catalog, barrier, root, w, listed);
                    lemma_driven_found(catalog, w, steps, listed);
                    steps = (steps - 1) as nat;
                }
                resolver.supply(Ok(deps));
            },
            None => {
                proof {
                    lemma_track_missing(catalog, barrier, root, w, unknown_reason());
                    lemma_driven_missing(catalog, w, steps);
                }
                resolver.supply(Err(String::from_str("package is not in the catalog")));
                let (tree, failure) = resolver.finish();
                *forward_deps = tree;
                match failure {
                    Some(e) => {
                        return Err(e);
                    },
                    None => {
                        return Ok(());
                    },
                }
            },
        }
    }
    proof {
        lemma_track_done(catalog, barrier, root, resolver@);
    }
    let (tree, failure) = resolver.finish();
    *forward_deps = tree;
    Ok(())
}

/// A path that keeps clear of a barrier is a path all the same.
pub proof fn lemma_reaches_unbarred(
    catalog: Seq<Edges>,
    barrier: Seq<Edges>,
    from: Seq<char>,
    to: Seq<char>,
)
    requires
        reaches(catalog, barrier, from, to),
    ensures
        reaches(catalog, Seq::<Edges>::empty(), from, to),
{
    let path = choose|path: Seq<Seq<char>>|
        #[trigger] is_path(catalog, barrier, path) && path[0] == from && path.last() == to;
    assert(keys(Seq::<Edges>::empty()) =~= Seq::<Seq<char>>::empty());
    assert(is_path(catalog, Seq::<Edges>::empty(), path));
}

/// In a mapping whose entries come from the catalog and list keys only, a
/// path that meets a key stays among the keys.
proof fn lemma_path_stays(
    catalog: Seq<Edges>,
    m: Seq<Edges>,
    path: Seq<Seq<char>>,
    from: int,
    to: int,
)
    requires
        unique_keys(catalog),
        taken_from(catalog, m, 0),
        lists_keys(m, 0),
        is_path(catalog, Seq::<Edges>::empty(), path),
        0 <= from <= to < path.len(),
        has_key(m, path[from]),
    ensures
        has_key(m, path[to]),
    decreases to - from,
{
    if from < to {
        lemma_path_stays(catalog, m, path, from, to - 1);
        let a = path[to - 1];
        let b = path[to];
        let k = choose|k: int| 0 <= k < keys(m).len() && keys(m)[k] == a;
        assert(m[k].name == a);
        assert(catalog.contains(m[k]));
        let c = choose|c: int| 0 <= c < catalog.len() && catalog[c] == m[k];
        assert(lists(catalog, a, b));
        let c2 = choose|c2: int|
            0 <= c2 < catalog.len() && (#[trigger] catalog[c2]).name == a && targets(
                catalog[c2],
            ).contains(b);
        lemma_key_index(catalog, c);
        lemma_key_index(catalog, c2);
        let j = choose|j: int| 0 <= j < targets(m[k]).len() && targets(m[k])[j] == b;
        assert(has_key(m, targets(m[k])[j]));
    }
}

/// All that the first `k` of `starts` reach is resolved in `m`, and nothing
/// else is.
#[verifier::opaque]
spec fn resolved_upto(catalog: Seq<Edges>, starts: Seq<Seq<char>>, k: int, m: Seq<Edges>) -> bool {
    &&& taken_from(catalog, m, 0)
    &&& lists_keys(m, 0)
    &&& forall|n: Seq<char>| has_key(m, n) <==> reachable(catalog, starts.take(k), n)
}

/// Before the first walk nothing is resolved.
proof fn lemma_resolved_none(catalog: Seq<Edges>, starts: Seq<Seq<char>>)
    ensures
        resolved_upto(catalog, starts, 0, Seq::<Edges>::empty()),
{
    reveal(resolved_upto);
    assert(keys(Seq::<Edges>::empty()) =~= Seq::<Seq<char>>::empty());
}

/// One more walk resolves what one more starting name reaches.
proof fn lemma_resolved_more(
    catalog: Seq<Edges>,
    starts: Seq<Seq<char>>,
    k: int,
    before: Seq<Edges>,
    after: Seq<Edges>,
)
    requires
        unique_keys(catalog),
        0 <= k < starts.len(),
        resolved_upto(catalog, starts, k, before),
        is_extension(before, after),
        taken_from(catalog, after, before.len() as int),
        lists_keys(after, before.len() as int),
        forall|n: Seq<char>|
            has_key(after, n) <==> (has_key(before, n) || reaches(catalog, before, starts[k], n)),
    ensures
        resolved_upto(catalog, starts, k + 1, after),
{
    reveal(resolved_upto);
    let none = Seq::<Edges>::empty();
    let sooner = starts.take(k);
    let now = starts.take(k + 1);
    assert forall|i: int| 0 <= i < after.len() implies catalog.contains(#[trigger] after[i]) by {
        if i < before.len() {
            assert(after.take(before.len() as int)[i] == before[i]);
        }
    }
    assert forall|i: int, j: int| 0 <= i < after.len() && 0 <= j < targets(after[i]).len() implies has_key(
        after,
        #[trigger] targets(after[i])[j],
    ) by {
        if i < before.len() {
            assert(after.take(before.len() as int)[i] == before[i]);
            assert(has_key(before, targets(before[i])[j]));
            lemma_extension_keys(before, after, targets(before[i])[j]);
        }
    }
    assert forall|n: Seq<char>| has_key(after, n) <==> reachable(catalog, now, n) by {
        if has_key(after, n) {
            if has_key(before, n) {
                let i = choose|i: int|
                    0 <= i < sooner.len() && reaches(catalog, none, #[trigger] sooner[i], n);
                assert(now[i] == sooner[i]);
            } else {
                lemma_reaches_unbarred(catalog, before, starts[k], n);
                assert(now[k] == starts[k]);
            }
        }
        if reachable(catalog, now, n) {
            let i = choose|i: int| 0 <= i < now.len() && reaches(catalog, none, #[trigger] now[i], n);
            if i < k {
                assert(sooner[i] == now[i]);
                assert(reachable(catalog, sooner, n));
            } else {
                let path = choose|path: Seq<Seq<char>>|
                    #[trigger] is_path(catalog, none, path) && path[0] == starts[k] && path.last()
                        == n;
                if exists|j: int| 0 <= j < path.len() && has_key(before, #[trigger] path[j]) {
                    let j = choose|j: int| 0 <= j < path.len() && has_key(before, #[trigger] path[j]);
                    lemma_path_stays(catalog, before, path, j, path.len() - 1);
                } else {
                    assert(is_path(catalog, before, path));
                }
            }
        }
    }
}

/// After the last walk all that the starting names reach is resolved.
proof fn lemma_resolved_all(catalog: Seq<Edges>, starts: Seq<Seq<char>>, m: Seq<Edges>)
    requires
        resolved_upto(catalog, starts, starts.len() as int, m),
    ensures
        taken_from(catalog, m, 0),
        lists_keys(m, 0),
        forall|n: Seq<char>| has_key(m, n) <==> reachable(catalog, starts, n),
{
    reveal(resolved_upto);
    assert(starts.take(starts.len() as int) =~= starts);
}

/// Once a walk has failed, the walks after it change nothing.
proof fn lemma_failure_stays(catalog: Seq<Edges>, starts: Seq<Seq<char>>, k: int, later: int)
    requires
        0 <= k <= later,
        resolved_from(catalog, starts, k) is Err,
    ensures
        resolved_from(catalog, starts, later) == resolved_from(catalog, starts, k),
    decreases later - k,
{
    if k < later {
        lemma_failure_stays(catalog, starts, k, later - 1);
    }
}

/// Resolves the transitive closure of `starting` against `metadata`. The
/// result holds exactly the packages that the starting names reach, each with
/// the catalog's entry, and so lists keys only. Where a reached package is
/// unknown to the catalog, resolution is given up and no mapping is handed
/// out.
pub fn resolve(starting: &Vec<String>, metadata: &DepTree) -> (r: Result<DepTree, ResolveError>)
    requires
        metadata.wf(),
    ensures
        match r {
            Ok(forward) => {
                &&& forward.wf()
                &&& resolved_from(metadata@, texts(starting@), starting@.len() as int) == Ok::<
                    Seq<Edges>,
                    Failure,
                >(forward@)
                &&& taken_from(metadata@, forward@, 0)
                &&& lists_keys(forward@, 0)
                &&& forall|n: Seq<char>|
                    has_key(forward@, n) <==> reachable(metadata@, texts(starting@), n)
            },
            Err(e) => {
                &&& resolved_from(metadata@, texts(starting@), starting@.len() as int) == Err::<
                    Seq<Edges>,
                    Failure,
                >(e@)
                &&& reachable(metadata@, texts(starting@), e.package@)
                &&& !has_key(metadata@, e.package@)
                &&& e.reason@ == unknown_reason()
            },
        },
{
    let ghost catalog = metadata@;
    let ghost starts = texts(starting@);
    let mut forward = DepTree::new();
    let mut k: usize = 0;
    proof {
        lemma_resolved_none(catalog, starts);
    }
    while k < starting.len()
        invariant
            k <= starting@.len(),
            metadata.wf(),
            catalog == metadata@,
            starts == texts(starting@),
            forward.wf(),
            resolved_upto(catalog, starts, k as int, forward@),
            resolved_from(catalog, starts, k as int) == Ok::<Seq<Edges>, Failure>(forward@),
        decreases starting@.len() - k,
    {
        let ghost before = forward@;
        match get_dep_tree(starting[k].as_str(), metadata, &mut forward) {
            Ok(_) => {
                proof {
                    lemma_resolved_more(catalog, starts, k as int, before, forward@);
                }
            },
            Err(e) => {
                proof {
                    lemma_reaches_unbarred(catalog, before, starts[k as int], e.package@);
                    lemma_failure_stays(catalog, starts, k + 1, starting@.len() as int);
                }
                return Err(e);
            },
        }
        k += 1;
    }
    proof {
        lemma_resolved_all(catalog, starts, forward@);
    }
    Ok(forward)
}

} // verus!
