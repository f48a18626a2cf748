//! The depth-first walk that resolves one package with everything it depends
//! on, as a machine of states: it says which package's metadata it wants
//! next, takes the answer, and goes on. A package that is being resolved stays
//! marked until all its dependencies are done, so that a cycle of dependencies
//! ends the walk as any other shape does.

use crate::deptree::{has_key, keys, targets, unique_keys, Edges};
use vstd::prelude::*;

verus! {

/// A package that is being resolved: what its metadata lists, and how many of
/// the listed names the walk has already looked at.
pub struct Visit {
    pub node: Edges,
    pub next: int,
}

/// Why a walk gave up: the package whose metadata could not be had, and the
/// reason that came with it.
pub struct Failure {
    pub package: Seq<char>,
    pub reason: Seq<char>,
}

/// What the metadata source answers for one package: the listed names, or the
/// reason for which it has none to give.
pub type Outcome = Result<Option<Seq<Seq<char>>>, Seq<char>>;

/// A state of the walk.
pub struct Walk {
    /// The package that the walk resolves.
    pub root: Seq<char>,
    /// How many entries the mapping had when the walk began.
    pub base: int,
    /// The packages that are resolved, in the order in which they were done.
    pub forward: Seq<Edges>,
    /// The packages in progress: the root first, then each the dependency of
    /// the one before it.
    pub stack: Seq<Visit>,
    /// The package whose metadata the walk waits for.
    pub awaiting: Option<Seq<char>>,
    /// Set once the metadata source has failed.
    pub failure: Option<Failure>,
}

/// The names of the packages in progress.
pub open spec fn names_on(stack: Seq<Visit>) -> Seq<Seq<char>> {
    stack.map_values(|v: Visit| v.node.name)
}

/// The walk has the metadata of `n`: it is resolved or in progress.
pub open spec fn visited(w: Walk, n: Seq<char>) -> bool {
    has_key(w.forward, n) || names_on(w.stack).contains(n)
}

/// `e` was added by this walk: it is in progress, or resolved and no entry
/// from before the walk.
pub open spec fn is_node(w: Walk, e: Edges) -> bool {
    (exists|i: int| w.base <= i < w.forward.len() && w.forward[i] == e) || (exists|i: int|
        0 <= i < w.stack.len() && (#[trigger] w.stack[i]).node == e)
}

/// How many listed names of a package in progress are still to be looked at.
pub open spec fn left(v: Visit) -> int {
    if v.next >= targets(v.node).len() {
        0
    } else {
        targets(v.node).len() - v.next
    }
}

/// The walk looks at the next listed name of its innermost package.
pub open spec fn advanced(stack: Seq<Visit>) -> Seq<Visit> {
    stack.drop_last().push(Visit { node: stack.last().node, next: stack.last().next + 1 })
}

/// Goes on without new metadata as far as that is possible: a package whose
/// listed names are all looked at is resolved and recorded, a listed name that
/// is already visited is passed over, and the first that is not is asked for.
pub open spec fn settle(w: Walk) -> Walk
    decreases w.stack.len(), left(w.stack.last()),
{
    if w.stack.len() == 0 {
        w
    } else {
        let top = w.stack.last();
        if top.next < 0 || top.next >= targets(top.node).len() {
            settle(Walk { forward: w.forward.push(top.node), stack: w.stack.drop_last(), ..w })
        } else {
            let d = targets(top.node)[top.next];
            if visited(w, d) {
                settle(Walk { stack: advanced(w.stack), ..w })
            } else {
                Walk { stack: advanced(w.stack), awaiting: Some(d), ..w }
            }
        }
    }
}

/// The walk for `root` at its start, over a mapping that may hold entries of
/// earlier walks: a root that is a key already needs nothing.
pub open spec fn begun(forward: Seq<Edges>, root: Seq<char>) -> Walk {
    Walk {
        root,
        base: forward.len() as int,
        forward,
        stack: Seq::empty(),
        awaiting: if has_key(forward, root) {
            None
        } else {
            Some(root)
        },
        failure: None,
    }
}

/// The walk once the package it waited for is in progress with the names that
/// its metadata lists, none of them looked at yet.
pub open spec fn entered(w: Walk, deps: Option<Seq<Seq<char>>>) -> Walk {
    Walk {
        stack: w.stack.push(Visit { node: Edges { name: w.awaiting->0, deps }, next: 0 }),
        awaiting: None,
        ..w
    }
}

/// The walk after the answer to its request. A failure ends it, with the
/// package that was asked for attached. Listed names put the package in
/// progress, and the walk goes on to its next request or to its end.
pub open spec fn supplied(w: Walk, outcome: Outcome) -> Walk {
    match w.awaiting {
        None => w,
        Some(name) => match outcome {
            Err(reason) => Walk {
                awaiting: None,
                failure: Some(Failure { package: name, reason }),
                ..w
            },
            Ok(deps) => settle(entered(w, deps)),
        },
    }
}

/// Nothing is left to do: the walk waits for nothing and has not failed.
pub open spec fn complete(w: Walk) -> bool {
    w.awaiting is None && w.failure is None
}

/// No package is recorded twice, none is both resolved and in progress, and
/// no count runs past its list.
pub open spec fn sound(w: Walk) -> bool {
    &&& 0 <= w.base <= w.forward.len()
    &&& unique_keys(w.forward)
    &&& names_on(w.stack).no_duplicates()
    &&& forall|i: int|
        0 <= i < w.stack.len() ==> !has_key(w.forward, (#[trigger] w.stack[i]).node.name)
    &&& forall|i: int|
        0 <= i < w.stack.len() ==> 0 <= (#[trigger] w.stack[i]).next <= targets(
            w.stack[i].node,
        ).len()
}

/// The packages in progress form a path from the root, and what the walk
/// waits for is the next step of that path.
pub open spec fn chained(w: Walk) -> bool {
    &&& w.stack.len() > 0 ==> w.stack[0].node.name == w.root
    &&& forall|i: int|
        0 <= i < w.stack.len() - 1 ==> (#[trigger] w.stack[i]).next >= 1 && targets(
            w.stack[i].node,
        )[w.stack[i].next - 1] == w.stack[i + 1].node.name
    &&& match w.awaiting {
        None => true,
        Some(d) => {
            &&& !visited(w, d)
            &&& w.failure is None
            &&& if w.stack.len() == 0 {
                d == w.root
            } else {
                w.stack.last().next >= 1 && targets(w.stack.last().node)[w.stack.last().next - 1]
                    == d
            }
        },
    }
    &&& complete(w) && w.stack.len() == 0 ==> has_key(w.forward, w.root)
}

/// Every name that a package of this walk lists and that the walk has looked
/// at is visited, or is the one that the walk waits for.
pub open spec fn closed(w: Walk) -> bool {
    &&& forall|i: int, j: int|
        w.base <= i < w.forward.len() && 0 <= j < targets(w.forward[i]).len() ==> visited(
            w,
            #[trigger] targets(w.forward[i])[j],
        )
    &&& w.failure is None ==> forall|i: int, j: int|
        0 <= i < w.stack.len() && 0 <= j < w.stack[i].next ==> {
            let d = #[trigger] targets(w.stack[i].node)[j];
            visited(w, d) || w.awaiting == Some(d)
        }
}

/// What holds of a walk at every moment, also while it settles.
pub open spec fn coherent(w: Walk) -> bool {
    sound(w) && chained(w) && closed(w)
}

/// What holds of a walk between two requests: it is coherent, and where it
/// neither waits nor has failed no package is left in progress.
pub open spec fn inv(w: Walk) -> bool {
    coherent(w) && (complete(w) ==> w.stack.len() == 0)
}

/// One walk continues another: same root, same entries from before, and
/// whatever was recorded or visited still is.
pub open spec fn continues(before: Walk, after: Walk) -> bool {
    &&& after.root == before.root
    &&& after.base == before.base
    &&& before.forward.len() <= after.forward.len()
    &&& after.forward.take(before.forward.len() as int) == before.forward
    &&& forall|n: Seq<char>| visited(before, n) ==> visited(after, n)
}

/// The keys after one more entry.
proof fn lemma_has_key_push(m: Seq<Edges>, e: Edges, n: Seq<char>)
    ensures
        has_key(m.push(e), n) <==> (has_key(m, n) || n == e.name),
{
    assert(keys(m.push(e)) =~= keys(m).push(e.name));
    if has_key(m, n) {
        let i = choose|i: int| 0 <= i < keys(m).len() && keys(m)[i] == n;
        assert(keys(m).push(e.name)[i] == n);
    }
    if n == e.name {
        assert(keys(m).push(e.name)[keys(m).len() as int] == n);
    }
}

/// The names in progress after one more package.
proof fn lemma_names_push(stack: Seq<Visit>, v: Visit, n: Seq<char>)
    ensures
        names_on(stack.push(v)).contains(n) <==> (names_on(stack).contains(n) || n == v.node.name),
{
    assert(names_on(stack.push(v)) =~= names_on(stack).push(v.node.name));
    if names_on(stack).contains(n) {
        let i = choose|i: int| 0 <= i < names_on(stack).len() && names_on(stack)[i] == n;
        assert(names_on(stack).push(v.node.name)[i] == n);
    }
    if n == v.node.name {
        assert(names_on(stack).push(v.node.name)[stack.len() as int] == n);
    }
}

/// The names in progress without the innermost package.
proof fn lemma_names_drop_last(stack: Seq<Visit>, n: Seq<char>)
    requires
        stack.len() > 0,
    ensures
        names_on(stack).contains(n) <==> (names_on(stack.drop_last()).contains(n) || n
            == stack.last().node.name),
{
    assert(stack.drop_last().push(stack.last()) =~= stack);
    lemma_names_push(stack.drop_last(), stack.last(), n);
}

/// A look at the next listed name changes the count of the innermost package only.
proof fn lemma_names_advanced(stack: Seq<Visit>)
    requires
        stack.len() > 0,
    ensures
        names_on(advanced(stack)) == names_on(stack),
        advanced(stack).len() == stack.len(),
        forall|i: int| 0 <= i < stack.len() - 1 ==> advanced(stack)[i] == stack[i],
        advanced(stack).last() == (Visit { node: stack.last().node, next: stack.last().next + 1 }),
{
    assert(names_on(advanced(stack)) =~= names_on(stack));
}

/// One walk has visited and added exactly what another has.
pub open spec fn same_nodes(a: Walk, b: Walk) -> bool {
    &&& forall|n: Seq<char>| visited(a, n) <==> visited(b, n)
    &&& forall|e: Edges| is_node(a, e) <==> is_node(b, e)
}

/// The walk after its innermost package, whose listed names are all looked
/// at, is recorded as resolved.
pub open spec fn popped(w: Walk) -> Walk {
    Walk { forward: w.forward.push(w.stack.last().node), stack: w.stack.drop_last(), ..w }
}

/// Recording the innermost package visits and adds nothing new.
proof fn lemma_popped_nodes(w: Walk)
    requires
        coherent(w),
        w.stack.len() > 0,
    ensures
        same_nodes(popped(w), w),
{
    let top = w.stack.last();
    let k = w.stack.len() - 1;
    let rest = w.stack.drop_last();
    let w1 = popped(w);
    assert forall|n: Seq<char>| visited(w1, n) <==> visited(w, n) by {
        lemma_has_key_push(w.forward, top.node, n);
        lemma_names_drop_last(w.stack, n);
    }
    assert forall|e: Edges| is_node(w1, e) <==> is_node(w, e) by {
        if is_node(w1, e) {
            if exists|i: int| w1.base <= i < w1.forward.len() && w1.forward[i] == e {
                let i = choose|i: int| w1.base <= i < w1.forward.len() && w1.forward[i] == e;
                if i < w.forward.len() {
                    assert(w.forward[i] == e);
                } else {
                    assert(w.stack[k].node == e);
                }
            } else {
                let i = choose|i: int| 0 <= i < rest.len() && (#[trigger] rest[i]).node == e;
                assert(w.stack[i].node == e);
            }
        }
        if is_node(w, e) {
            if exists|i: int| w.base <= i < w.forward.len() && w.forward[i] == e {
                let i = choose|i: int| w.base <= i < w.forward.len() && w.forward[i] == e;
                assert(w1.forward[i] == e);
            } else {
                let i = choose|i: int| 0 <= i < w.stack.len() && (#[trigger] w.stack[i]).node == e;
                if i < k {
                    assert(rest[i].node == e);
                } else {
                    assert(w1.forward[w.forward.len() as int] == e);
                }
            }
        }
    }
}

/// Recording the innermost package keeps the walk sound.
proof fn lemma_popped_sound(w: Walk)
    requires
        coherent(w),
        w.stack.len() > 0,
    ensures
        sound(popped(w)),
{
    let top = w.stack.last();
    let k = w.stack.len() - 1;
    let rest = w.stack.drop_last();
    let w1 = popped(w);
    assert(w.stack[k] == top);
    assert(keys(w1.forward) =~= keys(w.forward).push(top.node.name));
    assert(!has_key(w.forward, top.node.name));
    assert(names_on(rest) =~= names_on(w.stack).drop_last());
    assert forall|i: int| 0 <= i < rest.len() implies !has_key(
        w1.forward,
        (#[trigger] rest[i]).node.name,
    ) by {
        assert(rest[i] == w.stack[i]);
        lemma_has_key_push(w.forward, top.node, rest[i].node.name);
        assert(names_on(w.stack)[i] == rest[i].node.name);
        assert(names_on(w.stack)[k] == top.node.name);
    }
    assert forall|i: int| 0 <= i < rest.len() implies 0 <= (#[trigger] rest[i]).next <= targets(
        rest[i].node,
    ).len() by {
        assert(rest[i] == w.stack[i]);
    }
}

/// Recording the innermost package keeps the walk chained.
proof fn lemma_popped_chained(w: Walk)
    requires
        coherent(w),
        complete(w),
        w.stack.len() > 0,
    ensures
        chained(popped(w)),
{
    let top = w.stack.last();
    let rest = w.stack.drop_last();
    if rest.len() > 0 {
        assert(rest[0] == w.stack[0]);
    } else {
        lemma_has_key_push(w.forward, top.node, w.root);
    }
    assert forall|i: int| 0 <= i < rest.len() - 1 implies (#[trigger] rest[i]).next >= 1
        && targets(rest[i].node)[rest[i].next - 1] == rest[i + 1].node.name by {
        assert(rest[i] == w.stack[i]);
        assert(rest[i + 1] == w.stack[i + 1]);
    }
}

/// Recording the innermost package keeps the walk closed.
proof fn lemma_popped_closed(w: Walk)
    requires
        coherent(w),
        complete(w),
        w.stack.len() > 0,
        w.stack.last().next >= targets(w.stack.last().node).len(),
    ensures
        closed(popped(w)),
{
    let top = w.stack.last();
    let k = w.stack.len() - 1;
    let rest = w.stack.drop_last();
    let w1 = popped(w);
    lemma_popped_nodes(w);
    assert(w.stack[k] == top);
    assert forall|i: int, j: int|
        w1.base <= i < w1.forward.len() && 0 <= j < targets(w1.forward[i]).len() implies visited(
        w1,
        #[trigger] targets(w1.forward[i])[j],
    ) by {
        if i < w.forward.len() {
            assert(w1.forward[i] == w.forward[i]);
            assert(visited(w, targets(w.forward[i])[j]));
        } else {
            assert(w1.forward[i] == top.node);
            let d = targets(w.stack[k].node)[j];
            assert(visited(w, d) || w.awaiting == Some(d));
        }
    }
    assert forall|i: int, j: int| 0 <= i < rest.len() && 0 <= j < rest[i].next implies {
        let d = #[trigger] targets(rest[i].node)[j];
        visited(w1, d) || w1.awaiting == Some(d)
    } by {
        assert(rest[i] == w.stack[i]);
        let d = targets(w.stack[i].node)[j];
        assert(visited(w, d) || w.awaiting == Some(d));
    }
}

/// The walk after a look at the next listed name of its innermost package,
/// which it asks for (`ask`) or passes over.
pub open spec fn looked(w: Walk, ask: bool) -> Walk {
    let top = w.stack.last();
    Walk {
        stack: advanced(w.stack),
        awaiting: if ask {
            Some(targets(top.node)[top.next])
        } else {
            None
        },
        ..w
    }
}

/// A look at the next listed name visits and adds nothing new.
proof fn lemma_looked_nodes(w: Walk, ask: bool)
    requires
        w.stack.len() > 0,
    ensures
        same_nodes(looked(w, ask), w),
{
    let k = w.stack.len() - 1;
    let moved = advanced(w.stack);
    let w1 = looked(w, ask);
    lemma_names_advanced(w.stack);
    assert forall|n: Seq<char>| visited(w1, n) <==> visited(w, n) by {}
    assert forall|e: Edges| is_node(w1, e) <==> is_node(w, e) by {
        if is_node(w1, e) {
            if exists|i: int| w1.base <= i < w1.forward.len() && w1.forward[i] == e {
                let i = choose|i: int| w1.base <= i < w1.forward.len() && w1.forward[i] == e;
                assert(w.forward[i] == e);
            } else {
                let i = choose|i: int| 0 <= i < moved.len() && (#[trigger] moved[i]).node == e;
                if i < k {
                    assert(moved[i] == w.stack[i]);
                } else {
                    assert(moved[i] == moved.last());
                }
                assert(w.stack[i].node == e);
            }
        }
        if is_node(w, e) {
            if exists|i: int| w.base <= i < w.forward.len() && w.forward[i] == e {
                let i = choose|i: int| w.base <= i < w.forward.len() && w.forward[i] == e;
                assert(w1.forward[i] == e);
            } else {
                let i = choose|i: int| 0 <= i < w.stack.len() && (#[trigger] w.stack[i]).node == e;
                if i < k {
                    assert(moved[i] == w.stack[i]);
                } else {
                    assert(moved[i] == moved.last());
                }
                assert(moved[i].node == e);
                assert(w1.stack[i].node == e);
            }
        }
    }
}

/// A look at the next listed name keeps the walk sound.
proof fn lemma_looked_sound(w: Walk, ask: bool)
    requires
        coherent(w),
        w.stack.len() > 0,
        0 <= w.stack.last().next < targets(w.stack.last().node).len(),
    ensures
        sound(looked(w, ask)),
{
    let k = w.stack.len() - 1;
    let moved = advanced(w.stack);
    lemma_names_advanced(w.stack);
    assert forall|i: int| 0 <= i < moved.len() implies !has_key(
        w.forward,
        (#[trigger] moved[i]).node.name,
    ) && 0 <= moved[i].next <= targets(moved[i].node).len() by {
        if i < k {
            assert(moved[i] == w.stack[i]);
        } else {
            assert(moved[i].node == w.stack[k].node);
        }
    }
}

/// A look at the next listed name keeps the walk chained.
proof fn lemma_looked_chained(w: Walk, ask: bool)
    requires
        coherent(w),
        complete(w),
        w.stack.len() > 0,
        0 <= w.stack.last().next < targets(w.stack.last().node).len(),
        ask == !visited(w, targets(w.stack.last().node)[w.stack.last().next]),
    ensures
        chained(looked(w, ask)),
{
    let moved = advanced(w.stack);
    let w1 = looked(w, ask);
    lemma_names_advanced(w.stack);
    lemma_looked_nodes(w, ask);
    assert forall|i: int| 0 <= i < moved.len() - 1 implies (#[trigger] moved[i]).next >= 1
        && targets(moved[i].node)[moved[i].next - 1] == moved[i + 1].node.name by {
        assert(moved[i] == w.stack[i]);
        assert(moved[i + 1].node == w.stack[i + 1].node);
    }
    assert(moved[0].node == w.stack[0].node);
}

/// A look at the next listed name keeps the walk closed.
proof fn lemma_looked_closed(w: Walk, ask: bool)
    requires
        coherent(w),
        complete(w),
        w.stack.len() > 0,
        0 <= w.stack.last().next < targets(w.stack.last().node).len(),
        ask == !visited(w, targets(w.stack.last().node)[w.stack.last().next]),
    ensures
        closed(looked(w, ask)),
{
    let top = w.stack.last();
    let k = w.stack.len() - 1;
    let moved = advanced(w.stack);
    let w1 = looked(w, ask);
    let d = targets(top.node)[top.next];
    lemma_names_advanced(w.stack);
    lemma_looked_nodes(w, ask);
    assert(w.stack[k] == top);
    assert forall|i: int, j: int|
        w1.base <= i < w1.forward.len() && 0 <= j < targets(w1.forward[i]).len() implies visited(
        w1,
        #[trigger] targets(w1.forward[i])[j],
    ) by {
        assert(visited(w, targets(w.forward[i])[j]));
    }
    assert forall|i: int, j: int| 0 <= i < moved.len() && 0 <= j < moved[i].next implies {
        let x = #[trigger] targets(moved[i].node)[j];
        visited(w1, x) || w1.awaiting == Some(x)
    } by {
        if i < k {
            assert(moved[i] == w.stack[i]);
            let x = targets(w.stack[i].node)[j];
            assert(visited(w, x) || w.awaiting == Some(x));
        } else if j < top.next {
            let x = targets(w.stack[k].node)[j];
            assert(visited(w, x) || w.awaiting == Some(x));
        }
    }
}

/// Recording the innermost package, once all its listed names are looked at,
/// keeps the walk coherent.
pub proof fn lemma_popped(w: Walk)
    requires
        coherent(w),
        complete(w),
        w.stack.len() > 0,
        w.stack.last().next >= targets(w.stack.last().node).len(),
    ensures
        coherent(popped(w)),
        same_nodes(popped(w), w),
        !has_key(w.forward, w.stack.last().node.name),
        settle(w) == settle(popped(w)),
{
    lemma_popped_nodes(w);
    lemma_popped_sound(w);
    lemma_popped_chained(w);
    lemma_popped_closed(w);
    assert(w.stack[w.stack.len() - 1] == w.stack.last());
}

/// Looking at the next listed name keeps the walk coherent, whether the name
/// is asked for, being new, or passed over, being visited.
pub proof fn lemma_looked(w: Walk, ask: bool)
    requires
        coherent(w),
        complete(w),
        w.stack.len() > 0,
        0 <= w.stack.last().next < targets(w.stack.last().node).len(),
        ask == !visited(w, targets(w.stack.last().node)[w.stack.last().next]),
    ensures
        coherent(looked(w, ask)),
        same_nodes(looked(w, ask), w),
        looked(w, ask).stack.len() == w.stack.len(),
        left(looked(w, ask).stack.last()) < left(w.stack.last()),
        settle(w) == if ask {
            looked(w, ask)
        } else {
            settle(looked(w, ask))
        },
{
    lemma_names_advanced(w.stack);
    lemma_looked_nodes(w, ask);
    lemma_looked_sound(w, ask);
    lemma_looked_chained(w, ask);
    lemma_looked_closed(w, ask);
}

/// Settling keeps a coherent walk coherent and ends between two requests. It
/// visits nothing new and forgets nothing.
pub proof fn lemma_settle(w: Walk)
    requires
        coherent(w),
        complete(w),
    ensures
        inv(settle(w)),
        continues(w, settle(w)),
        settle(w).failure is None,
        same_nodes(settle(w), w),
    decreases w.stack.len(), left(w.stack.last()),
{
    assert(w.forward.take(w.forward.len() as int) =~= w.forward);
    if w.stack.len() > 0 {
        let top = w.stack.last();
        assert(w.stack[w.stack.len() - 1] == top);
        if top.next >= targets(top.node).len() {
            let w1 = popped(w);
            lemma_popped_nodes(w);
            lemma_popped_sound(w);
            lemma_popped_chained(w);
            lemma_popped_closed(w);
            lemma_settle(w1);
            assert(settle(w) == settle(w1));
            assert(settle(w).forward.take(w.forward.len() as int) =~= w.forward) by {
                assert(w1.forward.take(w.forward.len() as int) =~= w.forward);
                assert forall|i: int| 0 <= i < w.forward.len() implies settle(w).forward[i]
                    == w.forward[i] by {
                    assert(settle(w1).forward.take(w1.forward.len() as int)[i] == w1.forward[i]);
                }
            }
        } else {
            let ask = !visited(w, targets(top.node)[top.next]);
            let w1 = looked(w, ask);
            lemma_names_advanced(w.stack);
            lemma_looked_nodes(w, ask);
            lemma_looked_sound(w, ask);
            lemma_looked_chained(w, ask);
            lemma_looked_closed(w, ask);
            if ask {
                assert(settle(w) == w1);
            } else {
                lemma_settle(w1);
                assert(settle(w) == settle(w1));
            }
        }
    }
}

/// Putting the package that the walk waited for in progress keeps the walk
/// coherent, and adds this package and no other.
pub proof fn lemma_entered(w: Walk, deps: Option<Seq<Seq<char>>>)
    requires
        inv(w),
        w.awaiting is Some,
    ensures
        coherent(entered(w, deps)),
        complete(entered(w, deps)),
        continues(w, entered(w, deps)),
        forall|n: Seq<char>| visited(entered(w, deps), n) <==> (visited(w, n) || n == w.awaiting->0),
        forall|e: Edges|
            is_node(entered(w, deps), e) <==> (is_node(w, e) || e == Edges {
                name: w.awaiting->0,
                deps,
            }),
{
    let name = w.awaiting->0;
    let node = Edges { name, deps };
    let fresh = Visit { node, next: 0 };
    let pushed = w.stack.push(fresh);
    let w1 = entered(w, deps);
    let k = w.stack.len() as int;
    assert(w.forward.take(w.forward.len() as int) =~= w.forward);
    assert forall|n: Seq<char>| visited(w1, n) <==> (visited(w, n) || n == name) by {
        lemma_names_push(w.stack, fresh, n);
    }
    assert(sound(w1)) by {
        assert(names_on(pushed) =~= names_on(w.stack).push(name));
        assert(!names_on(w.stack).contains(name));
        assert forall|i: int| 0 <= i < pushed.len() implies !has_key(
            w.forward,
            (#[trigger] pushed[i]).node.name,
        ) && 0 <= pushed[i].next <= targets(pushed[i].node).len() by {
            if i < k {
                assert(pushed[i] == w.stack[i]);
            }
        }
    }
    assert(chained(w1)) by {
        if k > 0 {
            assert(pushed[0] == w.stack[0]);
        }
        assert forall|i: int| 0 <= i < pushed.len() - 1 implies (#[trigger] pushed[i]).next >= 1
            && targets(pushed[i].node)[pushed[i].next - 1] == pushed[i + 1].node.name by {
            assert(pushed[i] == w.stack[i]);
            if i + 1 < k {
                assert(pushed[i + 1] == w.stack[i + 1]);
            }
        }
    }
    assert(closed(w1)) by {
        assert forall|i: int, j: int|
            w1.base <= i < w1.forward.len() && 0 <= j < targets(w1.forward[i]).len() implies visited(
            w1,
            #[trigger] targets(w1.forward[i])[j],
        ) by {
            assert(visited(w, targets(w.forward[i])[j]));
        }
        assert forall|i: int, j: int| 0 <= i < pushed.len() && 0 <= j < pushed[i].next implies {
            let d = #[trigger] targets(pushed[i].node)[j];
            visited(w1, d) || w1.awaiting == Some(d)
        } by {
            if i < k {
                assert(pushed[i] == w.stack[i]);
                let d = targets(w.stack[i].node)[j];
                assert(visited(w, d) || w.awaiting == Some(d));
            }
        }
    }
    assert forall|e: Edges| is_node(w1, e) <==> (is_node(w, e) || e == node) by {
        if is_node(w1, e) {
            if exists|i: int| w1.base <= i < w1.forward.len() && w1.forward[i] == e {
                let i = choose|i: int| w1.base <= i < w1.forward.len() && w1.forward[i] == e;
                assert(w.forward[i] == e);
            } else {
                let i = choose|i: int| 0 <= i < pushed.len() && (#[trigger] pushed[i]).node == e;
                if i < k {
                    assert(w.stack[i].node == e);
                }
            }
        }
        if is_node(w, e) {
            if exists|i: int| w.base <= i < w.forward.len() && w.forward[i] == e {
                let i = choose|i: int| w.base <= i < w.forward.len() && w.forward[i] == e;
                assert(w1.forward[i] == e);
            } else {
                let i = choose|i: int| 0 <= i < w.stack.len() && (#[trigger] w.stack[i]).node == e;
                assert(pushed[i].node == e);
            }
        }
        if e == node {
            assert(pushed[k].node == e);
        }
    }
}

/// An answer keeps the walk in order. Nothing that was recorded or visited is
/// lost; listed names make the package that was asked for visited, and it is
/// the only one that they add.
pub proof fn lemma_supplied(w: Walk, outcome: Outcome)
    requires
        inv(w),
    ensures
        inv(supplied(w, outcome)),
        continues(w, supplied(w, outcome)),
        match (w.awaiting, outcome) {
            (Some(name), Ok(deps)) => {
                &&& supplied(w, outcome).failure is None
                &&& forall|n: Seq<char>|
                    visited(supplied(w, outcome), n) <==> (visited(w, n) || n == name)
                &&& forall|e: Edges|
                    is_node(supplied(w, outcome), e) <==> (is_node(w, e) || e == Edges {
                        name,
                        deps,
                    })
            },
            (Some(name), Err(reason)) => {
                &&& complete_with(supplied(w, outcome), w, Failure { package: name, reason })
            },
            (None, _) => supplied(w, outcome) == w,
        },
{
    assert(w.forward.take(w.forward.len() as int) =~= w.forward);
    match w.awaiting {
        None => {},
        Some(name) => match outcome {
            Err(reason) => {
                let w1 = supplied(w, outcome);
                assert forall|n: Seq<char>| visited(w1, n) <==> visited(w, n) by {}
                assert(sound(w1));
                assert(chained(w1));
                assert(closed(w1)) by {
                    assert forall|i: int, j: int|
                        w1.base <= i < w1.forward.len() && 0 <= j < targets(
                            w1.forward[i],
                        ).len() implies visited(w1, #[trigger] targets(w1.forward[i])[j]) by {
                        assert(visited(w, targets(w.forward[i])[j]));
                    }
                }
            },
            Ok(deps) => {
                let w1 = entered(w, deps);
                lemma_entered(w, deps);
                lemma_settle(w1);
                let w2 = settle(w1);
                assert(w2.forward.take(w.forward.len() as int) =~= w.forward) by {
                    assert forall|i: int| 0 <= i < w.forward.len() implies w2.forward[i]
                        == w.forward[i] by {
                        assert(w2.forward.take(w1.forward.len() as int)[i] == w1.forward[i]);
                    }
                }
            },
        },
    }
}

/// `after` is `before` once it has given up for `failure`: nothing else has
/// changed.
pub open spec fn complete_with(after: Walk, before: Walk, failure: Failure) -> bool {
    after == Walk { awaiting: None, failure: Some(failure), ..before }
}

/// The walk at its start is in order.
pub proof fn lemma_begun(forward: Seq<Edges>, root: Seq<char>)
    requires
        unique_keys(forward),
    ensures
        inv(begun(forward, root)),
{
    let w = begun(forward, root);
    assert(names_on(w.stack) =~= Seq::<Seq<char>>::empty());
}

/// The names that the walk asks for, one after the other, while it is given
/// `outcomes` in turn: its present request, then the requests that follow the
/// answers.
pub open spec fn requests(w: Walk, outcomes: Seq<Outcome>) -> Seq<Seq<char>>
    decreases outcomes.len(),
{
    match w.awaiting {
        None => Seq::empty(),
        Some(n) => if outcomes.len() == 0 {
            seq![n]
        } else {
            seq![n] + requests(supplied(w, outcomes[0]), outcomes.drop_first())
        },
    }
}

/// Whatever the metadata source answers, the walk asks for no package twice,
/// and for none that it has visited.
pub proof fn lemma_requests_distinct(w: Walk, outcomes: Seq<Outcome>)
    requires
        inv(w),
    ensures
        requests(w, outcomes).no_duplicates(),
        forall|i: int|
            0 <= i < requests(w, outcomes).len() ==> !visited(w, #[trigger] requests(w, outcomes)[i]),
    decreases outcomes.len(),
{
    match w.awaiting {
        None => {},
        Some(n) => {
            if outcomes.len() > 0 {
                let w1 = supplied(w, outcomes[0]);
                let rest = requests(w1, outcomes.drop_first());
                let all = requests(w, outcomes);
                lemma_supplied(w, outcomes[0]);
                lemma_requests_distinct(w1, outcomes.drop_first());
                assert(all =~= seq![n] + rest);
                assert forall|i: int| 0 <= i < rest.len() implies rest[i] != n && !visited(
                    w,
                    #[trigger] rest[i],
                ) by {
                    assert(!visited(w1, rest[i]));
                    match outcomes[0] {
                        Ok(deps) => {
                            assert(visited(w1, n));
                        },
                        Err(reason) => {
                            assert(w1.awaiting is None);
                        },
                    }
                }
                assert forall|i: int, j: int| 0 <= i < all.len() && 0 <= j < all.len() && i
                    != j implies all[i] != all[j] by {
                    if i > 0 && j > 0 {
                        assert(rest[i - 1] != rest[j - 1]);
                    } else if i > 0 {
                        assert(rest[i - 1] != n);
                    } else {
                        assert(rest[j - 1] != n);
                    }
                }
                assert forall|i: int| 0 <= i < all.len() implies !visited(w, #[trigger] all[i]) by {
                    if i > 0 {
                        assert(!visited(w, rest[i - 1]));
                    }
                }
            }
        },
    }
}

/// The walk asks at most once for each name there is: where all its requests
/// lie in a finite set of names, they are no more than the set has members.
pub proof fn lemma_requests_bounded(w: Walk, outcomes: Seq<Outcome>, universe: Set<Seq<char>>)
    requires
        inv(w),
        universe.finite(),
        forall|i: int|
            0 <= i < requests(w, outcomes).len() ==> universe.contains(
                #[trigger] requests(w, outcomes)[i],
            ),
    ensures
        requests(w, outcomes).len() <= universe.len(),
{
    let all = requests(w, outcomes);
    lemma_requests_distinct(w, outcomes);
    all.unique_seq_to_set();
    assert(all.to_set().subset_of(universe)) by {
        assert forall|n: Seq<char>| all.to_set().contains(n) implies universe.contains(n) by {
            let i = choose|i: int| 0 <= i < all.len() && all[i] == n;
            assert(universe.contains(all[i]));
        }
    }
    vstd::set_lib::lemma_len_subset(all.to_set(), universe);
}

} // verus!
