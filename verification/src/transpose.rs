//! Transposition of a dependency mapping: from "what I depend on" to "who
//! depends on me".

use crate::deptree::{
    has_key, keys, lemma_key_index, lemma_lists_listed, linked, listed, lists, targets, texts,
    touched, unique_keys, DepTree, Edges,
};
use vstd::prelude::*;

verus! {

/// Every name that `m` mentions, in the order of mention: for each entry its
/// own name, then the names it lists.
pub open spec fn mentions(m: Seq<Edges>) -> Seq<Seq<char>>
    decreases m.len(),
{
    if m.len() == 0 {
        Seq::empty()
    } else {
        mentions(m.drop_last()).push(m.last().name) + targets(m.last())
    }
}

/// The pairs (`name`, target) for the targets `listed`, in order.
pub open spec fn links_from(name: Seq<char>, listed: Seq<Seq<char>>) -> Seq<(Seq<char>, Seq<char>)> {
    listed.map_values(|t: Seq<char>| (name, t))
}

/// Every edge of `m` as a pair (source, target), in the order of listing. A
/// target listed twice by one entry gives two edges.
pub open spec fn edge_list(m: Seq<Edges>) -> Seq<(Seq<char>, Seq<char>)>
    decreases m.len(),
{
    if m.len() == 0 {
        Seq::empty()
    } else {
        edge_list(m.drop_last()) + links_from(m.last().name, targets(m.last()))
    }
}

/// `s` without its repetitions: each name stays where it first occurs.
pub open spec fn first_occurrences(s: Seq<Seq<char>>) -> Seq<Seq<char>>
    decreases s.len(),
{
    if s.len() == 0 {
        Seq::empty()
    } else {
        let head = first_occurrences(s.drop_last());
        if head.contains(s.last()) {
            head
        } else {
            head.push(s.last())
        }
    }
}

/// The sources of the edges of `links` that end in `n`, in order, one for each
/// such edge.
pub open spec fn sources_into(links: Seq<(Seq<char>, Seq<char>)>, n: Seq<char>) -> Seq<Seq<char>>
    decreases links.len(),
{
    if links.len() == 0 {
        Seq::empty()
    } else {
        let head = sources_into(links.drop_last(), n);
        if links.last().1 == n {
            head.push(links.last().0)
        } else {
            head
        }
    }
}

/// The names that list `n` in `m`, in the order of their entries.
pub open spec fn dependents(m: Seq<Edges>, n: Seq<char>) -> Seq<Seq<char>> {
    sources_into(edge_list(m), n)
}

/// The entry of `n` in the transposed mapping: nothing where no edge ends in
/// `n`, else the sources of those edges.
pub open spec fn row(n: Seq<char>, links: Seq<(Seq<char>, Seq<char>)>) -> Edges {
    let d = sources_into(links, n);
    Edges { name: n, deps: if d.len() == 0 { None } else { Some(d) } }
}

/// One entry for each name of `seen`, in the order of first occurrence.
pub open spec fn table(seen: Seq<Seq<char>>, links: Seq<(Seq<char>, Seq<char>)>) -> Seq<Edges> {
    first_occurrences(seen).map_values(|n: Seq<char>| row(n, links))
}

/// The transposed mapping of `m`. Its keys are the names that `m` mentions, in
/// the order of first mention; each lists the names that list it in `m`.
pub open spec fn transposed(m: Seq<Edges>) -> Seq<Edges> {
    table(mentions(m), edge_list(m))
}

/// Each edge of `links` ends in a name of `seen`.
pub open spec fn ends_seen(seen: Seq<Seq<char>>, links: Seq<(Seq<char>, Seq<char>)>) -> bool {
    forall|i: int| 0 <= i < links.len() ==> seen.contains(#[trigger] links[i].1)
}

/// Dropping repetitions keeps exactly the names that occur, each once.
pub proof fn lemma_first_occurrences(s: Seq<Seq<char>>)
    ensures
        first_occurrences(s).no_duplicates(),
        forall|n: Seq<char>| first_occurrences(s).contains(n) <==> s.contains(n),
    decreases s.len(),
{
    if s.len() > 0 {
        let front = s.drop_last();
        lemma_first_occurrences(front);
        let head = first_occurrences(front);
        assert forall|n: Seq<char>| first_occurrences(s).contains(n) <==> s.contains(n) by {
            if s.contains(n) {
                let i = choose|i: int| 0 <= i < s.len() && s[i] == n;
                if i < s.len() - 1 {
                    assert(front[i] == n);
                    assert(front.contains(n));
                    assert(head.contains(n));
                }
                if !head.contains(s.last()) {
                    assert(head.push(s.last())[head.len() as int] == s.last());
                    if head.contains(n) {
                        let k = choose|k: int| 0 <= k < head.len() && head[k] == n;
                        assert(head.push(s.last())[k] == n);
                    }
                }
            }
            if first_occurrences(s).contains(n) {
                if head.contains(n) {
                    assert(front.contains(n));
                    let i = choose|i: int| 0 <= i < front.len() && front[i] == n;
                    assert(s[i] == n);
                } else {
                    assert(n == s.last());
                    assert(s[s.len() - 1] == n);
                }
            }
        }
    }
}

/// No edge ends in `n`: nothing depends on it.
proof fn lemma_no_sources(links: Seq<(Seq<char>, Seq<char>)>, n: Seq<char>)
    requires
        forall|i: int| 0 <= i < links.len() ==> (#[trigger] links[i]).1 != n,
    ensures
        sources_into(links, n) == Seq::<Seq<char>>::empty(),
    decreases links.len(),
{
    if links.len() > 0 {
        lemma_no_sources(links.drop_last(), n);
    }
}

/// The keys of a table are the names seen, without repetitions.
proof fn lemma_table_keys(seen: Seq<Seq<char>>, links: Seq<(Seq<char>, Seq<char>)>)
    ensures
        keys(table(seen, links)) == first_occurrences(seen),
        unique_keys(table(seen, links)),
        forall|n: Seq<char>| has_key(table(seen, links), n) <==> seen.contains(n),
{
    lemma_first_occurrences(seen);
    assert(keys(table(seen, links)) =~= first_occurrences(seen));
}

/// Mentioning one more name touches the table.
proof fn lemma_table_touch(seen: Seq<Seq<char>>, links: Seq<(Seq<char>, Seq<char>)>, name: Seq<char>)
    requires
        ends_seen(seen, links),
    ensures
        table(seen.push(name), links) == touched(table(seen, links), name),
        ends_seen(seen.push(name), links),
{
    lemma_table_keys(seen, links);
    let more = seen.push(name);
    assert(more.drop_last() =~= seen);
    assert forall|i: int| 0 <= i < links.len() implies more.contains(#[trigger] links[i].1) by {
        let k = choose|k: int| 0 <= k < seen.len() && seen[k] == links[i].1;
        assert(more[k] == links[i].1);
    }
    if !seen.contains(name) {
        assert forall|i: int| 0 <= i < links.len() implies (#[trigger] links[i]).1 != name by {
            assert(seen.contains(links[i].1));
        }
        lemma_no_sources(links, name);
        assert(table(more, links) =~= table(seen, links).push(Edges { name, deps: None }));
    }
}

/// Listing one more edge links the table.
proof fn lemma_table_link(
    seen: Seq<Seq<char>>,
    links: Seq<(Seq<char>, Seq<char>)>,
    source: Seq<char>,
    target: Seq<char>,
)
    requires
        ends_seen(seen, links),
    ensures
        table(seen.push(target), links.push((source, target))) == linked(
            table(seen, links),
            target,
            source,
        ),
        ends_seen(seen.push(target), links.push((source, target))),
{
    lemma_table_keys(seen, links);
    let more = seen.push(target);
    let longer = links.push((source, target));
    let old_table = table(seen, links);
    let fo = first_occurrences(seen);
    assert(more.drop_last() =~= seen);
    assert(longer.drop_last() =~= links);
    assert forall|i: int| 0 <= i < longer.len() implies more.contains(#[trigger] longer[i].1) by {
        if i < links.len() {
            let k = choose|k: int| 0 <= k < seen.len() && seen[k] == links[i].1;
            assert(more[k] == links[i].1);
        } else {
            assert(more[seen.len() as int] == target);
        }
    }
    assert forall|n: Seq<char>| n != target implies row(n, longer) == row(n, links) by {}
    if seen.contains(target) {
        let k = keys(old_table).index_of(target);
        assert(fo[k] == target);
        assert(targets(old_table[k]) =~= sources_into(links, target));
        let new_table = table(more, longer);
        let expected = old_table.update(
            k,
            Edges { name: target, deps: Some(targets(old_table[k]).push(source)) },
        );
        assert(new_table.len() == expected.len());
        assert forall|i: int| 0 <= i < new_table.len() implies new_table[i] == expected[i] by {
            if i != k {
                assert(fo[i] != fo[k]);
            }
        }
        assert(new_table =~= expected);
    } else {
        assert forall|i: int| 0 <= i < links.len() implies (#[trigger] links[i]).1 != target by {
            assert(seen.contains(links[i].1));
        }
        lemma_no_sources(links, target);
        assert(sources_into(longer, target) =~= seq![source]);
        let new_table = table(more, longer);
        let expected = old_table.push(Edges { name: target, deps: Some(seq![source]) });
        assert(new_table.len() == expected.len());
        assert forall|i: int| 0 <= i < new_table.len() implies new_table[i] == expected[i] by {
            if i < fo.len() {
                assert(fo.contains(fo[i]));
            }
        }
        assert(new_table =~= expected);
    }
}

/// An edge ends in `n` with source `s` exactly where `s` is among the sources
/// into `n`.
proof fn lemma_sources_contains(links: Seq<(Seq<char>, Seq<char>)>, n: Seq<char>, s: Seq<char>)
    ensures
        sources_into(links, n).contains(s) <==> links.contains((s, n)),
    decreases links.len(),
{
    if links.len() > 0 {
        let front = links.drop_last();
        let last = links.last();
        let head = sources_into(front, n);
        let all = sources_into(links, n);
        lemma_sources_contains(front, n, s);
        if links.contains((s, n)) {
            let i = choose|i: int| 0 <= i < links.len() && links[i] == (s, n);
            if i == links.len() - 1 {
                assert(all[head.len() as int] == s);
            } else {
                assert(front[i] == (s, n));
                assert(front.contains((s, n)));
                let k = choose|k: int| 0 <= k < head.len() && head[k] == s;
                assert(all[k] == s);
            }
        }
        if all.contains(s) {
            let k = choose|k: int| 0 <= k < all.len() && all[k] == s;
            if k < head.len() {
                assert(head[k] == s);
                assert(head.contains(s));
                let i = choose|i: int| 0 <= i < front.len() && front[i] == (s, n);
                assert(links[i] == (s, n));
            } else {
                assert(links[links.len() - 1] == (s, n));
            }
        }
    }
}

/// The edge list holds the pair (`source`, `target`) exactly where an entry
/// named `source` lists `target`.
proof fn lemma_edge_list_contains(m: Seq<Edges>, source: Seq<char>, target: Seq<char>)
    ensures
        edge_list(m).contains((source, target)) <==> lists(m, source, target),
    decreases m.len(),
{
    if m.len() > 0 {
        let front = m.drop_last();
        let last = m.last();
        let tail = links_from(last.name, targets(last));
        lemma_edge_list_contains(front, source, target);
        if edge_list(m).contains((source, target)) {
            let i = choose|i: int| 0 <= i < edge_list(m).len() && edge_list(m)[i] == (source, target);
            if i < edge_list(front).len() {
                assert(edge_list(front)[i] == (source, target));
                assert(edge_list(front).contains((source, target)));
                let k = choose|k: int|
                    0 <= k < front.len() && (#[trigger] front[k]).name == source && targets(
                        front[k],
                    ).contains(target);
                assert(m[k] == front[k]);
            } else {
                let j = i - edge_list(front).len();
                assert(tail[j] == (source, target));
                assert(targets(last)[j] == target);
                assert(m[m.len() - 1] == last);
            }
        }
        if lists(m, source, target) {
            let k = choose|k: int|
                0 <= k < m.len() && (#[trigger] m[k]).name == source && targets(m[k]).contains(
                    target,
                );
            if k < front.len() {
                assert(front[k] == m[k]);
                assert(lists(front, source, target));
                let i = choose|i: int|
                    0 <= i < edge_list(front).len() && edge_list(front)[i] == (source, target);
                assert(edge_list(m)[i] == (source, target));
            } else {
                let j = choose|j: int| 0 <= j < targets(last).len() && targets(last)[j] == target;
                assert(tail[j] == (source, target));
                assert(edge_list(m)[edge_list(front).len() + j] == (source, target));
            }
        }
    }
}

/// A name is mentioned exactly where it is a key or is listed by some entry.
proof fn lemma_mentions_contains(m: Seq<Edges>, n: Seq<char>)
    ensures
        mentions(m).contains(n) <==> (has_key(m, n) || exists|s: Seq<char>| lists(m, s, n)),
    decreases m.len(),
{
    if m.len() == 0 {
        assert(keys(m) =~= Seq::<Seq<char>>::empty());
    } else {
        let front = m.drop_last();
        let last = m.last();
        let head = mentions(front).push(last.name);
        lemma_mentions_contains(front, n);
        assert(keys(m) =~= keys(front).push(last.name));
        if mentions(m).contains(n) {
            let i = choose|i: int| 0 <= i < mentions(m).len() && mentions(m)[i] == n;
            if i < mentions(front).len() {
                assert(mentions(front)[i] == n);
                assert(mentions(front).contains(n));
                if has_key(front, n) {
                    let k = choose|k: int| 0 <= k < keys(front).len() && keys(front)[k] == n;
                    assert(keys(m)[k] == n);
                } else {
                    let s = choose|s: Seq<char>| lists(front, s, n);
                    let k = choose|k: int|
                        0 <= k < front.len() && (#[trigger] front[k]).name == s && targets(
                            front[k],
                        ).contains(n);
                    assert(m[k] == front[k]);
                    assert(lists(m, s, n));
                }
            } else if i == mentions(front).len() {
                assert(keys(m)[m.len() - 1] == n);
            } else {
                let j = i - head.len();
                assert(targets(last)[j] == n);
                assert(m[m.len() - 1] == last);
                assert(lists(m, last.name, n));
            }
        }
        if has_key(m, n) {
            let k = choose|k: int| 0 <= k < keys(m).len() && keys(m)[k] == n;
            if k < front.len() {
                assert(keys(front)[k] == n);
                assert(has_key(front, n));
                let i = choose|i: int| 0 <= i < mentions(front).len() && mentions(front)[i] == n;
                assert(mentions(m)[i] == n);
            } else {
                assert(mentions(m)[mentions(front).len() as int] == n);
            }
        }
        if exists|s: Seq<char>| lists(m, s, n) {
            let s = choose|s: Seq<char>| lists(m, s, n);
            let k = choose|k: int|
                0 <= k < m.len() && (#[trigger] m[k]).name == s && targets(m[k]).contains(n);
            if k < front.len() {
                assert(front[k] == m[k]);
                assert(lists(front, s, n));
                let i = choose|i: int| 0 <= i < mentions(front).len() && mentions(front)[i] == n;
                assert(mentions(m)[i] == n);
            } else {
                let j = choose|j: int| 0 <= j < targets(last).len() && targets(last)[j] == n;
                assert(mentions(m)[head.len() + j] == n);
            }
        }
    }
}

/// The keys of the transposed mapping are exactly the names that the mapping
/// mentions, as a key or in a list, and none of them twice: a name on which
/// nothing depends is a key all the same.
pub proof fn lemma_transposed_keys(m: Seq<Edges>, n: Seq<char>)
    ensures
        unique_keys(transposed(m)),
        has_key(transposed(m), n) <==> (has_key(m, n) || exists|s: Seq<char>| lists(m, s, n)),
{
    lemma_table_keys(mentions(m), edge_list(m));
    lemma_mentions_contains(m, n);
}

/// What the transposed mapping lists for `n` are the dependents of `n`, in
/// the order of their entries.
pub proof fn lemma_transposed_listed(m: Seq<Edges>, n: Seq<char>)
    ensures
        listed(transposed(m), n) == dependents(m, n),
{
    let seen = mentions(m);
    let links = edge_list(m);
    lemma_table_keys(seen, links);
    if has_key(transposed(m), n) {
        let k = keys(transposed(m)).index_of(n);
        assert(keys(transposed(m))[k] == n);
        assert(first_occurrences(seen)[k] == n);
        assert(targets(transposed(m)[k]) =~= sources_into(links, n));
    } else {
        assert forall|i: int| 0 <= i < links.len() implies (#[trigger] links[i]).1 != n by {
            if links[i].1 == n {
                assert(links.contains((links[i].0, n)));
                lemma_edge_list_contains(m, links[i].0, n);
                lemma_mentions_contains(m, n);
            }
        }
        lemma_no_sources(links, n);
    }
}

/// Transposition turns every edge round and adds none: the transposed mapping
/// lists `d` for `p` exactly where the mapping lists `p` for `d`.
pub proof fn lemma_transpose_edges(m: Seq<Edges>, p: Seq<char>, d: Seq<char>)
    requires
        unique_keys(m),
    ensures
        listed(transposed(m), p).contains(d) <==> listed(m, d).contains(p),
{
    lemma_transposed_listed(m, p);
    lemma_sources_contains(edge_list(m), p, d);
    lemma_edge_list_contains(m, d, p);
    lemma_lists_listed(m, d, p);
}

/// How often `x` occurs in `s`.
pub open spec fn count(s: Seq<Seq<char>>, x: Seq<char>) -> nat
    decreases s.len(),
{
    if s.len() == 0 {
        0
    } else {
        count(s.drop_last(), x) + if s.last() == x {
            1nat
        } else {
            0nat
        }
    }
}

/// How often the edge from `a` to `b` occurs in `links`.
spec fn count_links(links: Seq<(Seq<char>, Seq<char>)>, a: Seq<char>, b: Seq<char>) -> nat
    decreases links.len(),
{
    if links.len() == 0 {
        0
    } else {
        count_links(links.drop_last(), a, b) + if links.last() == (a, b) {
            1nat
        } else {
            0nat
        }
    }
}

/// A source occurs among the sources into `b` as often as its edge to `b` is listed.
proof fn lemma_count_sources(links: Seq<(Seq<char>, Seq<char>)>, a: Seq<char>, b: Seq<char>)
    ensures
        count(sources_into(links, b), a) == count_links(links, a, b),
    decreases links.len(),
{
    if links.len() > 0 {
        let head = sources_into(links.drop_last(), b);
        lemma_count_sources(links.drop_last(), a, b);
        if links.last().1 == b {
            assert(head.push(links.last().0).drop_last() =~= head);
        }
    }
}

/// The edges of two lists are counted one list after the other.
proof fn lemma_count_links_add(
    first: Seq<(Seq<char>, Seq<char>)>,
    second: Seq<(Seq<char>, Seq<char>)>,
    a: Seq<char>,
    b: Seq<char>,
)
    ensures
        count_links(first + second, a, b) == count_links(first, a, b) + count_links(second, a, b),
    decreases second.len(),
{
    if second.len() == 0 {
        assert(first + second =~= first);
    } else {
        lemma_count_links_add(first, second.drop_last(), a, b);
        assert((first + second).drop_last() =~= first + second.drop_last());
    }
}

/// The edges from one name are as many as the name lists.
proof fn lemma_count_links_from(name: Seq<char>, listed: Seq<Seq<char>>, a: Seq<char>, b: Seq<char>)
    ensures
        count_links(links_from(name, listed), a, b) == if name == a {
            count(listed, b)
        } else {
            0
        },
    decreases listed.len(),
{
    if listed.len() > 0 {
        lemma_count_links_from(name, listed.drop_last(), a, b);
        assert(links_from(name, listed).drop_last() =~= links_from(name, listed.drop_last()));
    }
}

/// With unique keys, the edges from `a` to `b` are as many as `a` lists `b`.
proof fn lemma_count_edges(m: Seq<Edges>, a: Seq<char>, b: Seq<char>)
    requires
        unique_keys(m),
    ensures
        count_links(edge_list(m), a, b) == count(listed(m, a), b),
    decreases m.len(),
{
    if m.len() == 0 {
        assert(keys(m) =~= Seq::<Seq<char>>::empty());
    } else {
        let front = m.drop_last();
        let last = m.last();
        let k = m.len() - 1;
        assert(keys(front) =~= keys(m).drop_last());
        lemma_count_edges(front, a, b);
        lemma_count_links_add(edge_list(front), links_from(last.name, targets(last)), a, b);
        lemma_count_links_from(last.name, targets(last), a, b);
        lemma_key_index(m, k);
        if last.name == a {
            if has_key(front, a) {
                let i = choose|i: int| 0 <= i < keys(front).len() && keys(front)[i] == a;
                assert(keys(m)[i] == a);
                assert(keys(m)[k] == a);
            }
        } else if has_key(front, a) {
            let i = keys(front).index_of(a);
            assert(keys(front)[i] == a);
            assert(m[i] == front[i]);
            lemma_key_index(m, i);
        } else if has_key(m, a) {
            let i = choose|i: int| 0 <= i < keys(m).len() && keys(m)[i] == a;
            assert(keys(front)[i] == a);
        }
    }
}

/// Each edge is turned round once: `a` occurs among the dependents of `b` as
/// often as `a` lists `b`.
pub proof fn lemma_transpose_counts(m: Seq<Edges>, a: Seq<char>, b: Seq<char>)
    requires
        unique_keys(m),
    ensures
        count(listed(transposed(m), b), a) == count(listed(m, a), b),
{
    lemma_transposed_listed(m, b);
    lemma_count_sources(edge_list(m), a, b);
    lemma_count_edges(m, a, b);
}

/// Builds the mapping from each name to the names that depend on it. Every
/// name that `forward` mentions becomes a key, whether or not anything depends
/// on it; keys and dependents stand in the order in which `forward` mentions
/// them.
pub fn transpose(forward: &DepTree) -> (reverse: DepTree)
    ensures
        reverse.wf(),
        reverse@ == transposed(forward@),
{
    let mut reverse = DepTree::new();
    let ghost mut seen = Seq::<Seq<char>>::empty();
    let ghost mut links = Seq::<(Seq<char>, Seq<char>)>::empty();
    assert(table(seen, links) =~= Seq::<Edges>::empty());
    let mut i: usize = 0;
    while i < forward.len()
        invariant
            i <= forward@.len(),
            seen == mentions(forward@.take(i as int)),
            links == edge_list(forward@.take(i as int)),
            ends_seen(seen, links),
            reverse@ == table(seen, links),
            reverse.wf(),
        decreases forward@.len() - i,
    {
        let entry = forward.entry(i);
        let ghost seen_before = seen;
        let ghost links_before = links;
        proof {
            lemma_table_touch(seen, links, entry.name@);
            seen = seen.push(entry.name@);
        }
        reverse.ensure_key(&entry.name);
        match &entry.deps {
            None => {},
            Some(deps) => {
                let mut j: usize = 0;
                while j < deps.len()
                    invariant
                        j <= deps@.len(),
                        seen == seen_before.push(entry.name@) + texts(deps@).take(j as int),
                        links == links_before + links_from(
                            entry.name@,
                            texts(deps@).take(j as int),
                        ),
                        ends_seen(seen, links),
                        reverse@ == table(seen, links),
                        reverse.wf(),
                    decreases deps@.len() - j,
                {
                    let ghost target = deps[j as int]@;
                    proof {
                        lemma_table_link(seen, links, entry.name@, target);
                        assert(texts(deps@).take(j + 1) =~= texts(deps@).take(j as int).push(
                            target,
                        ));
                        assert(seen.push(target) =~= seen_before.push(entry.name@) + texts(
                            deps@,
                        ).take(j + 1));
                        assert(links.push((entry.name@, target)) =~= links_before + links_from(
                            entry.name@,
                            texts(deps@).take(j + 1),
                        ));
                        seen = seen.push(target);
                        links = links.push((entry.name@, target));
                    }
                    reverse.add_link(&deps[j], &entry.name);
                    j += 1;
                }
                assert(texts(deps@).take(j as int) =~= texts(deps@));
            },
        }
        proof {
            let next = forward@.take(i + 1);
            assert(next.drop_last() =~= forward@.take(i as int));
            assert(next.last() == entry@);
            assert(seen =~= mentions(next));
            assert(links =~= edge_list(next));
        }
        i += 1;
    }
    assert(forward@.take(i as int) =~= forward@);
    proof {
        lemma_table_keys(seen, links);
    }
    reverse
}

} // verus!
