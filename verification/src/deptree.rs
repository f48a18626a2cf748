//! An insertion-ordered mapping from package names to their listed neighbours.

use vstd::prelude::*;

verus! {

/// The characters of each string of `v`, in order.
pub open spec fn texts(v: Seq<String>) -> Seq<Seq<char>> {
    v.map_values(|s: String| s@)
}

/// The mathematical value of an optional list of names.
pub open spec fn opt_texts(d: Option<Vec<String>>) -> Option<Seq<Seq<char>>> {
    match d {
        None => None,
        Some(v) => Some(texts(v@)),
    }
}

/// One node of a graph as contracts see it: its name and the names it points
/// to. `None` and an empty list both mean that it points to nothing.
pub struct Edges {
    pub name: Seq<char>,
    pub deps: Option<Seq<Seq<char>>>,
}

/// The names an entry points to.
pub open spec fn targets(e: Edges) -> Seq<Seq<char>> {
    match e.deps {
        None => Seq::empty(),
        Some(d) => d,
    }
}

/// The names of the entries of `m`, in order.
pub open spec fn keys(m: Seq<Edges>) -> Seq<Seq<char>> {
    m.map_values(|e: Edges| e.name)
}

/// `m` has an entry for `name`.
pub open spec fn has_key(m: Seq<Edges>, name: Seq<char>) -> bool {
    keys(m).contains(name)
}

/// No two entries of `m` share a name.
pub open spec fn unique_keys(m: Seq<Edges>) -> bool {
    keys(m).no_duplicates()
}

/// The names listed for `n` in `m`; none where `n` is no key.
pub open spec fn listed(m: Seq<Edges>, n: Seq<char>) -> Seq<Seq<char>> {
    if has_key(m, n) {
        targets(m[keys(m).index_of(n)])
    } else {
        Seq::empty()
    }
}

/// Some entry of `m` named `source` lists `target`.
pub open spec fn lists(m: Seq<Edges>, source: Seq<char>, target: Seq<char>) -> bool {
    exists|i: int|
        0 <= i < m.len() && (#[trigger] m[i]).name == source && targets(m[i]).contains(target)
}

/// `m` with the entry `e` recorded: in place of the entry of the same name
/// where there is one, else at the end.
pub open spec fn put(m: Seq<Edges>, e: Edges) -> Seq<Edges> {
    if has_key(m, e.name) {
        m.update(keys(m).index_of(e.name), e)
    } else {
        m.push(e)
    }
}

/// `m` with a key for `name`: unchanged where it has one, else with a new
/// entry at the end that lists nothing.
pub open spec fn touched(m: Seq<Edges>, name: Seq<char>) -> Seq<Edges> {
    if has_key(m, name) {
        m
    } else {
        m.push(Edges { name, deps: None })
    }
}

/// `m` with `source` added at the end of the list of `target`, whose entry is
/// made at the end where there is none.
pub open spec fn linked(m: Seq<Edges>, target: Seq<char>, source: Seq<char>) -> Seq<Edges> {
    if has_key(m, target) {
        let k = keys(m).index_of(target);
        m.update(k, Edges { name: target, deps: Some(targets(m[k]).push(source)) })
    } else {
        m.push(Edges { name: target, deps: Some(seq![source]) })
    }
}

/// A package name together with the names listed for it.
pub struct DepEntry {
    pub name: String,
    pub deps: Option<Vec<String>>,
}

impl View for DepEntry {
    type V = Edges;

    open spec fn view(&self) -> Edges {
        Edges { name: self.name@, deps: opt_texts(self.deps) }
    }
}

/// A mapping from package names to optional lists of names that remembers the
/// order in which its keys were first inserted.
pub struct DepTree {
    entries: Vec<DepEntry>,
}

impl View for DepTree {
    type V = Seq<Edges>;

    closed spec fn view(&self) -> Seq<Edges> {
        self.entries@.map_values(|e: DepEntry| e@)
    }
}

impl DepTree {
    /// Every name is a key at most once.
    pub open spec fn wf(&self) -> bool {
        unique_keys(self@)
    }

    /// The empty mapping.
    pub fn new() -> (t: DepTree)
        ensures
            t@ == Seq::<Edges>::empty(),
            t.wf(),
    {
        let t = DepTree { entries: Vec::new() };
        assert(t@ =~= Seq::<Edges>::empty());
        assert(keys(t@) =~= Seq::<Seq<char>>::empty());
        t
    }

    /// The number of keys.
    pub fn len(&self) -> (n: usize)
        ensures
            n == self@.len(),
    {
        self.entries.len()
    }

    /// Where the entry of `name` stands, if there is one.
    pub fn position(&self, name: &String) -> (r: Option<usize>)
        ensures
            match r {
                Some(i) => i < self@.len() && self@[i as int].name == name@
                    && forall|j: int| 0 <= j < i ==> self@[j].name != name@,
                None => !has_key(self@, name@),
            },
    {
        let mut i: usize = 0;
        while i < self.entries.len()
            invariant
                i <= self.entries.len(),
                forall|j: int| 0 <= j < i ==> self@[j].name != name@,
            decreases self.entries.len() - i,
        {
            if self.entries[i].name == *name {
                return Some(i);
            }
            i += 1;
        }
        assert(!has_key(self@, name@)) by {
            if has_key(self@, name@) {
                let j = choose|j: int| 0 <= j < keys(self@).len() && keys(self@)[j] == name@;
                assert(self@[j].name == name@);
            }
        }
        None
    }

    /// Whether `name` is a key.
    pub fn contains_key(&self, name: &String) -> (b: bool)
        ensures
            b == has_key(self@, name@),
    {
        match self.position(name) {
            Some(i) => {
                assert(keys(self@)[i as int] == name@);
                true
            },
            None => false,
        }
    }

    /// The entry at position `i`.
    pub fn entry(&self, i: usize) -> (e: &DepEntry)
        requires
            i < self@.len(),
        ensures
            e@ == self@[i as int],
    {
        &self.entries[i]
    }

    /// Records `deps` for `name`: an existing key keeps its place and gets the
    /// new list, a new key goes to the end.
    pub fn insert(&mut self, name: String, deps: Option<Vec<String>>)
        requires
            old(self).wf(),
        ensures
            final(self).wf(),
            final(self)@ == put(old(self)@, Edges { name: name@, deps: opt_texts(deps) }),
    {
        let ghost e = Edges { name: name@, deps: opt_texts(deps) };
        let ghost before = self@;
        match self.position(&name) {
            Some(i) => {
                proof {
                    lemma_key_index(before, i as int);
                }
                self.entries.set(i, DepEntry { name, deps });
                assert(self@ =~= before.update(i as int, e));
                assert(keys(self@) =~= keys(before));
            },
            None => {
                self.entries.push(DepEntry { name, deps });
                assert(self@ =~= before.push(e));
                assert(keys(self@) =~= keys(before).push(e.name));
                assert(keys(self@).no_duplicates());
            },
        }
    }

    /// Makes `name` a key if it is none yet, with nothing listed for it.
    pub fn ensure_key(&mut self, name: &String)
        requires
            old(self).wf(),
        ensures
            final(self).wf(),
            final(self)@ == touched(old(self)@, name@),
    {
        let ghost before = self@;
        if !self.contains_key(name) {
            self.entries.push(DepEntry { name: name.clone(), deps: None });
            assert(self@ =~= before.push(Edges { name: name@, deps: None }));
            assert(keys(self@) =~= keys(before).push(name@));
        }
    }

    /// Appends `source` to the list of `target`, making `target` a key if it
    /// is none yet.
    pub fn add_link(&mut self, target: &String, source: &String)
        requires
            old(self).wf(),
        ensures
            final(self).wf(),
            final(self)@ == linked(old(self)@, target@, source@),
    {
        let ghost before = self@;
        match self.position(target) {
            Some(k) => {
                proof {
                    lemma_key_index(before, k as int);
                }
                let ghost listed = targets(before[k as int]);
                let entry = &mut self.entries[k];
                match &mut entry.deps {
                    Some(v) => {
                        v.push(source.clone());
                        assert(texts(v@) =~= listed.push(source@));
                    },
                    None => {
                        let mut v: Vec<String> = Vec::new();
                        v.push(source.clone());
                        assert(texts(v@) =~= listed.push(source@));
                        entry.deps = Some(v);
                    },
                }
                assert(self@ =~= before.update(
                    k as int,
                    Edges { name: target@, deps: Some(listed.push(source@)) },
                ));
                assert(keys(self@) =~= keys(before));
            },
            None => {
                let mut v: Vec<String> = Vec::new();
                v.push(source.clone());
                assert(texts(v@) =~= seq![source@]);
                self.entries.push(DepEntry { name: target.clone(), deps: Some(v) });
                assert(self@ =~= before.push(Edges { name: target@, deps: Some(seq![source@]) }));
                assert(keys(self@) =~= keys(before).push(target@));
            },
        }
    }
}

/// A copy of `names`.
pub fn copy_names(names: &Vec<String>) -> (r: Vec<String>)
    ensures
        texts(r@) == texts(names@),
{
    let mut r: Vec<String> = Vec::new();
    let mut i: usize = 0;
    while i < names.len()
        invariant
            i <= names@.len(),
            texts(r@) == texts(names@).take(i as int),
        decreases names@.len() - i,
    {
        let ghost before = r@;
        r.push(names[i].clone());
        assert(texts(r@) =~= texts(before).push(names@[i as int]@));
        assert(texts(names@).take(i + 1) =~= texts(names@).take(i as int).push(names@[i as int]@));
        i += 1;
    }
    assert(texts(names@).take(i as int) =~= texts(names@));
    r
}

/// A copy of an optional list of names.
pub fn copy_listed(deps: &Option<Vec<String>>) -> (r: Option<Vec<String>>)
    ensures
        opt_texts(r) == opt_texts(*deps),
{
    match deps {
        Some(names) => Some(copy_names(names)),
        None => None,
    }
}

/// In a mapping with unique keys, the key at position `i` is found at `i`.
pub proof fn lemma_key_index(m: Seq<Edges>, i: int)
    requires
        unique_keys(m),
        0 <= i < m.len(),
    ensures
        has_key(m, m[i].name),
        keys(m).index_of(m[i].name) == i,
{
    assert(keys(m)[i] == m[i].name);
    let k = keys(m).index_of(m[i].name);
    assert(keys(m)[k] == m[i].name);
}

/// With unique keys, the entry named `source` is the only one that can list
/// anything for it.
pub proof fn lemma_lists_listed(m: Seq<Edges>, source: Seq<char>, target: Seq<char>)
    requires
        unique_keys(m),
    ensures
        lists(m, source, target) <==> listed(m, source).contains(target),
{
    if lists(m, source, target) {
        let i = choose|i: int|
            0 <= i < m.len() && (#[trigger] m[i]).name == source && targets(m[i]).contains(target);
        lemma_key_index(m, i);
    }
    if listed(m, source).contains(target) {
        let k = keys(m).index_of(source);
        assert(keys(m)[k] == source);
        assert(m[k].name == source);
    }
}

} // verus!
