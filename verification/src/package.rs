//! An installed package as the catalog lists it.

use crate::deptree::{opt_texts, texts};
use vstd::prelude::*;

verus! {

/// An installed package. The name identifies it; version and description are
/// carried along for display.
pub struct Package {
    pub name: String,
    pub version: String,
    pub description: String,
    pub dependencies: Option<Vec<String>>,
}

/// A package as contracts see it.
pub struct PackageInfo {
    pub name: Seq<char>,
    pub version: Seq<char>,
    pub description: Seq<char>,
    pub dependencies: Option<Seq<Seq<char>>>,
}

impl View for Package {
    type V = PackageInfo;

    open spec fn view(&self) -> PackageInfo {
        PackageInfo {
            name: self.name@,
            version: self.version@,
            description: self.description@,
            dependencies: opt_texts(self.dependencies),
        }
    }
}

/// The packages of `v` as contracts see them, in order.
pub open spec fn infos(v: Seq<Package>) -> Seq<PackageInfo> {
    v.map_values(|p: Package| p@)
}

/// The names of the packages, in order.
pub open spec fn names_of(v: Seq<PackageInfo>) -> Seq<Seq<char>> {
    v.map_values(|p: PackageInfo| p.name)
}

/// The names of `all` that are among `wanted`, in the order of `all`.
pub open spec fn kept(all: Seq<Seq<char>>, wanted: Seq<Seq<char>>) -> Seq<Seq<char>>
    decreases all.len(),
{
    if all.len() == 0 {
        Seq::empty()
    } else {
        let head = kept(all.drop_last(), wanted);
        if wanted.contains(all.last()) {
            head.push(all.last())
        } else {
            head
        }
    }
}

/// The names to start from: all of them where nothing is asked for, else
/// those that are asked for.
pub open spec fn selected(all: Seq<Seq<char>>, wanted: Seq<Seq<char>>) -> Seq<Seq<char>> {
    if wanted.len() == 0 {
        all
    } else {
        kept(all, wanted)
    }
}

/// Whether `name` is one of `names`.
pub fn contains_name(names: &Vec<String>, name: &String) -> (b: bool)
    ensures
        b == texts(names@).contains(name@),
{
    let mut i: usize = 0;
    while i < names.len()
        invariant
            i <= names@.len(),
            forall|j: int| 0 <= j < i ==> texts(names@)[j] != name@,
        decreases names@.len() - i,
    {
        if names[i] == *name {
            assert(texts(names@)[i as int] == name@);
            return true;
        }
        i += 1;
    }
    false
}

/// The names of the packages to resolve: with an empty filter those of all
/// installed packages, else those of the installed packages that the filter
/// names; in either case in the order of the catalog.
pub fn select_names(packages: &Vec<Package>, wanted: &Vec<String>) -> (names: Vec<String>)
    ensures
        texts(names@) == selected(names_of(infos(packages@)), texts(wanted@)),
{
    let ghost all = names_of(infos(packages@));
    let take_all = wanted.len() == 0;
    let mut names: Vec<String> = Vec::new();
    let mut i: usize = 0;
    assert(all.take(0) =~= Seq::<Seq<char>>::empty());
    assert(texts(names@) =~= Seq::<Seq<char>>::empty());
    while i < packages.len()
        invariant
            i <= packages@.len(),
            all == names_of(infos(packages@)),
            take_all == (wanted@.len() == 0),
            texts(names@) == if take_all {
                all.take(i as int)
            } else {
                kept(all.take(i as int), texts(wanted@))
            },
        decreases packages@.len() - i,
    {
        let ghost before = texts(names@);
        let ghost next = all.take(i + 1);
        assert(next.drop_last() =~= all.take(i as int));
        assert(next.last() == packages@[i as int].name@);
        if take_all || contains_name(wanted, &packages[i].name) {
            names.push(packages[i].name.clone());
            assert(texts(names@) =~= before.push(packages@[i as int].name@));
        }
        assert(take_all ==> texts(names@) =~= next);
        i += 1;
    }
    assert(all.take(i as int) =~= all);
    names
}

} // verus!
