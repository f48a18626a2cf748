//! The resolver: the walk of one package and its dependencies, driven from
//! outside. It asks for the metadata of one package at a time and is given
//! the answer; it never asks twice for the same package.

use crate::deptree::{has_key, opt_texts, put, targets, texts, DepTree, Edges};
use crate::walk::{
    advanced, begun, coherent, complete, entered, inv, lemma_begun, lemma_entered, lemma_looked,
    lemma_popped, lemma_supplied, looked, names_on, popped, settle, supplied, visited, Failure,
    Outcome, Visit, Walk,
};
use vstd::prelude::*;
use vstd::string::StringExecFns;

verus! {

/// Resolution was given up: the metadata of `package` could not be had, for
/// `reason`.
#[derive(Debug)]
pub struct ResolveError {
    pub package: String,
    pub reason: String,
}

impl View for ResolveError {
    type V = Failure;

    open spec fn view(&self) -> Failure {
        Failure { package: self.package@, reason: self.reason@ }
    }
}

impl ResolveError {
    /// The error as a sentence.
    pub fn message(&self) -> (s: String)
        ensures
            s@ == "Could not get dependencies for package "@ + self.package@ + ": "@
                + self.reason@,
    {
        let mut s = String::from_str("Could not get dependencies for package ");
        s.append(self.package.as_str());
        s.append(": ");
        s.append(self.reason.as_str());
        s
    }
}

/// The mathematical value of an answer of the metadata source.
pub open spec fn outcome_view(outcome: Result<Option<Vec<String>>, String>) -> Outcome {
    match outcome {
        Ok(deps) => Ok(opt_texts(deps)),
        Err(reason) => Err(reason@),
    }
}

/// The mathematical value of an optional error.
pub open spec fn failure_view(failure: Option<ResolveError>) -> Option<Failure> {
    match failure {
        Some(e) => Some(e@),
        None => None,
    }
}

/// A package in progress.
struct Frame {
    name: String,
    deps: Option<Vec<String>>,
    next: usize,
}

impl View for Frame {
    type V = Visit;

    closed spec fn view(&self) -> Visit {
        Visit { node: Edges { name: self.name@, deps: opt_texts(self.deps) }, next: self.next as int }
    }
}

/// The walk of one package and all it depends on, over a mapping that it
/// extends.
pub struct Resolver {
    root: String,
    base: usize,
    forward: DepTree,
    stack: Vec<Frame>,
    awaiting: Option<String>,
    failure: Option<ResolveError>,
}

impl View for Resolver {
    type V = Walk;

    closed spec fn view(&self) -> Walk {
        Walk {
            root: self.root@,
            base: self.base as int,
            forward: self.forward@,
            stack: self.stack@.map_values(|f: Frame| f@),
            awaiting: match self.awaiting {
                Some(n) => Some(n@),
                None => None,
            },
            failure: failure_view(self.failure),
        }
    }
}

impl Resolver {
    /// The resolver is between two requests and in order.
    pub closed spec fn wf(&self) -> bool {
        inv(self@)
    }

    /// A resolver is in order exactly where its walk is.
    pub proof fn lemma_wf(&self)
        ensures
            self.wf() == inv(self@),
    {
    }

    /// Starts the resolution of `root` over `forward`, which may hold the
    /// entries of earlier resolutions. A root that is a key already needs
    /// nothing; any other is asked for first.
    pub fn begin(root: String, forward: DepTree) -> (r: Resolver)
        requires
            forward.wf(),
        ensures
            r.wf(),
            r@ == begun(forward@, root@),
    {
        proof {
            lemma_begun(forward@, root@);
        }
        let base = forward.len();
        let awaiting = if forward.contains_key(&root) {
            None
        } else {
            Some(root.clone())
        };
        let r = Resolver { root, base, forward, stack: Vec::new(), awaiting, failure: None };
        assert(r@.stack =~= Seq::<Visit>::empty());
        r
    }

    /// The package whose metadata the resolver wants next; none once it has
    /// finished or given up.
    pub fn pending(&self) -> (r: Option<&String>)
        ensures
            match r {
                Some(name) => self@.awaiting == Some(name@),
                None => self@.awaiting is None,
            },
    {
        self.awaiting.as_ref()
    }

    /// Whether resolution was given up.
    pub fn has_failed(&self) -> (b: bool)
        ensures
            b == self@.failure is Some,
    {
        self.failure.is_some()
    }

    /// Whether `name` is resolved or in progress.
    fn is_visited(&self, name: &String) -> (b: bool)
        ensures
            b == visited(self@, name@),
    {
        if self.forward.contains_key(name) {
            return true;
        }
        let ghost names = names_on(self@.stack);
        let mut i: usize = 0;
        while i < self.stack.len()
            invariant
                i <= self.stack@.len(),
                names == names_on(self@.stack),
                forall|j: int| 0 <= j < i ==> names[j] != name@,
            decreases self.stack@.len() - i,
        {
            if self.stack[i].name == *name {
                assert(names[i as int] == name@);
                return true;
            }
            i += 1;
        }
        false
    }

    /// The name that the innermost package lists next, if it has one left.
    fn next_listed(&self) -> (r: Option<String>)
        requires
            self@.stack.len() > 0,
            0 <= self@.stack.last().next <= targets(self@.stack.last().node).len(),
        ensures
            match r {
                Some(d) => self@.stack.last().next < targets(self@.stack.last().node).len() && d@
                    == targets(self@.stack.last().node)[self@.stack.last().next]
                    && self@.stack.last().next < usize::MAX,
                None => self@.stack.last().next >= targets(self@.stack.last().node).len(),
            },
    {
        let frame = &self.stack[self.stack.len() - 1];
        assert(frame@ == self@.stack.last());
        match &frame.deps {
            Some(listed) => {
                if frame.next < listed.len() {
                    Some(listed[frame.next].clone())
                } else {
                    None
                }
            },
            None => None,
        }
    }

    /// Records the innermost package as resolved.
    fn record_top(&mut self)
        requires
            old(self)@.stack.len() > 0,
            old(self).forward.wf(),
            !has_key(old(self)@.forward, old(self)@.stack.last().node.name),
        ensures
            final(self)@ == popped(old(self)@),
    {
        let ghost w = self@;
        let frame = self.stack.pop().unwrap();
        assert(frame@ == w.stack.last());
        self.forward.insert(frame.name, frame.deps);
        assert(self@.stack =~= w.stack.drop_last());
    }

    /// Looks at `d`, the name that the innermost package lists next, and asks
    /// for it unless it is visited.
    fn look_at(&mut self, d: String) -> (asked: bool)
        requires
            old(self)@.stack.len() > 0,
            old(self)@.awaiting is None,
            0 <= old(self)@.stack.last().next < targets(old(self)@.stack.last().node).len(),
            old(self)@.stack.last().next < usize::MAX,
            d@ == targets(old(self)@.stack.last().node)[old(self)@.stack.last().next],
        ensures
            asked == !visited(old(self)@, d@),
            final(self)@ == looked(old(self)@, asked),
    {
        let ghost w = self@;
        let known = self.is_visited(&d);
        let k: usize = self.stack.len() - 1;
        assert(w.stack[k as int] == w.stack.last());
        let frame = &mut self.stack[k];
        frame.next = frame.next + 1;
        assert(self@.stack =~= advanced(w.stack));
        if !known {
            self.awaiting = Some(d);
        }
        !known
    }

    /// Goes on as far as the metadata at hand allows.
    fn settle(&mut self)
        requires
            coherent(old(self)@),
            complete(old(self)@),
        ensures
            final(self)@ == settle(old(self)@),
    {
        loop
            invariant_except_break
                coherent(self@),
                complete(self@),
                settle(self@) == settle(old(self)@),
            ensures
                self@ == settle(old(self)@),
            decreases self@.stack.len(), crate::walk::left(self@.stack.last()),
        {
            let ghost w = self@;
            if self.stack.len() == 0 {
                break ;
            }
            assert(w.stack[w.stack.len() - 1] == w.stack.last());
            match self.next_listed() {
                None => {
                    proof {
                        lemma_popped(w);
                    }
                    self.record_top();
                },
                Some(d) => {
                    let asked = self.look_at(d);
                    proof {
                        lemma_looked(w, asked);
                    }
                    if asked {
                        break ;
                    }
                },
            }
        }
    }

    /// Gives the resolver the answer to its request: the names that the
    /// package lists, or the reason for which its metadata cannot be had. A
    /// failure ends the resolution, with the package attached. Listed names
    /// are resolved in turn, depth first: the resolver passes over those that
    /// are resolved or in progress and asks for the first that is neither. A
    /// resolver that waits for nothing is left as it is.
    pub fn supply(&mut self, outcome: Result<Option<Vec<String>>, String>)
        requires
            old(self).wf(),
        ensures
            final(self).wf(),
            final(self)@ == supplied(old(self)@, outcome_view(outcome)),
    {
        let ghost w = self@;
        proof {
            lemma_supplied(w, outcome_view(outcome));
        }
        match self.awaiting.take() {
            None => {
                assert(self@ == w);
            },
            Some(name) => match outcome {
                Err(reason) => {
                    self.failure = Some(ResolveError { package: name, reason });
                },
                Ok(deps) => {
                    proof {
                        lemma_entered(w, opt_texts(deps));
                    }
                    self.stack.push(Frame { name, deps, next: 0 });
                    assert(self@.stack =~= entered(w, opt_texts(deps)).stack);
                    assert(self@ == entered(w, opt_texts(deps)));
                    self.settle();
                },
            },
        }
    }

    /// Ends the resolution and hands out the mapping with all that was
    /// resolved, and the error if resolution was given up.
    pub fn finish(self) -> (r: (DepTree, Option<ResolveError>))
        requires
            self.wf(),
        ensures
            r.0.wf(),
            r.0@ == self@.forward,
            failure_view(r.1) == self@.failure,
    {
        (self.forward, self.failure)
    }
}

} // verus!
