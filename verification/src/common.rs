//! Small shared types: dependency name hashes, package indices and the
//! list of the packages that provide one virtual package.

use vstd::prelude::*;

verus! {

/// Hash of the name of a dependency, used for mapping dependencies to their providers.
#[derive(Clone, Copy, PartialEq, Eq, Hash, Debug)]
pub struct DepHash(pub u64);

/// Index of a package in the package list (and in the dependency matrix).
#[derive(Clone, Copy, PartialEq, Eq, Hash, Debug)]
pub struct PackageIndex(pub usize);

/// The package at `u` waits on `stack`.
pub open spec fn on_stack(stack: Seq<PackageIndex>, u: int) -> bool {
    exists|k: int| 0 <= k < stack.len() && #[trigger] stack[k].0 == u
}

/// A node in a linked list of virtual package providers.
struct ProviderNode {
    pkg: PackageIndex,
    next: Option<Box<ProviderNode>>,
}

impl ProviderNode {
    /// The providers held by this node and the nodes after it, in list order.
    spec fn items(self) -> Seq<PackageIndex>
        decreases self,
    {
        match self.next {
            Some(next) => seq![self.pkg] + next.items(),
            None => seq![self.pkg],
        }
    }

    proof fn lemma_items_nonempty(self)
        ensures
            self.items().len() >= 1,
            self.items()[0] == self.pkg,
    {
    }

    /// Adds `pkg` after the last node of the list that starts here.
    fn append(&mut self, pkg: PackageIndex)
        ensures
            final(self).items() == old(self).items().push(pkg),
        decreases old(self).items().len(),
    {
        match self.next.take() {
            Some(mut next) => {
                proof {
                    next.lemma_items_nonempty();
                }
                let ghost before = next.items();
                next.append(pkg);
                self.next = Some(next);
                assert(self.items() =~= seq![self.pkg] + before.push(pkg));
            },
            None => {
                let last = ProviderNode { pkg, next: None };
                assert(last.items() == seq![pkg]);
                self.next = Some(Box::new(last));
                assert(self.items() =~= seq![self.pkg].push(pkg));
            },
        }
    }
}

/// A singly-linked list of the packages that provide one virtual package.
/// There is always at least one provider.
pub struct ProviderList {
    head: ProviderNode,
}

impl View for ProviderList {
    type V = Seq<PackageIndex>;

    /// The providers, in the order in which they were added.
    closed spec fn view(&self) -> Seq<PackageIndex> {
        self.head.items()
    }
}

impl ProviderList {
    /// A list always holds at least one provider.
    pub proof fn lemma_nonempty(&self)
        ensures
            self@.len() >= 1,
    {
        self.head.lemma_items_nonempty();
    }

    /// A list that holds the one provider `pkg`.
    pub fn new(pkg: PackageIndex) -> (list: Self)
        ensures
            list@ == seq![pkg],
    {
        ProviderList { head: ProviderNode { pkg, next: None } }
    }

    /// Appends `pkg` at the end of the list.
    pub fn add_provider(&mut self, pkg: PackageIndex)
        ensures
            final(self)@ == old(self)@.push(pkg),
    {
        self.head.append(pkg);
    }

    /// The provider that was added first.
    pub fn first(&self) -> (pkg: PackageIndex)
        ensures
            pkg == self@[0],
    {
        proof {
            self.head.lemma_items_nonempty();
        }
        self.head.pkg
    }

    /// The providers, in the order in which they were added.
    pub fn iter(&self) -> (providers: Vec<PackageIndex>)
        ensures
            providers@ == self@,
            providers@.len() >= 1,
    {
        let mut providers: Vec<PackageIndex> = Vec::new();
        let mut current: &ProviderNode = &self.head;
        loop
            invariant_except_break
                providers@ + current.items() == self@,
            ensures
                providers@ == self@,
            decreases current.items().len(),
        {
            providers.push(current.pkg);
            match &current.next {
                Some(next) => {
                    proof {
                        next.lemma_items_nonempty();
                        assert(providers@ + next.items() =~= self@);
                    }
                    current = next;
                },
                None => {
                    assert(current.items() == seq![current.pkg]);
                    assert(providers@ =~= self@);
                    break ;
                },
            }
        }
        proof {
            self.head.lemma_items_nonempty();
        }
        providers
    }
}

} // verus!
