//! Address spaces: the CR3 value of a process and the set of virtual memory
//! areas (VMAs) that define its valid user mappings. Each VMA carries a
//! scheduling node so it can take part in the activation / tension graph.
use vstd::prelude::*;

use crate::layout::{USER_LOWER_END, USER_LOWER_START, USER_NULL_GUARD_END};
use crate::scheduler::Node;

verus! {

pub struct Vma {
    pub node: Node,
    pub start: u64,
    pub size: u64,
    pub write: bool,
    pub executable: bool,
}

impl Vma {
    pub fn new(start: u64, size: u64, write: bool, executable: bool) -> (r: Self)
        ensures
            r.node == Node::fresh(),
            r.start == start,
            r.size == size,
            r.write == write,
            r.executable == executable,
    {
        Self { node: Node::new(), start, size, write, executable }
    }

    /// One past the last address of the area.
    pub open spec fn spec_end(&self) -> int {
        self.start + self.size
    }

    /// Whether `addr` lies inside the area.
    pub open spec fn spec_contains(&self, addr: u64) -> bool {
        self.start <= addr < self.spec_end()
    }

    pub fn end(&self) -> (r: u64)
        requires
            self.spec_end() <= u64::MAX,
        ensures
            r == self.spec_end(),
    {
        self.start + self.size
    }

    pub fn contains(&self, addr: u64) -> (r: bool)
        ensures
            r == self.spec_contains(addr),
    {
        addr >= self.start && addr - self.start < self.size
    }

    /// The area stays inside the canonical user range, above the null guard
    /// page, and is not empty.
    pub open spec fn spec_user_sane(&self) -> bool {
        &&& self.start >= USER_LOWER_START
        &&& self.spec_end() <= USER_LOWER_END
        &&& self.start >= USER_NULL_GUARD_END
        &&& self.size > 0
    }

    pub fn is_user_sane(&self) -> (r: bool)
        requires
            self.start >= USER_LOWER_START ==> self.spec_end() <= u64::MAX,
        ensures
            r == self.spec_user_sane(),
    {
        self.start >= USER_LOWER_START && self.end() <= USER_LOWER_END && self.start
            >= USER_NULL_GUARD_END && self.size > 0
    }
}

pub struct AddressSpace {
    pub cr3: u64,
    pub vmas: Vec<Vma>,
}

/// The index of the first area that contains `addr`, if any.
pub open spec fn first_covering(vmas: Seq<Vma>, addr: u64) -> Option<int> {
    if exists|i: int| 0 <= i < vmas.len() && (#[trigger] vmas[i]).spec_contains(addr) {
        Some(
            choose|i: int|
                0 <= i < vmas.len() && (#[trigger] vmas[i]).spec_contains(addr) && forall|j: int|
                    0 <= j < i ==> !(#[trigger] vmas[j]).spec_contains(addr),
        )
    } else {
        None
    }
}

proof fn lemma_first_covering(vmas: Seq<Vma>, addr: u64, i: int)
    requires
        0 <= i < vmas.len(),
        vmas[i].spec_contains(addr),
        forall|j: int| 0 <= j < i ==> !(#[trigger] vmas[j]).spec_contains(addr),
    ensures
        first_covering(vmas, addr) == Some(i),
{
    let k = choose|k: int|
        0 <= k < vmas.len() && (#[trigger] vmas[k]).spec_contains(addr) && forall|j: int|
            0 <= j < k ==> !(#[trigger] vmas[j]).spec_contains(addr);
    if k < i {
        assert(!vmas[k].spec_contains(addr));
    }
    if i < k {
        assert(!vmas[i].spec_contains(addr));
    }
}

impl AddressSpace {
    pub fn new(cr3: u64) -> (r: Self)
        ensures
            r.cr3 == cr3,
            r.vmas@.len() == 0,
    {
        Self { cr3, vmas: Vec::new() }
    }

    /// The first area that contains `addr`.
    pub fn covers(&self, addr: u64) -> (r: Option<&Vma>)
        ensures
            match first_covering(self.vmas@, addr) {
                None => r is None,
                Some(i) => r == Some(&self.vmas@[i]),
            },
    {
        let mut i: usize = 0;
        while i < self.vmas.len()
            invariant
                i <= self.vmas@.len(),
                forall|j: int| 0 <= j < i ==> !(#[trigger] self.vmas@[j]).spec_contains(addr),
            decreases self.vmas@.len() - i,
        {
            if self.vmas[i].contains(addr) {
                proof {
                    lemma_first_covering(self.vmas@, addr, i as int);
                }
                return Some(&self.vmas[i]);
            }
            i = i + 1;
        }
        None
    }

    /// The first area that contains `addr`, for modification.
    pub fn covers_mut(&mut self, addr: u64) -> (r: Option<&mut Vma>)
        ensures
            final(self).cr3 == old(self).cr3,
            match first_covering(old(self).vmas@, addr) {
                None => r is None && final(self).vmas@ == old(self).vmas@,
                Some(i) => r matches Some(m) && *m == old(self).vmas@[i] && final(self).vmas@
                    == old(self).vmas@.update(i, *final(m)),
            },
    {
        let mut i: usize = 0;
        while i < self.vmas.len()
            invariant
                i <= self.vmas@.len(),
                self == old(self),
                forall|j: int| 0 <= j < i ==> !(#[trigger] self.vmas@[j]).spec_contains(addr),
            decreases self.vmas@.len() - i,
        {
            if self.vmas[i].contains(addr) {
                proof {
                    lemma_first_covering(self.vmas@, addr, i as int);
                }
                return Some(&mut self.vmas[i]);
            }
            i = i + 1;
        }
        None
    }
}

} // verus!
