//! Field paths: short index vectors that navigate a serializer's field tree.

use vstd::prelude::*;
use vstd::string::StringExecFns;
use vstd::std_specs::cmp::PartialEqSpecImpl;
use crate::text::{decimal, push_decimal};

verus! {

/// The greatest number of indices a field path can hold.
pub const MAX_DEPTH: usize = 7;

/// A path of one to seven small indices. Slots past the cursor are kept at zero.
#[derive(Clone, Copy, Debug)]
pub struct FieldPath {
    path: [u8; 7],
    last: usize,
}

/// The text of a path: its indices in decimal, separated by slashes.
pub open spec fn path_text(path: Seq<u8>) -> Seq<char>
    decreases path.len(),
{
    if path.len() == 0 {
        Seq::empty()
    } else if path.len() == 1 {
        decimal(path[0] as nat)
    } else {
        path_text(path.drop_last()) + seq!['/'] + decimal(path.last() as nat)
    }
}

/// The number of levels that can still be entered below a path of at most seven indices.
pub open spec fn depth_left(path: Seq<u8>) -> nat {
    if path.len() >= 7 {
        0
    } else {
        (7 - path.len()) as nat
    }
}

/// The index sequences of a sequence of field paths.
pub open spec fn path_views(paths: Seq<FieldPath>) -> Seq<Seq<u8>> {
    paths.map_values(|fp: FieldPath| fp@)
}

impl View for FieldPath {
    type V = Seq<u8>;

    /// The indices in use, from the root down.
    closed spec fn view(&self) -> Seq<u8> {
        self.path@.subrange(0, self.last + 1)
    }
}

impl FieldPath {
    #[verifier::type_invariant]
    spec fn inv(self) -> bool {
        self.wf()
    }

    /// The cursor is in range and the unused slots hold zero.
    pub closed spec fn wf(self) -> bool {
        &&& self.last < 7
        &&& forall|i: int| self.last < i < 7 ==> self.path@[i] == 0
    }

    proof fn lemma_slots(self)
        requires
            self.wf(),
        ensures
            self.path@.len() == 7,
            self@.len() == self.last + 1,
            forall|i: int| 0 <= i <= self.last ==> self@[i] == self.path@[i],
    {
    }

    /// A well-formed path holds between one and seven indices.
    pub proof fn lemma_len(self)
        requires
            self.wf(),
        ensures
            1 <= self@.len() <= MAX_DEPTH,
    {
        self.lemma_slots();
    }

    /// Well-formed paths with the same indices are the same value.
    pub proof fn lemma_view_injective(self, other: FieldPath)
        requires
            self.wf(),
            other.wf(),
            self@ == other@,
        ensures
            self == other,
    {
        self.lemma_slots();
        other.lemma_slots();
        assert(self.last == other.last);
        assert forall|i: int| 0 <= i < 7 implies self.path[i] == other.path[i] by {
            if i <= self.last {
                assert(self@[i] == self.path@[i]);
                assert(other@[i] == other.path@[i]);
            } else {
                assert(self.path@[i] == 0);
                assert(other.path@[i] == 0);
            }
        }
        assert(self.path =~= other.path);
    }

    /// The path that names field zero of the root.
    pub fn new() -> (fp: FieldPath)
        ensures
            fp@ == seq![0u8],
            fp.wf(),
    {
        let fp = FieldPath { path: [0u8; 7], last: 0 };
        assert(fp@ =~= seq![0u8]);
        fp
    }

    /// The path with the given indices; `None` unless there are between one and seven.
    pub fn from_indices(indices: &Vec<u8>) -> (res: Option<FieldPath>)
        ensures
            res is Some <==> 1 <= indices@.len() <= MAX_DEPTH,
            res is Some ==> res->0@ == indices@ && res->0.wf(),
    {
        let n: usize = indices.len();
        if n == 0 || n > 7 {
            return None;
        }
        let mut fp = FieldPath::new();
        fp.set(0, indices[0]);
        let mut i: usize = 1;
        while i < n
            invariant
                1 <= i <= n == indices@.len() <= 7,
                fp.wf(),
                fp@ == indices@.take(i as int),
            decreases n - i,
        {
            fp.push(indices[i]);
            i += 1;
            assert(fp@ =~= indices@.take(i as int));
        }
        assert(indices@.take(n as int) =~= indices@);
        Some(fp)
    }

    /// The number of indices in the path.
    pub fn len(&self) -> (n: usize)
        ensures
            n == self@.len(),
            1 <= n <= MAX_DEPTH,
    {
        proof {
            use_type_invariant(self);
        }
        self.last + 1
    }

    /// The position of the deepest index.
    pub fn last(&self) -> (n: usize)
        ensures
            n == self@.len() - 1,
            n < MAX_DEPTH,
    {
        proof {
            use_type_invariant(self);
        }
        self.last
    }

    /// The index at position `i`.
    pub fn get(&self, i: usize) -> (v: u8)
        requires
            i < self@.len(),
        ensures
            v == self@[i as int],
    {
        proof {
            use_type_invariant(self);
        }
        self.path[i]
    }

    /// Replaces the index at position `i`.
    pub fn set(&mut self, i: usize, v: u8)
        requires
            i < old(self)@.len(),
        ensures
            final(self)@ == old(self)@.update(i as int, v),
            final(self).wf(),
    {
        proof {
            use_type_invariant(&*self);
        }
        self.path[i] = v;
        assert(self@ =~= old(self)@.update(i as int, v));
    }

    /// Descends one level: the path gains a zero index.
    pub fn down(&mut self)
        requires
            old(self)@.len() < MAX_DEPTH,
        ensures
            final(self)@ == old(self)@.push(0u8),
            final(self).wf(),
    {
        proof {
            use_type_invariant(&*self);
        }
        self.last = self.last + 1;
        assert(self@ =~= old(self)@.push(0u8));
    }

    /// Descends one level to index `v`.
    pub fn push(&mut self, v: u8)
        requires
            old(self)@.len() < MAX_DEPTH,
        ensures
            final(self)@ == old(self)@.push(v),
            final(self).wf(),
    {
        self.down();
        let at: usize = self.last();
        self.set(at, v);
        assert(self@ =~= old(self)@.push(v));
    }

    /// Ascends `n` levels: the path loses its `n` deepest indices.
    pub fn up(&mut self, n: usize)
        requires
            n < old(self)@.len(),
        ensures
            final(self)@ == old(self)@.take(old(self)@.len() - n),
            final(self).wf(),
    {
        proof {
            use_type_invariant(&*self);
            self.lemma_slots();
        }
        let mut k: usize = 0;
        while k < n
            invariant
                k <= n <= old(self).last,
                old(self).wf(),
                self.wf(),
                self.last == old(self).last - k,
                self@ == old(self)@.take(old(self)@.len() - k),
            decreases n - k,
        {
            proof {
                self.lemma_slots();
                old(self).lemma_slots();
            }
            let ghost before = *self;
            self.path[self.last] = 0;
            self.last = self.last - 1;
            k += 1;
            proof {
                self.lemma_slots();
                assert(self@ =~= before@.drop_last());
                assert(self@ =~= old(self)@.take(old(self)@.len() - k));
            }
        }
    }

    /// The path as text: its indices in decimal, separated by slashes.
    pub fn as_string(&self) -> (s: String)
        ensures
            s@ == path_text(self@),
    {
        proof {
            use_type_invariant(self);
            reveal_strlit("/");
        }
        proof {
            self.lemma_slots();
        }
        let mut s = String::new();
        push_decimal(&mut s, self.path[0] as u64);
        assert(self@.take(1) =~= seq![self@[0]]);
        assert(s@ =~= path_text(self@.take(1))) by {
            assert(self@.take(1).len() == 1);
        }
        let mut i: usize = 1;
        while i <= self.last
            invariant
                self.wf(),
                1 <= i <= self.last + 1,
                s@ == path_text(self@.take(i as int)),
            decreases self.last + 1 - i,
        {
            s.append("/");
            push_decimal(&mut s, self.path[i] as u64);
            proof {
                reveal_strlit("/");
                self.lemma_slots();
                let next = self@.take(i + 1);
                assert(next.len() == i + 1);
                assert(next.drop_last() =~= self@.take(i as int));
                assert(next.last() == self@[i as int]);
                assert(path_text(next) == path_text(next.drop_last()) + seq!['/'] + decimal(
                    next.last() as nat,
                ));
                assert(s@ =~= path_text(next));
            }
            i += 1;
        }
        assert(self@.take(self.last + 1) =~= self@);
        s
    }
}

impl PartialEq for FieldPath {
    /// Two paths are equal when their indices are.
    fn eq(&self, other: &FieldPath) -> (equal: bool) {
        proof {
            use_type_invariant(self);
            use_type_invariant(other);
        }
        proof {
            self.lemma_slots();
            other.lemma_slots();
        }
        if self.last != other.last {
            return false;
        }
        let mut i: usize = 0;
        while i <= self.last
            invariant
                self.wf(),
                other.wf(),
                self.last == other.last,
                i <= self.last + 1,
                forall|j: int| 0 <= j < i ==> self@[j] == other@[j],
            decreases self.last + 1 - i,
        {
            proof {
                self.lemma_slots();
                other.lemma_slots();
            }
            if self.path[i] != other.path[i] {
                assert(self@[i as int] != other@[i as int]);
                return false;
            }
            i += 1;
        }
        assert(self@ =~= other@);
        true
    }
}

impl PartialEqSpecImpl for FieldPath {
    open spec fn obeys_eq_spec() -> bool {
        true
    }

    open spec fn eq_spec(&self, other: &FieldPath) -> bool {
        self@ == other@
    }
}

impl Eq for FieldPath {

}

} // verus!
