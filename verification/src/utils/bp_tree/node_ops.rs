use vstd::prelude::*;
use super::bp_tree_node::lemma_well_sized;
use super::bp_tree_node::NodeView;
use super::bp_tree_node::NodeViewMut;

verus! {

impl<'a> NodeViewMut<'a> {
    /// Moves the words `from..to` behind the header one place up, to
    /// `from + 1..to + 1`.
    pub fn shift_up(&mut self, from: u64, to: u64)
        requires
            old(self).wf(),
            from <= to <= 2 * old(self).m,
        ensures
            final(self).wf(),
            final(self).m == old(self).m,
            final(self).bytes@.len() == old(self).bytes@.len(),
            final(final(self).bytes)@ == final(old(self).bytes)@,
            final(self).image().is_leaf == old(self).image().is_leaf,
            final(self).image().num_keys == old(self).image().num_keys,
            final(self).image().next == old(self).image().next,
            forall|p: int|
                0 <= p <= 2 * old(self).m ==> #[trigger] final(self).slots()[p] == (if from < p <= to {
                    old(self).slots()[p - 1]
                } else {
                    old(self).slots()[p]
                }),
    {
        let mut p = to;
        while p > from
            invariant
                self.wf(),
                self.m == old(self).m,
                self.bytes@.len() == old(self).bytes@.len(),
                final(self.bytes)@ == final(old(self).bytes)@,
                self.image().is_leaf == old(self).image().is_leaf,
                self.image().num_keys == old(self).image().num_keys,
                self.image().next == old(self).image().next,
                from <= p <= to <= 2 * self.m,
                forall|q: int|
                    0 <= q <= 2 * self.m ==> #[trigger] self.slots()[q] == (if p < q <= to {
                        old(self).slots()[q - 1]
                    } else {
                        old(self).slots()[q]
                    }),
            decreases p,
        {
            let v = self.slot(p - 1);
            self.set_slot(p, v);
            p = p - 1;
        }
    }

    /// Copies the `count` words from `src` on to `dst` on, where `dst` is not
    /// above `src`.
    pub fn move_down(&mut self, dst: u64, src: u64, count: u64)
        requires
            old(self).wf(),
            dst <= src,
            src + count <= 2 * old(self).m + 1,
        ensures
            final(self).wf(),
            final(self).m == old(self).m,
            final(self).bytes@.len() == old(self).bytes@.len(),
            final(final(self).bytes)@ == final(old(self).bytes)@,
            final(self).image().is_leaf == old(self).image().is_leaf,
            final(self).image().num_keys == old(self).image().num_keys,
            final(self).image().next == old(self).image().next,
            forall|p: int|
                0 <= p <= 2 * old(self).m ==> #[trigger] final(self).slots()[p] == (if dst <= p < dst + count {
                    old(self).slots()[p - dst + src]
                } else {
                    old(self).slots()[p]
                }),
    {
        let len = self.bytes.len();
        proof {
            lemma_well_sized(len as nat, self.m);
        }
        let mut j: u64 = 0;
        while j < count
            invariant
                16 * self.m + 32 <= usize::MAX,
                self.wf(),
                self.m == old(self).m,
                self.bytes@.len() == old(self).bytes@.len(),
                final(self.bytes)@ == final(old(self).bytes)@,
                self.image().is_leaf == old(self).image().is_leaf,
                self.image().num_keys == old(self).image().num_keys,
                self.image().next == old(self).image().next,
                dst <= src,
                src + count <= 2 * self.m + 1,
                j <= count,
                forall|q: int|
                    0 <= q <= 2 * self.m ==> #[trigger] self.slots()[q] == (if dst <= q < dst + j {
                        old(self).slots()[q - dst + src]
                    } else {
                        old(self).slots()[q]
                    }),
            decreases count - j,
        {
            let v = self.slot(src + j);
            self.set_slot(dst + j, v);
            j = j + 1;
        }
    }

    /// Copies the `count` words from `src` on of `other` to `dst` on.
    pub fn copy_from(&mut self, other: &NodeView, src: u64, dst: u64, count: u64)
        requires
            old(self).wf(),
            other.wf(),
            src + count <= 2 * other.m + 1,
            dst + count <= 2 * old(self).m + 1,
        ensures
            final(self).wf(),
            final(self).m == old(self).m,
            final(self).bytes@.len() == old(self).bytes@.len(),
            final(final(self).bytes)@ == final(old(self).bytes)@,
            final(self).image().is_leaf == old(self).image().is_leaf,
            final(self).image().num_keys == old(self).image().num_keys,
            final(self).image().next == old(self).image().next,
            forall|p: int|
                0 <= p <= 2 * old(self).m ==> #[trigger] final(self).slots()[p] == (if dst <= p < dst + count {
                    other.slots()[p - dst + src]
                } else {
                    old(self).slots()[p]
                }),
    {
        let len = self.bytes.len();
        let other_len = other.bytes.len();
        proof {
            lemma_well_sized(len as nat, self.m);
            lemma_well_sized(other_len as nat, other.m);
        }
        let mut j: u64 = 0;
        while j < count
            invariant
                16 * self.m + 32 <= usize::MAX,
                16 * other.m + 32 <= usize::MAX,
                self.wf(),
                other.wf(),
                self.m == old(self).m,
                self.bytes@.len() == old(self).bytes@.len(),
                final(self.bytes)@ == final(old(self).bytes)@,
                self.image().is_leaf == old(self).image().is_leaf,
                self.image().num_keys == old(self).image().num_keys,
                self.image().next == old(self).image().next,
                src + count <= 2 * other.m + 1,
                dst + count <= 2 * self.m + 1,
                j <= count,
                forall|q: int|
                    0 <= q <= 2 * self.m ==> #[trigger] self.slots()[q] == (if dst <= q < dst + j {
                        other.slots()[q - dst + src]
                    } else {
                        old(self).slots()[q]
                    }),
            decreases count - j,
        {
            let v = other.slot(src + j);
            self.set_slot(dst + j, v);
            j = j + 1;
        }
    }
}

} // verus!
