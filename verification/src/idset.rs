//! The ordered-set index itself: an append-only page table whose page 0 is
//! the header, orchestrating descent, insertion, and split propagation.
//!
//! The well-formedness predicate `IdSet::wf` is stated page by page over the
//! table: every page but page 0 is a node within its capacity with sorted
//! keys and in-range child offsets, and a ghost map assigns each node a
//! level — leaves at level 0, every internal node exactly one level above
//! all its children — which is how the tree is known to stay balanced.

use vstd::prelude::*;

use vstd::multiset::Multiset;

use crate::internal::{InternalNode, INTERNAL_NODE_MAX_LEN, INTERNAL_SPLIT_AT};
use crate::leaf::{LeafNode, LEAF_NODE_MAX_LEN, LEAF_SPLIT_AT};
use crate::order::{
    insert_pos, lemma_insert_pos_props, lemma_sorted_insert, lemma_sorted_subrange, sorted,
};
use crate::page::{Header, Page, PageOffset};
use vstd::pervasive::unreached;

verus! {

broadcast use
    vstd::multiset::group_multiset_axioms,
    vstd::multiset::group_multiset_properties,
    vstd::seq_lib::group_to_multiset_ensures;

/// The identifiers one page contributes to the set: a leaf contributes its
/// keys, the header and internal nodes (whose keys are only routing
/// separators) contribute nothing.
pub open spec fn page_ids(p: Page) -> Multiset<u128> {
    match p {
        Page::Leaf(l) => l.ids@.to_multiset(),
        _ => Multiset::empty(),
    }
}

/// All identifiers held in a page table, with multiplicity.
pub open spec fn table_ids(s: Seq<Page>) -> Multiset<u128>
    decreases s.len(),
{
    if s.len() == 0 {
        Multiset::empty()
    } else {
        table_ids(s.drop_last()).add(page_ids(s.last()))
    }
}

proof fn lemma_table_ids_push(s: Seq<Page>, p: Page)
    ensures
        table_ids(s.push(p)) == table_ids(s).add(page_ids(p)),
{
    assert(s.push(p).drop_last() =~= s);
    assert(s.push(p).last() == p);
}

proof fn lemma_table_ids_update(s: Seq<Page>, i: int, p: Page)
    requires
        0 <= i < s.len(),
    ensures
        table_ids(s.update(i, p)).add(page_ids(s[i])) == table_ids(s).add(page_ids(p)),
    decreases s.len(),
{
    let t = s.update(i, p);
    if i == s.len() - 1 {
        assert(t.drop_last() =~= s.drop_last());
        assert(t.last() == p);
        assert(table_ids(t).add(page_ids(s[i])) =~= table_ids(s).add(page_ids(p)));
    } else {
        assert(t.drop_last() =~= s.drop_last().update(i, p));
        assert(t.last() == s.last());
        lemma_table_ids_update(s.drop_last(), i, p);
        assert(s.drop_last()[i] == s[i]);
        assert(table_ids(t) == table_ids(t.drop_last()).add(page_ids(t.last())));
        assert(table_ids(s) == table_ids(s.drop_last()).add(page_ids(s.last())));
        assert forall|x: u128|
            table_ids(t).add(page_ids(s[i])).count(x) == table_ids(s).add(page_ids(p)).count(
                x,
            ) by {
            assert(table_ids(s.drop_last().update(i, p)).add(page_ids(s.drop_last()[i])).count(x)
                == table_ids(s.drop_last()).add(page_ids(p)).count(x));
        }
        assert(table_ids(t).add(page_ids(s[i])) =~= table_ids(s).add(page_ids(p)));
    }
}

/// A page's contribution never exceeds the whole table's contents.
proof fn lemma_table_ids_member(s: Seq<Page>, i: int)
    requires
        0 <= i < s.len(),
    ensures
        forall|x: u128| table_ids(s).count(x) >= #[trigger] page_ids(s[i]).count(x),
    decreases s.len(),
{
    if i == s.len() - 1 {
        assert(s.last() == s[i]);
    } else {
        lemma_table_ids_member(s.drop_last(), i);
        assert(s.drop_last()[i] == s[i]);
    }
}

/// Capacity and shape of a single node page, with child offsets bounded by
/// the table length `n`.  Page 0 is the header; no other page may be.
pub open spec fn node_wf(p: Page, n: int) -> bool {
    match p {
        Page::Header(_) => false,
        Page::Leaf(l) => l.wf(),
        Page::Internal(nd) => {
            &&& nd.wf()
            &&& forall|j: int|
                0 <= j < nd.child_offsets@.len() ==> 1 <= #[trigger] nd.child_offsets@[j].value
                    < n
        },
    }
}

proof fn lemma_node_wf_grow(p: Page, n1: int, n2: int)
    requires
        node_wf(p, n1),
        n1 <= n2,
    ensures
        node_wf(p, n2),
{
}

/// Rewriting one node page in place — with a node that is well formed and
/// sits correctly at the page's existing level — preserves the whole table's
/// well-formedness, and touches neither the root nor the height.
proof fn lemma_wf_update(s0: IdSet, s1: IdSet, i0: int, p: Page)
    requires
        s0.wf(),
        1 <= i0 < s0.pages@.len(),
        s1.pages@ == s0.pages@.update(i0, p),
        s1.levels@ == s0.levels@,
        node_wf(p, s0.pages@.len() as int),
        page_level_ok(s0.levels@, p, s0.level_of(i0)),
    ensures
        s1.wf(),
        s1.root_offset_spec() == s0.root_offset_spec(),
        s1.height() == s0.height(),
{
    let n = s0.pages@.len() as int;
    assert(s1.pages@[0] == s0.pages@[0]);
    assert forall|i: int| 1 <= i < n implies node_wf(#[trigger] s1.pages@[i], n) by {
        if i != i0 {
            assert(node_wf(s0.pages@[i], n));
            assert(s1.pages@[i] == s0.pages@[i]);
        }
    }
    assert forall|i: int| 1 <= i < n implies page_level_ok(
        s1.levels@,
        #[trigger] s1.pages@[i],
        s1.level_of(i),
    ) by {
        if i != i0 {
            assert(page_level_ok(s0.levels@, s0.pages@[i], s0.level_of(i)));
            assert(s1.pages@[i] == s0.pages@[i]);
        }
    }
}

/// Appending a fresh node page at a given level — its children already in
/// the table one level below — preserves well-formedness; the new page's
/// offset is the old table length, and every existing page keeps its level.
proof fn lemma_wf_alloc(s0: IdSet, s1: IdSet, p: Page, level: nat)
    requires
        s0.wf(),
        s0.pages@.len() < 0xFFFF_FFFF,
        s1.pages@ == s0.pages@.push(p),
        s1.levels@ == s0.levels@.insert(s0.pages@.len() as int, level),
        node_wf(p, s0.pages@.len() as int),
        page_level_ok(s0.levels@, p, level),
    ensures
        s1.wf(),
        s1.root_offset_spec() == s0.root_offset_spec(),
        s1.height() == s0.height(),
        forall|i: int| 1 <= i < s0.pages@.len() ==> s1.level_of(i) == s0.level_of(i),
        s1.level_of(s0.pages@.len() as int) == level,
        s1@ == s0@.add(page_ids(p)),
{
    let n0 = s0.pages@.len() as int;
    let n1 = n0 + 1;
    lemma_table_ids_push(s0.pages@, p);
    assert(s1.pages@[0] == s0.pages@[0]);
    assert forall|i: int| 1 <= i < n1 implies node_wf(#[trigger] s1.pages@[i], n1) by {
        if i < n0 {
            assert(node_wf(s0.pages@[i], n0));
            assert(s1.pages@[i] == s0.pages@[i]);
            lemma_node_wf_grow(s0.pages@[i], n0, n1);
        } else {
            assert(s1.pages@[i] == p);
            lemma_node_wf_grow(p, n0, n1);
        }
    }
    assert forall|i: int| 1 <= i < n1 implies page_level_ok(
        s1.levels@,
        #[trigger] s1.pages@[i],
        s1.level_of(i),
    ) by {
        if i < n0 {
            assert(page_level_ok(s0.levels@, s0.pages@[i], s0.level_of(i)));
            assert(s1.pages@[i] == s0.pages@[i]);
            assert(node_wf(s0.pages@[i], n0));
        } else {
            assert(s1.pages@[i] == p);
        }
    }
}

/// Pointing the header at a node already in the table preserves
/// well-formedness; the height becomes that node's level.
proof fn lemma_wf_set_root(s0: IdSet, s1: IdSet, r: int)
    requires
        s0.wf(),
        1 <= r < s0.pages@.len(),
        s0.level_of(r) + 2 <= s0.pages@.len(),
        s1.pages@ == s0.pages@.update(
            0,
            Page::Header(Header { root_offset: PageOffset { value: r as u32 } }),
        ),
        s1.levels@ == s0.levels@,
    ensures
        s1.wf(),
        s1.root_offset_spec() == r,
        s1.height() == s0.level_of(r),
        s1@ == s0@,
{
    let n = s0.pages@.len() as int;
    assert(s1.root_offset_spec() == r);
    assert forall|i: int| 1 <= i < n implies node_wf(#[trigger] s1.pages@[i], n) by {
        assert(node_wf(s0.pages@[i], n));
        assert(s1.pages@[i] == s0.pages@[i]);
    }
    assert forall|i: int| 1 <= i < n implies page_level_ok(
        s1.levels@,
        #[trigger] s1.pages@[i],
        s1.level_of(i),
    ) by {
        assert(page_level_ok(s0.levels@, s0.pages@[i], s0.level_of(i)));
        assert(s1.pages@[i] == s0.pages@[i]);
    }
    lemma_table_ids_update(s0.pages@, 0, s1.pages@[0]);
    assert(page_ids(s0.pages@[0]) == Multiset::<u128>::empty());
    assert(page_ids(s1.pages@[0]) == Multiset::<u128>::empty());
    assert forall|x: u128| s1@.count(x) == s0@.count(x) by {
        assert(table_ids(s0.pages@.update(0, s1.pages@[0])).add(page_ids(s0.pages@[0])).count(x)
            == table_ids(s0.pages@).add(page_ids(s1.pages@[0])).count(x));
    }
    assert(s1@ =~= s0@);
}

/// The level a page must sit at for the ghost level assignment `levels`:
/// leaves at 0, an internal node one above every one of its children.  This
/// is the balance invariant in local form — descent loses exactly one level
/// per step, so every leaf is reached at the same depth.
pub open spec fn page_level_ok(levels: Map<int, nat>, p: Page, level: nat) -> bool {
    match p {
        Page::Header(_) => false,
        Page::Leaf(_) => level == 0,
        Page::Internal(nd) => {
            &&& level >= 1
            &&& forall|j: int|
                0 <= j < nd.child_offsets@.len() ==> levels[#[trigger] nd.child_offsets@[j].value
                    as int] == level - 1
        },
    }
}

/// The page reached from `off` by routing `id` downward for at most `fuel`
/// steps: at an internal node follow the child just left of the first
/// separator greater than `id`, at anything else stop.
pub open spec fn descend(s: Seq<Page>, id: u128, off: int, fuel: nat) -> int
    decreases fuel,
{
    match s[off] {
        Page::Internal(nd) => {
            if fuel == 0 {
                off
            } else {
                descend(
                    s,
                    id,
                    nd.child_offsets@[insert_pos(nd.ids@, id)].value as int,
                    (fuel - 1) as nat,
                )
            }
        },
        _ => off,
    }
}

/// The ordered-set index.  It exclusively owns the page table; page 0 is the
/// header, the rest are nodes, created only by splits and never destroyed.
pub struct IdSet {
    pub pages: Vec<Page>,
    /// The level of each node page, maintained alongside the table; leaves
    /// sit at level 0 and the root at level `height()`.
    pub levels: Ghost<Map<int, nat>>,
}

impl View for IdSet {
    type V = Multiset<u128>;

    open spec fn view(&self) -> Multiset<u128> {
        table_ids(self.pages@)
    }
}

impl IdSet {
    pub open spec fn root_offset_spec(self) -> int {
        self.pages@[0]->Header_0.root_offset.value as int
    }

    pub open spec fn level_of(self, i: int) -> nat {
        self.levels@[i]
    }

    /// The number of routing levels above the leaves; 0 while the root is
    /// itself a leaf.
    pub open spec fn height(self) -> nat {
        self.level_of(self.root_offset_spec())
    }

    pub open spec fn wf(self) -> bool {
        let n = self.pages@.len() as int;
        &&& 2 <= n <= 0xFFFF_FFFF
        &&& self.pages@[0] is Header
        &&& 1 <= self.root_offset_spec() < n
        &&& forall|i: int| 1 <= i < n ==> node_wf(#[trigger] self.pages@[i], n)
        &&& forall|i: int| 1 <= i < n ==> self.levels@.dom().contains(i)
        &&& forall|i: int|
            1 <= i < n ==> page_level_ok(self.levels@, #[trigger] self.pages@[i], self.level_of(i))
        &&& self.height() + 2 <= n
    }

    /// The leaf offset that descent for `id` arrives at.
    pub open spec fn target_leaf(self, id: u128) -> int {
        descend(self.pages@, id, self.root_offset_spec(), self.height())
    }

    /// A fresh set: page 0 the header pointing at page 1, page 1 an empty
    /// root leaf.
    pub fn new() -> (r: Self)
        ensures
            r.wf(),
            r@ == Multiset::<u128>::empty(),
            r.height() == 0,
            r.root_offset_spec() == 1,
            r.pages@.len() == 2,
    {
        let mut pages: Vec<Page> = Vec::new();
        pages.push(Header::new(PageOffset::new(1)).into_page());
        pages.push(LeafNode::new().into_page());
        let r = IdSet { pages, levels: Ghost(Map::<int, nat>::empty().insert(1, 0nat)) };
        proof {
            let s = r.pages@;
            let s1 = s.drop_last();
            assert(s1.drop_last().len() == 0);
            assert(table_ids(s1.drop_last()) == Multiset::<u128>::empty());
            assert(table_ids(s1) == table_ids(s1.drop_last()).add(page_ids(s1.last())));
            assert(table_ids(s) == table_ids(s1).add(page_ids(s.last())));
            assert(s1.last() == s[0] && s.last() == s[1]);
            assert(page_ids(s[0]) == Multiset::<u128>::empty());
            assert(s[1]->Leaf_0.ids@.to_multiset().len() == 0);
            assert(r@ =~= Multiset::<u128>::empty());
        }
        r
    }

    pub fn page(&self, page_offset: PageOffset) -> (r: &Page)
        requires
            page_offset.value < self.pages@.len(),
        ensures
            *r == self.pages@[page_offset.value as int],
    {
        &self.pages[page_offset.value as usize]
    }

    pub fn page_mut(&mut self, page_offset: PageOffset) -> (r: &mut Page)
        requires
            page_offset.value < old(self).pages@.len(),
        ensures
            *r == old(self).pages@[page_offset.value as int],
            final(self).pages@ == old(self).pages@.update(page_offset.value as int, *final(r)),
            final(self).levels@ == old(self).levels@,
    {
        &mut self.pages[page_offset.value as usize]
    }

    pub fn header(&self) -> (r: &Header)
        requires
            self.pages@.len() >= 1,
            self.pages@[0] is Header,
        ensures
            *r == self.pages@[0]->Header_0,
    {
        match self.page(PageOffset::new(0)) {
            Page::Header(h) => h,
            _ => unreached(),
        }
    }

    pub fn header_mut(&mut self) -> (r: &mut Header)
        requires
            old(self).pages@.len() >= 1,
            old(self).pages@[0] is Header,
        ensures
            *r == old(self).pages@[0]->Header_0,
            final(self).pages@ == old(self).pages@.update(0, Page::Header(*final(r))),
            final(self).levels@ == old(self).levels@,
    {
        match self.page_mut(PageOffset::new(0)) {
            Page::Header(h) => h,
            _ => unreached(),
        }
    }

    /// Append a page to the table and hand back its offset.  Offsets are
    /// never reused: the table only grows.
    pub fn allocate_new_page(&mut self, page: Page) -> (r: PageOffset)
        requires
            old(self).pages@.len() < 0xFFFF_FFFF,
        ensures
            r.value == old(self).pages@.len(),
            final(self).pages@ == old(self).pages@.push(page),
            final(self).levels@ == old(self).levels@,
    {
        let page_offset = PageOffset::new(self.pages.len() as u32);
        self.pages.push(page);
        page_offset
    }

    /// Descend from the root to the leaf where `id` belongs, recording the
    /// offset of every internal node passed, root first.  The recorded path
    /// always has exactly `height()` entries — all leaves sit at the same
    /// depth.
    #[verifier::loop_isolation(false)]
    pub fn find_leaf_node_to_insert(&self, id: u128) -> (r: (PageOffset, Vec<PageOffset>))
        requires
            self.wf(),
        ensures
            1 <= r.0.value < self.pages@.len(),
            self.pages@[r.0.value as int] is Leaf,
            r.0.value as int == self.target_leaf(id),
            self.level_of(r.0.value as int) == 0,
            r.1@.len() == self.height(),
            forall|k: int|
                0 <= k < r.1@.len() ==> {
                    let a = (#[trigger] r.1@[k]).value as int;
                    &&& 1 <= a < self.pages@.len()
                    &&& self.pages@[a] is Internal
                    &&& self.level_of(a) == self.height() - k
                },
    {
        let mut parent_offsets: Vec<PageOffset> = Vec::new();
        let mut page_offset = self.header().root_offset;

        loop
            invariant
                1 <= page_offset.value < self.pages@.len(),
                parent_offsets@.len() + self.level_of(page_offset.value as int) == self.height(),
                self.target_leaf(id) == descend(
                    self.pages@,
                    id,
                    page_offset.value as int,
                    self.level_of(page_offset.value as int),
                ),
                forall|k: int|
                    0 <= k < parent_offsets@.len() ==> {
                        let a = (#[trigger] parent_offsets@[k]).value as int;
                        &&& 1 <= a < self.pages@.len()
                        &&& self.pages@[a] is Internal
                        &&& self.level_of(a) == self.height() - k
                    },
            decreases self.level_of(page_offset.value as int),
        {
            let ghost cur = page_offset.value as int;
            proof {
                assert(node_wf(self.pages@[cur], self.pages@.len() as int));
                assert(page_level_ok(self.levels@, self.pages@[cur], self.level_of(cur)));
            }
            let page = self.page(page_offset);
            if page.is_leaf_node() {
                return (page_offset, parent_offsets);
            }

            parent_offsets.push(page_offset);

            let internal_node = match page {
                Page::Internal(n) => n,
                _ => unreached(),
            };
            proof {
                lemma_insert_pos_props(internal_node.ids@, id);
            }
            page_offset = internal_node.find_offset_to_insert(id);
        }
    }

    /// Membership test: descend to the leaf `id` would be inserted into and
    /// scan its keys for an exact match.
    #[verifier::loop_isolation(false)]
    pub fn contains(&self, id: u128) -> (r: bool)
        requires
            self.wf(),
        ensures
            r == self.pages@[self.target_leaf(id)]->Leaf_0.ids@.contains(id),
            r ==> self@.count(id) > 0,
    {
        let (leaf_node_offset, _parents) = self.find_leaf_node_to_insert(id);

        let leaf_node = match self.page(leaf_node_offset) {
            Page::Leaf(l) => l,
            _ => unreached(),
        };

        let n = leaf_node.ids.len();
        let mut i: usize = 0;
        while i < n
            invariant
                0 <= i <= n,
                forall|k: int| 0 <= k < i ==> leaf_node.ids@[k] != id,
            decreases n - i,
        {
            if leaf_node.ids[i] == id {
                proof {
                    lemma_table_ids_member(self.pages@, leaf_node_offset.value as int);
                    assert(leaf_node.ids@.contains(id));
                    assert(leaf_node.ids@.to_multiset().count(id) > 0);
                    assert(page_ids(self.pages@[leaf_node_offset.value as int]).count(id) > 0);
                }
                return true;
            }
            i = i + 1;
        }
        proof {
            assert(!leaf_node.ids@.contains(id));
        }
        false
    }

    /// Insert `id` into the leaf at `off`, which still has room.
    fn leaf_insert_at(&mut self, off: PageOffset, id: u128)
        requires
            old(self).wf(),
            1 <= off.value < old(self).pages@.len(),
            old(self).pages@[off.value as int] is Leaf,
            old(self).pages@[off.value as int]->Leaf_0.ids@.len() < LEAF_NODE_MAX_LEN,
        ensures
            final(self).wf(),
            final(self)@ == old(self)@.insert(id),
            final(self).pages@.len() == old(self).pages@.len(),
            final(self).root_offset_spec() == old(self).root_offset_spec(),
            final(self).height() == old(self).height(),
            final(self).levels@ == old(self).levels@,
            forall|i: int|
                0 <= i < old(self).pages@.len() && i != off.value as int ==> final(self).pages@[i]
                    == old(self).pages@[i],
            final(self).pages@[off.value as int] is Leaf,
    {
        let ghost s0 = *self;
        let ghost i0 = off.value as int;
        let ghost l0 = s0.pages@[i0]->Leaf_0;

        let page = self.page_mut(off);
        let leaf_node = match page {
            Page::Leaf(l) => l,
            _ => unreached(),
        };
        leaf_node.insert(id);

        proof {
            let p1 = self.pages@[i0];
            assert(self.pages@ == s0.pages@.update(i0, p1));
            lemma_insert_pos_props(l0.ids@, id);
            lemma_sorted_insert(l0.ids@, id);
            assert(p1->Leaf_0.ids@ == l0.ids@.insert(insert_pos(l0.ids@, id), id));
            assert(node_wf(p1, s0.pages@.len() as int));
            assert(page_level_ok(s0.levels@, p1, s0.level_of(i0)));
            lemma_wf_update(s0, *self, i0, p1);
            lemma_table_ids_update(s0.pages@, i0, p1);
            assert(l0.ids@.insert(insert_pos(l0.ids@, id), id).to_multiset() == l0.ids@.to_multiset().insert(id));
            assert forall|x: u128| self@.count(x) == s0@.insert(id).count(x) by {
                assert(table_ids(s0.pages@.update(i0, p1)).add(page_ids(s0.pages@[i0])).count(x)
                    == table_ids(s0.pages@).add(page_ids(p1)).count(x));
            }
            assert(self@ =~= s0@.insert(id));
        }
    }

    /// Insert `id` into the full leaf at `off` by splitting it: the page at
    /// `off` is overwritten in place with the left half, and the right half
    /// comes back, with the key to promote, for the caller to allocate.
    fn split_leaf_at(&mut self, off: PageOffset, id: u128) -> (r: (LeafNode, u128))
        requires
            old(self).wf(),
            1 <= off.value < old(self).pages@.len(),
            old(self).pages@[off.value as int] is Leaf,
            old(self).pages@[off.value as int]->Leaf_0.ids@.len() == LEAF_NODE_MAX_LEN,
        ensures
            final(self).wf(),
            final(self)@.add(r.0.ids@.to_multiset()) == old(self)@.insert(id),
            r.0.wf(),
            node_wf(Page::Leaf(r.0), final(self).pages@.len() as int),
            page_level_ok(final(self).levels@, Page::Leaf(r.0), 0),
            final(self).pages@.len() == old(self).pages@.len(),
            final(self).root_offset_spec() == old(self).root_offset_spec(),
            final(self).height() == old(self).height(),
            final(self).levels@ == old(self).levels@,
            forall|i: int|
                0 <= i < old(self).pages@.len() && i != off.value as int ==> final(self).pages@[i]
                    == old(self).pages@[i],
            final(self).pages@[off.value as int] is Leaf,
    {
        let ghost s0 = *self;
        let ghost i0 = off.value as int;
        let ghost l0 = s0.pages@[i0]->Leaf_0;

        let page = self.page_mut(off);
        let leaf_node = match page {
            Page::Leaf(l) => l,
            _ => unreached(),
        };
        let (new_right_node, center_id) = leaf_node.insert_and_split(id);

        proof {
            let p1 = self.pages@[i0];
            assert(self.pages@ == s0.pages@.update(i0, p1));
            lemma_insert_pos_props(l0.ids@, id);
            lemma_sorted_insert(l0.ids@, id);
            let w = l0.ids@.insert(insert_pos(l0.ids@, id), id);
            let left = w.subrange(0, LEAF_SPLIT_AT as int);
            let right = w.subrange(LEAF_SPLIT_AT as int, w.len() as int);
            assert(p1->Leaf_0.ids@ == left);
            assert(new_right_node.ids@ == right);
            lemma_sorted_subrange(w, 0, LEAF_SPLIT_AT as int);
            lemma_sorted_subrange(w, LEAF_SPLIT_AT as int, w.len() as int);
            assert(node_wf(p1, s0.pages@.len() as int));
            assert(page_level_ok(s0.levels@, p1, s0.level_of(i0)));
            lemma_wf_update(s0, *self, i0, p1);
            lemma_table_ids_update(s0.pages@, i0, p1);
            assert(w.to_multiset() == l0.ids@.to_multiset().insert(id));
            assert(w =~= left + right);
            vstd::seq_lib::lemma_multiset_commutative(left, right);
            assert(left.to_multiset().add(right.to_multiset()) == l0.ids@.to_multiset().insert(id));
            assert forall|x: u128| self@.add(right.to_multiset()).count(x) == s0@.insert(id).count(
                x,
            ) by {
                assert(table_ids(s0.pages@.update(i0, p1)).add(page_ids(s0.pages@[i0])).count(x)
                    == table_ids(s0.pages@).add(page_ids(p1)).count(x));
                assert(page_ids(s0.pages@[i0]) == l0.ids@.to_multiset());
                assert(page_ids(p1) == left.to_multiset());
                assert(left.to_multiset().add(right.to_multiset()).count(x) == l0.ids@.to_multiset(
                ).insert(id).count(x));
            }
            assert(self@.add(right.to_multiset()) =~= s0@.insert(id));
        }
        (new_right_node, center_id)
    }

    /// Append a node page at a known level, keeping the table well formed.
    fn allocate_node(&mut self, page: Page, Ghost(level): Ghost<nat>) -> (r: PageOffset)
        requires
            old(self).wf(),
            old(self).pages@.len() < 0xFFFF_FFFF,
            node_wf(page, old(self).pages@.len() as int),
            page_level_ok(old(self).levels@, page, level),
        ensures
            final(self).wf(),
            r.value == old(self).pages@.len(),
            final(self).pages@ == old(self).pages@.push(page),
            final(self)@ == old(self)@.add(page_ids(page)),
            final(self).root_offset_spec() == old(self).root_offset_spec(),
            final(self).height() == old(self).height(),
            forall|i: int|
                1 <= i < old(self).pages@.len() ==> final(self).level_of(i) == old(
                    self,
                ).level_of(i),
            final(self).level_of(r.value as int) == level,
    {
        let ghost s0 = *self;
        let r = self.allocate_new_page(page);
        proof {
            self.levels@ = self.levels@.insert(s0.pages@.len() as int, level);
            lemma_wf_alloc(s0, *self, page, level);
        }
        r
    }

    /// Insert a promoted key and new right child into the internal node at
    /// `off`, which still has room.
    fn internal_insert_at(&mut self, off: PageOffset, id: u128, right_child: PageOffset)
        requires
            old(self).wf(),
            1 <= off.value < old(self).pages@.len(),
            old(self).pages@[off.value as int] is Internal,
            old(self).pages@[off.value as int]->Internal_0.ids@.len() < INTERNAL_NODE_MAX_LEN,
            1 <= right_child.value < old(self).pages@.len(),
            old(self).level_of(right_child.value as int) + 1 == old(self).level_of(
                off.value as int,
            ),
        ensures
            final(self).wf(),
            final(self)@ == old(self)@,
            final(self).pages@.len() == old(self).pages@.len(),
            final(self).root_offset_spec() == old(self).root_offset_spec(),
            final(self).height() == old(self).height(),
            final(self).levels@ == old(self).levels@,
            forall|i: int|
                0 <= i < old(self).pages@.len() && i != off.value as int ==> final(self).pages@[i]
                    == old(self).pages@[i],
            final(self).pages@[off.value as int] is Internal,
    {
        let ghost s0 = *self;
        let ghost i0 = off.value as int;
        let ghost n = s0.pages@.len() as int;
        let ghost nd0 = s0.pages@[i0]->Internal_0;
        let ghost lvl = s0.level_of(i0);

        let page = self.page_mut(off);
        let internal_node = match page {
            Page::Internal(nd) => nd,
            _ => unreached(),
        };
        proof {
            assert(node_wf(s0.pages@[i0], n));
        }
        internal_node.insert(id, right_child);

        proof {
            let p1 = self.pages@[i0];
            assert(self.pages@ == s0.pages@.update(i0, p1));
            lemma_insert_pos_props(nd0.ids@, id);
            lemma_sorted_insert(nd0.ids@, id);
            let pos = insert_pos(nd0.ids@, id);
            let c1 = nd0.child_offsets@.insert(pos + 1, right_child);
            assert(p1->Internal_0.ids@ == nd0.ids@.insert(pos, id));
            assert(p1->Internal_0.child_offsets@ == c1);
            nd0.child_offsets@.insert_ensures(pos + 1, right_child);
            assert(page_level_ok(s0.levels@, s0.pages@[i0], lvl));
            assert forall|j: int| 0 <= j < c1.len() implies 1 <= (#[trigger] c1[j]).value < n
                && s0.levels@[c1[j].value as int] == lvl - 1 by {
                if j < pos + 1 {
                    assert(c1[j] == nd0.child_offsets@[j]);
                } else if j == pos + 1 {
                    assert(c1[j] == right_child);
                } else {
                    assert(c1[j] == nd0.child_offsets@[j - 1]);
                }
            }
            assert(node_wf(p1, n));
            assert(page_level_ok(s0.levels@, p1, lvl));
            lemma_wf_update(s0, *self, i0, p1);
            lemma_table_ids_update(s0.pages@, i0, p1);
            assert(page_ids(s0.pages@[i0]) == Multiset::<u128>::empty());
            assert(page_ids(p1) == Multiset::<u128>::empty());
            assert forall|x: u128| self@.count(x) == s0@.count(x) by {
                assert(table_ids(s0.pages@.update(i0, p1)).add(page_ids(s0.pages@[i0])).count(x)
                    == table_ids(s0.pages@).add(page_ids(p1)).count(x));
            }
            assert(self@ =~= s0@);
        }
    }

    /// Insert a promoted key and new right child into the full internal node
    /// at `off` by splitting it: the page at `off` keeps the left half, and
    /// the right half comes back, with the key promoted one more level, for
    /// the caller to allocate.
    fn internal_split_at(&mut self, off: PageOffset, id: u128, right_child: PageOffset) -> (r: (
        InternalNode,
        u128,
    ))
        requires
            old(self).wf(),
            1 <= off.value < old(self).pages@.len(),
            old(self).pages@[off.value as int] is Internal,
            old(self).pages@[off.value as int]->Internal_0.ids@.len() == INTERNAL_NODE_MAX_LEN,
            1 <= right_child.value < old(self).pages@.len(),
            old(self).level_of(right_child.value as int) + 1 == old(self).level_of(
                off.value as int,
            ),
        ensures
            final(self).wf(),
            final(self)@ == old(self)@,
            node_wf(Page::Internal(r.0), final(self).pages@.len() as int),
            page_level_ok(
                final(self).levels@,
                Page::Internal(r.0),
                final(self).level_of(off.value as int),
            ),
            final(self).level_of(off.value as int) == old(self).level_of(off.value as int),
            final(self).pages@.len() == old(self).pages@.len(),
            final(self).root_offset_spec() == old(self).root_offset_spec(),
            final(self).height() == old(self).height(),
            final(self).levels@ == old(self).levels@,
            forall|i: int|
                0 <= i < old(self).pages@.len() && i != off.value as int ==> final(self).pages@[i]
                    == old(self).pages@[i],
            final(self).pages@[off.value as int] is Internal,
    {
        let ghost s0 = *self;
        let ghost i0 = off.value as int;
        let ghost n = s0.pages@.len() as int;
        let ghost nd0 = s0.pages@[i0]->Internal_0;
        let ghost lvl = s0.level_of(i0);

        let page = self.page_mut(off);
        let internal_node = match page {
            Page::Internal(nd) => nd,
            _ => unreached(),
        };
        proof {
            assert(node_wf(s0.pages@[i0], n));
        }
        let (right_node, new_center_id) = internal_node.insert_split(id, right_child);

        proof {
            let p1 = self.pages@[i0];
            assert(self.pages@ == s0.pages@.update(i0, p1));
            lemma_insert_pos_props(nd0.ids@, id);
            lemma_sorted_insert(nd0.ids@, id);
            let pos = insert_pos(nd0.ids@, id);
            let w_ids = nd0.ids@.insert(pos, id);
            let w_offs = nd0.child_offsets@.insert(pos + 1, right_child);
            nd0.child_offsets@.insert_ensures(pos + 1, right_child);
            assert(page_level_ok(s0.levels@, s0.pages@[i0], lvl));
            assert forall|j: int| 0 <= j < w_offs.len() implies 1 <= (#[trigger] w_offs[j]).value
                < n && s0.levels@[w_offs[j].value as int] == lvl - 1 by {
                if j < pos + 1 {
                    assert(w_offs[j] == nd0.child_offsets@[j]);
                } else if j == pos + 1 {
                    assert(w_offs[j] == right_child);
                } else {
                    assert(w_offs[j] == nd0.child_offsets@[j - 1]);
                }
            }
            lemma_sorted_subrange(w_ids, 0, INTERNAL_SPLIT_AT as int);
            lemma_sorted_subrange(w_ids, INTERNAL_SPLIT_AT + 1, w_ids.len() as int);
            assert(p1->Internal_0.ids@ == w_ids.subrange(0, INTERNAL_SPLIT_AT as int));
            assert(p1->Internal_0.child_offsets@ == w_offs.subrange(0, INTERNAL_SPLIT_AT + 1));
            assert(right_node.ids@ == w_ids.subrange(INTERNAL_SPLIT_AT + 1, w_ids.len() as int));
            assert(right_node.child_offsets@ == w_offs.subrange(
                INTERNAL_SPLIT_AT + 1,
                w_offs.len() as int,
            ));
            assert forall|j: int| 0 <= j < right_node.child_offsets@.len() implies 1 <= (
            #[trigger] right_node.child_offsets@[j]).value < n
                && s0.levels@[right_node.child_offsets@[j].value as int] == lvl - 1 by {
                assert(right_node.child_offsets@[j] == w_offs[INTERNAL_SPLIT_AT + 1 + j]);
            }
            assert(node_wf(Page::Internal(right_node), n));
            assert(page_level_ok(s0.levels@, Page::Internal(right_node), lvl));
            assert(node_wf(p1, n));
            assert(page_level_ok(s0.levels@, p1, lvl));
            lemma_wf_update(s0, *self, i0, p1);
            lemma_table_ids_update(s0.pages@, i0, p1);
            assert(page_ids(s0.pages@[i0]) == Multiset::<u128>::empty());
            assert(page_ids(p1) == Multiset::<u128>::empty());
            assert forall|x: u128| self@.count(x) == s0@.count(x) by {
                assert(table_ids(s0.pages@.update(i0, p1)).add(page_ids(s0.pages@[i0])).count(x)
                    == table_ids(s0.pages@).add(page_ids(p1)).count(x));
            }
            assert(self@ =~= s0@);
        }
        (right_node, new_center_id)
    }

    /// Finish a split that has reached the root: build a new root with one
    /// separator and the two halves as children, allocate it, and point the
    /// header at it.  This is the only way the tree gains a level.
    fn promote_root(&mut self, center_id: u128, left: PageOffset, right: PageOffset)
        requires
            old(self).wf(),
            old(self).pages@.len() < 0xFFFF_FFFE,
            1 <= left.value < old(self).pages@.len(),
            1 <= right.value < old(self).pages@.len(),
            old(self).level_of(left.value as int) == old(self).height(),
            old(self).level_of(right.value as int) == old(self).height(),
        ensures
            final(self).wf(),
            final(self)@ == old(self)@,
            final(self).height() == old(self).height() + 1,
            final(self).root_offset_spec() != old(self).root_offset_spec(),
            final(self).pages@.len() == old(self).pages@.len() + 1,
    {
        let ghost s0 = *self;
        let ghost h0 = s0.height();
        let new_root = InternalNode::new(center_id, left, right);
        proof {
            assert(sorted(new_root.ids@));
            assert(node_wf(Page::Internal(new_root), s0.pages@.len() as int));
            assert(page_level_ok(s0.levels@, Page::Internal(new_root), (h0 + 1) as nat));
        }
        let new_root_offset = self.allocate_node(new_root.into_page(), Ghost((h0 + 1) as nat));
        let ghost s1 = *self;
        let h = self.header_mut();
        h.root_offset = new_root_offset;
        proof {
            assert(self.pages@ == s1.pages@.update(
                0,
                Page::Header(Header { root_offset: new_root_offset }),
            ));
            lemma_wf_set_root(s1, *self, new_root_offset.value as int);
        }
    }

    /// The current length of the page table.
    pub fn page_count(&self) -> (r: usize)
        ensures
            r == self.pages@.len(),
    {
        self.pages.len()
    }

    /// Insert `id`.  Descend to the leaf where it belongs; insert in place
    /// if the leaf has room, otherwise split it and propagate the promoted
    /// key up the recorded ancestors, splitting full internal nodes in turn,
    /// until one absorbs it or a new root is created.
    ///
    /// Afterwards the set holds one more occurrence of `id` — duplicates
    /// accumulate, they are not detected or rejected.  A split happens
    /// exactly when the target leaf was full, and the root offset changes
    /// exactly when the split cascade reaches the root, growing the height
    /// by one.
    #[verifier::loop_isolation(false)]
    pub fn insert(&mut self, id: u128)
        requires
            old(self).wf(),
            old(self).pages@.len() < 0x7FFF_FFFF,
        ensures
            final(self).wf(),
            final(self)@ == old(self)@.insert(id),
            final(self).height() == old(self).height() || final(self).height() == old(self).height()
                + 1,
            (final(self).root_offset_spec() == old(self).root_offset_spec()) <==> (
            final(self).height() == old(self).height()),
            old(self).pages@[old(self).target_leaf(id)]->Leaf_0.ids@.len() < LEAF_NODE_MAX_LEN
                ==> final(self).pages@.len() == old(self).pages@.len(),
            old(self).pages@[old(self).target_leaf(id)]->Leaf_0.ids@.len() == LEAF_NODE_MAX_LEN
                ==> final(self).pages@.len() > old(self).pages@.len(),
    {
        let ghost s0 = *self;
        let ghost h0 = s0.height();
        let ghost n0 = s0.pages@.len() as int;

        let (leaf_node_offset, mut parent_offsets) = self.find_leaf_node_to_insert(id);

        let leaf_is_full = match self.page(leaf_node_offset) {
            Page::Leaf(l) => l.is_full(),
            _ => unreached(),
        };

        if !leaf_is_full {
            self.leaf_insert_at(leaf_node_offset, id);
            return;
        }

        let (new_right_node, center_id) = self.split_leaf_at(leaf_node_offset, id);
        let right_node_offset = self.allocate_node(new_right_node.into_page(), Ghost(0nat));

        let mut left_node_offset = leaf_node_offset;
        let mut right_node_offset = right_node_offset;
        let mut center_id = center_id;

        loop
            invariant
                self.wf(),
                self@ == s0@.insert(id),
                self.root_offset_spec() == s0.root_offset_spec(),
                self.height() == h0,
                parent_offsets@.len() <= h0,
                forall|k: int|
                    0 <= k < parent_offsets@.len() ==> {
                        let a = (#[trigger] parent_offsets@[k]).value as int;
                        &&& 1 <= a < self.pages@.len()
                        &&& self.pages@[a] is Internal
                        &&& self.level_of(a) == h0 - k
                    },
                1 <= left_node_offset.value < self.pages@.len(),
                1 <= right_node_offset.value < self.pages@.len(),
                self.level_of(left_node_offset.value as int) == h0 - parent_offsets@.len(),
                self.level_of(right_node_offset.value as int) == h0 - parent_offsets@.len(),
                self.pages@.len() + parent_offsets@.len() <= n0 + h0 + 1,
                self.pages@.len() > n0,
            decreases parent_offsets@.len(),
        {
            let popped = parent_offsets.pop();
            match popped {
                None => {
                    self.promote_root(center_id, left_node_offset, right_node_offset);
                    return;
                },
                Some(parent_offset) => {
                    let ghost k = parent_offsets@.len() as int;
                    let parent_is_full = match self.page(parent_offset) {
                        Page::Internal(nd) => nd.is_full(),
                        _ => unreached(),
                    };

                    if !parent_is_full {
                        self.internal_insert_at(parent_offset, center_id, right_node_offset);
                        return;
                    }

                    let ghost s_before = *self;
                    let (right_node, new_center_id) = self.internal_split_at(
                        parent_offset,
                        center_id,
                        right_node_offset,
                    );
                    let ghost lvl = self.level_of(parent_offset.value as int);
                    let ghost s_mid = *self;
                    let new_right_offset = self.allocate_node(
                        right_node.into_page(),
                        Ghost(lvl),
                    );
                    proof {
                        assert forall|j: int| 0 <= j < parent_offsets@.len() implies {
                            let a = (#[trigger] parent_offsets@[j]).value as int;
                            &&& 1 <= a < self.pages@.len()
                            &&& self.pages@[a] is Internal
                            &&& self.level_of(a) == h0 - j
                        } by {
                            let a = parent_offsets@[j].value as int;
                            assert(s_before.pages@[a] is Internal);
                            assert(self.pages@[a] == s_mid.pages@[a]);
                        }
                    }
                    right_node_offset = new_right_offset;
                    center_id = new_center_id;
                    left_node_offset = parent_offset;
                },
            }
        }
    }
}

/// Sortedness: in a well-formed set, every leaf's key array and every
/// internal node's key array is in ascending order.
pub proof fn lemma_wf_node_sorted(s: IdSet, i: int)
    requires
        s.wf(),
        1 <= i < s.pages@.len(),
    ensures
        s.pages@[i] is Leaf ==> sorted(s.pages@[i]->Leaf_0.ids@),
        s.pages@[i] is Internal ==> sorted(s.pages@[i]->Internal_0.ids@),
{
    assert(node_wf(s.pages@[i], s.pages@.len() as int));
}

/// Capacity: in a well-formed set, no leaf ever holds more than
/// `LEAF_NODE_MAX_LEN` identifiers and no internal node more than
/// `INTERNAL_NODE_MAX_LEN` keys — always exactly one fewer than its child
/// offsets.
pub proof fn lemma_wf_capacity(s: IdSet, i: int)
    requires
        s.wf(),
        1 <= i < s.pages@.len(),
    ensures
        s.pages@[i] is Leaf ==> s.pages@[i]->Leaf_0.ids@.len() <= LEAF_NODE_MAX_LEN,
        s.pages@[i] is Internal ==> {
            let nd = s.pages@[i]->Internal_0;
            &&& 1 <= nd.ids@.len() <= INTERNAL_NODE_MAX_LEN
            &&& nd.child_offsets@.len() == nd.ids@.len() + 1
        },
{
    assert(node_wf(s.pages@[i], s.pages@.len() as int));
}

/// Balance: from any node page, routing any identifier downward reaches a
/// leaf after exactly as many steps as the node's level — so from the root
/// every descent, whatever its identifier, meets its leaf at depth exactly
/// `height()`: all leaves reached by descent lie at equal depth.
pub proof fn lemma_descent_balanced(s: IdSet, id: u128, off: int, fuel: nat)
    requires
        s.wf(),
        1 <= off < s.pages@.len(),
        s.level_of(off) == fuel,
    ensures
        ({
            let t = descend(s.pages@, id, off, fuel);
            &&& 1 <= t < s.pages@.len()
            &&& s.pages@[t] is Leaf
            &&& s.level_of(t) == 0
        }),
        fuel == 0 ==> descend(s.pages@, id, off, fuel) == off,
        fuel > 0 ==> s.pages@[off] is Internal,
    decreases fuel,
{
    assert(node_wf(s.pages@[off], s.pages@.len() as int));
    assert(page_level_ok(s.levels@, s.pages@[off], fuel));
    match s.pages@[off] {
        Page::Internal(nd) => {
            lemma_insert_pos_props(nd.ids@, id);
            let child = nd.child_offsets@[insert_pos(nd.ids@, id)].value as int;
            lemma_descent_balanced(s, id, child, (fuel - 1) as nat);
        },
        _ => {},
    }
}

/// A descent given less fuel than the starting node's level stops while
/// still at an internal node: no identifier meets a leaf early.
pub proof fn lemma_descent_not_leaf_early(s: IdSet, id: u128, off: int, fuel: nat)
    requires
        s.wf(),
        1 <= off < s.pages@.len(),
        fuel < s.level_of(off),
    ensures
        ({
            let t = descend(s.pages@, id, off, fuel);
            &&& 1 <= t < s.pages@.len()
            &&& s.pages@[t] is Internal
            &&& s.level_of(t) == s.level_of(off) - fuel
        }),
    decreases fuel,
{
    assert(node_wf(s.pages@[off], s.pages@.len() as int));
    assert(page_level_ok(s.levels@, s.pages@[off], s.level_of(off)));
    match s.pages@[off] {
        Page::Internal(nd) => {
            if fuel > 0 {
                lemma_insert_pos_props(nd.ids@, id);
                let child = nd.child_offsets@[insert_pos(nd.ids@, id)].value as int;
                lemma_descent_not_leaf_early(s, id, child, (fuel - 1) as nat);
            }
        },
        _ => {},
    }
}

} // verus!
