//! Nested tree views of a book's chapters, and the flat pre-order listing
//! derived from them.

use vstd::prelude::*;

use crate::chapter::{opt_int, opt_view, Chapter, ChapterModel};
use crate::errors::ChapterError;
use crate::query::{
    children_members, clone_chapter, group_members, sorted_by_ord, views,
};
use crate::store::{ch, has_id, idx_of, in_group, lemma_idx_of, lemma_level_bound, parent_ok, valid_at, wf_seq, ChapterStore};

verus! {

broadcast use vstd::std_specs::vec::axiom_vec_index_decreases;

/// A chapter with its children nested inside it, roots first.
pub struct ChapterTree {
    pub id: i32,
    pub title: String,
    pub description: Option<String>,
    pub sort_order: i32,
    pub book_id: i32,
    pub parent_id: Option<i32>,
    pub level: i64,
    pub path: String,
    pub created_at: i64,
    pub updated_at: i64,
    pub children: Vec<ChapterTree>,
}

/// The record a tree node claims to hold.
pub open spec fn tree_node_model(t: ChapterTree) -> ChapterModel {
    ChapterModel {
        id: t.id as int,
        title: t.title@,
        description: opt_view(t.description),
        book_id: t.book_id as int,
        parent_id: opt_int(t.parent_id),
        sort_order: t.sort_order as int,
        level: t.level as int,
        path: t.path@,
        created_at: t.created_at as int,
        updated_at: t.updated_at as int,
    }
}

/// The claimed records of a forest, in order.
pub open spec fn forest_models(ts: Seq<ChapterTree>) -> Seq<ChapterModel> {
    ts.map_values(|t: ChapterTree| tree_node_model(t))
}

/// The tree `t` faithfully renders a chapter of the table `s`: its own
/// fields are that chapter's record, and its children are exactly the
/// chapter's children, in display order, each rendered faithfully in turn.
pub open spec fn tree_matches(s: Seq<ChapterModel>, t: ChapterTree) -> bool
    decreases t, t.children@.len() + 1,
{
    &&& has_id(s, t.id as int)
    &&& ch(s, t.id as int) == tree_node_model(t)
    &&& sorted_by_ord(forest_models(t.children@))
    &&& forest_models(t.children@).to_multiset() == children_members(
        s,
        t.id as int,
    ).to_multiset()
    &&& subtrees_match(s, t, 0)
}

/// All children of `t` from position `k` on render faithfully.
pub open spec fn subtrees_match(s: Seq<ChapterModel>, t: ChapterTree, k: int) -> bool
    decreases t, t.children@.len() - k,
{
    if k < 0 || k >= t.children@.len() {
        true
    } else {
        tree_matches(s, t.children@[k]) && subtrees_match(s, t, k + 1)
    }
}

/// Every tree of the forest renders faithfully.
pub open spec fn forest_matches(s: Seq<ChapterModel>, ts: Seq<ChapterTree>) -> bool {
    forall|k: int| 0 <= k < ts.len() ==> #[trigger] tree_matches(s, ts[k])
}

/// Walking from position `k`, each faithful child is a faithful subtree.
pub proof fn lemma_subtrees_match_at(s: Seq<ChapterModel>, t: ChapterTree, k: int, w: int)
    requires
        subtrees_match(s, t, k),
        k <= w < t.children@.len(),
        0 <= k,
    ensures
        tree_matches(s, t.children@[w]),
    decreases w - k,
{
    if w > k {
        lemma_subtrees_match_at(s, t, k + 1, w);
    }
}

/// The converse: pointwise faithful children make `subtrees_match` true.
pub proof fn lemma_subtrees_match_all(s: Seq<ChapterModel>, t: ChapterTree, k: int)
    requires
        0 <= k,
        forall|w: int| k <= w < t.children@.len() ==> #[trigger] tree_matches(s, t.children@[w]),
    ensures
        subtrees_match(s, t, k),
    decreases t.children@.len() - k,
{
    if k < t.children@.len() {
        assert(tree_matches(s, t.children@[k]));
        lemma_subtrees_match_all(s, t, k + 1);
    }
}

/// The flat pre-order rendering of a forest: each tree's own record,
/// followed by the flattening of its children, then the rest of the
/// forest.
pub open spec fn flat_of_tree(t: ChapterTree) -> Seq<ChapterModel>
    decreases t, t.children@.len() + 1,
{
    seq![tree_node_model(t)] + flat_of_kids(t, 0)
}

/// The flattening of the children of `t` from position `k` on.
pub open spec fn flat_of_kids(t: ChapterTree, k: int) -> Seq<ChapterModel>
    decreases t, t.children@.len() - k,
{
    if k < 0 || k >= t.children@.len() {
        Seq::empty()
    } else {
        flat_of_tree(t.children@[k]) + flat_of_kids(t, k + 1)
    }
}

impl ChapterStore {
    /// The full nested view of one chapter: the chapter itself with every
    /// descendant nested under its parent, siblings in display order.
    pub fn get_tree(&self, chapter_id: i32) -> (r: Result<ChapterTree, ChapterError>)
        requires
            self.wf(),
        ensures
            match r {
                Ok(t) => has_id(self@, chapter_id as int) && tree_matches(self@, t)
                    && tree_node_model(t) == ch(self@, chapter_id as int),
                Err(e) => e == ChapterError::NotFound && !has_id(self@, chapter_id as int),
            },
    {
        match self.find_index(chapter_id) {
            None => Err(ChapterError::NotFound),
            Some(i) => {
                proof {
                    lemma_idx_of(self@, i as int);
                }
                Ok(self.build_tree(i))
            },
        }
    }

    /// The nested view of a whole book: its root chapters in display
    /// order, each with its full subtree.
    pub fn get_book_tree(&self, book_id: i32) -> (r: Vec<ChapterTree>)
        requires
            self.wf(),
        ensures
            forest_matches(self@, r@),
            sorted_by_ord(forest_models(r@)),
            forest_models(r@).to_multiset() == group_members(
                self@,
                book_id as int,
                None,
            ).to_multiset(),
    {
        let roots = self.find_root_chapters(book_id);
        let n = roots.len();
        let mut out: Vec<ChapterTree> = Vec::new();
        let mut k: usize = 0;
        while k < n
            invariant
                self.wf(),
                n == roots@.len(),
                k <= n,
                out@.len() == k,
                forest_matches(self@, out@),
                forall|w: int|
                    0 <= w < k ==> #[trigger] forest_models(out@)[w] == views(roots@)[w],
                views(roots@).to_multiset() == group_members(
                    self@,
                    book_id as int,
                    None,
                ).to_multiset(),
                sorted_by_ord(views(roots@)),
            decreases n - k,
        {
            let cid = roots[k].id;
            proof {
                crate::query::lemma_group_listed(self@, views(roots@), book_id as int, None, k as int);
            }
            let i = match self.find_index(cid) {
                Some(i) => i,
                None => {
                    proof {
                        assert(false);
                    }
                    return out;
                },
            };
            proof {
                assert(self@[i as int] == views(roots@)[k as int]);
            }
            let ghost out_pre = out@;
            let t = self.build_tree(i);
            out.push(t);
            proof {
                assert(forest_models(out@) =~= forest_models(out_pre).push(tree_node_model(t)));
                assert forall|w: int| 0 <= w < out@.len() implies #[trigger] tree_matches(
                    self@,
                    out@[w],
                ) by {
                    if w < out_pre.len() {
                        assert(out@[w] == out_pre[w]);
                        assert(tree_matches(self@, out_pre[w]));
                    }
                }
            }
            k += 1;
        }
        proof {
            assert(forest_models(out@) =~= views(roots@));
        }
        out
    }

    /// The flat pre-order listing of a whole book: every chapter of the
    /// book — and nothing else — with parents immediately before their
    /// descendants and siblings in display order; the stored `level` of
    /// each row gives its indent.
    pub fn get_flat_list_with_level(&self, book_id: i32) -> (r: Vec<Chapter>)
        requires
            self.wf(),
        ensures
            exists|ts: Seq<ChapterTree>|
                {
                    &&& #[trigger] forest_matches(self@, ts)
                    &&& sorted_by_ord(forest_models(ts))
                    &&& forest_models(ts).to_multiset() == group_members(
                        self@,
                        book_id as int,
                        None,
                    ).to_multiset()
                    &&& views(r@) == flat_of_forest(ts)
                },
            forall|i: int|
                0 <= i < self@.len() && self@[i].book_id == book_id as int
                    ==> #[trigger] views(r@).contains(self@[i]),
            forall|e: ChapterModel|
                #[trigger] views(r@).contains(e) ==> self@.contains(e) && e.book_id
                    == book_id as int,
    {
        let forest = self.get_book_tree(book_id);
        let mut out: Vec<Chapter> = Vec::new();
        let n = forest.len();
        let mut k: usize = 0;
        while k < n
            invariant
                n == forest@.len(),
                k <= n,
                views(out@) == flat_of_forest(forest@.take(k as int)),
            decreases n - k,
        {
            proof {
                lemma_flat_of_forest_step(forest@, k as int);
            }
            flatten_tree(&forest[k], &mut out);
            k += 1;
        }
        proof {
            assert(forest@.take(n as int) =~= forest@);
            assert forall|i: int|
                0 <= i < self@.len() && self@[i].book_id == book_id as int
                    implies #[trigger] views(out@).contains(self@[i]) by {
                lemma_book_listing_complete(self@, forest@, book_id as int, i);
            }
            assert forall|e: ChapterModel|
                #[trigger] views(out@).contains(e) implies self@.contains(e) && e.book_id
                == book_id as int by {
                lemma_book_listing_sound(self@, forest@, book_id as int, e);
            }
        }
        out
    }

    /// Renders the chapter at position `i` and its whole subtree as a
    /// nested tree, recursing along levels, which strictly grow downward.
    fn build_tree(&self, i: usize) -> (t: ChapterTree)
        requires
            self.wf(),
            i < self@.len(),
        ensures
            tree_matches(self@, t),
            tree_node_model(t) == self@[i as int],
        decreases self@.len() - self@[i as int].level,
    {
        proof {
            lemma_idx_of(self@, i as int);
            lemma_level_bound(self@, i as int);
        }
        let me = &self.chapters[i];
        let my_id = me.id;
        let kids = self.find_children(my_id);
        let m = kids.len();
        let mut children: Vec<ChapterTree> = Vec::new();
        let mut k: usize = 0;
        while k < m
            invariant
                self.wf(),
                i < self@.len(),
                self@[i as int].id == my_id as int,
                idx_of(self@, my_id as int) == i as int,
                m == kids@.len(),
                k <= m,
                children@.len() == k,
                forest_matches(self@, children@),
                forall|w: int|
                    0 <= w < k ==> #[trigger] forest_models(children@)[w] == views(kids@)[w],
                views(kids@).to_multiset() == children_members(
                    self@,
                    my_id as int,
                ).to_multiset(),
                sorted_by_ord(views(kids@)),
            decreases m - k,
        {
            let cid = kids[k].id;
            proof {
                crate::query::lemma_children_listed(self@, views(kids@), my_id as int, k as int);
            }
            let ci = match self.find_index(cid) {
                Some(ci) => ci,
                None => {
                    proof {
                        assert(false);
                    }
                    return ChapterTree {
                        id: my_id,
                        title: me.title.clone(),
                        description: crate::store::clone_opt_string(&me.description),
                        sort_order: me.sort_order,
                        book_id: me.book_id,
                        parent_id: me.parent_id,
                        level: me.level,
                        path: me.path.clone(),
                        created_at: me.created_at,
                        updated_at: me.updated_at,
                        children: Vec::new(),
                    };
                },
            };
            proof {
                assert(self@[ci as int] == views(kids@)[k as int]);
                assert(self@[ci as int].parent_id == Some(my_id as int));
                assert(valid_at(self@, ci as int));
                assert(ch(self@, my_id as int) == self@[i as int]);
                assert(self@[ci as int].level == self@[i as int].level + 1);
                lemma_level_bound(self@, ci as int);
            }
            let ghost pre = children@;
            let sub = self.build_tree(ci);
            children.push(sub);
            proof {
                assert(forest_models(children@) =~= forest_models(pre).push(
                    tree_node_model(sub),
                ));
                assert forall|w: int| 0 <= w < children@.len() implies #[trigger] tree_matches(
                    self@,
                    children@[w],
                ) by {
                    if w < pre.len() {
                        assert(children@[w] == pre[w]);
                        assert(tree_matches(self@, pre[w]));
                    }
                }
            }
            k += 1;
        }
        let t = ChapterTree {
            id: my_id,
            title: me.title.clone(),
            description: crate::store::clone_opt_string(&me.description),
            sort_order: me.sort_order,
            book_id: me.book_id,
            parent_id: me.parent_id,
            level: me.level,
            path: me.path.clone(),
            created_at: me.created_at,
            updated_at: me.updated_at,
            children: children,
        };
        proof {
            assert(tree_node_model(t) =~= self@[i as int]);
            assert(forest_models(t.children@) =~= views(kids@));
            lemma_subtrees_match_all(self@, t, 0);
        }
        t
    }
}

/// The flat rendering of a forest, tree by tree.
pub open spec fn flat_of_forest(ts: Seq<ChapterTree>) -> Seq<ChapterModel>
    decreases ts.len(),
{
    if ts.len() == 0 {
        Seq::empty()
    } else {
        flat_of_forest(ts.drop_last()) + flat_of_tree(ts.last())
    }
}

/// One more tree extends the flat rendering at the back.
proof fn lemma_flat_of_forest_step(ts: Seq<ChapterTree>, k: int)
    requires
        0 <= k < ts.len(),
    ensures
        flat_of_forest(ts.take(k + 1)) == flat_of_forest(ts.take(k)) + flat_of_tree(ts[k]),
{
    assert(ts.take(k + 1).drop_last() =~= ts.take(k));
    assert(ts.take(k + 1).last() == ts[k]);
    assert(ts.take(k + 1).len() == k + 1);
}

/// Appends the pre-order rendering of `t` to `out`.
fn flatten_tree(t: &ChapterTree, out: &mut Vec<Chapter>)
    ensures
        views(final(out)@) == views(old(out)@) + flat_of_tree(*t),
    decreases *t, t.children@.len() + 1,
{
    let me = Chapter {
        id: t.id,
        title: t.title.clone(),
        description: crate::store::clone_opt_string(&t.description),
        book_id: t.book_id,
        parent_id: t.parent_id,
        sort_order: t.sort_order,
        level: t.level,
        path: t.path.clone(),
        created_at: t.created_at,
        updated_at: t.updated_at,
    };
    let ghost pre = out@;
    out.push(me);
    proof {
        assert(views(out@) =~= views(pre).push(tree_node_model(*t)));
    }
    let n = t.children.len();
    let mut k: usize = 0;
    while k < n
        invariant
            n == t.children@.len(),
            k <= n,
            views(out@) == views(pre).push(tree_node_model(*t)) + flat_upto(*t, k as int),
        decreases n - k,
    {
        flatten_tree(&t.children[k], out);
        proof {
            lemma_flat_upto_step(*t, k as int);
            assert(views(out@) =~= views(pre).push(tree_node_model(*t)) + flat_upto(
                *t,
                k + 1 as int,
            ));
        }
        k += 1;
    }
    proof {
        lemma_flat_upto_full(*t, n as int);
        assert(views(out@) =~= views(pre) + flat_of_tree(*t));
    }
}

/// The flattening of the first `k` children of `t`.
pub open spec fn flat_upto(t: ChapterTree, k: int) -> Seq<ChapterModel>
    decreases t, k + 1,
{
    if k <= 0 || k > t.children@.len() {
        Seq::empty()
    } else {
        flat_upto(t, k - 1) + flat_of_tree(t.children@[k - 1])
    }
}

/// One more child extends the prefix flattening at the back.
proof fn lemma_flat_upto_step(t: ChapterTree, k: int)
    requires
        0 <= k < t.children@.len(),
    ensures
        flat_upto(t, k + 1) == flat_upto(t, k) + flat_of_tree(t.children@[k]),
{
}

/// The full prefix flattening is the flattening of all children.
proof fn lemma_flat_upto_full(t: ChapterTree, n: int)
    requires
        n == t.children@.len(),
    ensures
        seq![tree_node_model(t)] + flat_of_kids(t, 0) == flat_of_tree(t),
        flat_upto(t, n) == flat_of_kids(t, 0),
{
    lemma_flat_upto_eq(t, 0);
}

/// The two child flattenings — front-recursive and back-recursive — agree.
proof fn lemma_flat_upto_eq(t: ChapterTree, k: int)
    requires
        0 <= k <= t.children@.len(),
    ensures
        flat_upto(t, t.children@.len() as int) == flat_upto(t, k) + flat_of_kids(t, k),
    decreases t.children@.len() - k,
{
    let n = t.children@.len() as int;
    if k == n {
        assert(flat_of_kids(t, k) =~= Seq::<ChapterModel>::empty());
        assert(flat_upto(t, n) =~= flat_upto(t, k) + flat_of_kids(t, k));
    } else {
        lemma_flat_upto_eq(t, k + 1);
        lemma_flat_upto_step(t, k);
        assert(flat_upto(t, k + 1) + flat_of_kids(t, k + 1) =~= flat_upto(t, k) + (flat_of_tree(
            t.children@[k],
        ) + flat_of_kids(t, k + 1)));
        assert(flat_of_tree(t.children@[k]) + flat_of_kids(t, k + 1) =~= flat_of_kids(t, k));
    }
}

/// A record found in any child's flattening is in the children flattening.
proof fn lemma_flat_kids_has(t: ChapterTree, k: int, w: int, e: ChapterModel)
    requires
        0 <= k <= w < t.children@.len(),
        flat_of_tree(t.children@[w]).contains(e),
    ensures
        flat_of_kids(t, k).contains(e),
    decreases w - k,
{
    let left = flat_of_tree(t.children@[k]);
    let rest = flat_of_kids(t, k + 1);
    if k == w {
        let j = choose|j: int| 0 <= j < left.len() && left[j] == e;
        assert((left + rest)[j] == e);
    } else {
        lemma_flat_kids_has(t, k + 1, w, e);
        let j = choose|j: int| 0 <= j < rest.len() && rest[j] == e;
        assert((left + rest)[left.len() + j] == e);
    }
}

/// Completeness of one tree: any chapter whose upward walk reaches the
/// tree's own chapter appears in the tree's flattening.
pub proof fn lemma_tree_has(s: Seq<ChapterModel>, t: ChapterTree, x: int, f: nat)
    requires
        wf_seq(s),
        tree_matches(s, t),
        has_id(s, x),
        crate::cycle::chain_hits(s, x, t.id as int, f),
    ensures
        flat_of_tree(t).contains(ch(s, x)),
    decreases f,
{
    if x == t.id as int {
        assert(flat_of_tree(t)[0] == tree_node_model(t));
        assert(flat_of_tree(t).contains(ch(s, x)));
    } else {
        crate::cycle::lemma_chain_pred(s, x, t.id as int, f);
        let y = choose|y: int|
            has_id(s, y) && (#[trigger] ch(s, y)).parent_id == Some(t.id as int)
                && crate::cycle::chain_hits(s, x, y, (f - 1) as nat);
        let yi = idx_of(s, y);
        assert(0 <= yi < s.len() && s[yi].id == y);
        crate::query::lemma_children_member_in(s, t.id as int, yi);
        children_members(s, t.id as int).to_multiset_ensures();
        forest_models(t.children@).to_multiset_ensures();
        assert(forest_models(t.children@).to_multiset().contains(s[yi]));
        assert(forest_models(t.children@).contains(s[yi]));
        let w = choose|w: int|
            0 <= w < forest_models(t.children@).len() && forest_models(t.children@)[w] == s[yi];
        lemma_subtrees_match_at(s, t, 0, w);
        assert(tree_node_model(t.children@[w]) == s[yi]);
        assert(t.children@[w].id as int == y);
        lemma_tree_has(s, t.children@[w], x, (f - 1) as nat);
        lemma_flat_kids_has(t, 0, w, ch(s, x));
        let kids = flat_of_kids(t, 0);
        let j = choose|j: int| 0 <= j < kids.len() && kids[j] == ch(s, x);
        assert(flat_of_tree(t)[1 + j] == ch(s, x));
    }
}

/// Soundness of one tree: everything in its flattening is a stored chapter
/// of the tree's own book.
pub proof fn lemma_tree_sound(s: Seq<ChapterModel>, t: ChapterTree, e: ChapterModel)
    requires
        wf_seq(s),
        tree_matches(s, t),
        flat_of_tree(t).contains(e),
    ensures
        s.contains(e),
        e.book_id == tree_node_model(t).book_id,
    decreases t, t.children@.len() + 1,
{
    let kids = flat_of_kids(t, 0);
    let j = choose|j: int| 0 <= j < flat_of_tree(t).len() && flat_of_tree(t)[j] == e;
    if j == 0 {
        assert(e == tree_node_model(t));
        let i = idx_of(s, t.id as int);
        assert(0 <= i < s.len() && s[i] == e);
    } else {
        assert(kids[j - 1] == e);
        lemma_kids_sound(s, t, 0, e);
    }
}

/// Soundness of the children flattenings from position `k` on.
proof fn lemma_kids_sound(s: Seq<ChapterModel>, t: ChapterTree, k: int, e: ChapterModel)
    requires
        wf_seq(s),
        tree_matches(s, t),
        0 <= k,
        flat_of_kids(t, k).contains(e),
    ensures
        s.contains(e),
        e.book_id == tree_node_model(t).book_id,
    decreases t, t.children@.len() - k,
{
    assert(k < t.children@.len()) by {
        if k >= t.children@.len() {
            let j = choose|j: int|
                0 <= j < flat_of_kids(t, k).len() && flat_of_kids(t, k)[j] == e;
        }
    }
    let left = flat_of_tree(t.children@[k]);
    let rest = flat_of_kids(t, k + 1);
    let j = choose|j: int| 0 <= j < flat_of_kids(t, k).len() && flat_of_kids(t, k)[j] == e;
    lemma_subtrees_match_at(s, t, 0, k);
    // the child chapter belongs to the same book as its parent
    forest_models(t.children@).to_multiset_ensures();
    children_members(s, t.id as int).to_multiset_ensures();
    assert(forest_models(t.children@).contains(tree_node_model(t.children@[k]))) by {
        assert(forest_models(t.children@)[k] == tree_node_model(t.children@[k]));
    }
    assert(forest_models(t.children@).to_multiset().contains(tree_node_model(t.children@[k])));
    assert(children_members(s, t.id as int).to_multiset().contains(
        tree_node_model(t.children@[k]),
    ));
    assert(children_members(s, t.id as int).contains(tree_node_model(t.children@[k])));
    crate::query::lemma_children_member_sub(s, t.id as int, tree_node_model(t.children@[k]));
    let ci = choose|ci: int|
        0 <= ci < s.len() && s[ci] == tree_node_model(t.children@[k]);
    assert(valid_at(s, ci));
    assert(ch(s, t.id as int).book_id == s[ci].book_id) by {
        assert(parent_ok(s, ci));
        assert(idx_of(s, t.id as int) == idx_of(s, s[ci].parent_id->0));
    }
    assert(tree_node_model(t.children@[k]).book_id == tree_node_model(t).book_id);
    if j < left.len() {
        assert(left[j] == e);
        lemma_tree_sound(s, t.children@[k], e);
    } else {
        assert(rest[j - left.len()] == e);
        lemma_kids_sound(s, t, k + 1, e);
    }
}

/// A record found in a member tree's flattening is in the forest's.
pub proof fn lemma_forest_flat_has(ts: Seq<ChapterTree>, w: int, e: ChapterModel)
    requires
        0 <= w < ts.len(),
        flat_of_tree(ts[w]).contains(e),
    ensures
        flat_of_forest(ts).contains(e),
    decreases ts.len(),
{
    let left = flat_of_forest(ts.drop_last());
    let right = flat_of_tree(ts.last());
    if w == ts.len() - 1 {
        let j = choose|j: int| 0 <= j < right.len() && right[j] == e;
        assert((left + right)[left.len() + j] == e);
    } else {
        assert(ts.drop_last()[w] == ts[w]);
        lemma_forest_flat_has(ts.drop_last(), w, e);
        let j = choose|j: int| 0 <= j < left.len() && left[j] == e;
        assert((left + right)[j] == e);
    }
}

/// Every record of the forest's flattening comes from some member tree.
pub proof fn lemma_forest_flat_from(ts: Seq<ChapterTree>, e: ChapterModel) -> (w: int)
    requires
        flat_of_forest(ts).contains(e),
    ensures
        0 <= w < ts.len(),
        flat_of_tree(ts[w]).contains(e),
    decreases ts.len(),
{
    assert(ts.len() > 0) by {
        if ts.len() == 0 {
            let j = choose|j: int|
                0 <= j < flat_of_forest(ts).len() && flat_of_forest(ts)[j] == e;
        }
    }
    let left = flat_of_forest(ts.drop_last());
    let right = flat_of_tree(ts.last());
    let j = choose|j: int| 0 <= j < flat_of_forest(ts).len() && flat_of_forest(ts)[j] == e;
    if j < left.len() {
        assert(left[j] == e);
        let w = lemma_forest_flat_from(ts.drop_last(), e);
        assert(ts.drop_last()[w] == ts[w]);
        w
    } else {
        assert(right[j - left.len()] == e);
        let w = ts.len() - 1;
        w
    }
}

/// Completeness of the book listing: a forest that renders the book's root
/// group flattens to a listing that holds every chapter of the book.
pub proof fn lemma_book_listing_complete(
    s: Seq<ChapterModel>,
    ts: Seq<ChapterTree>,
    b: int,
    i: int,
)
    requires
        wf_seq(s),
        forest_matches(s, ts),
        forest_models(ts).to_multiset() == group_members(s, b, None).to_multiset(),
        0 <= i < s.len(),
        s[i].book_id == b,
    ensures
        flat_of_forest(ts).contains(s[i]),
{
    crate::cycle::lemma_chain_to_some_root(s, i);
    let r = choose|r: int|
        has_id(s, r) && (#[trigger] ch(s, r)).parent_id is None && ch(s, r).book_id == b
            && crate::cycle::reachable_up(s, s[i].id, r);
    let ri = idx_of(s, r);
    assert(0 <= ri < s.len() && s[ri].id == r);
    assert(in_group(s[ri], b, None));
    crate::query::lemma_group_member_in(s, b, None, ri);
    group_members(s, b, None).to_multiset_ensures();
    forest_models(ts).to_multiset_ensures();
    assert(forest_models(ts).to_multiset().contains(s[ri]));
    assert(forest_models(ts).contains(s[ri]));
    let w = choose|w: int| 0 <= w < forest_models(ts).len() && forest_models(ts)[w] == s[ri];
    assert(tree_matches(s, ts[w]));
    assert(tree_node_model(ts[w]) == s[ri]);
    assert(ts[w].id as int == r);
    lemma_idx_of(s, i);
    lemma_tree_has(s, ts[w], s[i].id, s.len() as nat);
    assert(ch(s, s[i].id) == s[i]);
    lemma_forest_flat_has(ts, w, s[i]);
}

/// Soundness of the book listing: such a forest flattens to stored
/// chapters of that book, and nothing else.
pub proof fn lemma_book_listing_sound(
    s: Seq<ChapterModel>,
    ts: Seq<ChapterTree>,
    b: int,
    e: ChapterModel,
)
    requires
        wf_seq(s),
        forest_matches(s, ts),
        forest_models(ts).to_multiset() == group_members(s, b, None).to_multiset(),
        flat_of_forest(ts).contains(e),
    ensures
        s.contains(e),
        e.book_id == b,
{
    let w = lemma_forest_flat_from(ts, e);
    assert(tree_matches(s, ts[w]));
    forest_models(ts).to_multiset_ensures();
    group_members(s, b, None).to_multiset_ensures();
    assert(forest_models(ts).contains(tree_node_model(ts[w]))) by {
        assert(forest_models(ts)[w] == tree_node_model(ts[w]));
    }
    assert(forest_models(ts).to_multiset().contains(tree_node_model(ts[w])));
    assert(group_members(s, b, None).to_multiset().contains(tree_node_model(ts[w])));
    assert(group_members(s, b, None).contains(tree_node_model(ts[w])));
    crate::query::lemma_group_member_sub(s, b, None, tree_node_model(ts[w]));
    assert(in_group(tree_node_model(ts[w]), b, None));
    lemma_tree_sound(s, ts[w], e);
}

} // verus!
