//! Read operations: sibling listings in display order.

use vstd::prelude::*;
use vstd::multiset::Multiset;

use crate::chapter::{opt_id_eq, opt_int, Chapter, ChapterModel};
use crate::store::{ch, clone_opt_string, has_id, idx_of, ids_unique, in_group, lemma_idx_of, ChapterStore};

verus! {

/// The models of a sequence of records.
pub open spec fn views(s: Seq<Chapter>) -> Seq<ChapterModel> {
    s.map_values(|c: Chapter| c@)
}

/// Display order: by ordering key, then by creation instant, then by id —
/// a total order, since ids never repeat.
pub open spec fn ord_leq(a: ChapterModel, b: ChapterModel) -> bool {
    ||| a.sort_order < b.sort_order
    ||| (a.sort_order == b.sort_order && a.created_at < b.created_at)
    ||| (a.sort_order == b.sort_order && a.created_at == b.created_at && a.id <= b.id)
}

/// The sequence is in display order.
pub open spec fn sorted_by_ord(s: Seq<ChapterModel>) -> bool {
    forall|i: int, j: int| 0 <= i < j < s.len() ==> ord_leq(#[trigger] s[i], #[trigger] s[j])
}

/// The chapters of the book `b`, in stored order.
pub open spec fn book_members(s: Seq<ChapterModel>, b: int) -> Seq<ChapterModel> {
    s.filter(|c: ChapterModel| c.book_id == b)
}

/// The chapters of the sibling group `(b, p)`, in stored order.
pub open spec fn group_members(s: Seq<ChapterModel>, b: int, p: Option<int>) -> Seq<
    ChapterModel,
> {
    s.filter(|c: ChapterModel| in_group(c, b, p))
}

/// The direct children of the chapter `pid`, in stored order.
pub open spec fn children_members(s: Seq<ChapterModel>, pid: int) -> Seq<ChapterModel> {
    s.filter(|c: ChapterModel| c.parent_id == Some(pid))
}

/// A field-preserving copy of a record.
pub fn clone_chapter(c: &Chapter) -> (r: Chapter)
    ensures
        r@ == c@,
{
    let r = Chapter {
        id: c.id,
        title: c.title.clone(),
        description: clone_opt_string(&c.description),
        book_id: c.book_id,
        parent_id: c.parent_id,
        sort_order: c.sort_order,
        level: c.level,
        path: c.path.clone(),
        created_at: c.created_at,
        updated_at: c.updated_at,
    };
    proof {
        assert(r@ =~= c@);
    }
    r
}

/// Comparison in display order.
fn ord_before(a: &Chapter, b: &Chapter) -> (r: bool)
    ensures
        r == ord_leq(a@, b@),
{
    if a.sort_order != b.sort_order {
        a.sort_order < b.sort_order
    } else if a.created_at != b.created_at {
        a.created_at < b.created_at
    } else {
        a.id <= b.id
    }
}

/// Selection sort into display order; the result holds exactly the given
/// records.
fn sort_chapters(input: Vec<Chapter>) -> (r: Vec<Chapter>)
    ensures
        views(r@).to_multiset() == views(input@).to_multiset(),
        sorted_by_ord(views(r@)),
{
    broadcast use vstd::seq_lib::group_to_multiset_ensures;

    let mut pool = input;
    let mut out: Vec<Chapter> = Vec::new();
    let ghost target = views(pool@).to_multiset();
    while pool.len() > 0
        invariant
            views(out@).to_multiset().add(views(pool@).to_multiset()) =~= target,
            sorted_by_ord(views(out@)),
            forall|i: int, j: int|
                0 <= i < views(out@).len() && 0 <= j < views(pool@).len() ==> ord_leq(
                    #[trigger] views(out@)[i],
                    #[trigger] views(pool@)[j],
                ),
        decreases pool.len(),
    {
        let mut best: usize = 0;
        let mut k: usize = 1;
        while k < pool.len()
            invariant
                pool@.len() > 0,
                best < pool@.len(),
                k <= pool@.len(),
                forall|t: int|
                    0 <= t < k ==> ord_leq(views(pool@)[best as int], #[trigger] views(pool@)[t]),
            decreases pool.len() - k,
        {
            if ord_before(&pool[k], &pool[best]) {
                best = k;
            }
            k += 1;
        }
        let ghost pool_pre = pool@;
        let c = pool.remove(best);
        proof {
            assert(views(pool@) =~= views(pool_pre).remove(best as int));
            views(pool_pre).to_multiset_ensures();
            assert(views(pool_pre).to_multiset().contains(c@)) by {
                assert(views(pool_pre)[best as int] == c@);
                assert(views(pool_pre).contains(c@));
            }
            assert(views(pool_pre).to_multiset() =~= views(pool@).to_multiset().insert(c@)) by {
                assert(views(pool_pre)[best as int] == c@);
                assert(views(pool_pre).remove(best as int).to_multiset() =~= views(
                    pool_pre,
                ).to_multiset().remove(c@));
            }
        }
        let ghost out_pre = out@;
        out.push(c);
        proof {
            assert(views(out@) =~= views(out_pre).push(c@));
            views(out_pre).to_multiset_ensures();
            assert(views(out@).to_multiset() =~= views(out_pre).to_multiset().insert(c@));
            assert forall|i: int, j: int|
                0 <= i < views(out@).len() && 0 <= j < views(pool@).len() implies ord_leq(
                #[trigger] views(out@)[i],
                #[trigger] views(pool@)[j],
            ) by {
                assert(views(pool@)[j] == views(pool_pre).remove(best as int)[j]);
                if i < views(out_pre).len() {
                    assert(views(out@)[i] == views(out_pre)[i]);
                    if j < best as int {
                        assert(views(pool@)[j] == views(pool_pre)[j]);
                    } else {
                        assert(views(pool@)[j] == views(pool_pre)[j + 1]);
                    }
                } else {
                    assert(views(out@)[i] == c@);
                    if j < best as int {
                        assert(ord_leq(c@, views(pool_pre)[j]));
                        assert(views(pool@)[j] == views(pool_pre)[j]);
                    } else {
                        assert(ord_leq(c@, views(pool_pre)[j + 1]));
                        assert(views(pool@)[j] == views(pool_pre)[j + 1]);
                    }
                }
            }
            assert(sorted_by_ord(views(out@))) by {
                assert forall|i: int, j: int|
                    0 <= i < j < views(out@).len() implies ord_leq(
                    #[trigger] views(out@)[i],
                    #[trigger] views(out@)[j],
                ) by {
                    if j < views(out_pre).len() {
                        assert(views(out@)[i] == views(out_pre)[i] && views(out@)[j] == views(
                            out_pre,
                        )[j]);
                    } else {
                        assert(views(out@)[j] == c@);
                        assert(views(out@)[i] == views(out_pre)[i]);
                        assert(ord_leq(views(out_pre)[i], views(pool_pre)[best as int]));
                    }
                }
            }
        }
    }
    proof {
        assert(views(pool@).to_multiset() =~= Multiset::<ChapterModel>::empty()) by {
            assert(views(pool@) =~= Seq::<ChapterModel>::empty());
        }
        assert(views(out@).to_multiset() =~= target);
    }
    out
}

impl ChapterStore {
    /// All chapters of a book, in display order.
    pub fn find_by_book(&self, book_id: i32) -> (r: Vec<Chapter>)
        ensures
            views(r@).to_multiset() == book_members(self@, book_id as int).to_multiset(),
            sorted_by_ord(views(r@)),
    {
        let picked = self.collect_book(book_id);
        sort_chapters(picked)
    }

    /// The root chapters of a book, in display order.
    pub fn find_root_chapters(&self, book_id: i32) -> (r: Vec<Chapter>)
        ensures
            views(r@).to_multiset() == group_members(self@, book_id as int, None).to_multiset(),
            sorted_by_ord(views(r@)),
    {
        let picked = self.collect_group(book_id, None);
        sort_chapters(picked)
    }

    /// The direct children of a chapter, in display order.
    pub fn find_children(&self, parent_id: i32) -> (r: Vec<Chapter>)
        ensures
            views(r@).to_multiset() == children_members(self@, parent_id as int).to_multiset(),
            sorted_by_ord(views(r@)),
    {
        let picked = self.collect_children(parent_id);
        sort_chapters(picked)
    }

    fn collect_book(&self, book_id: i32) -> (r: Vec<Chapter>)
        ensures
            views(r@) == book_members(self@, book_id as int),
    {
        let n = self.chapters.len();
        let mut out: Vec<Chapter> = Vec::new();
        let mut i: usize = 0;
        proof {
            reveal(Seq::filter);
            assert(self@.take(0) =~= Seq::<ChapterModel>::empty());
            assert(views(out@) =~= Seq::<ChapterModel>::empty());
        }
        while i < n
            invariant
                n == self@.len(),
                i <= n,
                views(out@) == book_members(self@.take(i as int), book_id as int),
            decreases n - i,
        {
            let ghost pre = self@.take(i as int);
            proof {
                reveal(Seq::filter);
                assert(self@.take(i + 1 as int).drop_last() =~= pre);
                assert(self@.take(i + 1 as int).last() == self@[i as int]);
            }
            let c = &self.chapters[i];
            if c.book_id == book_id {
                let ghost out_pre = out@;
                out.push(clone_chapter(c));
                proof {
                    assert(views(out@) =~= views(out_pre).push(self@[i as int]));
                }
            }
            proof {
                assert(views(out@) =~= book_members(self@.take(i + 1 as int), book_id as int));
            }
            i += 1;
        }
        proof {
            reveal(Seq::filter);
            assert(self@.take(n as int) =~= self@);
        }
        out
    }

    fn collect_group(&self, book_id: i32, parent_id: Option<i32>) -> (r: Vec<Chapter>)
        ensures
            views(r@) == group_members(self@, book_id as int, opt_int(parent_id)),
    {
        let n = self.chapters.len();
        let mut out: Vec<Chapter> = Vec::new();
        let mut i: usize = 0;
        proof {
            reveal(Seq::filter);
            assert(self@.take(0) =~= Seq::<ChapterModel>::empty());
            assert(views(out@) =~= Seq::<ChapterModel>::empty());
        }
        while i < n
            invariant
                n == self@.len(),
                i <= n,
                views(out@) == group_members(
                    self@.take(i as int),
                    book_id as int,
                    opt_int(parent_id),
                ),
            decreases n - i,
        {
            let ghost pre = self@.take(i as int);
            proof {
                reveal(Seq::filter);
                assert(self@.take(i + 1 as int).drop_last() =~= pre);
                assert(self@.take(i + 1 as int).last() == self@[i as int]);
            }
            let c = &self.chapters[i];
            if c.book_id == book_id && opt_id_eq(c.parent_id, parent_id) {
                let ghost out_pre = out@;
                out.push(clone_chapter(c));
                proof {
                    assert(views(out@) =~= views(out_pre).push(self@[i as int]));
                }
            }
            proof {
                assert(views(out@) =~= group_members(
                    self@.take(i + 1 as int),
                    book_id as int,
                    opt_int(parent_id),
                ));
            }
            i += 1;
        }
        proof {
            reveal(Seq::filter);
            assert(self@.take(n as int) =~= self@);
        }
        out
    }

    fn collect_children(&self, parent_id: i32) -> (r: Vec<Chapter>)
        ensures
            views(r@) == children_members(self@, parent_id as int),
    {
        let n = self.chapters.len();
        let mut out: Vec<Chapter> = Vec::new();
        let mut i: usize = 0;
        proof {
            reveal(Seq::filter);
            assert(self@.take(0) =~= Seq::<ChapterModel>::empty());
            assert(views(out@) =~= Seq::<ChapterModel>::empty());
        }
        while i < n
            invariant
                n == self@.len(),
                i <= n,
                views(out@) == children_members(self@.take(i as int), parent_id as int),
            decreases n - i,
        {
            let ghost pre = self@.take(i as int);
            proof {
                reveal(Seq::filter);
                assert(self@.take(i + 1 as int).drop_last() =~= pre);
                assert(self@.take(i + 1 as int).last() == self@[i as int]);
            }
            let c = &self.chapters[i];
            let is_kid = match c.parent_id {
                Some(q) => q == parent_id,
                None => false,
            };
            if is_kid {
                let ghost out_pre = out@;
                out.push(clone_chapter(c));
                proof {
                    assert(views(out@) =~= views(out_pre).push(self@[i as int]));
                }
            }
            proof {
                assert(views(out@) =~= children_members(
                    self@.take(i + 1 as int),
                    parent_id as int,
                ));
            }
            i += 1;
        }
        proof {
            reveal(Seq::filter);
            assert(self@.take(n as int) =~= self@);
        }
        out
    }
}

/// An element of the group listing is a chapter of the store.
pub proof fn lemma_group_member_sub(
    s: Seq<ChapterModel>,
    b: int,
    p: Option<int>,
    e: ChapterModel,
)
    requires
        group_members(s, b, p).contains(e),
    ensures
        s.contains(e),
        in_group(e, b, p),
    decreases s.len(),
{
    reveal(Seq::filter);
    if s.len() > 0 {
        let rest = s.drop_last();
        let mr = group_members(rest, b, p);
        if in_group(s.last(), b, p) {
            assert(group_members(s, b, p) == mr.push(s.last()));
            if e == s.last() {
                assert(s.contains(e)) by {
                    assert(s[s.len() - 1] == e);
                }
            } else {
                assert(mr.contains(e)) by {
                    let w = choose|w: int|
                        0 <= w < mr.push(s.last()).len() && mr.push(s.last())[w] == e;
                    assert(w < mr.len());
                    assert(mr[w] == e);
                }
                lemma_group_member_sub(rest, b, p, e);
                assert(s.contains(e)) by {
                    let w = choose|w: int| 0 <= w < rest.len() && rest[w] == e;
                    assert(s[w] == e);
                }
            }
        } else {
            assert(group_members(s, b, p) == mr);
            lemma_group_member_sub(rest, b, p, e);
            assert(s.contains(e)) by {
                let w = choose|w: int| 0 <= w < rest.len() && rest[w] == e;
                assert(s[w] == e);
            }
        }
    }
}

/// An element of the children listing is a chapter of the store.
pub proof fn lemma_children_member_sub(s: Seq<ChapterModel>, pid: int, e: ChapterModel)
    requires
        children_members(s, pid).contains(e),
    ensures
        s.contains(e),
        e.parent_id == Some(pid),
    decreases s.len(),
{
    reveal(Seq::filter);
    if s.len() > 0 {
        let rest = s.drop_last();
        let mr = children_members(rest, pid);
        if s.last().parent_id == Some(pid) {
            assert(children_members(s, pid) == mr.push(s.last()));
            if e == s.last() {
                assert(s.contains(e)) by {
                    assert(s[s.len() - 1] == e);
                }
            } else {
                assert(mr.contains(e)) by {
                    let w = choose|w: int|
                        0 <= w < mr.push(s.last()).len() && mr.push(s.last())[w] == e;
                    assert(w < mr.len());
                    assert(mr[w] == e);
                }
                lemma_children_member_sub(rest, pid, e);
                assert(s.contains(e)) by {
                    let w = choose|w: int| 0 <= w < rest.len() && rest[w] == e;
                    assert(s[w] == e);
                }
            }
        } else {
            assert(children_members(s, pid) == mr);
            lemma_children_member_sub(rest, pid, e);
            assert(s.contains(e)) by {
                let w = choose|w: int| 0 <= w < rest.len() && rest[w] == e;
                assert(s[w] == e);
            }
        }
    }
}

/// A position of a listing that mirrors the root group of a book names a
/// real chapter of the store.
pub proof fn lemma_group_listed(
    s: Seq<ChapterModel>,
    listed: Seq<ChapterModel>,
    b: int,
    p: Option<int>,
    k: int,
)
    requires
        ids_unique(s),
        listed.to_multiset() == group_members(s, b, p).to_multiset(),
        0 <= k < listed.len(),
    ensures
        in_group(listed[k], b, p),
        has_id(s, listed[k].id),
        ch(s, listed[k].id) == listed[k],
        idx_of(s, listed[k].id) < s.len(),
        s[idx_of(s, listed[k].id)] == listed[k],
{
    let e = listed[k];
    listed.to_multiset_ensures();
    assert(listed.contains(e));
    assert(listed.to_multiset().contains(e));
    group_members(s, b, p).to_multiset_ensures();
    assert(group_members(s, b, p).contains(e));
    lemma_group_member_sub(s, b, p, e);
    let w = choose|w: int| 0 <= w < s.len() && s[w] == e;
    lemma_idx_of(s, w);
}

/// A position of a listing that mirrors the children of `pid` names a real
/// chapter of the store.
pub proof fn lemma_children_listed(
    s: Seq<ChapterModel>,
    listed: Seq<ChapterModel>,
    pid: int,
    k: int,
)
    requires
        ids_unique(s),
        listed.to_multiset() == children_members(s, pid).to_multiset(),
        0 <= k < listed.len(),
    ensures
        listed[k].parent_id == Some(pid),
        has_id(s, listed[k].id),
        ch(s, listed[k].id) == listed[k],
        idx_of(s, listed[k].id) < s.len(),
        s[idx_of(s, listed[k].id)] == listed[k],
{
    let e = listed[k];
    listed.to_multiset_ensures();
    assert(listed.contains(e));
    assert(listed.to_multiset().contains(e));
    children_members(s, pid).to_multiset_ensures();
    assert(children_members(s, pid).contains(e));
    lemma_children_member_sub(s, pid, e);
    let w = choose|w: int| 0 <= w < s.len() && s[w] == e;
    lemma_idx_of(s, w);
}

/// `needle` occurs contiguously inside `hay`.
pub open spec fn is_substring(needle: Seq<char>, hay: Seq<char>) -> bool {
    exists|k: int|
        0 <= k <= hay.len() - needle.len() && #[trigger] hay.subrange(k, k + needle.len())
            == needle
}

/// A chapter answers the text query `q` when its title or its description
/// contains `q`.
pub open spec fn search_hit(c: ChapterModel, q: Seq<char>) -> bool {
    ||| is_substring(q, c.title)
    ||| (c.description matches Some(d) && is_substring(q, d))
}

/// The chapters of book `b` answering the query, in stored order.
pub open spec fn search_members(s: Seq<ChapterModel>, b: int, q: Seq<char>) -> Seq<ChapterModel> {
    s.filter(|c: ChapterModel| c.book_id == b && search_hit(c, q))
}

/// Whether `needle` occurs contiguously inside `hay`, by direct scan.
pub fn contains_sub(hay: &str, needle: &str) -> (r: bool)
    ensures
        r == is_substring(needle@, hay@),
{
    let nh = hay.unicode_len();
    let nn = needle.unicode_len();
    if nn == 0 {
        proof {
            assert(is_substring(needle@, hay@)) by {
                assert(hay@.subrange(0, 0 + needle@.len() as int) =~= needle@);
            }
        }
        return true;
    }
    if nn > nh {
        proof {
            assert(!is_substring(needle@, hay@)) by {
                if is_substring(needle@, hay@) {
                    let k = choose|k: int|
                        0 <= k <= hay@.len() - needle@.len() && #[trigger] hay@.subrange(
                            k,
                            k + needle@.len(),
                        ) == needle@;
                }
            }
        }
        return false;
    }
    let mut k: usize = 0;
    while k <= nh - nn
        invariant
            1 <= nn <= nh,
            nh == hay@.len(),
            nn == needle@.len(),
            k <= nh - nn + 1,
            forall|t: int|
                0 <= t < k ==> #[trigger] hay@.subrange(t, t + nn as int) != needle@,
        decreases nh - nn - k + 1,
    {
        let mut j: usize = 0;
        let mut all = true;
        while j < nn && all
            invariant
                nn <= nh,
                nh == hay@.len(),
                nn == needle@.len(),
                k <= nh - nn,
                j <= nn,
                all ==> forall|w: int| 0 <= w < j ==> hay@[k + w] == needle@[w],
                !all ==> hay@.subrange(k as int, k + nn as int) != needle@,
            decreases nn - j + (if all { 1int } else { 0int }),
        {
            if hay.get_char(k + j) != needle.get_char(j) {
                all = false;
                proof {
                    assert(hay@.subrange(k as int, k + nn as int) != needle@) by {
                        assert(hay@.subrange(k as int, k + nn as int)[j as int] == hay@[k + j]);
                    }
                }
            } else {
                j += 1;
            }
        }
        if all {
            proof {
                assert(hay@.subrange(k as int, k + nn as int) =~= needle@);
            }
            return true;
        }
        proof {
            assert forall|t: int| 0 <= t < k + 1 implies #[trigger] hay@.subrange(
                t,
                t + nn as int,
            ) != needle@ by {}
        }
        k += 1;
    }
    proof {
        assert(!is_substring(needle@, hay@)) by {
            if is_substring(needle@, hay@) {
                let w = choose|w: int|
                    0 <= w <= hay@.len() - needle@.len() && #[trigger] hay@.subrange(
                        w,
                        w + needle@.len(),
                    ) == needle@;
            }
        }
    }
    false
}

impl ChapterStore {
    /// The chapters of a book whose title or description contains the
    /// query text, in display order.
    pub fn search(&self, book_id: i32, query: &str) -> (r: Vec<Chapter>)
        ensures
            views(r@).to_multiset() == search_members(
                self@,
                book_id as int,
                query@,
            ).to_multiset(),
            sorted_by_ord(views(r@)),
    {
        let n = self.chapters.len();
        let mut out: Vec<Chapter> = Vec::new();
        let mut i: usize = 0;
        proof {
            reveal(Seq::filter);
            assert(self@.take(0) =~= Seq::<ChapterModel>::empty());
            assert(views(out@) =~= Seq::<ChapterModel>::empty());
        }
        while i < n
            invariant
                n == self@.len(),
                i <= n,
                views(out@) == search_members(self@.take(i as int), book_id as int, query@),
            decreases n - i,
        {
            let ghost pre = self@.take(i as int);
            proof {
                reveal(Seq::filter);
                assert(self@.take(i + 1 as int).drop_last() =~= pre);
                assert(self@.take(i + 1 as int).last() == self@[i as int]);
            }
            let c = &self.chapters[i];
            let hit = c.book_id == book_id && (contains_sub(c.title.as_str(), query) || (match
                &c.description {
                Some(d) => contains_sub(d.as_str(), query),
                None => false,
            }));
            if hit {
                let ghost out_pre = out@;
                out.push(clone_chapter(c));
                proof {
                    assert(views(out@) =~= views(out_pre).push(self@[i as int]));
                }
            }
            proof {
                assert(views(out@) =~= search_members(
                    self@.take(i + 1 as int),
                    book_id as int,
                    query@,
                ));
            }
            i += 1;
        }
        proof {
            reveal(Seq::filter);
            assert(self@.take(n as int) =~= self@);
        }
        sort_chapters(out)
    }
}

/// A stored chapter of the group appears in the group listing.
pub proof fn lemma_group_member_in(s: Seq<ChapterModel>, b: int, p: Option<int>, i: int)
    requires
        0 <= i < s.len(),
        in_group(s[i], b, p),
    ensures
        group_members(s, b, p).contains(s[i]),
    decreases s.len(),
{
    reveal(Seq::filter);
    let rest = s.drop_last();
    let mr = group_members(rest, b, p);
    if i == s.len() - 1 {
        assert(group_members(s, b, p) == mr.push(s[i]));
        assert(mr.push(s[i])[mr.len() as int] == s[i]);
    } else {
        assert(rest[i] == s[i]);
        lemma_group_member_in(rest, b, p, i);
        let w = choose|w: int| 0 <= w < mr.len() && mr[w] == s[i];
        if in_group(s.last(), b, p) {
            assert(group_members(s, b, p) == mr.push(s.last()));
            assert(mr.push(s.last())[w] == s[i]);
        } else {
            assert(group_members(s, b, p) == mr);
        }
    }
}

/// A stored child of `pid` appears in the children listing.
pub proof fn lemma_children_member_in(s: Seq<ChapterModel>, pid: int, i: int)
    requires
        0 <= i < s.len(),
        s[i].parent_id == Some(pid),
    ensures
        children_members(s, pid).contains(s[i]),
    decreases s.len(),
{
    reveal(Seq::filter);
    let rest = s.drop_last();
    let mr = children_members(rest, pid);
    if i == s.len() - 1 {
        assert(children_members(s, pid) == mr.push(s[i]));
        assert(mr.push(s[i])[mr.len() as int] == s[i]);
    } else {
        assert(rest[i] == s[i]);
        lemma_children_member_in(rest, pid, i);
        let w = choose|w: int| 0 <= w < mr.len() && mr[w] == s[i];
        if s.last().parent_id == Some(pid) {
            assert(children_members(s, pid) == mr.push(s.last()));
            assert(mr.push(s.last())[w] == s[i]);
        } else {
            assert(children_members(s, pid) == mr);
        }
    }
}

} // verus!
