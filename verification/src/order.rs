//! The sibling ordering engine: swapping a chapter with its neighbour and
//! reassigning a whole sibling group.

use vstd::prelude::*;

use crate::chapter::{opt_id_eq, opt_int, ChapterModel};
use crate::errors::ChapterError;
use crate::store::{
    ch, has_id, idx_of, in_group, lemma_idx_of, lemma_wf_update_meta, ChapterStore,
};

verus! {

/// `m` with a new ordering key and a refreshed mutation stamp; every other
/// field kept.
pub open spec fn with_sort(m: ChapterModel, sort: int, now: int) -> ChapterModel {
    ChapterModel {
        id: m.id,
        title: m.title,
        description: m.description,
        book_id: m.book_id,
        parent_id: m.parent_id,
        sort_order: sort,
        level: m.level,
        path: m.path,
        created_at: m.created_at,
        updated_at: now,
    }
}

/// Position `k` holds a sibling the chapter could swap with: same group,
/// and a strictly smaller (`up`) or strictly larger (`down`) ordering key.
pub open spec fn is_swap_candidate(
    s: Seq<ChapterModel>,
    b: int,
    p: Option<int>,
    cur: int,
    k: int,
    up: bool,
) -> bool {
    &&& 0 <= k < s.len()
    &&& in_group(s[k], b, p)
    &&& if up {
        s[k].sort_order < cur
    } else {
        s[k].sort_order > cur
    }
}

/// Some sibling lies strictly before (`up`) or after (`down`) the key `cur`
/// in the group `(b, p)`.
pub open spec fn has_swap_candidate(
    s: Seq<ChapterModel>,
    b: int,
    p: Option<int>,
    cur: int,
    up: bool,
) -> bool {
    exists|k: int| is_swap_candidate(s, b, p, cur, k, up)
}

/// Position `j` holds the adjacent sibling: the candidate with the largest
/// (`up`) or smallest (`down`) ordering key, earliest stored first among
/// equals.
pub open spec fn is_swap_target(
    s: Seq<ChapterModel>,
    b: int,
    p: Option<int>,
    cur: int,
    j: int,
    up: bool,
) -> bool {
    &&& is_swap_candidate(s, b, p, cur, j, up)
    &&& forall|k: int|
        is_swap_candidate(s, b, p, cur, k, up) ==> (if up {
            s[k].sort_order <= s[j].sort_order
        } else {
            s[k].sort_order >= s[j].sort_order
        })
    &&& forall|k: int|
        0 <= k < j ==> !(is_swap_candidate(s, b, p, cur, k, up) && s[k].sort_order
            == s[j].sort_order)
}

/// The store after a swap: the chapters at `i` and `j` have exchanged their
/// ordering keys and carry the new mutation stamp; everything else is
/// untouched.
pub open spec fn swapped(s: Seq<ChapterModel>, i: int, j: int, now: int) -> Seq<ChapterModel> {
    s.update(i, with_sort(s[i], s[j].sort_order, now)).update(j, with_sort(s[j], s[i].sort_order, now))
}

impl ChapterStore {
    /// Finds the position of the adjacent sibling of the chapter at `i` in
    /// the given direction, if any.
    fn find_swap_target(&self, i: usize, up: bool) -> (r: Option<usize>)
        requires
            self.wf(),
            i < self@.len(),
        ensures
            match r {
                Some(j) => is_swap_target(
                    self@,
                    self@[i as int].book_id,
                    self@[i as int].parent_id,
                    self@[i as int].sort_order,
                    j as int,
                    up,
                ),
                None => !has_swap_candidate(
                    self@,
                    self@[i as int].book_id,
                    self@[i as int].parent_id,
                    self@[i as int].sort_order,
                    up,
                ),
            },
    {
        let ghost b = self@[i as int].book_id;
        let ghost p = self@[i as int].parent_id;
        let ghost cur = self@[i as int].sort_order;
        let book_id = self.chapters[i].book_id;
        let parent_id = self.chapters[i].parent_id;
        let cur_sort = self.chapters[i].sort_order;
        let n = self.chapters.len();
        let mut best: Option<usize> = None;
        let mut k: usize = 0;
        while k < n
            invariant
                n == self@.len(),
                k <= n,
                i < n,
                b == self@[i as int].book_id,
                p == self@[i as int].parent_id,
                cur == self@[i as int].sort_order,
                book_id as int == b,
                opt_int(parent_id) == p,
                cur_sort as int == cur,
                match best {
                    Some(j) => {
                        &&& is_swap_candidate(self@, b, p, cur, j as int, up)
                        &&& forall|t: int|
                            0 <= t < k && is_swap_candidate(self@, b, p, cur, t, up) ==> (if up {
                                self@[t].sort_order <= self@[j as int].sort_order
                            } else {
                                self@[t].sort_order >= self@[j as int].sort_order
                            })
                        &&& forall|t: int|
                            0 <= t < j ==> !(is_swap_candidate(self@, b, p, cur, t, up)
                                && self@[t].sort_order == self@[j as int].sort_order)
                        &&& (j as int) < k
                    },
                    None => forall|t: int| 0 <= t < k ==> !is_swap_candidate(self@, b, p, cur, t, up),
                },
            decreases n - k,
        {
            let c = &self.chapters[k];
            let candidate = c.book_id == book_id && opt_id_eq(c.parent_id, parent_id) && (if up {
                c.sort_order < cur_sort
            } else {
                c.sort_order > cur_sort
            });
            if candidate {
                match best {
                    None => {
                        best = Some(k);
                    },
                    Some(j) => {
                        let js = self.chapters[j].sort_order;
                        if (up && c.sort_order > js) || (!up && c.sort_order < js) {
                            best = Some(k);
                        }
                    },
                }
            }
            k += 1;
        }
        best
    }

    /// Exchanges the ordering keys of the chapters at positions `i` and `j`
    /// and stamps both rows.
    fn swap_orders(&mut self, i: usize, j: usize, now: i64)
        requires
            old(self).wf(),
            i < old(self)@.len(),
            j < old(self)@.len(),
            i != j,
        ensures
            final(self).wf(),
            final(self).next_id == old(self).next_id,
            final(self)@ == swapped(old(self)@, i as int, j as int, now as int),
    {
        let ghost s0 = self@;
        let sort_i = self.chapters[i].sort_order;
        let sort_j = self.chapters[j].sort_order;
        self.set_sort_at(i, sort_j, now);
        self.set_sort_at(j, sort_i, now);
        proof {
            assert(self@ =~= swapped(s0, i as int, j as int, now as int));
        }
    }

    /// Overwrites the ordering key at position `i` and stamps the row.
    fn set_sort_at(&mut self, i: usize, sort: i32, now: i64)
        requires
            old(self).wf(),
            i < old(self)@.len(),
        ensures
            final(self).wf(),
            final(self).next_id == old(self).next_id,
            final(self)@ == old(self)@.update(
                i as int,
                with_sort(old(self)@[i as int], sort as int, now as int),
            ),
    {
        let ghost s0 = self@;
        let c = &self.chapters[i];
        let record = crate::chapter::Chapter {
            id: c.id,
            title: c.title.clone(),
            description: crate::store::clone_opt_string(&c.description),
            book_id: c.book_id,
            parent_id: c.parent_id,
            sort_order: sort,
            level: c.level,
            path: c.path.clone(),
            created_at: c.created_at,
            updated_at: now,
        };
        let ghost m2 = record@;
        self.chapters[i] = record;
        proof {
            assert(self@ =~= s0.update(i as int, m2));
            assert(m2 =~= with_sort(s0[i as int], sort as int, now as int));
            lemma_wf_update_meta(s0, i as int, m2);
            assert forall|t: int| 0 <= t < self@.len() implies #[trigger] self@[t].id
                < self.next_id by {
                assert(self@[t].id == s0[t].id);
            }
        }
    }

    /// Moves a chapter one place towards the front of its sibling group by
    /// exchanging ordering keys with the nearest smaller-keyed sibling.
    /// Returns `Ok(false)` — a boundary, not an error — when the chapter is
    /// already first.
    pub fn move_up(&mut self, chapter_id: i32, now: i64) -> (r: Result<bool, ChapterError>)
        requires
            old(self).wf(),
        ensures
            swap_move_post(old(self)@, final(self)@, chapter_id as int, now as int, true, r),
            final(self).wf(),
            final(self).next_id == old(self).next_id,
    {
        self.swap_with_neighbor(chapter_id, true, now)
    }

    /// Moves a chapter one place towards the back of its sibling group.
    /// Returns `Ok(false)` when the chapter is already last.
    pub fn move_down(&mut self, chapter_id: i32, now: i64) -> (r: Result<bool, ChapterError>)
        requires
            old(self).wf(),
        ensures
            swap_move_post(old(self)@, final(self)@, chapter_id as int, now as int, false, r),
            final(self).wf(),
            final(self).next_id == old(self).next_id,
    {
        self.swap_with_neighbor(chapter_id, false, now)
    }

    /// Locates the adjacent sibling in the given direction and exchanges
    /// the two ordering keys.
    fn swap_with_neighbor(&mut self, chapter_id: i32, up: bool, now: i64) -> (r: Result<
        bool,
        ChapterError,
    >)
        requires
            old(self).wf(),
        ensures
            swap_move_post(old(self)@, final(self)@, chapter_id as int, now as int, up, r),
            final(self).wf(),
            final(self).next_id == old(self).next_id,
    {
        let ghost s0 = self@;
        let i = match self.find_index(chapter_id) {
            None => {
                return Err(ChapterError::NotFound);
            },
            Some(i) => i,
        };
        match self.find_swap_target(i, up) {
            None => Ok(false),
            Some(j) => {
                assert(i != j);
                self.swap_orders(i, j, now);
                proof {
                    assert(is_swap_target(
                        s0,
                        ch(s0, chapter_id as int).book_id,
                        ch(s0, chapter_id as int).parent_id,
                        ch(s0, chapter_id as int).sort_order,
                        j as int,
                        up,
                    ) && self@ == swapped(s0, idx_of(s0, chapter_id as int), j as int, now as int));
                }
                Ok(true)
            },
        }
    }
}

/// The id list as mathematical integers.
pub open spec fn ids_of(v: Seq<i32>) -> Seq<int> {
    v.map_values(|x: i32| x as int)
}

/// Scans an id list against the sibling group `(b, p)`: `None` when every
/// id names a chapter of that group, else the error for the first offender
/// — `NotFound` for a missing chapter, `ScopeMismatch` for one outside the
/// group.
pub open spec fn reorder_err(
    s: Seq<ChapterModel>,
    b: int,
    p: Option<int>,
    ids: Seq<int>,
) -> Option<ChapterError>
    decreases ids.len(),
{
    if ids.len() == 0 {
        None
    } else if !has_id(s, ids[0]) {
        Some(ChapterError::NotFound)
    } else if !in_group(ch(s, ids[0]), b, p) {
        Some(ChapterError::ScopeMismatch)
    } else {
        reorder_err(s, b, p, ids.drop_first())
    }
}

/// The last position of `x` in `ids` (-1 when absent).
pub open spec fn last_pos(ids: Seq<int>, x: int) -> int
    decreases ids.len(),
{
    if ids.len() == 0 {
        -1
    } else if ids.last() == x {
        ids.len() - 1
    } else {
        last_pos(ids.drop_last(), x)
    }
}

/// The store after a full reassignment: every chapter named in `ids` got
/// the key `position + 1` (its last position, if named twice) and the new
/// stamp; every other chapter is untouched.
pub open spec fn reorder_applied(
    s0: Seq<ChapterModel>,
    s1: Seq<ChapterModel>,
    ids: Seq<int>,
    now: int,
) -> bool {
    &&& s1.len() == s0.len()
    &&& forall|i: int|
        0 <= i < s0.len() ==> s1[i] == (if ids.contains(s0[i].id) {
            with_sort(s0[i], last_pos(ids, s0[i].id) + 1, now)
        } else {
            s0[i]
        })
}

/// A validated prefix does not change the outcome of the scan.
proof fn lemma_reorder_err_skip(
    s: Seq<ChapterModel>,
    b: int,
    p: Option<int>,
    ids: Seq<int>,
    k: int,
)
    requires
        0 <= k <= ids.len(),
        forall|j: int| 0 <= j < k ==> has_id(s, #[trigger] ids[j]) && in_group(ch(s, ids[j]), b, p),
    ensures
        reorder_err(s, b, p, ids) == reorder_err(s, b, p, ids.skip(k)),
    decreases k,
{
    if k > 0 {
        assert(ids.len() > 0);
        assert(has_id(s, ids[0]) && in_group(ch(s, ids[0]), b, p));
        let rest = ids.drop_first();
        assert(reorder_err(s, b, p, ids) == reorder_err(s, b, p, rest));
        assert(forall|j: int|
            0 <= j < k - 1 ==> has_id(s, #[trigger] rest[j]) && in_group(ch(s, rest[j]), b, p))
            by {
            assert(forall|j: int| 0 <= j < k - 1 ==> rest[j] == ids[j + 1]);
        }
        lemma_reorder_err_skip(s, b, p, rest, k - 1);
        assert(rest.skip(k - 1) =~= ids.skip(k));
    } else {
        assert(ids.skip(0) =~= ids);
    }
}

impl ChapterStore {
    /// Reassigns the ordering keys of a whole sibling group: the chapter at
    /// position `k` of `ordered_ids` receives key `k + 1`. Rejects the call
    /// — leaving the store untouched — if any listed id is missing or falls
    /// outside the `(book_id, parent_scope)` group.
    pub fn reorder_all(
        &mut self,
        book_id: i32,
        parent_scope: Option<i32>,
        ordered_ids: &Vec<i32>,
        now: i64,
    ) -> (r: Result<(), ChapterError>)
        requires
            old(self).wf(),
            ordered_ids@.len() < i32::MAX,
        ensures
            match r {
                Ok(()) => {
                    &&& reorder_err(
                        old(self)@,
                        book_id as int,
                        opt_int(parent_scope),
                        ids_of(ordered_ids@),
                    ) is None
                    &&& reorder_applied(old(self)@, final(self)@, ids_of(ordered_ids@), now as int)
                    &&& final(self).wf()
                    &&& final(self).next_id == old(self).next_id
                },
                Err(e) => {
                    &&& *final(self) == *old(self)
                    &&& reorder_err(
                        old(self)@,
                        book_id as int,
                        opt_int(parent_scope),
                        ids_of(ordered_ids@),
                    ) == Some(e)
                },
            },
    {
        let ghost s0 = self@;
        let ghost b = book_id as int;
        let ghost p = opt_int(parent_scope);
        let ghost gids = ids_of(ordered_ids@);
        let n = ordered_ids.len();
        // First pass: validate every id against the group, touching nothing.
        let mut k: usize = 0;
        while k < n
            invariant
                n == gids.len(),
                k <= n,
                self.wf(),
                *self == *old(self),
                s0 == self@,
                b == book_id as int,
                p == opt_int(parent_scope),
                gids == ids_of(ordered_ids@),
                forall|j: int|
                    0 <= j < k ==> has_id(s0, #[trigger] gids[j]) && in_group(ch(s0, gids[j]), b, p),
            decreases n - k,
        {
            let id = ordered_ids[k];
            assert(gids[k as int] == id as int);
            match self.find_index(id) {
                None => {
                    proof {
                        lemma_reorder_err_skip(s0, b, p, gids, k as int);
                        assert(gids.skip(k as int)[0] == gids[k as int]);
                    }
                    return Err(ChapterError::NotFound);
                },
                Some(pos) => {
                    let c = &self.chapters[pos];
                    if !(c.book_id == book_id && opt_id_eq(c.parent_id, parent_scope)) {
                        proof {
                            lemma_reorder_err_skip(s0, b, p, gids, k as int);
                            assert(gids.skip(k as int)[0] == gids[k as int]);
                        }
                        return Err(ChapterError::ScopeMismatch);
                    }
                },
            }
            k += 1;
        }
        proof {
            lemma_reorder_err_skip(s0, b, p, gids, n as int);
            assert(gids.skip(n as int) =~= Seq::<int>::empty());
        }
        // Second pass: assign 1, 2, 3, … along the supplied order.
        let mut k: usize = 0;
        while k < n
            invariant
                n == gids.len(),
                n < i32::MAX,
                k <= n,
                self.wf(),
                self.next_id == old(self).next_id,
                self@.len() == s0.len(),
                b == book_id as int,
                p == opt_int(parent_scope),
                gids == ids_of(ordered_ids@),
                forall|j: int|
                    0 <= j < n ==> has_id(s0, #[trigger] gids[j]) && in_group(ch(s0, gids[j]), b, p),
                forall|t: int|
                    0 <= t < s0.len() ==> #[trigger] self@[t].id == s0[t].id && self@[t].parent_id
                        == s0[t].parent_id && self@[t].book_id == s0[t].book_id,
                reorder_applied(s0, self@, gids.take(k as int), now as int),
            decreases n - k,
        {
            let id = ordered_ids[k];
            assert(gids[k as int] == id as int);
            proof {
                let j = idx_of(s0, id as int);
                assert(0 <= j < s0.len() && s0[j].id == id as int);
                assert(self@[j].id == id as int);
                assert(has_id(self@, id as int));
            }
            let pos = match self.find_index(id) {
                Some(pos) => pos,
                None => {
                    proof {
                        assert(false);
                    }
                    return Err(ChapterError::NotFound);
                },
            };
            let ghost v = self@;
            let new_sort: i32 = (k + 1) as i32;
            self.set_sort_at(pos, new_sort, now);
            proof {
                let take1 = gids.take(k + 1 as int);
                let take0 = gids.take(k as int);
                assert(take1 =~= take0.push(gids[k as int]));
                let x = id as int;
                assert(s0[pos as int].id == x) by {
                    assert(v[pos as int].id == x);
                }
                assert(last_pos(take1, x) == k as int);
                assert forall|i: int| 0 <= i < s0.len() implies self@[i] == (if take1.contains(
                    s0[i].id,
                ) {
                    with_sort(s0[i], last_pos(take1, s0[i].id) + 1, now as int)
                } else {
                    s0[i]
                }) by {
                    let y = s0[i].id;
                    if i == pos as int {
                        assert(take1.contains(x)) by {
                            assert(take1[k as int] == x);
                        }
                        assert(self@[i] == with_sort(v[i], new_sort as int, now as int));
                        if take0.contains(y) {
                            assert(v[i] == with_sort(s0[i], last_pos(take0, y) + 1, now as int));
                        } else {
                            assert(v[i] == s0[i]);
                        }
                        assert(self@[i] =~= with_sort(s0[i], k + 1 as int, now as int));
                    } else {
                        assert(self@[i] == v[i]);
                        if y == x {
                            assert(s0[i].id == s0[pos as int].id);
                            assert(i == pos as int);
                        } else {
                            assert(take1.drop_last() =~= take0);
                            assert(take1.last() == x);
                            assert(last_pos(take1, y) == last_pos(take0, y));
                            assert(take1.contains(y) == take0.contains(y)) by {
                                if take0.contains(y) {
                                    let w = choose|w: int|
                                        0 <= w < take0.len() && take0[w] == y;
                                    assert(take1[w] == y);
                                }
                                if take1.contains(y) {
                                    let w = choose|w: int|
                                        0 <= w < take1.len() && take1[w] == y;
                                    assert(w != k as int);
                                    assert(take0[w] == y);
                                }
                            }
                        }
                    }
                }
            }
            k += 1;
        }
        proof {
            assert(gids.take(n as int) =~= gids);
        }
        Ok(())
    }
}

/// What a single-step swap guarantees: `NotFound` for an unknown chapter;
/// `false` and an untouched store at the group boundary; otherwise a key
/// exchange with the unique adjacent sibling.
pub open spec fn swap_move_post(
    s0: Seq<ChapterModel>,
    s1: Seq<ChapterModel>,
    chapter_id: int,
    now: int,
    up: bool,
    r: Result<bool, ChapterError>,
) -> bool {
    match r {
        Err(e) => e == ChapterError::NotFound && !has_id(s0, chapter_id) && s1 == s0,
        Ok(false) => has_id(s0, chapter_id) && s1 == s0 && !has_swap_candidate(
            s0,
            ch(s0, chapter_id).book_id,
            ch(s0, chapter_id).parent_id,
            ch(s0, chapter_id).sort_order,
            up,
        ),
        Ok(true) => has_id(s0, chapter_id) && exists|j: int|
            #![trigger s0[j]]
            is_swap_target(
                s0,
                ch(s0, chapter_id).book_id,
                ch(s0, chapter_id).parent_id,
                ch(s0, chapter_id).sort_order,
                j,
                up,
            ) && s1 == swapped(s0, idx_of(s0, chapter_id), j, now),
    }
}

} // verus!
