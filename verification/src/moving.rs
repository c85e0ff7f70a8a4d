//! Re-parenting: the path/level recomputation engine and the move
//! operation built on it.
//!
//! Re-parenting a chapter leaves the stored `level` and `path` of the
//! chapter — and, transitively, of every descendant — stale. The
//! recomputation walks the subtree with an explicit work list (never native
//! recursion, so an arbitrarily deep tree cannot exhaust the call stack)
//! and rewrites each row from its parent's already-final values.

use vstd::prelude::*;
use vstd::set_lib::{lemma_int_range, lemma_len_subset, set_int_range};
use vstd::string::StringExecFns;

use crate::chapter::{opt_int, Chapter, ChapterModel};
use crate::cycle::{chain_hits, lemma_chain_member_reachable, lemma_chain_monotone, lemma_idx_stable, reachable_up};
use crate::digits::{dec_digits, render_id};
use crate::errors::ChapterError;
use crate::store::{
    ch, chain_to_root, clone_opt_string, derived_ok, has_id, idx_of, ids_unique, lemma_idx_of,
    lemma_level_bound, parent_ok, valid_at, wf_seq, ChapterStore,
};

verus! {

/// `m` with rewritten derived fields and a fresh mutation stamp.
pub open spec fn with_derived(m: ChapterModel, level: int, path: Seq<char>, now: int) -> ChapterModel {
    ChapterModel {
        id: m.id,
        title: m.title,
        description: m.description,
        book_id: m.book_id,
        parent_id: m.parent_id,
        sort_order: m.sort_order,
        level: level,
        path: path,
        created_at: m.created_at,
        updated_at: now,
    }
}

/// `m` re-attached under `np` with ordering key `sort` and a fresh stamp;
/// its derived fields are untouched (and stale until recomputed).
pub open spec fn reparented(m: ChapterModel, np: Option<int>, sort: int, now: int) -> ChapterModel {
    ChapterModel {
        id: m.id,
        title: m.title,
        description: m.description,
        book_id: m.book_id,
        parent_id: np,
        sort_order: sort,
        level: m.level,
        path: m.path,
        created_at: m.created_at,
        updated_at: now,
    }
}

/// Position `t` is on the work list.
pub open spec fn in_stack(st: Seq<usize>, t: int) -> bool {
    exists|k: int| 0 <= k < st.len() && st[k] as int == t
}

/// Position `t` has been written by the walk: popped already or still on
/// the work list.
pub open spec fn touched(done: Set<int>, st: Seq<usize>, t: int) -> bool {
    done.contains(t) || in_stack(st, t)
}

/// The position of the parent of the record at `t` (meaningful when the
/// record has a parent).
pub open spec fn ppos0(s: Seq<ChapterModel>, t: int) -> int {
    idx_of(s, s[t].parent_id->0)
}

/// The walk rewrites only derived fields and stamps: identity, metadata,
/// tree position and ordering keys all stay.
pub open spec fn stable_rows(v0: Seq<ChapterModel>, v: Seq<ChapterModel>) -> bool {
    &&& v.len() == v0.len()
    &&& forall|t: int|
        0 <= t < v0.len() ==> #[trigger] v[t].id == v0[t].id && v[t].title == v0[t].title
            && v[t].description == v0[t].description && v[t].book_id == v0[t].book_id
            && v[t].parent_id == v0[t].parent_id && v[t].sort_order == v0[t].sort_order
            && v[t].created_at == v0[t].created_at
}

/// A positive id, a non-negative level, and a sound parent reference.
pub open spec fn row_ok(s: Seq<ChapterModel>, j: int) -> bool {
    &&& s[j].id >= 1
    &&& s[j].level >= 0
    &&& parent_ok(s, j)
}

/// The part of well-formedness that a mid-repair table keeps throughout.
pub open spec fn base_ok(s: Seq<ChapterModel>) -> bool {
    forall|j: int| 0 <= j < s.len() ==> #[trigger] row_ok(s, j)
}

/// Work-list hygiene: positions in range, none already popped, no repeats.
pub open spec fn stack_ok(st: Seq<usize>, done: Set<int>, n: int) -> bool {
    &&& forall|k: int|
        0 <= k < st.len() ==> (#[trigger] st[k]) < n && !done.contains(st[k] as int)
    &&& st.no_duplicates()
}

/// Every written position other than the moved chapter was reached through
/// a parent that was popped before it.
pub open spec fn parents_done(
    v0: Seq<ChapterModel>,
    done: Set<int>,
    st: Seq<usize>,
    c: int,
) -> bool {
    forall|t: int|
        #[trigger] touched(done, st, t) && t != c ==> (v0[t].parent_id is Some && done.contains(
            ppos0(v0, t),
        ))
}

/// The ancestor set is in range and closed under parent references.
pub open spec fn anc_ok(v0: Seq<ChapterModel>, anc: Set<int>) -> bool {
    forall|a: int|
        #[trigger] anc.contains(a) ==> 0 <= a < v0.len() && (v0[a].parent_id matches Some(q)
            ==> anc.contains(idx_of(v0, q)))
}

/// The walk never writes an ancestor of the new parent.
pub open spec fn anc_untouched(anc: Set<int>, done: Set<int>, st: Seq<usize>) -> bool {
    forall|a: int| #[trigger] anc.contains(a) ==> !touched(done, st, a)
}

/// Rows the walk has not reached still hold the values they started with.
pub open spec fn untouched_orig(
    v0: Seq<ChapterModel>,
    v: Seq<ChapterModel>,
    done: Set<int>,
    st: Seq<usize>,
) -> bool {
    forall|t: int| 0 <= t < v0.len() && !touched(done, st, t) ==> v[t] == v0[t]
}

/// Rows the walk has written are consistent with their parents and carry
/// the new mutation stamp.
pub open spec fn region_fixed(
    v0: Seq<ChapterModel>,
    v: Seq<ChapterModel>,
    done: Set<int>,
    st: Seq<usize>,
    now: int,
) -> bool {
    forall|t: int|
        #[trigger] touched(done, st, t) ==> 0 <= t < v0.len() && derived_ok(v, t)
            && v[t].updated_at == now
}

/// Written levels grow by at most one per generation of the walk.
pub open spec fn levels_bounded(
    v: Seq<ChapterModel>,
    done: Set<int>,
    st: Seq<usize>,
    base: int,
) -> bool {
    &&& forall|a: int| #[trigger] done.contains(a) ==> v[a].level <= base + done.len()
    &&& forall|k: int|
        0 <= k < st.len() ==> v[(#[trigger] st[k]) as int].level <= base + done.len() + 1
}

/// Every row is already consistent, or its parent still sits on the work
/// list, or its parent is the chapter being scanned and the scan has not
/// reached it yet.
pub open spec fn repair_or(
    v0: Seq<ChapterModel>,
    v: Seq<ChapterModel>,
    st: Seq<usize>,
    x_id: int,
    j: int,
) -> bool {
    forall|t: int|
        0 <= t < v0.len() ==> #[trigger] derived_ok(v, t) || (v[t].parent_id is Some && (in_stack(
            st,
            ppos0(v0, t),
        ) || (v0[t].parent_id == Some(x_id) && j <= t)))
}

/// Children the scan has not reached yet have never been written.
pub open spec fn fresh_children(
    v0: Seq<ChapterModel>,
    done: Set<int>,
    st: Seq<usize>,
    x_id: int,
    j: int,
) -> bool {
    forall|t: int|
        0 <= t < v0.len() && v0[t].parent_id == Some(x_id) && j <= t ==> !touched(done, st, t)
}

/// Popped positions are in range.
pub open spec fn done_in_range(done: Set<int>, n: int) -> bool {
    forall|a: int| #[trigger] done.contains(a) ==> 0 <= a < n
}

/// Why a move is rejected, scanned in the order the engine checks: an
/// unknown chapter, then an unknown parent, then a parent from another
/// book, then a parent inside the chapter's own subtree.
pub open spec fn move_err_spec(s: Seq<ChapterModel>, cid: int, np: Option<int>) -> Option<
    ChapterError,
> {
    if !has_id(s, cid) {
        Some(ChapterError::NotFound)
    } else {
        match np {
            None => None,
            Some(p) => if !has_id(s, p) {
                Some(ChapterError::NotFound)
            } else if ch(s, p).book_id != ch(s, cid).book_id {
                Some(ChapterError::ScopeMismatch)
            } else if reachable_up(s, p, cid) {
                Some(ChapterError::CycleDetected)
            } else {
                None
            },
        }
    }
}

/// The chapter at `j` kept its identity, metadata and book.
pub open spec fn meta_kept(s0: Seq<ChapterModel>, s1: Seq<ChapterModel>, j: int) -> bool {
    &&& s1[j].id == s0[j].id
    &&& s1[j].title == s0[j].title
    &&& s1[j].description == s0[j].description
    &&& s1[j].book_id == s0[j].book_id
    &&& s1[j].created_at == s0[j].created_at
}

/// The chapter at `j` kept its tree position and ordering key.
pub open spec fn pos_kept(s0: Seq<ChapterModel>, s1: Seq<ChapterModel>, j: int) -> bool {
    &&& s1[j].parent_id == s0[j].parent_id
    &&& s1[j].sort_order == s0[j].sort_order
}

/// The chapter at `j` carries the new mutation stamp, or was not written
/// at all.
pub open spec fn stamped_or_same(
    s0: Seq<ChapterModel>,
    s1: Seq<ChapterModel>,
    j: int,
    now: int,
) -> bool {
    s1[j].updated_at == now || s1[j] == s0[j]
}

/// What a committed move guarantees. The moved chapter hangs under its new
/// parent with the requested (or kept) ordering key; no other chapter's
/// identity, metadata, position or key moved; and the table is well formed
/// again, which — levels and paths being derived — pins every rewritten
/// `level` and `path`. Rows are either untouched or stamped with `now`.
pub open spec fn move_ok_post(
    s0: Seq<ChapterModel>,
    s1: Seq<ChapterModel>,
    cid: int,
    np: Option<int>,
    nso: Option<int>,
    now: int,
) -> bool {
    let ci = idx_of(s0, cid);
    &&& move_err_spec(s0, cid, np) is None
    &&& s1.len() == s0.len()
    &&& wf_seq(s1)
    &&& forall|j: int| 0 <= j < s0.len() ==> #[trigger] meta_kept(s0, s1, j)
    &&& s1[ci].parent_id == np
    &&& s1[ci].sort_order == (match nso {
        Some(v) => v,
        None => s0[ci].sort_order,
    })
    &&& forall|j: int| 0 <= j < s0.len() && j != ci ==> #[trigger] pos_kept(s0, s1, j)
    &&& forall|j: int| 0 <= j < s0.len() ==> #[trigger] stamped_or_same(s0, s1, j, now)
}

impl ChapterStore {
    /// Overwrites the derived fields at position `i` and stamps the row.
    /// Carries no well-formedness demand: the recomputation calls it while
    /// the table is mid-repair.
    fn set_derived_at(&mut self, i: usize, level: i64, path: String, now: i64)
        requires
            i < old(self)@.len(),
        ensures
            final(self).next_id == old(self).next_id,
            final(self)@ == old(self)@.update(
                i as int,
                with_derived(old(self)@[i as int], level as int, path@, now as int),
            ),
    {
        let ghost s0 = self@;
        let c = &self.chapters[i];
        let record = Chapter {
            id: c.id,
            title: c.title.clone(),
            description: clone_opt_string(&c.description),
            book_id: c.book_id,
            parent_id: c.parent_id,
            sort_order: c.sort_order,
            level: level,
            path: path,
            created_at: c.created_at,
            updated_at: now,
        };
        let ghost m2 = record@;
        self.chapters[i] = record;
        proof {
            assert(self@ =~= s0.update(i as int, m2));
            assert(m2 =~= with_derived(s0[i as int], level as int, path@, now as int));
        }
    }

    /// Re-attaches the row at position `i` (new parent reference and
    /// ordering key) and stamps it; derived fields are left for the
    /// recomputation.
    fn set_parent_sort_at(&mut self, i: usize, np: Option<i32>, sort: i32, now: i64)
        requires
            i < old(self)@.len(),
        ensures
            final(self).next_id == old(self).next_id,
            final(self)@ == old(self)@.update(
                i as int,
                reparented(old(self)@[i as int], opt_int(np), sort as int, now as int),
            ),
    {
        let ghost s0 = self@;
        let c = &self.chapters[i];
        let record = Chapter {
            id: c.id,
            title: c.title.clone(),
            description: clone_opt_string(&c.description),
            book_id: c.book_id,
            parent_id: np,
            sort_order: sort,
            level: c.level,
            path: c.path.clone(),
            created_at: c.created_at,
            updated_at: now,
        };
        let ghost m2 = record@;
        self.chapters[i] = record;
        proof {
            assert(self@ =~= s0.update(i as int, m2));
            assert(m2 =~= reparented(s0[i as int], opt_int(np), sort as int, now as int));
        }
    }

    /// Rewrites `level` and `path` of the chapter at `c_idx` and of every
    /// chapter below it, walking the subtree with an explicit work list.
    /// `anc` carries the positions of the new parent and its ancestors —
    /// the ground for the proof that the walk never wanders above the moved
    /// chapter and so terminates even while the table is mid-repair.
    #[verifier::rlimit(100)]
    fn recompute_subtree(&mut self, c_idx: usize, now: i64, Ghost(anc): Ghost<Set<int>>)
        requires
            c_idx < old(self)@.len(),
            old(self)@.len() < 0x7fffffff,
            ids_unique(old(self)@),
            base_ok(old(self)@),
            forall|j: int|
                0 <= j < old(self)@.len() && j != c_idx ==> #[trigger] derived_ok(old(self)@, j),
            match old(self)@[c_idx as int].parent_id {
                None => true,
                Some(p) => has_id(old(self)@, p) && anc.contains(idx_of(old(self)@, p)) && ch(
                    old(self)@,
                    p,
                ).level + 1 <= old(self)@.len(),
            },
            anc_ok(old(self)@, anc),
            !anc.contains(c_idx as int),
        ensures
            final(self).next_id == old(self).next_id,
            stable_rows(old(self)@, final(self)@),
            wf_seq(final(self)@),
            forall|j: int|
                0 <= j < old(self)@.len() ==> #[trigger] final(self)@[j].updated_at == now as int
                    || final(self)@[j] == old(self)@[j],
    {
        let ghost v0 = self@;
        let ghost n = v0.len() as int;
        let nn = self.chapters.len();
        let parent_at: Option<usize> = match self.chapters[c_idx].parent_id {
            None => None,
            Some(p) => {
                proof {
                    assert(row_ok(v0, c_idx as int));
                    assert(parent_ok(v0, c_idx as int));
                }
                match self.find_index(p) {
                    Some(pi) => {
                        proof {
                            assert(v0[pi as int].id == p as int);
                            assert(v0[pi as int].id != v0[c_idx as int].id);
                        }
                        Some(pi)
                    },
                    None => {
                        proof {
                            assert(false);
                        }
                        None
                    },
                }
            },
        };
        proof {
            assert(row_ok(v0, c_idx as int));
            assert(parent_ok(v0, c_idx as int));
            match parent_at {
                None => {},
                Some(pi) => {
                    assert(idx_of(v0, v0[c_idx as int].parent_id->0) == pi as int);
                    assert(ch(v0, v0[c_idx as int].parent_id->0) == v0[pi as int]);
                    assert(row_ok(v0, pi as int));
                    assert(parent_ok(v0, pi as int));
                    assert(v0[pi as int].level >= 0);
                },
            }
            assert(row_ok(v0, c_idx as int));
            assert(v0[c_idx as int].id >= 1);
        }
        self.rewrite_row_from_parent(c_idx, parent_at, now);
        let ghost base = self@[c_idx as int].level;
        let mut stack: Vec<usize> = Vec::new();
        stack.push(c_idx);
        let ghost mut done = Set::<int>::empty();
        proof {
            let v = self@;
            assert(stack@ =~= seq![c_idx]);
            assert(v =~= v0.update(
                c_idx as int,
                with_derived(v0[c_idx as int], base, v[c_idx as int].path, now as int),
            ));
            assert(stable_rows(v0, v));
            assert(ids_unique(v));
            lemma_idx_stable(v0, v);
            assert(0 <= base <= n);
            assert(v.len() == n);
            assert(base_ok(v)) by {
                assert forall|t: int| 0 <= t < v.len() implies #[trigger] row_ok(v, t) by {
                    assert(row_ok(v0, t));
                    assert(row_ok(v0, t));
                    assert(parent_ok(v0, t));
                    match v[t].parent_id {
                        None => {},
                        Some(q) => {
                            assert(v0[t].parent_id == Some(q));
                            assert(has_id(v0, q));
                            let qi = idx_of(v0, q);
                            assert(idx_of(v, q) == qi);
                            assert(0 <= qi < n && v0[qi].id == q);
                            assert(v[qi].book_id == v0[qi].book_id);
                        },
                    }
                }
            }
            assert(in_stack(stack@, c_idx as int)) by {
                assert(stack@[0] == c_idx);
            }
            assert(derived_ok(v, c_idx as int)) by {
                match v[c_idx as int].parent_id {
                    None => {},
                    Some(p) => {
                        let pi = idx_of(v0, p);
                        assert(idx_of(v, p) == pi);
                        assert(pi != c_idx);
                        assert(v[pi] == v0[pi]);
                    },
                }
            }
            assert(stack_ok(stack@, done, n));
            assert(done_in_range(done, n));
            assert(parents_done(v0, done, stack@, c_idx as int)) by {
                assert forall|t: int|
                    #[trigger] touched(done, stack@, t) && t != c_idx implies (v0[t].parent_id
                    is Some && done.contains(ppos0(v0, t))) by {
                    assert(in_stack(stack@, t));
                    let k = choose|k: int| 0 <= k < stack@.len() && stack@[k] as int == t;
                    assert(t == c_idx);
                }
            }
            assert(anc_untouched(anc, done, stack@)) by {
                assert forall|a: int| #[trigger] anc.contains(a) implies !touched(
                    done,
                    stack@,
                    a,
                ) by {
                    if touched(done, stack@, a) {
                        let k = choose|k: int| 0 <= k < stack@.len() && stack@[k] as int == a;
                        assert(a == c_idx);
                    }
                }
            }
            assert(untouched_orig(v0, v, done, stack@)) by {
                assert forall|t: int|
                    0 <= t < n && !touched(done, stack@, t) implies v[t] == v0[t] by {
                    if t == c_idx {
                        assert(touched(done, stack@, t));
                    }
                }
            }
            assert(region_fixed(v0, v, done, stack@, now as int)) by {
                assert forall|t: int|
                    #[trigger] touched(done, stack@, t) implies 0 <= t < n && derived_ok(v, t)
                    && v[t].updated_at == now as int by {
                    assert(in_stack(stack@, t));
                    let k = choose|k: int| 0 <= k < stack@.len() && stack@[k] as int == t;
                    assert(t == c_idx);
                }
            }
            assert(levels_bounded(v, done, stack@, base)) by {
                assert forall|k: int|
                    0 <= k < stack@.len() implies v[(#[trigger] stack@[k]) as int].level <= base
                    + done.len() + 1 by {
                    assert(stack@[k] == c_idx);
                }
            }
            assert(repair_or(v0, v, stack@, 0, n)) by {
                assert forall|t: int|
                    0 <= t < n implies #[trigger] derived_ok(v, t) || (v[t].parent_id is Some && (
                in_stack(stack@, ppos0(v0, t)) || (v0[t].parent_id == Some(0int) && n <= t))) by {
                    if t != c_idx {
                        assert(derived_ok(v0, t));
                        assert(row_ok(v0, t));
                        assert(parent_ok(v0, t));
                        match v0[t].parent_id {
                            None => {
                                assert(derived_ok(v, t));
                            },
                            Some(q) => {
                                let qi = idx_of(v0, q);
                                assert(idx_of(v, q) == qi);
                                if qi == c_idx {
                                    assert(in_stack(stack@, ppos0(v0, t)));
                                } else {
                                    assert(v[qi] == v0[qi]);
                                    assert(v[t] == v0[t]);
                                    assert(derived_ok(v, t));
                                }
                            },
                        }
                    }
                }
            }
        }
        while stack.len() != 0
            invariant
                self.next_id == old(self).next_id,
                n == v0.len(),
                nn == n,
                n < 0x7fffffff,
                c_idx < n,
                stable_rows(v0, self@),
                ids_unique(v0),
                ids_unique(self@),
                base_ok(v0),
                base_ok(self@),
                match v0[c_idx as int].parent_id {
                    None => true,
                    Some(p) => anc.contains(idx_of(v0, p)),
                },
                anc_ok(v0, anc),
                !anc.contains(c_idx as int),
                done.finite(),
                done.len() <= n,
                done_in_range(done, n),
                stack_ok(stack@, done, n),
                parents_done(v0, done, stack@, c_idx as int),
                anc_untouched(anc, done, stack@),
                untouched_orig(v0, self@, done, stack@),
                region_fixed(v0, self@, done, stack@, now as int),
                levels_bounded(self@, done, stack@, base),
                repair_or(v0, self@, stack@, 0, n),
                0 <= base <= n,
            decreases n - done.len(),
        {
            let ghost done_old = done;
            let ghost stack_old = stack@;
            let x = match stack.pop() {
                Some(x) => x,
                None => {
                    proof {
                        assert(false);
                    }
                    return ;
                },
            };
            let x_id = self.chapters[x].id;
            proof {
                let v = self@;
                assert(stack_old.len() >= 1);
                assert(stack_old[stack_old.len() - 1] == x);
                assert(stack@ =~= stack_old.drop_last());
                assert(in_stack(stack_old, x as int));
                assert(touched(done_old, stack_old, x as int));
                assert(!done_old.contains(x as int));
                done = done.insert(x as int);
                lemma_int_range(0, n);
                lemma_len_subset(done, set_int_range(0, n));
                assert(done.len() == done_old.len() + 1);
                assert forall|t: int|
                    #[trigger] touched(done, stack@, t) == touched(done_old, stack_old, t) by {
                    if touched(done, stack@, t) {
                        if in_stack(stack@, t) {
                            let k = choose|k: int| 0 <= k < stack@.len() && stack@[k] as int == t;
                            assert(stack_old[k] as int == t);
                            assert(in_stack(stack_old, t));
                        } else if t == x as int {
                            assert(in_stack(stack_old, t));
                        }
                    }
                    if touched(done_old, stack_old, t) {
                        if in_stack(stack_old, t) {
                            let k = choose|k: int|
                                0 <= k < stack_old.len() && stack_old[k] as int == t;
                            if k == stack_old.len() - 1 {
                                assert(t == x as int);
                            } else {
                                assert(stack@[k] as int == t);
                                assert(in_stack(stack@, t));
                            }
                        }
                    }
                }
                assert(v[x as int].id == x_id as int);
                assert(v0[x as int].id == x_id as int);
                lemma_idx_of(v0, x as int);
                assert(done_in_range(done, n));
                assert(stack_ok(stack@, done, n)) by {
                    assert forall|k: int|
                        0 <= k < stack@.len() implies (#[trigger] stack@[k]) < n && !done.contains(
                        stack@[k] as int,
                    ) by {
                        assert(stack_old[k] == stack@[k]);
                        if stack@[k] as int == x as int {
                            assert(stack_old[k] == stack_old[stack_old.len() - 1]);
                        }
                    }
                }
                assert(parents_done(v0, done, stack@, c_idx as int)) by {
                    assert forall|t: int|
                        #[trigger] touched(done, stack@, t) && t != c_idx implies (
                    v0[t].parent_id is Some && done.contains(ppos0(v0, t))) by {
                        assert(touched(done_old, stack_old, t));
                    }
                }
                assert(anc_untouched(anc, done, stack@)) by {
                    assert forall|a: int| #[trigger] anc.contains(a) implies !touched(
                        done,
                        stack@,
                        a,
                    ) by {
                        if touched(done, stack@, a) {
                            assert(touched(done_old, stack_old, a));
                        }
                    }
                }
                assert(untouched_orig(v0, v, done, stack@)) by {
                    assert forall|t: int|
                        0 <= t < n && !touched(done, stack@, t) implies v[t] == v0[t] by {
                        assert(!touched(done_old, stack_old, t));
                    }
                }
                assert(region_fixed(v0, v, done, stack@, now as int)) by {
                    assert forall|t: int|
                        #[trigger] touched(done, stack@, t) implies 0 <= t < n && derived_ok(v, t)
                        && v[t].updated_at == now as int by {
                        assert(touched(done_old, stack_old, t));
                    }
                }
                assert(levels_bounded(v, done, stack@, base)) by {
                    assert forall|a: int| #[trigger] done.contains(a) implies v[a].level <= base
                        + done.len() by {
                        if a == x as int {
                            assert(v[a].level <= base + done_old.len() + 1);
                        } else {
                            assert(done_old.contains(a));
                        }
                    }
                    assert forall|k: int|
                        0 <= k < stack@.len() implies v[(#[trigger] stack@[k]) as int].level
                        <= base + done.len() + 1 by {
                        assert(stack_old[k] == stack@[k]);
                    }
                }
                assert(repair_or(v0, v, stack@, x_id as int, 0)) by {
                    assert forall|t: int|
                        0 <= t < n implies #[trigger] derived_ok(v, t) || (v[t].parent_id is Some
                        && (in_stack(stack@, ppos0(v0, t)) || (v0[t].parent_id == Some(
                        x_id as int,
                    ) && 0 <= t))) by {
                        if !derived_ok(v, t) {
                            assert(v[t].parent_id is Some && in_stack(stack_old, ppos0(v0, t)));
                            let k = choose|k: int|
                                0 <= k < stack_old.len() && stack_old[k] as int == ppos0(v0, t);
                            if k == stack_old.len() - 1 {
                                assert(ppos0(v0, t) == x as int);
                                assert(row_ok(v0, t));
                                assert(parent_ok(v0, t));
                                let q = v0[t].parent_id->0;
                                assert(has_id(v0, q));
                                assert(idx_of(v0, q) == x as int);
                                assert(v0[x as int].id == q);
                            } else {
                                assert(stack@[k] as int == ppos0(v0, t));
                                assert(in_stack(stack@, ppos0(v0, t)));
                            }
                        }
                    }
                }
                assert(fresh_children(v0, done, stack@, x_id as int, 0)) by {
                    assert forall|t: int|
                        0 <= t < n && v0[t].parent_id == Some(x_id as int) && 0 <= t
                        implies !touched(done, stack@, t) by {
                        if touched(done, stack@, t) {
                            assert(touched(done_old, stack_old, t));
                            assert(row_ok(v0, t));
                            assert(parent_ok(v0, t));
                            assert(has_id(v0, x_id as int));
                            assert(ppos0(v0, t) == x as int);
                            if t == c_idx {
                                assert(anc.contains(ppos0(v0, c_idx as int)));
                                assert(anc.contains(x as int));
                                assert(touched(done, stack@, x as int));
                            } else {
                                assert(done_old.contains(x as int));
                            }
                        }
                    }
                }
            }
            let mut j: usize = 0;
            while j < nn
                invariant
                    self.next_id == old(self).next_id,
                    n == v0.len(),
                    nn == n,
                    n < 0x7fffffff,
                    c_idx < n,
                    x < n,
                    j <= nn,
                    stable_rows(v0, self@),
                    ids_unique(v0),
                    ids_unique(self@),
                    base_ok(v0),
                    base_ok(self@),
                    match v0[c_idx as int].parent_id {
                        None => true,
                        Some(p) => anc.contains(idx_of(v0, p)),
                    },
                    anc_ok(v0, anc),
                    !anc.contains(c_idx as int),
                    done.finite(),
                    done.len() <= n,
                    done_in_range(done, n),
                    done.contains(x as int),
                    stack_ok(stack@, done, n),
                    parents_done(v0, done, stack@, c_idx as int),
                    anc_untouched(anc, done, stack@),
                    untouched_orig(v0, self@, done, stack@),
                    region_fixed(v0, self@, done, stack@, now as int),
                    levels_bounded(self@, done, stack@, base),
                    repair_or(v0, self@, stack@, x_id as int, j as int),
                    fresh_children(v0, done, stack@, x_id as int, j as int),
                    0 <= base <= n,
                    self@[x as int].id == x_id as int,
                    v0[x as int].id == x_id as int,
                decreases nn - j,
            {
                let is_child = match self.chapters[j].parent_id {
                    Some(q) => q == x_id,
                    None => false,
                };
                if is_child {
                    let ghost v_pre = self@;
                    let ghost stack_pre = stack@;
                    let ghost y = j as int;
                    proof {
                        lemma_idx_of(v0, x as int);
                        assert(self@[y].parent_id == Some(x_id as int));
                        assert(v0[y].parent_id == Some(x_id as int));
                        assert(row_ok(v0, y));
                        assert(parent_ok(v0, y));
                        assert(has_id(v0, x_id as int));
                        assert(ppos0(v0, y) == x as int);
                        assert(y != x) by {
                            assert(row_ok(v0, x as int));
                            assert(parent_ok(v0, x as int));
                        }
                        assert(!touched(done, stack@, y));
                        assert(v_pre[y] == v0[y]);
                        assert(row_ok(v0, y));
                        assert(v0[y].id >= 1);
                        assert(self@[x as int].level <= base + done.len());
                        assert(self@[x as int].level + 1 < i64::MAX);
                    }
                    self.rewrite_row_from_parent(j, Some(x), now);
                    stack.push(j);
                    proof {
                        let v = self@;
                        assert(v =~= v_pre.update(
                            y,
                            with_derived(
                                v_pre[y],
                                v_pre[x as int].level + 1,
                                v_pre[x as int].path + seq!['/'] + dec_digits(v_pre[y].id as nat),
                                now as int,
                            ),
                        ));
                        assert(stack@ =~= stack_pre.push(j));
                        assert(stable_rows(v0, v));
                        assert(ids_unique(v));
                        lemma_idx_stable(v0, v_pre);
                        lemma_idx_stable(v0, v);
                        assert(idx_of(v, x_id as int) == x as int && idx_of(v_pre, x_id as int)
                            == x as int);
                        assert(!in_stack(stack_pre, y));
                        assert(v[x as int] == v_pre[x as int]);
                        assert forall|t: int|
                            #[trigger] touched(done, stack@, t) == (touched(done, stack_pre, t)
                            || t == y) by {
                            if touched(done, stack@, t) && t != y {
                                if in_stack(stack@, t) {
                                    let k = choose|k: int|
                                        0 <= k < stack@.len() && stack@[k] as int == t;
                                    assert(k < stack@.len() - 1);
                                    assert(stack_pre[k] as int == t);
                                    assert(in_stack(stack_pre, t));
                                }
                            }
                            if touched(done, stack_pre, t) {
                                if in_stack(stack_pre, t) {
                                    let k = choose|k: int|
                                        0 <= k < stack_pre.len() && stack_pre[k] as int == t;
                                    assert(stack@[k] as int == t);
                                    assert(in_stack(stack@, t));
                                }
                            }
                            if t == y {
                                assert(stack@[stack@.len() - 1] == j);
                                assert(in_stack(stack@, y));
                            }
                        }
                        assert(!anc.contains(y)) by {
                            if anc.contains(y) {
                                assert(anc.contains(idx_of(v0, v0[y].parent_id->0)));
                                assert(anc.contains(x as int));
                                assert(touched(done, stack_pre, x as int));
                            }
                        }
                        assert(v.len() == n);
                        assert(base_ok(v)) by {
                            assert forall|t: int| 0 <= t < v.len() implies #[trigger] row_ok(
                                v,
                                t,
                            ) by {
                                assert(row_ok(v0, t));
                                assert(row_ok(v0, t));
                                assert(parent_ok(v0, t));
                                if t == y {
                                    assert(v[t].level == v_pre[x as int].level + 1);
                                    assert(row_ok(v_pre, x as int));
                                    assert(v_pre[x as int].level >= 0);
                                } else {
                                    assert(v[t] == v_pre[t]);
                                    assert(row_ok(v_pre, t));
                                    assert(v_pre[t].level >= 0);
                                }
                                match v[t].parent_id {
                                    None => {},
                                    Some(q) => {
                                        assert(v0[t].parent_id == Some(q));
                                        assert(has_id(v0, q));
                                        let qi = idx_of(v0, q);
                                        assert(idx_of(v, q) == qi);
                                        assert(0 <= qi < n && v0[qi].id == q);
                                        assert(v[qi].book_id == v0[qi].book_id);
                                    },
                                }
                            }
                        }
                        assert(derived_ok(v, y)) by {
                            assert(v[y].parent_id == Some(x_id as int));
                            assert(ch(v, x_id as int) == v[x as int]);
                        }
                        assert(stack_ok(stack@, done, n)) by {
                            assert forall|k1: int, k2: int|
                                0 <= k1 < k2 < stack@.len() implies stack@[k1] != stack@[k2] by {
                                if k2 == stack@.len() - 1 {
                                    assert(stack@[k2] == j);
                                    if stack@[k1] == j {
                                        assert(stack_pre[k1] as int == y);
                                        assert(in_stack(stack_pre, y));
                                    }
                                } else {
                                    assert(stack_pre[k1] == stack@[k1] && stack_pre[k2]
                                        == stack@[k2]);
                                }
                            }
                            assert forall|k: int|
                                0 <= k < stack@.len() implies (#[trigger] stack@[k]) < n
                                && !done.contains(stack@[k] as int) by {
                                if k == stack@.len() - 1 {
                                    assert(stack@[k] == j);
                                    if done.contains(y) {
                                        assert(touched(done, stack_pre, y));
                                    }
                                } else {
                                    assert(stack_pre[k] == stack@[k]);
                                }
                            }
                        }
                        assert(parents_done(v0, done, stack@, c_idx as int)) by {
                            assert forall|t: int|
                                #[trigger] touched(done, stack@, t) && t != c_idx implies (
                            v0[t].parent_id is Some && done.contains(ppos0(v0, t))) by {
                                if t == y {
                                    assert(ppos0(v0, y) == x as int);
                                    assert(done.contains(x as int));
                                } else {
                                    assert(touched(done, stack_pre, t));
                                }
                            }
                        }
                        assert(anc_untouched(anc, done, stack@)) by {
                            assert forall|a: int| #[trigger] anc.contains(a) implies !touched(
                                done,
                                stack@,
                                a,
                            ) by {
                                if touched(done, stack@, a) {
                                    if a == y {
                                        assert(!anc.contains(y));
                                    } else {
                                        assert(touched(done, stack_pre, a));
                                    }
                                }
                            }
                        }
                        assert(untouched_orig(v0, v, done, stack@)) by {
                            assert forall|t: int|
                                0 <= t < n && !touched(done, stack@, t) implies v[t] == v0[t] by {
                                assert(!touched(done, stack_pre, t));
                                assert(t != y);
                                assert(v[t] == v_pre[t]);
                            }
                        }
                        assert(region_fixed(v0, v, done, stack@, now as int)) by {
                            assert forall|t: int|
                                #[trigger] touched(done, stack@, t) implies 0 <= t < n
                                && derived_ok(v, t) && v[t].updated_at == now as int by {
                                if t == y {
                                } else {
                                    assert(touched(done, stack_pre, t));
                                    assert(derived_ok(v_pre, t));
                                    assert(v[t] == v_pre[t]);
                                    match v_pre[t].parent_id {
                                        None => {},
                                        Some(q) => {
                                            assert(v0[t].parent_id == Some(q));
                                            assert(row_ok(v0, t));
                                            assert(parent_ok(v0, t));
                                            assert(has_id(v0, q));
                                            let qi = idx_of(v0, q);
                                            assert(idx_of(v_pre, q) == qi && idx_of(v, q) == qi);
                                            assert(qi != y) by {
                                                if qi == y {
                                                    assert(ppos0(v0, t) == y);
                                                    if t == c_idx {
                                                        assert(anc.contains(ppos0(v0, t)));
                                                        assert(!anc.contains(y));
                                                    } else {
                                                        assert(done.contains(ppos0(v0, t)));
                                                        assert(touched(done, stack_pre, y));
                                                    }
                                                }
                                            }
                                            assert(v[qi] == v_pre[qi]);
                                        },
                                    }
                                }
                            }
                        }
                        assert(levels_bounded(v, done, stack@, base)) by {
                            assert forall|a: int| #[trigger] done.contains(a) implies v[a].level
                                <= base + done.len() by {
                                assert(a != y) by {
                                    if a == y {
                                        assert(touched(done, stack_pre, y));
                                    }
                                }
                                assert(v[a] == v_pre[a]);
                            }
                            assert forall|k: int|
                                0 <= k < stack@.len() implies v[(#[trigger] stack@[k]) as int].level
                                <= base + done.len() + 1 by {
                                if k == stack@.len() - 1 {
                                    assert(stack@[k] == j);
                                    assert(v[y].level == v_pre[x as int].level + 1);
                                    assert(v_pre[x as int].level <= base + done.len());
                                } else {
                                    assert(stack@[k] == stack_pre[k]);
                                    assert(stack_pre[k] as int != y) by {
                                        if stack_pre[k] as int == y {
                                            assert(in_stack(stack_pre, y));
                                        }
                                    }
                                    assert(v[stack_pre[k] as int] == v_pre[stack_pre[k] as int]);
                                }
                            }
                        }
                        assert(repair_or(v0, v, stack@, x_id as int, j + 1)) by {
                            assert forall|t: int|
                                0 <= t < n implies #[trigger] derived_ok(v, t) || (v[t].parent_id
                                is Some && (in_stack(stack@, ppos0(v0, t)) || (v0[t].parent_id
                                == Some(x_id as int) && j + 1 <= t))) by {
                                if t == y {
                                    assert(derived_ok(v, y));
                                } else {
                                    assert(v[t] == v_pre[t]);
                                    if derived_ok(v_pre, t) {
                                        match v_pre[t].parent_id {
                                            None => {
                                                assert(derived_ok(v, t));
                                            },
                                            Some(q) => {
                                                assert(v0[t].parent_id == Some(q));
                                                assert(row_ok(v0, t));
                                                assert(parent_ok(v0, t));
                                                assert(has_id(v0, q));
                                                let qi = idx_of(v0, q);
                                                assert(idx_of(v_pre, q) == qi && idx_of(v, q)
                                                    == qi);
                                                if qi == y {
                                                    assert(ppos0(v0, t) == y);
                                                    assert(in_stack(stack@, ppos0(v0, t))) by {
                                                        assert(stack@[stack@.len() - 1] == j);
                                                    }
                                                } else {
                                                    assert(v[qi] == v_pre[qi]);
                                                    assert(derived_ok(v, t));
                                                }
                                            },
                                        }
                                    } else {
                                        assert(v_pre[t].parent_id is Some);
                                        if in_stack(stack_pre, ppos0(v0, t)) {
                                            assert(in_stack(stack@, ppos0(v0, t))) by {
                                                let k = choose|k: int|
                                                    0 <= k < stack_pre.len() && stack_pre[k] as int
                                                        == ppos0(v0, t);
                                                assert(stack@[k] as int == ppos0(v0, t));
                                            }
                                        } else {
                                            assert(v0[t].parent_id == Some(x_id as int) && j <= t);
                                            assert(t != y);
                                        }
                                    }
                                }
                            }
                        }
                        assert(fresh_children(v0, done, stack@, x_id as int, j + 1)) by {
                            assert forall|t: int|
                                0 <= t < n && v0[t].parent_id == Some(x_id as int) && j + 1 <= t
                                implies !touched(done, stack@, t) by {
                                assert(t != y);
                                if touched(done, stack@, t) {
                                    assert(touched(done, stack_pre, t));
                                }
                            }
                        }
                    }
                } else {
                    proof {
                        assert(repair_or(v0, self@, stack@, x_id as int, j + 1)) by {
                            assert forall|t: int|
                                0 <= t < n implies #[trigger] derived_ok(self@, t) || (
                            self@[t].parent_id is Some && (in_stack(stack@, ppos0(v0, t)) || (
                            v0[t].parent_id == Some(x_id as int) && j + 1 <= t))) by {
                                if !derived_ok(self@, t) && !in_stack(stack@, ppos0(v0, t)) {
                                    assert(v0[t].parent_id == Some(x_id as int) && j <= t);
                                    if t == j as int {
                                        assert(self@[t].parent_id == v0[t].parent_id);
                                    }
                                }
                            }
                        }
                        assert(fresh_children(v0, done, stack@, x_id as int, j + 1)) by {
                            assert forall|t: int|
                                0 <= t < n && v0[t].parent_id == Some(x_id as int) && j + 1 <= t
                                implies !touched(done, stack@, t) by {
                                assert(j <= t);
                            }
                        }
                    }
                }
                j += 1;
            }
            proof {
                assert(repair_or(v0, self@, stack@, 0, n)) by {
                    assert forall|t: int|
                        0 <= t < n implies #[trigger] derived_ok(self@, t) || (self@[t].parent_id
                        is Some && (in_stack(stack@, ppos0(v0, t)) || (v0[t].parent_id == Some(
                        0int,
                    ) && n <= t))) by {
                        if !derived_ok(self@, t) && !in_stack(stack@, ppos0(v0, t)) {
                            assert(v0[t].parent_id == Some(x_id as int) && nn <= t);
                        }
                    }
                }
            }
        }
        proof {
            let v = self@;
            assert(stack@.len() == 0);
            assert forall|t: int| 0 <= t < n implies #[trigger] valid_at(v, t) by {
                if !derived_ok(v, t) {
                    assert(v[t].parent_id is Some && in_stack(stack@, ppos0(v0, t)));
                    let k = choose|k: int|
                        0 <= k < stack@.len() && stack@[k] as int == ppos0(v0, t);
                    assert(false);
                }
                assert(row_ok(v, t));
                assert(parent_ok(v, t));
                assert(v[t].id >= 1 && v[t].level >= 0);
            }
            assert(wf_seq(v));
            assert forall|t: int|
                0 <= t < n implies #[trigger] v[t].updated_at == now as int || v[t] == v0[t] by {
                if touched(done, stack@, t) {
                    assert(v[t].updated_at == now as int);
                } else {
                    assert(v[t] == v0[t]);
                }
            }
        }
    }

    /// Builds `level` and `path` for the row at `i` from its parent's
    /// currently stored values (or as a root) and writes them.
    fn rewrite_row_from_parent(&mut self, i: usize, parent_at: Option<usize>, now: i64)
        requires
            i < old(self)@.len(),
            match parent_at {
                None => old(self)@[i as int].parent_id is None,
                Some(pi) => pi < old(self)@.len() && pi != i && (old(
                    self,
                )@[i as int].parent_id matches Some(q) && old(self)@[pi as int].id == q),
            },
            old(self)@[i as int].id >= 1,
            match parent_at {
                None => true,
                Some(pi) => old(self)@[pi as int].level + 1 < i64::MAX,
            },
        ensures
            final(self).next_id == old(self).next_id,
            final(self)@ == old(self)@.update(
                i as int,
                with_derived(
                    old(self)@[i as int],
                    match parent_at {
                        None => 0,
                        Some(pi) => old(self)@[pi as int].level + 1,
                    },
                    match parent_at {
                        None => dec_digits(old(self)@[i as int].id as nat),
                        Some(pi) => old(self)@[pi as int].path + seq!['/'] + dec_digits(
                            old(self)@[i as int].id as nat,
                        ),
                    },
                    now as int,
                ),
            ),
    {
        let my_id = self.chapters[i].id;
        match parent_at {
            None => {
                let path = render_id(my_id as u32);
                self.set_derived_at(i, 0, path, now);
            },
            Some(pi) => {
                let lvl = self.chapters[pi].level + 1;
                let mut path = self.chapters[pi].path.clone();
                path.append("/");
                let ds = render_id(my_id as u32);
                path.append(ds.as_str());
                proof {
                    reveal_strlit("/");
                    assert(path@ =~= old(self)@[pi as int].path + seq!['/'] + dec_digits(
                        my_id as nat,
                    ));
                }
                self.set_derived_at(i, lvl, path, now);
            },
        }
    }
}

impl ChapterStore {
    /// Moves a chapter under a new parent (or to the root when none is
    /// given), optionally with a new ordering key. The chapter and the new
    /// parent must exist and share a book, and the new parent must not be
    /// the chapter itself or one of its descendants — otherwise the call is
    /// rejected and nothing changes. On success the chapter is re-attached
    /// and `level` and `path` are recomputed for it and its whole subtree,
    /// as one atomic step.
    #[verifier::rlimit(100)]
    pub fn move_chapter(
        &mut self,
        chapter_id: i32,
        new_parent_id: Option<i32>,
        new_sort_order: Option<i32>,
        now: i64,
    ) -> (r: Result<(), ChapterError>)
        requires
            old(self).wf(),
        ensures
            final(self).wf(),
            final(self).next_id == old(self).next_id,
            match r {
                Ok(()) => move_ok_post(
                    old(self)@,
                    final(self)@,
                    chapter_id as int,
                    opt_int(new_parent_id),
                    opt_int(new_sort_order),
                    now as int,
                ),
                Err(e) => *final(self) == *old(self) && move_err_spec(
                    old(self)@,
                    chapter_id as int,
                    opt_int(new_parent_id),
                ) == Some(e),
            },
    {
        let ghost s_pre = self@;
        let ghost n = s_pre.len() as int;
        let ci = match self.find_index(chapter_id) {
            None => {
                return Err(ChapterError::NotFound);
            },
            Some(ci) => ci,
        };
        let mut pi_opt: Option<usize> = None;
        match new_parent_id {
            None => {},
            Some(np) => {
                let pi = match self.find_index(np) {
                    None => {
                        return Err(ChapterError::NotFound);
                    },
                    Some(pi) => pi,
                };
                if self.chapters[pi].book_id != self.chapters[ci].book_id {
                    return Err(ChapterError::ScopeMismatch);
                }
                if self.is_ancestor_or_self(np, chapter_id) {
                    return Err(ChapterError::CycleDetected);
                }
                pi_opt = Some(pi);
            },
        }
        proof {
            assert(move_err_spec(s_pre, chapter_id as int, opt_int(new_parent_id)) is None);
            match pi_opt {
                None => {},
                Some(pi) => {
                    // the new parent is not the chapter itself
                    assert(s_pre.len() >= 1);
                    let np = opt_int(new_parent_id)->0;
                    if np == chapter_id as int {
                        assert(chain_hits(s_pre, np, chapter_id as int, s_pre.len() as nat));
                    }
                    assert(s_pre[pi as int].id != s_pre[ci as int].id);
                },
            }
        }
        let new_sort = match new_sort_order {
            Some(v) => v,
            None => self.chapters[ci].sort_order,
        };
        let ghost mut anc = Set::<int>::empty();
        let ghost mut anc_chain = Seq::<int>::empty();
        proof {
            match pi_opt {
                None => {},
                Some(pi) => {
                    let np = opt_int(new_parent_id)->0;
                    let r = chain_to_root(s_pre, pi as int);
                    anc_chain = r;
                    anc = r.to_set();
                    lemma_level_bound(s_pre, pi as int);
                    // no chain member is the moved chapter
                    assert forall|k: int| 0 <= k < r.len() implies r[k] != ci as int by {
                        if r[k] == ci as int {
                            assert(s_pre[r[k]].id == chapter_id as int);
                            lemma_chain_member_reachable(s_pre, pi as int, r, k);
                            assert(chain_hits(
                                s_pre,
                                s_pre[pi as int].id,
                                chapter_id as int,
                                (k + 1) as nat,
                            ));
                            lemma_chain_monotone(
                                s_pre,
                                np,
                                chapter_id as int,
                                (k + 1) as nat,
                                s_pre.len() as nat,
                            );
                        }
                    }
                    assert(!anc.contains(ci as int)) by {
                        if anc.contains(ci as int) {
                            assert(r.contains(ci as int));
                            let k = choose|k: int| 0 <= k < r.len() && r[k] == ci as int;
                        }
                    }
                    assert(anc.contains(pi as int)) by {
                        assert(r[0] == pi as int);
                        assert(r.contains(pi as int));
                    }
                    assert(r.len() == s_pre[pi as int].level + 1);
                    assert(r[0] == pi as int);
                    assert(forall|k: int|
                        0 <= k < r.len() ==> 0 <= #[trigger] r[k] < s_pre.len());
                    assert(forall|k: int|
                        0 <= k < r.len() - 1 ==> (#[trigger] s_pre[r[k]].parent_id) is Some
                            && idx_of(s_pre, s_pre[r[k]].parent_id->0) == r[k + 1]);
                    assert(s_pre[r[r.len() - 1]].parent_id is None);
                    assert(forall|k: int| 0 <= k < r.len() ==> #[trigger] r[k] != ci as int);
                },
            }
        }
        self.set_parent_sort_at(ci, new_parent_id, new_sort, now);
        let ghost v0 = self@;
        proof {
            assert(v0 =~= s_pre.update(
                ci as int,
                reparented(s_pre[ci as int], opt_int(new_parent_id), new_sort as int, now as int),
            ));
            assert(v0.len() == n);
            assert forall|j: int| 0 <= j < n implies #[trigger] v0[j].id == s_pre[j].id
                && v0[j].book_id == s_pre[j].book_id && v0[j].level == s_pre[j].level
                && v0[j].path == s_pre[j].path by {}
            assert(ids_unique(v0));
            lemma_idx_stable(s_pre, v0);
            assert(base_ok(v0)) by {
                assert forall|j: int| 0 <= j < v0.len() implies #[trigger] row_ok(v0, j) by {
                    assert(valid_at(s_pre, j));
                    if j == ci as int {
                        match v0[j].parent_id {
                            None => {},
                            Some(q) => {
                                assert(has_id(s_pre, q));
                                assert(has_id(v0, q));
                                let qi = idx_of(s_pre, q);
                                assert(idx_of(v0, q) == qi);
                                assert(0 <= qi < n && s_pre[qi].id == q);
                                assert(v0[qi].book_id == s_pre[qi].book_id);
                                assert(s_pre[qi].book_id == s_pre[ci as int].book_id);
                                assert(q != v0[j].id);
                            },
                        }
                    } else {
                        assert(parent_ok(s_pre, j));
                        match v0[j].parent_id {
                            None => {},
                            Some(q) => {
                                assert(has_id(s_pre, q));
                                assert(has_id(v0, q));
                                let qi = idx_of(s_pre, q);
                                assert(idx_of(v0, q) == qi);
                                assert(0 <= qi < n && s_pre[qi].id == q);
                                assert(v0[qi].book_id == s_pre[qi].book_id);
                            },
                        }
                    }
                }
            }
            assert forall|j: int| 0 <= j < n && j != ci as int implies #[trigger] derived_ok(
                v0,
                j,
            ) by {
                assert(valid_at(s_pre, j));
                assert(derived_ok(s_pre, j));
                assert(v0[j] == s_pre[j]);
                match s_pre[j].parent_id {
                    None => {},
                    Some(q) => {
                        assert(parent_ok(s_pre, j));
                        assert(has_id(s_pre, q));
                        let qi = idx_of(s_pre, q);
                        assert(idx_of(v0, q) == qi);
                        assert(v0[qi].level == s_pre[qi].level && v0[qi].path == s_pre[qi].path);
                    },
                }
            }
            match pi_opt {
                None => {},
                Some(pi) => {
                    let np = opt_int(new_parent_id)->0;
                    assert(v0[ci as int].parent_id == Some(np));
                    assert(has_id(v0, np));
                    assert(idx_of(v0, np) == pi as int);
                    assert(anc.contains(idx_of(v0, np)));
                    assert(pi != ci);
                    assert(ch(v0, np) == v0[pi as int]);
                    assert(v0[pi as int].level == s_pre[pi as int].level);
                    assert(ch(v0, np).level + 1 <= n);
                },
            }
            assert(anc_ok(v0, anc)) by {
                match pi_opt {
                    None => {},
                    Some(pi) => {
                        let r = anc_chain;
                        assert(anc == r.to_set());
                        assert forall|a: int| #[trigger] anc.contains(a) implies 0 <= a < n && (
                        v0[a].parent_id matches Some(q) ==> anc.contains(idx_of(v0, q))) by {
                            assert(r.contains(a));
                            let k = choose|k: int| 0 <= k < r.len() && r[k] == a;
                            assert(0 <= a < n);
                            assert(a != ci as int);
                            assert(v0[a] == s_pre[a]);
                            if k < r.len() - 1 {
                                assert(s_pre[a].parent_id is Some);
                                let q = s_pre[a].parent_id->0;
                                assert(idx_of(s_pre, q) == r[k + 1]);
                                assert(valid_at(s_pre, a));
                                assert(parent_ok(s_pre, a));
                                assert(has_id(s_pre, q));
                                assert(idx_of(v0, q) == idx_of(s_pre, q));
                                assert(r.contains(r[k + 1]));
                            } else {
                                assert(s_pre[r[r.len() - 1]].parent_id is None);
                                assert(v0[a].parent_id is None);
                            }
                        }
                    },
                }
            }
        }
        self.recompute_subtree(ci, now, Ghost(anc));
        proof {
            let s1 = self@;
            assert(stable_rows(v0, s1));
            assert(s1.len() == n);
            assert(idx_of(s_pre, chapter_id as int) == ci as int);
            assert forall|j: int| 0 <= j < n implies #[trigger] meta_kept(s_pre, s1, j) by {
                assert(s1[j].id == v0[j].id && s1[j].title == v0[j].title && s1[j].description
                    == v0[j].description && s1[j].book_id == v0[j].book_id && s1[j].created_at
                    == v0[j].created_at);
            }
            assert forall|j: int| 0 <= j < n && j != ci as int implies #[trigger] pos_kept(
                s_pre,
                s1,
                j,
            ) by {
                assert(s1[j].parent_id == v0[j].parent_id && s1[j].sort_order == v0[j].sort_order);
                assert(v0[j] == s_pre[j]);
            }
            assert(s1[ci as int].id == v0[ci as int].id);
            assert(s1[ci as int].parent_id == v0[ci as int].parent_id);
            assert(s1[ci as int].sort_order == v0[ci as int].sort_order);
            assert forall|j: int| 0 <= j < n implies #[trigger] stamped_or_same(
                s_pre,
                s1,
                j,
                now as int,
            ) by {
                if s1[j].updated_at == now as int {
                } else {
                    assert(s1[j] == v0[j]);
                    assert(j != ci as int) by {
                        if j == ci as int {
                            assert(v0[j].updated_at == now as int);
                        }
                    }
                    assert(v0[j] == s_pre[j]);
                }
            }
            assert forall|i: int| 0 <= i < s1.len() implies #[trigger] s1[i].id
                < self.next_id by {
                assert(s1[i].id == v0[i].id);
                assert(v0[i].id == s_pre[i].id);
            }
        }
        Ok(())
    }
}

} // verus!
