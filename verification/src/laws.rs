//! The laws of the tree: properties that hold of every well-formed store
//! and of every pair of operations, stated and proved once.

use vstd::prelude::*;

use crate::chapter::ChapterModel;
use crate::cycle::lemma_idx_stable;
use crate::digits::dec_digits;
use crate::errors::ChapterError;
use crate::moving::{meta_kept, move_ok_post, pos_kept};
use crate::order::{last_pos, reorder_applied, reorder_err, with_sort};
use crate::store::{
    ch, derived_ok, has_id, idx_of, ids_unique, in_group, lemma_idx_of, valid_at, wf_seq,
};

verus! {

/// Ancestry: in a well-formed store, a root chapter has level 0, and any
/// other chapter's level is its parent's level plus one.
pub proof fn lemma_ancestry(s: Seq<ChapterModel>, i: int)
    requires
        wf_seq(s),
        0 <= i < s.len(),
    ensures
        s[i].parent_id is None ==> s[i].level == 0,
        s[i].parent_id matches Some(p) ==> has_id(s, p) && s[i].level == ch(s, p).level + 1,
{
    assert(valid_at(s, i));
}

/// Materialized path: in a well-formed store, a root chapter's path is its
/// own id in decimal, and any other chapter's path is its parent's path,
/// a separator, and its own id.
pub proof fn lemma_path(s: Seq<ChapterModel>, i: int)
    requires
        wf_seq(s),
        0 <= i < s.len(),
    ensures
        s[i].parent_id is None ==> s[i].path == dec_digits(s[i].id as nat),
        s[i].parent_id matches Some(p) ==> has_id(s, p) && s[i].path == ch(s, p).path
            + seq!['/'] + dec_digits(s[i].id as nat),
{
    assert(valid_at(s, i));
}

/// Following parent references from `start` reaches a root within `fuel`
/// hops.
pub open spec fn root_within(s: Seq<ChapterModel>, start: int, fuel: nat) -> bool
    decreases fuel,
{
    has_id(s, start) && (ch(s, start).parent_id is None || (fuel > 0 && root_within(
        s,
        ch(s, start).parent_id->0,
        (fuel - 1) as nat,
    )))
}

/// Acyclicity: in a well-formed store no chapter is its own ancestor —
/// climbing parent references from any chapter reaches a root in at most
/// as many hops as the chapter's own level.
pub proof fn lemma_acyclic(s: Seq<ChapterModel>, i: int)
    requires
        wf_seq(s),
        0 <= i < s.len(),
    ensures
        root_within(s, s[i].id, s[i].level as nat),
    decreases s[i].level,
{
    assert(valid_at(s, i));
    lemma_idx_of(s, i);
    match s[i].parent_id {
        None => {},
        Some(p) => {
            let pi = idx_of(s, p);
            assert(has_id(s, p));
            assert(0 <= pi < s.len() && s[pi].id == p);
            assert(valid_at(s, pi));
            lemma_acyclic(s, pi);
        },
    }
}

/// Idempotence of batch reordering: applying the same id list twice
/// assigns the same ordering key to every chapter both times, and the
/// second application is accepted whenever the first was.
pub proof fn lemma_reorder_idempotent(
    s0: Seq<ChapterModel>,
    s1: Seq<ChapterModel>,
    s2: Seq<ChapterModel>,
    b: int,
    p: Option<int>,
    ids: Seq<int>,
    now1: int,
    now2: int,
)
    requires
        ids_unique(s0),
        reorder_err(s0, b, p, ids) is None,
        reorder_applied(s0, s1, ids, now1),
        reorder_applied(s1, s2, ids, now2),
    ensures
        reorder_err(s1, b, p, ids) is None,
        forall|i: int| 0 <= i < s0.len() ==> #[trigger] s2[i].sort_order == s1[i].sort_order,
{
    assert forall|i: int| 0 <= i < s0.len() implies #[trigger] s2[i].sort_order
        == s1[i].sort_order by {
        assert(s1[i].id == s0[i].id);
        if ids.contains(s0[i].id) {
            assert(s1[i] == with_sort(s0[i], last_pos(ids, s0[i].id) + 1, now1));
            assert(s2[i] == with_sort(s1[i], last_pos(ids, s1[i].id) + 1, now2));
        } else {
            assert(s1[i] == s0[i]);
            assert(s2[i] == s1[i]);
        }
    }
    lemma_reorder_err_same(s0, s1, b, p, ids, now1);
}

/// A full reassignment never changes which chapter belongs to which group,
/// so a scan that accepted the old table accepts the new one.
proof fn lemma_reorder_err_same(
    s0: Seq<ChapterModel>,
    s1: Seq<ChapterModel>,
    b: int,
    p: Option<int>,
    ids: Seq<int>,
    now1: int,
)
    requires
        ids_unique(s0),
        reorder_applied(s0, s1, ids, now1),
        reorder_err(s0, b, p, ids) is None,
    ensures
        reorder_err(s1, b, p, ids) is None,
{
    assert(s1.len() == s0.len());
    assert forall|i: int|
        0 <= i < s0.len() implies #[trigger] s1[i].id == s0[i].id && s1[i].parent_id
        == s0[i].parent_id && s1[i].book_id == s0[i].book_id by {
        if ids.contains(s0[i].id) {
            assert(s1[i] == with_sort(s0[i], last_pos(ids, s0[i].id) + 1, now1));
        } else {
            assert(s1[i] == s0[i]);
        }
    }
    assert(ids_unique(s1));
    lemma_idx_stable(s0, s1);
    lemma_reorder_err_stable(s0, s1, b, p, ids);
}

/// The scan outcome depends only on ids, parents and books, all of which
/// the two tables share.
proof fn lemma_reorder_err_stable(
    s0: Seq<ChapterModel>,
    s1: Seq<ChapterModel>,
    b: int,
    p: Option<int>,
    ids: Seq<int>,
)
    requires
        ids_unique(s0),
        ids_unique(s1),
        s1.len() == s0.len(),
        forall|i: int|
            0 <= i < s0.len() ==> #[trigger] s1[i].id == s0[i].id && s1[i].parent_id
                == s0[i].parent_id && s1[i].book_id == s0[i].book_id,
    ensures
        reorder_err(s1, b, p, ids) == reorder_err(s0, b, p, ids),
    decreases ids.len(),
{
    lemma_idx_stable(s0, s1);
    if ids.len() > 0 {
        let x = ids[0];
        if has_id(s0, x) {
            let xi = idx_of(s0, x);
            assert(0 <= xi < s0.len() && s0[xi].id == x);
            assert(idx_of(s1, x) == xi);
            assert(ch(s1, x).parent_id == ch(s0, x).parent_id && ch(s1, x).book_id == ch(
                s0,
                x,
            ).book_id);
        }
        lemma_reorder_err_stable(s0, s1, b, p, ids.drop_first());
    }
}

/// Levels and paths are derived data: two well-formed tables with the same
/// ids and the same parent references agree on every level and every path.
pub proof fn lemma_derived_determined(s1: Seq<ChapterModel>, s2: Seq<ChapterModel>, j: int)
    requires
        wf_seq(s1),
        wf_seq(s2),
        s1.len() == s2.len(),
        forall|t: int|
            0 <= t < s1.len() ==> #[trigger] s2[t].id == s1[t].id && s2[t].parent_id
                == s1[t].parent_id,
        0 <= j < s1.len(),
    ensures
        s2[j].level == s1[j].level,
        s2[j].path == s1[j].path,
    decreases s1[j].level,
{
    assert(valid_at(s1, j));
    assert(valid_at(s2, j));
    lemma_idx_stable(s1, s2);
    match s1[j].parent_id {
        None => {},
        Some(p) => {
            assert(has_id(s1, p));
            let pi = idx_of(s1, p);
            assert(0 <= pi < s1.len() && s1[pi].id == p);
            assert(idx_of(s2, p) == pi);
            assert(valid_at(s1, pi));
            assert(s1[pi].level == s1[j].level - 1);
            lemma_derived_determined(s1, s2, pi);
            assert(ch(s1, p) == s1[pi] && ch(s2, p) == s2[pi]);
        },
    }
}

/// Round trip: moving a chapter somewhere else and then back restores the
/// parent, ordering key, level and path of every chapter — the moved one
/// and all its descendants included.
pub proof fn lemma_move_round_trip(
    s0: Seq<ChapterModel>,
    s1: Seq<ChapterModel>,
    s2: Seq<ChapterModel>,
    cid: int,
    np: Option<int>,
    nso: Option<int>,
    now1: int,
    now2: int,
    j: int,
)
    requires
        wf_seq(s0),
        has_id(s0, cid),
        move_ok_post(s0, s1, cid, np, nso, now1),
        move_ok_post(
            s1,
            s2,
            cid,
            s0[idx_of(s0, cid)].parent_id,
            Some(s0[idx_of(s0, cid)].sort_order),
            now2,
        ),
        0 <= j < s0.len(),
    ensures
        s2[j].id == s0[j].id,
        s2[j].parent_id == s0[j].parent_id,
        s2[j].sort_order == s0[j].sort_order,
        s2[j].level == s0[j].level,
        s2[j].path == s0[j].path,
        s2[j].title == s0[j].title,
        s2[j].description == s0[j].description,
        s2[j].book_id == s0[j].book_id,
{
    let ci = idx_of(s0, cid);
    lemma_idx_of(s0, idx_of(s0, cid));
    assert(0 <= ci < s0.len() && s0[ci].id == cid);
    assert(forall|t: int| 0 <= t < s0.len() ==> #[trigger] meta_kept(s0, s1, t));
    assert(forall|t: int| 0 <= t < s1.len() ==> #[trigger] meta_kept(s1, s2, t));
    assert(ids_unique(s1)) by {
        assert(forall|t: int| 0 <= t < s0.len() ==> meta_kept(s0, s1, t));
        assert forall|t1: int, t2: int| 0 <= t1 < t2 < s1.len() implies s1[t1].id
            != s1[t2].id by {
            assert(meta_kept(s0, s1, t1) && meta_kept(s0, s1, t2));
        }
    }
    assert(idx_of(s1, cid) == ci) by {
        assert(meta_kept(s0, s1, ci));
        assert(s1[ci].id == cid);
        lemma_idx_of(s1, ci);
    }
    // the shape of s2 equals the shape of s0
    assert forall|t: int|
        0 <= t < s0.len() implies #[trigger] s2[t].id == s0[t].id && s2[t].parent_id
        == s0[t].parent_id by {
        assert(meta_kept(s0, s1, t) && meta_kept(s1, s2, t));
        if t != ci {
            assert(pos_kept(s0, s1, t) && pos_kept(s1, s2, t));
        }
    }
    lemma_derived_determined(s0, s2, j);
    assert(meta_kept(s0, s1, j) && meta_kept(s1, s2, j));
    if j != ci {
        assert(pos_kept(s0, s1, j) && pos_kept(s1, s2, j));
    }
}

} // verus!
