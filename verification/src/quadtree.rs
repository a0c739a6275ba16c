use vstd::prelude::*;
use vstd::seq_lib::group_to_multiset_ensures;
use vstd::multiset::{Multiset, group_multiset_axioms};
use crate::geom::{dist2, dist2_i64, lemma_square_monotone, COORD_LIMIT};

verus! {

broadcast use group_to_multiset_ensures, group_multiset_axioms;

/// One stored reference: an entity index together with the position it
/// was inserted at.
pub type Entry = (usize, i64, i64);

/// How many entries a node holds before it splits into quadrants.
pub const QT_CAPACITY: usize = 4;

/// Whether `(x, y)` lies in the closed rectangle `[x0, x1] x [y0, y1]`.
pub open spec fn in_rect(x0: int, y0: int, x1: int, y1: int, x: int, y: int) -> bool {
    x0 <= x <= x1 && y0 <= y <= y1
}

/// Midpoint of an interval, rounding towards its lower end.
pub open spec fn mid(a: int, b: int) -> int {
    a + (b - a) / 2
}

/// Whether the stored position of `p` is within radius `r` of `(qx, qy)`.
pub open spec fn entry_within(p: Entry, qx: int, qy: int, r: int) -> bool {
    dist2(p.1 as int, p.2 as int, qx, qy) <= r * r
}

/// Whether the collection holds an entry for index `j` within radius
/// `r` of `(qx, qy)`.
pub open spec fn has_match(ms: Multiset<Entry>, j: usize, qx: int, qy: int, r: int) -> bool {
    exists|p: Entry| ms.contains(p) && p.0 == j && entry_within(p, qx, qy, r)
}

struct QNode {
    x0: i64,
    y0: i64,
    x1: i64,
    y1: i64,
    pts: Vec<Entry>,
    kids: Option<Box<QKids>>,
}

struct QKids {
    q0: QNode,
    q1: QNode,
    q2: QNode,
    q3: QNode,
}

/// All entries held by a node's subtree.
spec fn node_points(n: QNode) -> Multiset<Entry>
    decreases n,
{
    match n.kids {
        Some(k) => n.pts@.to_multiset()
            .add(node_points(k.q0))
            .add(node_points(k.q1))
            .add(node_points(k.q2))
            .add(node_points(k.q3)),
        None => n.pts@.to_multiset(),
    }
}

/// Structural invariant of a node: a valid bounded region, entries held
/// in the region, and children standing exactly on the four quadrants.
spec fn node_wf(n: QNode) -> bool
    decreases n,
{
    &&& n.x0 <= n.x1
    &&& n.y0 <= n.y1
    &&& -COORD_LIMIT <= n.x0
    &&& n.x1 <= COORD_LIMIT
    &&& -COORD_LIMIT <= n.y0
    &&& n.y1 <= COORD_LIMIT
    &&& forall|i: int| 0 <= i < n.pts@.len()
            ==> in_rect(n.x0 as int, n.y0 as int, n.x1 as int, n.y1 as int,
                (#[trigger] n.pts@[i]).1 as int, n.pts@[i].2 as int)
    &&& match n.kids {
        Some(k) => {
            let mx = mid(n.x0 as int, n.x1 as int);
            let my = mid(n.y0 as int, n.y1 as int);
            &&& n.x0 < n.x1
            &&& n.y0 < n.y1
            &&& k.q0.x0 == n.x0 && k.q0.x1 == mx && k.q0.y0 == n.y0 && k.q0.y1 == my
            &&& k.q1.x0 == mx + 1 && k.q1.x1 == n.x1 && k.q1.y0 == n.y0 && k.q1.y1 == my
            &&& k.q2.x0 == n.x0 && k.q2.x1 == mx && k.q2.y0 == my + 1 && k.q2.y1 == n.y1
            &&& k.q3.x0 == mx + 1 && k.q3.x1 == n.x1 && k.q3.y0 == my + 1 && k.q3.y1 == n.y1
            &&& node_wf(k.q0)
            &&& node_wf(k.q1)
            &&& node_wf(k.q2)
            &&& node_wf(k.q3)
        },
        None => true,
    }
}

/// Every entry of a well-formed subtree lies in the subtree's region.
proof fn lemma_points_in_region(n: QNode)
    requires
        node_wf(n),
    ensures
        forall|p: Entry| node_points(n).contains(p)
            ==> in_rect(n.x0 as int, n.y0 as int, n.x1 as int, n.y1 as int,
                p.1 as int, p.2 as int),
    decreases n,
{
    if let Some(k) = n.kids {
        lemma_points_in_region(k.q0);
        lemma_points_in_region(k.q1);
        lemma_points_in_region(k.q2);
        lemma_points_in_region(k.q3);
        assert forall|p: Entry| node_points(n).contains(p)
            implies in_rect(n.x0 as int, n.y0 as int, n.x1 as int, n.y1 as int,
                p.1 as int, p.2 as int) by {
            if n.pts@.to_multiset().contains(p) {
                let i = choose|i: int| 0 <= i < n.pts@.len() && n.pts@[i] == p;
            } else {
                assert(node_points(k.q0).contains(p) || node_points(k.q1).contains(p)
                    || node_points(k.q2).contains(p) || node_points(k.q3).contains(p));
            }
        }
    } else {
        assert forall|p: Entry| node_points(n).contains(p)
            implies in_rect(n.x0 as int, n.y0 as int, n.x1 as int, n.y1 as int,
                p.1 as int, p.2 as int) by {
            let i = choose|i: int| 0 <= i < n.pts@.len() && n.pts@[i] == p;
        }
    }
}

/// Splitting a match over a merged collection.
proof fn lemma_match_add(a: Multiset<Entry>, b: Multiset<Entry>, j: usize, qx: int, qy: int, r: int)
    ensures
        has_match(a.add(b), j, qx, qy, r) <==> has_match(a, j, qx, qy, r) || has_match(b, j, qx, qy, r),
{
    if has_match(a.add(b), j, qx, qy, r) {
        let p = choose|p: Entry| a.add(b).contains(p) && p.0 == j && entry_within(p, qx, qy, r);
        if a.contains(p) {
            assert(has_match(a, j, qx, qy, r));
        } else {
            assert(b.contains(p));
            assert(has_match(b, j, qx, qy, r));
        }
    }
    if has_match(a, j, qx, qy, r) {
        let p = choose|p: Entry| a.contains(p) && p.0 == j && entry_within(p, qx, qy, r);
        assert(a.add(b).count(p) == a.count(p) + b.count(p));
        assert(a.add(b).contains(p));
        assert(has_match(a.add(b), j, qx, qy, r));
    }
    if has_match(b, j, qx, qy, r) {
        let p = choose|p: Entry| b.contains(p) && p.0 == j && entry_within(p, qx, qy, r);
        assert(a.add(b).count(p) == a.count(p) + b.count(p));
        assert(a.add(b).contains(p));
        assert(has_match(a.add(b), j, qx, qy, r));
    }
}

/// A match in a sequence's collection is a matching position of the
/// sequence, and the other way round.
proof fn lemma_match_seq(s: Seq<Entry>, j: usize, qx: int, qy: int, r: int)
    ensures
        has_match(s.to_multiset(), j, qx, qy, r)
            <==> exists|i: int| 0 <= i < s.len() && (#[trigger] s[i]).0 == j
                && entry_within(s[i], qx, qy, r),
        has_match(s.to_multiset(), j, qx, qy, r)
            <==> prefix_match(s, s.len() as int, j, qx, qy, r),
{
    if has_match(s.to_multiset(), j, qx, qy, r) {
        let p = choose|p: Entry| s.to_multiset().contains(p) && p.0 == j
            && entry_within(p, qx, qy, r);
        assert(s.contains(p));
        let i = choose|i: int| 0 <= i < s.len() && s[i] == p;
        assert(s[i].0 == j && entry_within(s[i], qx, qy, r));
    }
    if exists|i: int| 0 <= i < s.len() && (#[trigger] s[i]).0 == j
        && entry_within(s[i], qx, qy, r) {
        let i = choose|i: int| 0 <= i < s.len() && (#[trigger] s[i]).0 == j
            && entry_within(s[i], qx, qy, r);
        assert(s.contains(s[i]));
        assert(s.to_multiset().contains(s[i]));
        assert(has_match(s.to_multiset(), j, qx, qy, r));
    }
}

/// Whether the first `k` entries of `s` hold a match for index `j`.
pub open spec fn prefix_match(s: Seq<Entry>, k: int, j: usize, qx: int, qy: int, r: int) -> bool {
    exists|i: int| 0 <= i < k && (#[trigger] s[i]).0 == j && entry_within(s[i], qx, qy, r)
}

/// Extending a scanned prefix by one entry.
proof fn lemma_prefix_match_step(s: Seq<Entry>, k: int, qx: int, qy: int, r: int)
    requires
        0 <= k < s.len(),
    ensures
        forall|j: usize| #[trigger] prefix_match(s, k + 1, j, qx, qy, r)
            <==> prefix_match(s, k, j, qx, qy, r)
                || (s[k].0 == j && entry_within(s[k], qx, qy, r)),
{
    assert forall|j: usize| #[trigger] prefix_match(s, k + 1, j, qx, qy, r)
        implies prefix_match(s, k, j, qx, qy, r)
            || (s[k].0 == j && entry_within(s[k], qx, qy, r)) by {
        let i = choose|i: int| 0 <= i < k + 1 && (#[trigger] s[i]).0 == j
            && entry_within(s[i], qx, qy, r);
        if i < k {
            assert(prefix_match(s, k, j, qx, qy, r));
        }
    }
    assert forall|j: usize| prefix_match(s, k, j, qx, qy, r)
            || (s[k].0 == j && entry_within(s[k], qx, qy, r))
        implies #[trigger] prefix_match(s, k + 1, j, qx, qy, r) by {
        if prefix_match(s, k, j, qx, qy, r) {
            let i = choose|i: int| 0 <= i < k && (#[trigger] s[i]).0 == j
                && entry_within(s[i], qx, qy, r);
            assert(0 <= i < k + 1 && s[i].0 == j && entry_within(s[i], qx, qy, r));
        } else {
            assert(0 <= k < k + 1 && s[k].0 == j && entry_within(s[k], qx, qy, r));
        }
    }
}

/// A point of a rectangle that does not meet the bounding box of the
/// query circle is farther than the radius.
proof fn lemma_prune(x0: int, y0: int, x1: int, y1: int, px: int, py: int, qx: int, qy: int, r: int)
    requires
        in_rect(x0, y0, x1, y1, px, py),
        r >= 0,
        x1 < qx - r || x0 > qx + r || y1 < qy - r || y0 > qy + r,
    ensures
        dist2(px, py, qx, qy) > r * r,
{
    let dx = px - qx;
    let dy = py - qy;
    assert(dx > r || dx < -r || dy > r || dy < -r);
    assert(dist2(px, py, qx, qy) == dx * dx + dy * dy);
    assert(dx * dx + dy * dy > r * r) by (nonlinear_arith)
        requires
            r >= 0,
            dx > r || dx < -r || dy > r || dy < -r;
}

fn split_node(n: &mut QNode)
    requires
        node_wf(*old(n)),
        old(n).kids is None,
        old(n).x0 < old(n).x1,
        old(n).y0 < old(n).y1,
    ensures
        node_wf(*final(n)),
        final(n).x0 == old(n).x0 && final(n).y0 == old(n).y0
            && final(n).x1 == old(n).x1 && final(n).y1 == old(n).y1,
        node_points(*final(n)) == node_points(*old(n)),
{
    let mx: i64 = n.x0 + (n.x1 - n.x0) / 2;
    let my: i64 = n.y0 + (n.y1 - n.y0) / 2;
    let mut q0 = QNode { x0: n.x0, y0: n.y0, x1: mx, y1: my, pts: Vec::new(), kids: None };
    let mut q1 = QNode { x0: mx + 1, y0: n.y0, x1: n.x1, y1: my, pts: Vec::new(), kids: None };
    let mut q2 = QNode { x0: n.x0, y0: my + 1, x1: mx, y1: n.y1, pts: Vec::new(), kids: None };
    let mut q3 = QNode { x0: mx + 1, y0: my + 1, x1: n.x1, y1: n.y1, pts: Vec::new(), kids: None };
    proof {
        assert(n.pts@.to_multiset()
            .add(q0.pts@.to_multiset()).add(q1.pts@.to_multiset())
            .add(q2.pts@.to_multiset()).add(q3.pts@.to_multiset())
            =~= node_points(*old(n)));
    }
    while n.pts.len() > 0
        invariant
            n.x0 == old(n).x0 && n.y0 == old(n).y0 && n.x1 == old(n).x1 && n.y1 == old(n).y1,
            n.kids == old(n).kids,
            node_wf(*n),
            old(n).x0 < old(n).x1,
            old(n).y0 < old(n).y1,
            mx == mid(n.x0 as int, n.x1 as int),
            my == mid(n.y0 as int, n.y1 as int),
            q0.x0 == n.x0 && q0.x1 == mx && q0.y0 == n.y0 && q0.y1 == my,
            q1.x0 == mx + 1 && q1.x1 == n.x1 && q1.y0 == n.y0 && q1.y1 == my,
            q2.x0 == n.x0 && q2.x1 == mx && q2.y0 == my + 1 && q2.y1 == n.y1,
            q3.x0 == mx + 1 && q3.x1 == n.x1 && q3.y0 == my + 1 && q3.y1 == n.y1,
            q0.kids is None && q1.kids is None && q2.kids is None && q3.kids is None,
            node_wf(q0) && node_wf(q1) && node_wf(q2) && node_wf(q3),
            n.pts@.to_multiset()
                .add(q0.pts@.to_multiset()).add(q1.pts@.to_multiset())
                .add(q2.pts@.to_multiset()).add(q3.pts@.to_multiset())
                =~= node_points(*old(n)),
        decreases n.pts.len(),
    {
        let ghost pre = n.pts@;
        let p = n.pts.pop().unwrap();
        proof {
            assert(pre =~= n.pts@.push(p));
            assert(pre.to_multiset() =~= n.pts@.to_multiset().insert(p));
        }
        if p.1 <= mx {
            if p.2 <= my {
                q0.pts.push(p);
            } else {
                q2.pts.push(p);
            }
        } else {
            if p.2 <= my {
                q1.pts.push(p);
            } else {
                q3.pts.push(p);
            }
        }
    }
    proof {
        assert(node_points(q0) =~= q0.pts@.to_multiset());
        assert(node_points(q1) =~= q1.pts@.to_multiset());
        assert(node_points(q2) =~= q2.pts@.to_multiset());
        assert(node_points(q3) =~= q3.pts@.to_multiset());
    }
    n.kids = Some(Box::new(QKids { q0, q1, q2, q3 }));
    proof {
        assert(node_points(*n) =~= node_points(*old(n)));
    }
}

fn insert_node(n: &mut QNode, idx: usize, x: i64, y: i64)
    requires
        node_wf(*old(n)),
        in_rect(old(n).x0 as int, old(n).y0 as int, old(n).x1 as int, old(n).y1 as int,
            x as int, y as int),
    ensures
        node_wf(*final(n)),
        final(n).x0 == old(n).x0 && final(n).y0 == old(n).y0
            && final(n).x1 == old(n).x1 && final(n).y1 == old(n).y1,
        node_points(*final(n)) == node_points(*old(n)).insert((idx, x, y)),
    decreases old(n).x1 - old(n).x0,
{
    let is_leaf: bool = n.kids.is_none();
    if is_leaf {
        n.pts.push((idx, x, y));
        proof {
            assert(node_points(*n) =~= node_points(*old(n)).insert((idx, x, y)));
        }
        if n.pts.len() > QT_CAPACITY && n.x0 < n.x1 && n.y0 < n.y1 {
            split_node(n);
        }
    } else {
        let mx: i64 = n.x0 + (n.x1 - n.x0) / 2;
        let my: i64 = n.y0 + (n.y1 - n.y0) / 2;
        let ghost before = *n;
        match &mut n.kids {
            Some(k) => {
                if x <= mx {
                    if y <= my {
                        insert_node(&mut k.q0, idx, x, y);
                    } else {
                        insert_node(&mut k.q2, idx, x, y);
                    }
                } else {
                    if y <= my {
                        insert_node(&mut k.q1, idx, x, y);
                    } else {
                        insert_node(&mut k.q3, idx, x, y);
                    }
                }
            },
            None => {
                proof {
                    assert(false);
                }
            },
        }
        proof {
            assert(node_points(*n) =~= node_points(*old(n)).insert((idx, x, y)));
        }
    }
}

fn query_node(n: &QNode, qx: i64, qy: i64, r: i64, out: &mut Vec<usize>)
    requires
        node_wf(*n),
        -COORD_LIMIT <= qx <= COORD_LIMIT,
        -COORD_LIMIT <= qy <= COORD_LIMIT,
        0 <= r <= COORD_LIMIT,
    ensures
        forall|j: usize| final(out)@.contains(j)
            <==> old(out)@.contains(j)
                || has_match(node_points(*n), j, qx as int, qy as int, r as int),
    decreases n.x1 - n.x0,
{
    let ghost qxi = qx as int;
    let ghost qyi = qy as int;
    let ghost ri = r as int;
    if n.x1 < qx - r || n.x0 > qx + r || n.y1 < qy - r || n.y0 > qy + r {
        proof {
            lemma_points_in_region(*n);
            assert forall|j: usize|
                !has_match(node_points(*n), j, qxi, qyi, ri) by {
                if has_match(node_points(*n), j, qxi, qyi, ri) {
                    let p = choose|p: Entry| node_points(*n).contains(p) && p.0 == j
                        && entry_within(p, qxi, qyi, ri);
                    lemma_prune(n.x0 as int, n.y0 as int, n.x1 as int, n.y1 as int,
                        p.1 as int, p.2 as int, qxi, qyi, ri);
                }
            }
        }
        return;
    }
    let ghost pre = out@;
    proof {
        lemma_square_monotone(r as int, COORD_LIMIT as int);
    }
    let r2: i64 = r * r;
    let mut k: usize = 0;
    while k < n.pts.len()
        invariant
            node_wf(*n),
            -COORD_LIMIT <= qx <= COORD_LIMIT,
            -COORD_LIMIT <= qy <= COORD_LIMIT,
            0 <= r <= COORD_LIMIT,
            qxi == qx as int && qyi == qy as int && ri == r as int,
            r2 == r * r,
            k <= n.pts.len(),
            forall|j: usize| #[trigger] out@.contains(j)
                <==> pre.contains(j) || prefix_match(n.pts@, k as int, j, qxi, qyi, ri),
        decreases n.pts.len() - k,
    {
        let p: Entry = n.pts[k];
        assert(in_rect(n.x0 as int, n.y0 as int, n.x1 as int, n.y1 as int,
            p.1 as int, p.2 as int));
        let d: i64 = dist2_i64(p.1, p.2, qx, qy);
        let ghost out_pre = out@;
        if d <= r2 {
            out.push(p.0);
        }
        proof {
            lemma_prefix_match_step(n.pts@, k as int, qxi, qyi, ri);
            assert forall|j: usize| #[trigger] out@.contains(j)
                implies pre.contains(j)
                    || prefix_match(n.pts@, k + 1, j, qxi, qyi, ri) by {
                let m = choose|m: int| 0 <= m < out@.len() && out@[m] == j;
                if m < out_pre.len() {
                    assert(out_pre[m] == j);
                    assert(out_pre.contains(j));
                } else {
                    assert(d <= r2);
                    assert(j == p.0);
                    assert(n.pts@[k as int].0 == j
                        && entry_within(n.pts@[k as int], qxi, qyi, ri));
                }
            }
            assert forall|j: usize| pre.contains(j)
                    || prefix_match(n.pts@, k + 1, j, qxi, qyi, ri)
                implies #[trigger] out@.contains(j) by {
                if pre.contains(j) || prefix_match(n.pts@, k as int, j, qxi, qyi, ri) {
                    assert(out_pre.contains(j));
                    let m = choose|m: int| 0 <= m < out_pre.len() && out_pre[m] == j;
                    if d <= r2 {
                        assert(out@ == out_pre.push(p.0));
                        assert(out@[m] == j);
                    } else {
                        assert(out@ == out_pre);
                    }
                    assert(out@.contains(j));
                } else {
                    assert(n.pts@[k as int].0 == j
                        && entry_within(n.pts@[k as int], qxi, qyi, ri));
                    assert(d <= r2);
                    assert(out@ == out_pre.push(p.0));
                    assert(out@[out@.len() - 1] == j);
                    assert(out@.contains(j));
                }
            }
        }
        k = k + 1;
    }
    proof {
        assert forall|j: usize| #[trigger] out@.contains(j)
            <==> pre.contains(j)
                || has_match(n.pts@.to_multiset(), j, qxi, qyi, ri) by {
            lemma_match_seq(n.pts@, j, qxi, qyi, ri);
            assert(prefix_match(n.pts@, n.pts@.len() as int, j, qxi, qyi, ri)
                <==> has_match(n.pts@.to_multiset(), j, qxi, qyi, ri));
        }
    }
    if n.kids.is_some() {
        let kk: &Box<QKids> = n.kids.as_ref().unwrap();
        proof {
            assert(node_points(*n) == n.pts@.to_multiset()
                .add(node_points(kk.q0))
                .add(node_points(kk.q1))
                .add(node_points(kk.q2))
                .add(node_points(kk.q3)));
        }
        let ghost ms0 = n.pts@.to_multiset();
        query_node(&kk.q0, qx, qy, r, out);
        proof {
            assert forall|j: usize| #[trigger] out@.contains(j)
                <==> pre.contains(j) || has_match(ms0.add(node_points(kk.q0)), j, qxi, qyi, ri) by {
                lemma_match_add(ms0, node_points(kk.q0), j, qxi, qyi, ri);
            }
        }
        let ghost ms1 = ms0.add(node_points(kk.q0));
        query_node(&kk.q1, qx, qy, r, out);
        proof {
            assert forall|j: usize| #[trigger] out@.contains(j)
                <==> pre.contains(j) || has_match(ms1.add(node_points(kk.q1)), j, qxi, qyi, ri) by {
                lemma_match_add(ms1, node_points(kk.q1), j, qxi, qyi, ri);
            }
        }
        let ghost ms2 = ms1.add(node_points(kk.q1));
        query_node(&kk.q2, qx, qy, r, out);
        proof {
            assert forall|j: usize| #[trigger] out@.contains(j)
                <==> pre.contains(j) || has_match(ms2.add(node_points(kk.q2)), j, qxi, qyi, ri) by {
                lemma_match_add(ms2, node_points(kk.q2), j, qxi, qyi, ri);
            }
        }
        let ghost ms3 = ms2.add(node_points(kk.q2));
        query_node(&kk.q3, qx, qy, r, out);
        proof {
            assert forall|j: usize| #[trigger] out@.contains(j)
                <==> pre.contains(j) || has_match(ms3.add(node_points(kk.q3)), j, qxi, qyi, ri) by {
                lemma_match_add(ms3, node_points(kk.q3), j, qxi, qyi, ri);
            }
        }
    }
}

/// A recursive spatial partition of a fixed bounded region, holding
/// entity indices at the positions they were inserted with.
///
/// The region is split lazily into four equal quadrants once a node
/// holds more than `QT_CAPACITY` entries, and held entries are
/// redistributed into the matching quadrants. The index is rebuilt
/// fresh by its owner whenever the underlying positions change; it
/// supports no deletion.
pub struct QuadTree {
    root: QNode,
    entries: Ghost<Seq<Entry>>,
}

impl QuadTree {
    /// The entries inserted so far, in insertion order, leaving out
    /// those that fell outside the root region.
    pub closed spec fn entries(self) -> Seq<Entry> {
        self.entries@
    }

    /// The root region, as `(x0, y0, x1, y1)`.
    pub closed spec fn region(self) -> (int, int, int, int) {
        (self.root.x0 as int, self.root.y0 as int, self.root.x1 as int, self.root.y1 as int)
    }

    /// Whether `(x, y)` lies inside the root region.
    pub open spec fn covers(self, x: int, y: int) -> bool {
        in_rect(self.region().0, self.region().1, self.region().2, self.region().3, x, y)
    }

    /// Structural invariant.
    pub closed spec fn wf(self) -> bool {
        &&& node_wf(self.root)
        &&& node_points(self.root) == self.entries@.to_multiset()
        &&& forall|i: int| 0 <= i < self.entries@.len()
                ==> self.covers((#[trigger] self.entries@[i]).1 as int, self.entries@[i].2 as int)
    }

    /// Creates an empty index over the region `[x0, x1] x [y0, y1]`.
    pub fn new(x0: i64, y0: i64, x1: i64, y1: i64) -> (t: QuadTree)
        requires
            -COORD_LIMIT <= x0 <= x1 <= COORD_LIMIT,
            -COORD_LIMIT <= y0 <= y1 <= COORD_LIMIT,
        ensures
            t.wf(),
            t.entries() == Seq::<Entry>::empty(),
            t.region() == (x0 as int, y0 as int, x1 as int, y1 as int),
    {
        let t = QuadTree {
            root: QNode { x0, y0, x1, y1, pts: Vec::new(), kids: None },
            entries: Ghost(Seq::empty()),
        };
        proof {
            assert(t.root.pts@.to_multiset() =~= Seq::<Entry>::empty().to_multiset());
        }
        t
    }

    /// Inserts entity index `idx` at position `(x, y)`.
    ///
    /// A position outside the root region is the caller's contract
    /// violation; the call is then a no-op, and the entry stays out of
    /// the index.
    pub fn insert(&mut self, idx: usize, x: i64, y: i64)
        requires
            old(self).wf(),
        ensures
            final(self).wf(),
            final(self).region() == old(self).region(),
            old(self).covers(x as int, y as int)
                ==> final(self).entries() == old(self).entries().push((idx, x, y)),
            !old(self).covers(x as int, y as int)
                ==> final(self).entries() == old(self).entries(),
    {
        let inside: bool = self.root.x0 <= x && x <= self.root.x1
            && self.root.y0 <= y && y <= self.root.y1;
        if !inside {
            return;
        }
        insert_node(&mut self.root, idx, x, y);
        proof {
            self.entries@ = self.entries@.push((idx, x, y));
            assert(node_points(self.root) =~= self.entries@.to_multiset());
        }
    }

    /// Returns every inserted index whose stored position is within
    /// radius `r` of `(qx, qy)`: exactly those an exhaustive scan over
    /// the entries would find, in no guaranteed order.
    pub fn query_radius(&self, qx: i64, qy: i64, r: i64) -> (out: Vec<usize>)
        requires
            self.wf(),
            -COORD_LIMIT <= qx <= COORD_LIMIT,
            -COORD_LIMIT <= qy <= COORD_LIMIT,
            0 <= r <= COORD_LIMIT,
        ensures
            forall|j: usize| out@.contains(j)
                <==> exists|i: int| 0 <= i < self.entries().len()
                    && (#[trigger] self.entries()[i]).0 == j
                    && dist2(self.entries()[i].1 as int, self.entries()[i].2 as int,
                        qx as int, qy as int) <= (r as int) * (r as int),
    {
        let mut out: Vec<usize> = Vec::new();
        query_node(&self.root, qx, qy, r, &mut out);
        proof {
            let qxi = qx as int;
            let qyi = qy as int;
            let ri = r as int;
            let s = self.entries@;
            assert forall|j: usize| #[trigger] out@.contains(j)
                implies exists|i: int| 0 <= i < self.entries().len()
                    && (#[trigger] self.entries()[i]).0 == j
                    && entry_within(self.entries()[i], qxi, qyi, ri) by {
                assert(has_match(node_points(self.root), j, qxi, qyi, ri));
                assert(has_match(s.to_multiset(), j, qxi, qyi, ri));
                lemma_match_seq(s, j, qxi, qyi, ri);
                let i = choose|i: int| 0 <= i < s.len() && (#[trigger] s[i]).0 == j
                    && entry_within(s[i], qxi, qyi, ri);
                assert(0 <= i < self.entries().len() && self.entries()[i].0 == j
                    && entry_within(self.entries()[i], qxi, qyi, ri));
            }
            assert forall|j: usize|
                (exists|i: int| 0 <= i < self.entries().len()
                    && (#[trigger] self.entries()[i]).0 == j
                    && entry_within(self.entries()[i], qxi, qyi, ri))
                implies #[trigger] out@.contains(j) by {
                let i = choose|i: int| 0 <= i < self.entries().len()
                    && (#[trigger] self.entries()[i]).0 == j
                    && entry_within(self.entries()[i], qxi, qyi, ri);
                assert(0 <= i < s.len() && s[i].0 == j && entry_within(s[i], qxi, qyi, ri));
                lemma_match_seq(s, j, qxi, qyi, ri);
                assert(has_match(node_points(self.root), j, qxi, qyi, ri));
            }
        }
        out
    }
}

} // verus!
