//! Garbage collection utilities: link extraction, root-set closure and
//! dead-path enumeration.
use vstd::prelude::*;

use crate::cid::{Cid, CidV};
use crate::ipld::{
    cid_set, cids_unique, contains_cid, lemma_view_entries, lemma_view_seq, links_of,
    links_of_entries, links_of_seq, view_entries, view_seq, Ipld, IpldV,
};

verus! {

/// Taking one more element joins that element's links.
proof fn lemma_links_of_seq_snoc(s: Seq<IpldV>, i: int)
    requires
        0 <= i < s.len(),
    ensures
        links_of_seq(s.take(i + 1)) == links_of_seq(s.take(i)).union(links_of(s[i])),
{
    assert(s.take(i + 1).drop_last() =~= s.take(i));
    assert(s.take(i + 1).last() == s[i]);
}

/// Taking one more entry joins that entry's links.
proof fn lemma_links_of_entries_snoc(s: Seq<(Seq<char>, IpldV)>, i: int)
    requires
        0 <= i < s.len(),
    ensures
        links_of_entries(s.take(i + 1)) == links_of_entries(s.take(i)).union(links_of(s[i].1)),
{
    assert(s.take(i + 1).drop_last() =~= s.take(i));
    assert(s.take(i + 1).last() == s[i]);
}

/// Collects the links of a value into `acc`, skipping those already there.
#[verifier::loop_isolation(false)]
fn collect_links(v: &Ipld, acc: &mut Vec<Cid>)
    requires
        cids_unique(old(acc)@),
    ensures
        cids_unique(final(acc)@),
        cid_set(final(acc)@) == cid_set(old(acc)@).union(links_of(v@)),
    decreases v,
{
    match v {
        Ipld::Link(cid) => {
            if !contains_cid(acc, cid) {
                acc.push(cid.clone());
                proof {
                    let na = acc@;
                    let oa = old(acc)@;
                    assert(na[oa.len() as int]@ == cid@);
                    assert forall|d: CidV| #[trigger] cid_set(na).contains(d) implies cid_set(
                        oa,
                    ).union(links_of(v@)).contains(d) by {
                        let i = choose|i: int| 0 <= i < na.len() && na[i]@ == d;
                        if i < oa.len() {
                            assert(oa[i]@ == d);
                            assert(cid_set(oa).contains(d));
                        } else {
                            assert(d == cid@);
                        }
                    }
                    assert forall|d: CidV| cid_set(oa).union(links_of(v@)).contains(d) implies
                        cid_set(na).contains(d) by {
                        if cid_set(oa).contains(d) {
                            let i = choose|i: int| 0 <= i < oa.len() && oa[i]@ == d;
                            assert(na[i]@ == d);
                        } else {
                            assert(na[oa.len() as int]@ == d);
                        }
                    }
                    assert(cid_set(na) =~= cid_set(oa).union(links_of(v@)));
                }
            } else {
                assert(cid_set(acc@) =~= cid_set(old(acc)@).union(links_of(v@)));
            }
        },
        Ipld::List(items) => {
            proof {
                lemma_view_seq(items@);
            }
            let ghost items_v = view_seq(items@);
            let n: usize = items.len();
            let mut i: usize = 0;
            while i < n
                invariant
                    i <= n,
                    cids_unique(acc@),
                    cid_set(acc@) == cid_set(old(acc)@).union(links_of_seq(items_v.take(i as int))),
                decreases n - i,
            {
                proof {
                    assert(decreases_to!(*v => *items));
                    assert(decreases_to!(*items => items@));
                    assert(decreases_to!(items@ => items@[i as int]));
                }
                collect_links(&items[i], acc);
                proof {
                    lemma_links_of_seq_snoc(items_v, i as int);
                    assert(cid_set(acc@) =~= cid_set(old(acc)@).union(
                        links_of_seq(items_v.take(i as int + 1)),
                    ));
                }
                i += 1;
            }
            proof {
                assert(items_v.take(n as int) =~= items_v);
            }
        },
        Ipld::Dict(entries) => {
            proof {
                lemma_view_entries(entries@);
            }
            let ghost es = view_entries(entries@);
            let n: usize = entries.len();
            let mut i: usize = 0;
            while i < n
                invariant
                    i <= n,
                    cids_unique(acc@),
                    cid_set(acc@) == cid_set(old(acc)@).union(
                        links_of_entries(es.take(i as int)),
                    ),
                decreases n - i,
            {
                proof {
                    assert(decreases_to!(*v => *entries));
                    assert(decreases_to!(*entries => entries@));
                    assert(decreases_to!(entries@ => entries@[i as int]));
                    assert(decreases_to!(entries@[i as int] => entries@[i as int].1));
                }
                collect_links(&entries[i].1, acc);
                proof {
                    lemma_links_of_entries_snoc(es, i as int);
                    assert(cid_set(acc@) =~= cid_set(old(acc)@).union(
                        links_of_entries(es.take(i as int + 1)),
                    ));
                }
                i += 1;
            }
            proof {
                assert(es.take(n as int) =~= es);
            }
        },
        _ => {
            assert(cid_set(acc@) =~= cid_set(old(acc)@).union(links_of(v@)));
        },
    }
}

/// Returns the links held anywhere in a value, each once, in first-seen
/// order.
pub fn references(ipld: &Ipld) -> (r: Vec<Cid>)
    ensures
        cids_unique(r@),
        cid_set(r@) == links_of(ipld@),
{
    let mut acc: Vec<Cid> = Vec::new();
    collect_links(ipld, &mut acc);
    assert(cid_set(acc@) =~= links_of(ipld@));
    acc
}

/// The identifiers reached from the roots in at most `k` link steps.
pub open spec fn reach_n(g: Map<CidV, Set<CidV>>, roots: Set<CidV>, k: nat) -> Set<CidV>
    decreases k,
{
    if k == 0 {
        roots
    } else {
        let prev = reach_n(g, roots, (k - 1) as nat);
        prev.union(
            Set::new(
                |c: CidV|
                    exists|p: CidV|
                        #[trigger] prev.contains(p) && g.dom().contains(p) && g[p].contains(c),
            ),
        )
    }
}

/// The closure of the roots: everything reached in any number of steps.
pub open spec fn reachable(g: Map<CidV, Set<CidV>>, roots: Set<CidV>) -> Set<CidV> {
    Set::new(|c: CidV| exists|k: nat| #[trigger] reach_n(g, roots, k).contains(c))
}

/// The link graph of a store: each stored block's identifier to its
/// recorded links.
pub open spec fn store_graph(s: crate::mem::MemStore) -> Map<CidV, Set<CidV>> {
    Map::new(|c: CidV| s.has_block(c), |c: CidV| s.refs_of(c))
}

/// The dead paths: every identifier of `all` that the roots do not reach.
pub open spec fn dead_paths_spec(g: Map<CidV, Set<CidV>>, all: Set<CidV>, roots: Set<CidV>) -> Set<
    CidV,
> {
    all.difference(reachable(g, roots))
}

/// Anything reached in `k` steps from the closure was already in the
/// closure.
proof fn lemma_reach_collapse(g: Map<CidV, Set<CidV>>, roots: Set<CidV>, k: nat)
    ensures
        forall|c: CidV|
            #[trigger] reach_n(g, reachable(g, roots), k).contains(c) ==> reachable(
                g,
                roots,
            ).contains(c),
    decreases k,
{
    if k == 0 {
    } else {
        lemma_reach_collapse(g, roots, (k - 1) as nat);
        let prev = reach_n(g, reachable(g, roots), (k - 1) as nat);
        assert forall|c: CidV|
            #[trigger] reach_n(g, reachable(g, roots), k).contains(c) implies reachable(
            g,
            roots,
        ).contains(c) by {
            if !prev.contains(c) {
                let p = choose|p: CidV|
                    #[trigger] prev.contains(p) && g.dom().contains(p) && g[p].contains(c);
                assert(reachable(g, roots).contains(p));
                let j = choose|j: nat| #[trigger] reach_n(g, roots, j).contains(p);
                assert(reach_n(g, roots, j + 1).contains(c));
            }
        }
    }
}

/// Closure stability: taking the closure of a closure adds nothing.
pub proof fn lemma_closure_stable(g: Map<CidV, Set<CidV>>, roots: Set<CidV>)
    ensures
        reachable(g, reachable(g, roots)) == reachable(g, roots),
{
    let r1 = reachable(g, roots);
    let r2 = reachable(g, r1);
    assert forall|c: CidV| r1.contains(c) implies r2.contains(c) by {
        assert(reach_n(g, r1, 0).contains(c));
    }
    assert forall|c: CidV| r2.contains(c) implies r1.contains(c) by {
        let k = choose|k: nat| #[trigger] reach_n(g, r1, k).contains(c);
        lemma_reach_collapse(g, roots, k);
    }
    assert(r2 =~= r1);
}

/// Soundness of collection: a block in the dead paths is not linked from
/// any block the roots reach, so deleting the dead set in any order never
/// dangles a live link.
pub proof fn lemma_gc_sound(
    g: Map<CidV, Set<CidV>>,
    all: Set<CidV>,
    roots: Set<CidV>,
    c: CidV,
    d: CidV,
)
    requires
        reachable(g, roots).contains(c),
        g.dom().contains(c),
        g[c].contains(d),
    ensures
        !dead_paths_spec(g, all, roots).contains(d),
{
    let k = choose|k: nat| #[trigger] reach_n(g, roots, k).contains(c);
    assert(reach_n(g, roots, k + 1).contains(d));
}


/// A link from a reached identifier reaches its target.
proof fn lemma_reachable_step(g: Map<CidV, Set<CidV>>, roots: Set<CidV>, p: CidV, c: CidV)
    requires
        reachable(g, roots).contains(p),
        g.dom().contains(p),
        g[p].contains(c),
    ensures
        reachable(g, roots).contains(c),
{
    let k = choose|k: nat| #[trigger] reach_n(g, roots, k).contains(p);
    assert(reach_n(g, roots, k + 1).contains(c));
}

/// Whether a set is closed under the graph's links.
pub open spec fn closed_under(g: Map<CidV, Set<CidV>>, s: Set<CidV>) -> bool {
    forall|p: CidV, c: CidV|
        #[trigger] s.contains(p) && g.dom().contains(p) && #[trigger] g[p].contains(c)
            ==> s.contains(c)
}

/// A set holding the roots and closed under links holds everything the
/// roots reach.
proof fn lemma_reach_in_closed(g: Map<CidV, Set<CidV>>, roots: Set<CidV>, s: Set<CidV>, k: nat)
    requires
        roots.subset_of(s),
        closed_under(g, s),
    ensures
        forall|c: CidV| #[trigger] reach_n(g, roots, k).contains(c) ==> s.contains(c),
    decreases k,
{
    if k > 0 {
        lemma_reach_in_closed(g, roots, s, (k - 1) as nat);
        let prev = reach_n(g, roots, (k - 1) as nat);
        assert forall|c: CidV| #[trigger] reach_n(g, roots, k).contains(c) implies s.contains(
            c,
        ) by {
            if !prev.contains(c) {
                let p = choose|p: CidV|
                    #[trigger] prev.contains(p) && g.dom().contains(p) && g[p].contains(c);
                assert(s.contains(p));
            }
        }
    }
}

/// Computes the closure of the roots over the store's link graph: every
/// identifier reached from a root along the recorded links of stored
/// blocks, each once. An identifier whose block never arrived is part of
/// the closure but contributes no links.
#[verifier::loop_isolation(false)]
#[verifier::rlimit(100)]
#[verifier::spinoff_prover]
pub fn closure(store: &crate::mem::MemStore, roots: &Vec<Cid>) -> (r: Vec<Cid>)
    requires
        store.wf(),
    ensures
        cids_unique(r@),
        cid_set(r@) == reachable(store_graph(*store), cid_set(roots@)),
    decreases
{
    let ghost g = store_graph(*store);
    let ghost rset = cid_set(roots@);
    let mut stack: Vec<Cid> = Vec::new();
    let n0: usize = roots.len();
    let mut i0: usize = 0;
    while i0 < n0
        invariant
            n0 == roots@.len(),
            i0 <= n0,
            stack@.len() == i0,
            forall|j: int| 0 <= j < i0 ==> stack@[j]@ == (#[trigger] roots@[j])@,
        decreases n0 - i0,
    {
        stack.push(roots[i0].clone());
        i0 += 1;
    }
    proof {
        assert forall|d: CidV| #[trigger]
            cid_set(stack@).contains(d) == cid_set(roots@).contains(d) by {
            if cid_set(stack@).contains(d) {
                let j = choose|j: int| 0 <= j < stack@.len() && stack@[j]@ == d;
                assert(roots@[j]@ == d);
            }
            if cid_set(roots@).contains(d) {
                let j = choose|j: int| 0 <= j < roots@.len() && roots@[j]@ == d;
                assert(stack@[j]@ == d);
            }
        }
        assert(cid_set(stack@) =~= rset);
        assert forall|d: CidV| rset.contains(d) implies #[trigger] reachable(g, rset).contains(
            d,
        ) by {
            assert(reach_n(g, rset, 0).contains(d));
        }
    }
    let mut seen: Vec<Cid> = Vec::new();
    while stack.len() != 0
        invariant
            cids_unique(seen@),
            forall|d: CidV| #[trigger]
                cid_set(seen@).contains(d) ==> reachable(g, rset).contains(d),
            forall|d: CidV| #[trigger]
                cid_set(stack@).contains(d) ==> reachable(g, rset).contains(d),
            forall|d: CidV| #[trigger]
                rset.contains(d) ==> cid_set(seen@).contains(d) || cid_set(stack@).contains(d),
            forall|p: CidV, c: CidV|
                #[trigger] cid_set(seen@).contains(p) && g.dom().contains(p) && #[trigger] g[p].contains(c) ==> cid_set(seen@).contains(c) || cid_set(stack@).contains(c),
        decreases store.unseen_blocks(cid_set(seen@)) + 1, stack@.len(),
    {
        proof {
            store.lemma_unseen_nonneg(cid_set(seen@));
        }
        let ghost pend_before = stack@;
        let c = stack.pop().unwrap();
        proof {
            assert forall|d: CidV| #[trigger] cid_set(stack@).contains(d) implies reachable(
                g,
                rset,
            ).contains(d) by {
                let j = choose|j: int| 0 <= j < stack@.len() && stack@[j]@ == d;
                assert(pend_before[j]@ == d);
                assert(cid_set(pend_before).contains(d));
            }
        }
        if contains_cid(&seen, &c) {
            proof {
                assert forall|d: CidV| #[trigger]
                    cid_set(pend_before).contains(d) implies cid_set(seen@).contains(d)
                    || cid_set(stack@).contains(d) by {
                    let j = choose|j: int| 0 <= j < pend_before.len() && pend_before[j]@ == d;
                    if j < pend_before.len() - 1 {
                        assert(stack@[j]@ == d);
                    } else {
                        assert(d == c@);
                    }
                }
            }
            continue ;
        }
        let ghost seen_before = seen@;
        seen.push(c.clone());
        proof {
            crate::mem::lemma_cid_set_push(seen_before, seen@.last());
            assert(seen@ =~= seen_before.push(seen@.last()));
            store.lemma_unseen_insert(cid_set(seen_before), c@);
            assert(cid_set(seen@) =~= cid_set(seen_before).insert(c@));
            assert(cid_set(pend_before).contains(c@));
            assert(reachable(g, rset).contains(c@));
            assert forall|d: CidV| #[trigger]
                rset.contains(d) implies cid_set(seen@).contains(d) || cid_set(stack@).contains(
                d,
            ) by {
                if cid_set(seen_before).contains(d) {
                    assert(cid_set(seen@).contains(d));
                } else if cid_set(pend_before).contains(d) {
                    let j = choose|j: int| 0 <= j < pend_before.len() && pend_before[j]@ == d;
                    if j < pend_before.len() - 1 {
                        assert(stack@[j]@ == d);
                    } else {
                        assert(d == c@);
                    }
                }
            }
        }
        match store.refs_list(&c) {
            Some(targets) => {
                let nt: usize = targets.len();
                let mut t: usize = 0;
                proof {
                    assert(store.has_block(c@));
                    assert(store.unseen_blocks(cid_set(seen@)) < store.unseen_blocks(
                        cid_set(seen_before),
                    ));
                    store.lemma_unseen_nonneg(cid_set(seen@));
                    assert forall|p: CidV, cc: CidV|
                        #[trigger] cid_set(seen@).contains(p) && p != c@ && g.dom().contains(p)
                        && #[trigger] g[p].contains(cc) implies cid_set(seen@).contains(cc)
                        || cid_set(stack@).contains(cc) by {
                        assert(cid_set(seen_before).contains(p));
                        if cid_set(pend_before).contains(cc) {
                            let j = choose|j: int|
                                0 <= j < pend_before.len() && pend_before[j]@ == cc;
                            if j < pend_before.len() - 1 {
                                assert(stack@[j]@ == cc);
                            } else {
                                assert(cc == c@);
                            }
                        }
                    }
                }
                while t < nt
                    invariant
                        nt == targets@.len(),
                        t <= nt,
                        cids_unique(seen@),
                        store.has_block(c@),
                        cid_set(targets@) == store.refs_of(c@),
                        cid_set(seen@).contains(c@),
                        forall|d: CidV| #[trigger]
                            cid_set(seen@).contains(d) ==> reachable(g, rset).contains(d),
                        forall|d: CidV| #[trigger]
                            cid_set(stack@).contains(d) ==> reachable(g, rset).contains(d),
                        forall|d: CidV| #[trigger]
                            rset.contains(d) ==> cid_set(seen@).contains(d) || cid_set(
                                stack@,
                            ).contains(d),
                        forall|p: CidV, cc: CidV|
                            #[trigger] cid_set(seen@).contains(p) && p != c@ && g.dom().contains(
                                p,
                            ) && #[trigger] g[p].contains(cc) ==> cid_set(seen@).contains(cc)
                                || cid_set(stack@).contains(cc),
                        forall|j: int|
                            0 <= j < t ==> cid_set(seen@).contains((#[trigger] targets@[j])@)
                                || cid_set(stack@).contains(targets@[j]@),
                    decreases nt - t,
                {
                    let ghost sp = stack@;
                    stack.push(targets[t].clone());
                    proof {
                        crate::mem::lemma_cid_set_push(sp, stack@.last());
                        assert(stack@ =~= sp.push(stack@.last()));
                        assert(cid_set(targets@).contains(targets@[t as int]@));
                        assert(g.dom().contains(c@) && g[c@].contains(targets@[t as int]@));
                        lemma_reachable_step(g, rset, c@, targets@[t as int]@);
                    }
                    t += 1;
                }
                proof {
                    assert forall|p: CidV, cc: CidV|
                        #[trigger] cid_set(seen@).contains(p) && g.dom().contains(p)
                        && #[trigger] g[p].contains(cc) implies cid_set(seen@).contains(cc)
                        || cid_set(stack@).contains(cc) by {
                        if p == c@ {
                            assert(g[c@] == store.refs_of(c@));
                            let j = choose|j: int|
                                0 <= j < targets@.len() && (#[trigger] targets@[j])@ == cc;
                        }
                    }
                }
            },
            None => {
                proof {
                    assert(store.unseen_blocks(cid_set(seen@)) == store.unseen_blocks(
                        cid_set(seen_before),
                    ));
                    store.lemma_unseen_nonneg(cid_set(seen@));
                    assert forall|p: CidV, cc: CidV|
                        #[trigger] cid_set(seen@).contains(p) && g.dom().contains(p)
                        && #[trigger] g[p].contains(cc) implies cid_set(seen@).contains(cc)
                        || cid_set(stack@).contains(cc) by {
                        if p == c@ {
                            assert(store.has_block(c@));
                            assert(false);
                        } else {
                            assert(cid_set(seen_before).contains(p));
                            if cid_set(pend_before).contains(cc) {
                                let j = choose|j: int|
                                    0 <= j < pend_before.len() && pend_before[j]@ == cc;
                                if j < pend_before.len() - 1 {
                                    assert(stack@[j]@ == cc);
                                } else {
                                    assert(cc == c@);
                                }
                            }
                        }
                    }
                }
            },
        }
    }
    proof {
        assert forall|d: CidV| #[trigger] reachable(g, rset).contains(d) implies cid_set(
            seen@,
        ).contains(d) by {
            let k = choose|k: nat| #[trigger] reach_n(g, rset, k).contains(d);
            lemma_reach_in_closed(g, rset, cid_set(seen@), k);
        }
        assert(cid_set(seen@) =~= reachable(g, rset));
    }
    seen
}

/// Computes the dead paths: every identifier of `all` that the roots do
/// not reach through the store's link graph, in no particular order.
pub fn dead_paths(store: &crate::mem::MemStore, all: &Vec<Cid>, roots: &Vec<Cid>) -> (r: Vec<Cid>)
    requires
        store.wf(),
    ensures
        cids_unique(r@),
        cid_set(r@) == dead_paths_spec(
            store_graph(*store),
            cid_set(all@),
            cid_set(roots@),
        ),
{
    let live = closure(store, roots);
    let n: usize = all.len();
    let mut out: Vec<Cid> = Vec::new();
    let mut i: usize = 0;
    while i < n
        invariant
            n == all@.len(),
            i <= n,
            cids_unique(out@),
            forall|d: CidV| #[trigger]
                cid_set(out@).contains(d) ==> cid_set(all@).contains(d) && !cid_set(
                    live@,
                ).contains(d),
            forall|j: int|
                0 <= j < i && !cid_set(live@).contains((#[trigger] all@[j])@) ==> cid_set(
                    out@,
                ).contains(all@[j]@),
        decreases n - i,
    {
        if !contains_cid(&live, &all[i]) && !contains_cid(&out, &all[i]) {
            let ghost ob = out@;
            out.push(all[i].clone());
            proof {
                crate::mem::lemma_cid_set_push(ob, out@.last());
                assert(out@ =~= ob.push(out@.last()));
            }
        }
        i += 1;
    }
    proof {
        assert forall|d: CidV| #[trigger]
            cid_set(out@).contains(d) == dead_paths_spec(
                store_graph(*store),
                cid_set(all@),
                cid_set(roots@),
            ).contains(d) by {
            if cid_set(all@).contains(d) && !reachable(
                store_graph(*store),
                cid_set(roots@),
            ).contains(d) {
                let j = choose|j: int| 0 <= j < all@.len() && all@[j]@ == d;
                assert(!cid_set(live@).contains(all@[j]@));
                assert(cid_set(out@).contains(all@[j]@));
            }
        }
        assert(cid_set(out@) =~= dead_paths_spec(
            store_graph(*store),
            cid_set(all@),
            cid_set(roots@),
        ));
    }
    out
}

} // verus!
