//! The decision logic of the aggregator's event loop.  The loop itself —
//! channels, sockets, threads — lives outside the library; what is here
//! is the pure state machine: how one event changes the tree and which
//! batches a dump hands to the publisher.

use vstd::prelude::*;

verus! {

use crate::subnet_tree::{added_set, step_set, tree_covers, tree_pairs, tree_wf, IPTree};

/// How many pairs one published batch may carry.
pub const DUMP_BATCH_LIMIT: usize = 1000;

/// One event consumed by the aggregator: a batch of parsed addresses, a
/// periodic dump trigger, or the order to shut down.
pub enum AggEvent {
    ADD(Vec<[u8; 4]>),
    DUMP,
    TERMINATE,
}

/// The address paths of a batch.
pub open spec fn paths_of(data: Seq<[u8; 4]>) -> Seq<Seq<u8>> {
    data.map_values(|a: [u8; 4]| a@)
}

/// A dump's batches: consecutive chunks of up to the batch limit, with a
/// short (possibly empty) final batch marking the end of the dump.
pub open spec fn chunked(pairs: Seq<(u32, u8)>) -> Seq<Seq<(u32, u8)>>
    decreases pairs.len(),
{
    if pairs.len() < DUMP_BATCH_LIMIT {
        seq![pairs]
    } else {
        seq![pairs.take(DUMP_BATCH_LIMIT as int)] + chunked(pairs.skip(DUMP_BATCH_LIMIT as int))
    }
}

proof fn lemma_added_set_push(addrs: Seq<Seq<u8>>, a: Seq<u8>, z: bool, b: bool)
    ensures
        added_set(addrs.push(a), z, b) == added_set(addrs, z, b) + step_set(a, z, b),
    decreases addrs.len(),
{
    if addrs.len() == 0 {
        assert(addrs.push(a).drop_first() =~= addrs);
        assert(addrs.push(a)[0] == a);
        assert(added_set(addrs.push(a), z, b) == step_set(a, z, b) + added_set(addrs, z, b));
        assert forall|x: Seq<u8>| added_set(addrs.push(a), z, b).contains(x) == (added_set(
            addrs,
            z,
            b,
        ) + step_set(a, z, b)).contains(x) by {
            assert((step_set(a, z, b) + added_set(addrs, z, b)).contains(x) == (step_set(
                a,
                z,
                b,
            ).contains(x) || added_set(addrs, z, b).contains(x)));
        }
        assert(added_set(addrs.push(a), z, b) =~= added_set(addrs, z, b) + step_set(a, z, b));
    } else {
        assert(addrs.push(a)[0] == addrs[0]);
        assert(addrs.push(a).drop_first() =~= addrs.drop_first().push(a));
        lemma_added_set_push(addrs.drop_first(), a, z, b);
        assert(added_set(addrs.push(a), z, b) == step_set(addrs[0], z, b) + (added_set(
            addrs.drop_first(),
            z,
            b,
        ) + step_set(a, z, b)));
        assert forall|x: Seq<u8>| added_set(addrs.push(a), z, b).contains(x) == (added_set(
            addrs,
            z,
            b,
        ) + step_set(a, z, b)).contains(x) by {
            assert(added_set(addrs, z, b).contains(x) == (step_set(addrs[0], z, b).contains(x)
                || added_set(addrs.drop_first(), z, b).contains(x)));
        }
        assert(added_set(addrs.push(a), z, b) =~= added_set(addrs, z, b) + step_set(a, z, b));
    }
}

/// Applies one batch of addresses to the tree, in arrival order.  The
/// covered set afterwards is the old one extended by exactly what the
/// batch inserts — the batch's addresses and, per the seeding policy,
/// the network and broadcast companions of each.
pub fn apply_addresses(tree: &mut IPTree, data: &Vec<[u8; 4]>)
    requires
        tree_wf(*old(tree)),
    ensures
        tree_wf(*final(tree)),
        final(tree).zeroed == old(tree).zeroed,
        final(tree).broadcast == old(tree).broadcast,
        forall|p: Seq<u8>|
            #![trigger tree_covers(*final(tree), p)]
            #![trigger tree_covers(*old(tree), p)]
            tree_covers(*final(tree), p) <==> (tree_covers(*old(tree), p) || added_set(
                paths_of(data@),
                old(tree).zeroed,
                old(tree).broadcast,
            ).contains(p)),
{
    let ghost t0 = *old(tree);
    let ghost z = old(tree).zeroed;
    let ghost bb = old(tree).broadcast;
    let mut i: usize = 0;
    proof {
        assert(paths_of(data@.take(0)) =~= Seq::<Seq<u8>>::empty());
    }
    while i < data.len()
        invariant
            i <= data@.len(),
            tree_wf(*tree),
            tree.zeroed == z,
            tree.broadcast == bb,
            forall|p: Seq<u8>|
                #![trigger tree_covers(*tree, p)]
                #![trigger tree_covers(t0, p)]
                tree_covers(*tree, p) <==> (tree_covers(t0, p) || added_set(
                    paths_of(data@.take(i as int)),
                    z,
                    bb,
                ).contains(p)),
        decreases data@.len() - i,
    {
        let ghost pre = *tree;
        let a = &data[i];
        tree.add(a.as_slice());
        i = i + 1;
        proof {
            assert(paths_of(data@.take(i as int)) =~= paths_of(
                data@.take(i as int - 1),
            ).push(data@[i as int - 1]@));
            lemma_added_set_push(
                paths_of(data@.take(i as int - 1)),
                data@[i as int - 1]@,
                z,
                bb,
            );
        }
    }
    proof {
        assert(data@.take(data@.len() as int) =~= data@);
    }
}

/// What handling one event produces besides the new tree state: the
/// batches to publish, and whether the loop should stop.
pub struct DumpOutcome {
    pub batches: Vec<Vec<(u32, u8)>>,
    pub terminate: bool,
}

/// Handles one event of the aggregator loop: `ADD` inserts the batch
/// into the tree, `DUMP` drains a fresh walk into batches of up to
/// [`DUMP_BATCH_LIMIT`] pairs (a final short batch, possibly empty,
/// closes the dump), and `TERMINATE` asks the loop to stop.  The tree is
/// never cleared implicitly.
pub fn handle_event(tree: &mut IPTree, event: AggEvent) -> (r: DumpOutcome)
    requires
        tree_wf(*old(tree)),
    ensures
        tree_wf(*final(tree)),
        final(tree).zeroed == old(tree).zeroed,
        final(tree).broadcast == old(tree).broadcast,
        match event {
            AggEvent::ADD(data) => !r.terminate && r.batches@.len() == 0 && (forall|p: Seq<u8>|
                #![trigger tree_covers(*final(tree), p)]
                #![trigger tree_covers(*old(tree), p)]
                tree_covers(*final(tree), p) <==> (tree_covers(*old(tree), p) || added_set(
                    paths_of(data@),
                    old(tree).zeroed,
                    old(tree).broadcast,
                ).contains(p))),
            AggEvent::DUMP => !r.terminate && *final(tree) == *old(tree)
                && r.batches@.map_values(|b: Vec<(u32, u8)>| b@) == chunked(
                tree_pairs(*old(tree)),
            ),
            AggEvent::TERMINATE => r.terminate && r.batches@.len() == 0 && *final(tree) == *old(
                tree,
            ),
        },
{
    match event {
        AggEvent::ADD(data) => {
            apply_addresses(tree, &data);
            DumpOutcome { batches: Vec::new(), terminate: false }
        },
        AggEvent::DUMP => {
            let mut ip_tree_iter = tree.walk();
            let mut batches: Vec<Vec<(u32, u8)>> = Vec::new();
            proof {
                assert(batches@.map_values(|b: Vec<(u32, u8)>| b@) =~= Seq::<
                    Seq<(u32, u8)>,
                >::empty());
                assert(Seq::<Seq<(u32, u8)>>::empty() + chunked(tree_pairs(*tree)) =~= chunked(
                    tree_pairs(*tree),
                ));
            }
            loop
                invariant_except_break
                    batches@.map_values(|b: Vec<(u32, u8)>| b@) + chunked(ip_tree_iter@)
                        == chunked(tree_pairs(*tree)),
                invariant
                    tree_wf(*tree),
                ensures
                    batches@.map_values(|b: Vec<(u32, u8)>| b@) == chunked(tree_pairs(*tree)),
                decreases ip_tree_iter@.len(),
            {
                let ghost remaining = ip_tree_iter@;
                let mut ipvec: Vec<(u32, u8)> = Vec::new();
                while ipvec.len() < DUMP_BATCH_LIMIT
                    invariant
                        ipvec@.len() <= DUMP_BATCH_LIMIT,
                        ipvec@.len() <= remaining.len(),
                        ipvec@ == remaining.take(ipvec@.len() as int),
                        ip_tree_iter@ == remaining.skip(ipvec@.len() as int),
                    ensures
                        ipvec@.len() <= DUMP_BATCH_LIMIT,
                        ipvec@.len() <= remaining.len(),
                        ipvec@ == remaining.take(ipvec@.len() as int),
                        ip_tree_iter@ == remaining.skip(ipvec@.len() as int),
                        ipvec@.len() == DUMP_BATCH_LIMIT || ip_tree_iter@.len() == 0,
                    decreases DUMP_BATCH_LIMIT - ipvec@.len(),
                {
                    match ip_tree_iter.next() {
                        Option::Some(pair) => {
                            ipvec.push(pair);
                            proof {
                                assert(ipvec@ =~= remaining.take(ipvec@.len() as int));
                                assert(ip_tree_iter@ =~= remaining.skip(ipvec@.len() as int));
                            }
                        },
                        Option::None => {
                            proof {
                                assert(remaining.skip(ipvec@.len() as int).len() == 0);
                                assert(ipvec@ =~= remaining);
                            }
                            break ;
                        },
                    }
                }
                let vec_len = ipvec.len();
                let ghost oldmap = batches@.map_values(|b: Vec<(u32, u8)>| b@);
                let ghost chunk = ipvec@;
                batches.push(ipvec);
                proof {
                    assert(batches@.map_values(|b: Vec<(u32, u8)>| b@) =~= oldmap.push(chunk));
                    if chunk.len() < DUMP_BATCH_LIMIT {
                        assert(ip_tree_iter@.len() == 0);
                        assert(chunk =~= remaining);
                        assert(chunked(remaining) =~= seq![chunk]);
                        assert(oldmap.push(chunk) + chunked(ip_tree_iter@) =~= oldmap.push(
                            chunk,
                        ).push(ip_tree_iter@));
                    } else {
                        assert(chunk =~= remaining.take(DUMP_BATCH_LIMIT as int));
                        assert(chunked(remaining) == seq![chunk] + chunked(
                            remaining.skip(DUMP_BATCH_LIMIT as int),
                        ));
                        assert(oldmap.push(chunk) + chunked(ip_tree_iter@) =~= oldmap + chunked(
                            remaining,
                        ));
                    }
                }
                if vec_len < DUMP_BATCH_LIMIT {
                    proof {
                        assert(chunked(ip_tree_iter@) =~= seq![ip_tree_iter@]);
                        assert(oldmap.push(chunk) =~= chunked(tree_pairs(*tree)));
                    }
                    break ;
                }
            }
            DumpOutcome { batches, terminate: false }
        },
        AggEvent::TERMINATE => {
            DumpOutcome { batches: Vec::new(), terminate: true }
        },
    }
}

} // verus!
