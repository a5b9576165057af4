use lseq::ident::{IdentGen, Identifier, IdentError, Position};
use lseq::{op_applicable, Dot, LSeq, Op, SiteId};
use rand::Rng;
use std::collections::VecDeque;

fn text(site: &LSeq<char>) -> String {
    site.iter().into_iter().collect()
}

#[test]
fn test_two_site_append_interleaving() {
    let mut site0: LSeq<char> = LSeq::new(SiteId::new(0));
    let mut site1: LSeq<char> = LSeq::new(SiteId::new(1));

    let op1 = site0.insert_index(0, 'x');
    site1.apply(op1);
    let op2 = site1.insert_index(1, 'y');
    site0.apply(op2);

    assert_eq!(text(&site0), "xy");
    assert_eq!(text(&site1), "xy");
}

#[test]
fn test_concurrent_same_index_insert() {
    let mut site0: LSeq<char> = LSeq::new(SiteId::new(0));
    let mut site1: LSeq<char> = LSeq::new(SiteId::new(1));

    let op_a = site0.insert_index(0, 'A');
    let op_b = site1.insert_index(0, 'B');
    site0.apply(op_b.clone());
    site1.apply(op_a.clone());

    let t0 = text(&site0);
    let t1 = text(&site1);
    assert_eq!(t0, t1);
    assert!(t0 == "AB" || t0 == "BA");
}

#[test]
fn test_delete_of_unseen_insert() {
    let mut site: LSeq<char> = LSeq::new(SiteId::new(1));
    site.insert_index(0, 'a');

    let x = Identifier::new(vec![Position { index: 3, site: 7 }]).unwrap();
    let delete = Op::Delete {
        remote: Dot { actor: SiteId::new(7), counter: 0 },
        id: x.duplicate(),
        dot: Dot { actor: SiteId::new(1), counter: 9 },
    };
    site.apply(delete);
    // the unseen identifier is silently ignored
    assert_eq!(text(&site), "a");

    // a later insert of the same identifier still lands: the core does not
    // mask the causality hazard, a causality barrier outside must
    let insert = Op::Insert {
        id: x,
        dot: Dot { actor: SiteId::new(7), counter: 0 },
        c: 'z',
    };
    site.apply(insert);
    assert_eq!(site.len(), 2);
    assert!(text(&site).contains('z'));
}

fn random_local_stream(site: u32, n: usize) -> Vec<Op<char>> {
    let mut rng = rand::thread_rng();
    let mut replica: LSeq<char> = LSeq::new(SiteId::new(site));
    let mut ops = Vec::with_capacity(n);
    for _ in 0..n {
        if replica.len() > 0 && rng.gen() {
            let ix = rng.gen_range(0, replica.len());
            if let Some(op) = replica.delete_index(ix) {
                ops.push(op);
            }
        } else {
            let ix = rng.gen_range(0, replica.len() + 1);
            let c: char = rng.gen_range(b'a', b'z' + 1) as char;
            ops.push(replica.insert_index(ix, c));
        }
    }
    ops
}

#[test]
fn test_long_random_stream_converges() {
    // each site edits on its own, producing a causal stream of operations;
    // the two replicas then apply the same multiset in different
    // interleavings, each keeping both sites' issue orders, with pickers
    // biased in opposite directions
    let mut rng = rand::thread_rng();
    let stream0 = random_local_stream(1, 2500);
    let stream1 = random_local_stream(2, 2500);

    let mut replica_a: LSeq<char> = LSeq::new(SiteId::new(3));
    let mut replica_b: LSeq<char> = LSeq::new(SiteId::new(4));
    for (replica, favoured) in [(&mut replica_a, true), (&mut replica_b, false)] {
        let mut q0: VecDeque<Op<char>> = stream0.iter().cloned().collect();
        let mut q1: VecDeque<Op<char>> = stream1.iter().cloned().collect();
        while !q0.is_empty() || !q1.is_empty() {
            let pick_first = if favoured {
                rng.gen_range(0, 4) < 3
            } else {
                rng.gen_range(0, 4) < 1
            };
            let chosen = if (pick_first && !q0.is_empty()) || q1.is_empty() {
                q0.pop_front().unwrap()
            } else {
                q1.pop_front().unwrap()
            };
            replica.apply(chosen);
        }
    }

    assert_eq!(text(&replica_a), text(&replica_b));
}

#[test]
fn test_depth_stays_shallow_under_one_sided_editing() {
    let mut site: LSeq<char> = LSeq::new(SiteId::new(1));
    for _ in 0..10000 {
        site.insert_index(0, 'x');
    }
    let max_depth = site
        .raw_entries()
        .iter()
        .map(|e| e.id.depth())
        .max()
        .unwrap();
    // depths stay logarithmic in the number of edits, nowhere near linear
    assert!(max_depth < 64, "depth grew to {}", max_depth);
}

#[test]
fn test_apply_idempotent() {
    let mut origin: LSeq<char> = LSeq::new(SiteId::new(1));
    let op = origin.insert_index(0, 'q');

    let mut once: LSeq<char> = LSeq::new(SiteId::new(2));
    once.apply(op.clone());
    let mut twice: LSeq<char> = LSeq::new(SiteId::new(3));
    twice.apply(op.clone());
    twice.apply(op.clone());
    assert_eq!(text(&once), text(&twice));

    let del = origin.delete_index(0).unwrap();
    once.apply(del.clone());
    twice.apply(del.clone());
    twice.apply(del);
    assert_eq!(text(&once), "");
    assert_eq!(text(&twice), "");
}

#[test]
fn test_insert_delete_round_trip() {
    let mut site: LSeq<char> = LSeq::new(SiteId::new(1));
    site.insert_index(0, 'a');
    site.insert_index(1, 'b');

    site.insert_index(1, 'x');
    assert_eq!(text(&site), "axb");
    let op = site.delete_index(1);
    assert!(op.is_some());
    assert_eq!(text(&site), "ab");
}

#[test]
fn test_delete_index_out_of_range() {
    let mut site: LSeq<char> = LSeq::new(SiteId::new(1));
    site.insert_index(0, 'a');
    assert!(site.delete_index(1).is_none());
    assert!(site.delete_index(17).is_none());
    assert_eq!(site.len(), 1);

    let mut empty: LSeq<char> = LSeq::new(SiteId::new(2));
    assert!(empty.delete_index(0).is_none());
    assert!(empty.is_empty());
}

#[test]
fn test_identifier_rejects_empty() {
    assert_eq!(Identifier::new(Vec::new()).unwrap_err(), IdentError::Empty);
}

#[test]
fn test_identifier_rejects_out_of_range_index() {
    // depth 0 has indices 0..8, so 8 does not fit
    let r = Identifier::new(vec![Position { index: 8, site: 1 }]);
    assert_eq!(r.unwrap_err(), IdentError::IndexOutOfRange);
    // deeper levels widen: 8 fits at depth 1
    let ok = Identifier::new(vec![
        Position { index: 1, site: 1 },
        Position { index: 8, site: 1 },
    ]);
    assert!(ok.is_ok());
}

#[test]
fn test_allocator_stays_inside_its_bounds() {
    let mut g = IdentGen::new(1);
    let lo = g.lower();
    let hi = g.upper();
    let mut upper = hi.duplicate();
    // repeatedly allocate below the previous identifier: every result sits
    // strictly inside the shrinking gap
    for _ in 0..200 {
        let r = g.allocate(&lo, &upper);
        assert!(lo.lt(&r));
        assert!(r.lt(&upper));
        upper = r;
    }
}

#[test]
fn test_allocated_ids_of_distinct_sites_differ() {
    let mut g1 = IdentGen::new(1);
    let mut g2 = IdentGen::new(2);
    let lo = g1.lower();
    let hi = g1.upper();
    for _ in 0..50 {
        let r1 = g1.allocate(&lo, &hi);
        let r2 = g2.allocate(&lo, &hi);
        assert!(!r1.same_as(&r2));
    }
}

#[test]
fn test_op_applicable_checks_inserts() {
    let mut origin: LSeq<char> = LSeq::new(SiteId::new(1));
    let op = origin.insert_index(0, 'a');
    assert!(op_applicable(&op));

    // the low sentinel itself may never be inserted
    let begin = Identifier::new(vec![Position { index: 0, site: 0 }]).unwrap();
    let bad = Op::Insert {
        id: begin,
        dot: Dot { actor: SiteId::new(1), counter: 0 },
        c: 'a',
    };
    assert!(!op_applicable(&bad));

    let del: Op<char> = Op::Delete {
        remote: Dot { actor: SiteId::new(1), counter: 0 },
        id: Identifier::new(vec![Position { index: 3, site: 9 }]).unwrap(),
        dot: Dot { actor: SiteId::new(2), counter: 0 },
    };
    assert!(op_applicable(&del));
}
