use paf2chain::catalog::{AlignedSeq, PafFile};
use paf2chain::paf::parse_record;

fn records(lines: &[&str]) -> Vec<paf2chain::paf::PafRecord> {
    lines.iter().map(|l| parse_record(l).unwrap()).collect()
}

fn entry<'a>(entries: &'a [AlignedSeq], name: &str) -> &'a AlignedSeq {
    entries.iter().find(|e| e.name == name).unwrap()
}

#[test]
fn offsets_follow_descending_length_over_discovery_order() {
    // Targets of lengths 300, 100, 200 discovered in that order: ranked by
    // descending length the offsets are 0, 200, 300, which map back to the
    // discovery order as 0, 300, 200.
    let recs = records(&[
        "q1\t10\t0\t5\t+\ta\t300\t0\t5",
        "q2\t10\t0\t5\t+\tb\t100\t0\t5",
        "q3\t10\t0\t5\t+\tc\t200\t0\t5",
    ]);
    let pf = PafFile::new(&recs).unwrap();
    let a = entry(&pf.targets, "a");
    let b = entry(&pf.targets, "b");
    let c = entry(&pf.targets, "c");
    assert_eq!((a.length, a.rank, a.offset), (300, 0, 0));
    assert_eq!((c.length, c.rank, c.offset), (200, 1, 300));
    assert_eq!((b.length, b.rank, b.offset), (100, 2, 500));
    assert_eq!(pf.target_axis, 600);
}

#[test]
fn equal_lengths_keep_the_interning_order() {
    let recs = records(&[
        "x\t40\t0\t5\t+\tt\t10\t0\t5",
        "y\t40\t0\t5\t+\tt\t10\t0\t5",
        "z\t40\t0\t5\t+\tt\t10\t0\t5",
    ]);
    let pf = PafFile::new(&recs).unwrap();
    // All query lengths equal: ranks follow the interning order, whatever
    // it is, and offsets step by 40.
    let mut by_rank: Vec<&AlignedSeq> = pf.queries.iter().collect();
    by_rank.sort_by_key(|e| e.rank);
    assert_eq!(by_rank.len(), 3);
    for (k, e) in by_rank.iter().enumerate() {
        assert_eq!(e.rank, k);
        assert_eq!(e.offset, 40 * k);
        assert_eq!(e.length, 40);
    }
    assert_eq!(pf.query_axis, 120);
}

#[test]
fn first_seen_length_wins_for_a_repeated_name() {
    let recs = records(&[
        "q\t100\t0\t5\t+\tt\t50\t0\t5",
        "q\t999\t0\t5\t+\tt\t50\t0\t5",
    ]);
    let pf = PafFile::new(&recs).unwrap();
    assert_eq!(pf.queries.len(), 1);
    assert_eq!(pf.queries[0].length, 100);
    assert_eq!(pf.targets.len(), 1);
    assert_eq!(pf.query_axis, 100);
    assert_eq!(pf.target_axis, 50);
}

#[test]
fn lookups_return_global_coordinates() {
    let recs = records(&[
        "q1\t10\t0\t5\t+\ta\t300\t0\t5",
        "q2\t20\t0\t5\t+\tb\t100\t0\t5",
    ]);
    let pf = PafFile::new(&recs).unwrap();
    // q2 is the longer query, so it is ranked first: offset 0; q1 at 20.
    let q1 = String::from("q1");
    let q2 = String::from("q2");
    assert_eq!(pf.query_range(&q2, 3, 7), Some((3, 7)));
    assert_eq!(pf.query_range(&q1, 0, 10), Some((20, 30)));
    // b follows a on the target axis.
    let b = String::from("b");
    assert_eq!(pf.target_range(&b, 1, 2), Some((301, 302)));
    // An undiscovered name has no coordinates; this exercises the
    // perfect-hash lookup answering for absent keys.
    let missing = String::from("nope");
    assert_eq!(pf.query_range(&missing, 0, 1), None);
    assert_eq!(pf.target_range(&missing, 0, 1), None);
}

#[test]
fn global_start_positions_a_record_on_both_axes() {
    let recs = records(&[
        "q1\t10\t2\t8\t+\ta\t300\t40\t50",
        "q2\t20\t0\t5\t-\tb\t100\t10\t20",
    ]);
    let pf = PafFile::new(&recs).unwrap();
    let fwd = pf.global_start(&recs[0], recs[0].query_rev).unwrap();
    assert_eq!(fwd, (40, 20 + 2));
    let rev = pf.global_start(&recs[1], recs[1].query_rev).unwrap();
    assert_eq!(rev, (300 + 10, 0 + 5));
}

#[test]
fn dense_ids_cover_every_discovered_name() {
    let recs = records(&[
        "q1\t10\t0\t5\t+\ta\t300\t0\t5",
        "q2\t20\t0\t5\t+\ta\t300\t0\t5",
        "q1\t10\t0\t5\t+\tb\t100\t0\t5",
    ]);
    let pf = PafFile::new(&recs).unwrap();
    assert_eq!(pf.queries.len(), 2);
    assert_eq!(pf.targets.len(), 2);
    let mut ranks: Vec<usize> = pf.queries.iter().map(|e| e.rank).collect();
    ranks.sort();
    assert_eq!(ranks, vec![0, 1]);
    assert_eq!(pf.global_query_start(0), pf.queries[0].offset);
    assert_eq!(pf.query_length(0), pf.queries[0].length);
    assert_eq!(pf.global_target_start(1), pf.targets[1].offset);
    assert_eq!(pf.target_length(1), pf.targets[1].length);
}

#[test]
fn aligned_seq_new_is_empty() {
    let s = AlignedSeq::new();
    assert_eq!(s.name, "");
    assert_eq!(s.length, 0);
    assert_eq!(s.rank, 0);
    assert_eq!(s.offset, 0);
}
