use paf2chain::chain::{chains_of_record, emit_script, synthesize};
use paf2chain::cigar::{parse_cigar, CigarOp, CigarRun};
use paf2chain::paf::parse_record;
use paf2chain::PafError;

fn run(count: usize, op: CigarOp) -> CigarRun {
    CigarRun { count, op }
}

#[test]
fn parse_cigar_tokenizes_runs() {
    let runs = parse_cigar("10M5D70M").unwrap();
    assert_eq!(
        runs,
        vec![
            run(10, CigarOp::Aligned),
            run(5, CigarOp::Del),
            run(70, CigarOp::Aligned),
        ]
    );
}

#[test]
fn parse_cigar_treats_match_and_mismatch_alike() {
    let runs = parse_cigar("3=2X4I1D").unwrap();
    assert_eq!(
        runs,
        vec![
            run(3, CigarOp::Aligned),
            run(2, CigarOp::Aligned),
            run(4, CigarOp::Ins),
            run(1, CigarOp::Del),
        ]
    );
}

#[test]
fn parse_cigar_drops_unrecognized_operations_with_their_lengths() {
    let runs = parse_cigar("10M5S20M").unwrap();
    assert_eq!(runs, vec![run(10, CigarOp::Aligned), run(20, CigarOp::Aligned)]);
}

#[test]
fn parse_cigar_rejects_an_operation_without_a_run_length() {
    assert_eq!(parse_cigar("M10D"), Err(PafError::MalformedScript));
    assert_eq!(parse_cigar("10MD"), Err(PafError::MalformedScript));
}

#[test]
fn parse_cigar_rejects_an_oversized_run_length() {
    assert_eq!(parse_cigar("99999999999999999999M"), Err(PafError::MalformedScript));
}

#[test]
fn parse_cigar_ignores_trailing_digits_and_accepts_empty() {
    assert_eq!(parse_cigar(""), Ok(vec![]));
    assert_eq!(parse_cigar("10M5"), Ok(vec![run(10, CigarOp::Aligned)]));
}

#[test]
fn end_to_end_scenario_one_gap_triple() {
    // One aligned run, a deletion, another aligned run: the target begin
    // stays, one gap triple is emitted, and the final bare size follows.
    let rec = parse_record("q1\t100\t10\t90\t+\tt1\t200\t20\t100\tcg:Z:10M5D70M").unwrap();
    let (chains, next) = chains_of_record(&rec, 0).unwrap();
    assert_eq!(next, 1);
    assert_eq!(chains.len(), 1);
    let c = &chains[0];
    assert_eq!(c.score, 255);
    assert_eq!(c.target_name, "t1");
    assert_eq!(c.target_size, 200);
    assert_eq!(c.target_start, 20);
    assert_eq!(c.target_end, 100);
    assert_eq!(c.query_name, "q1");
    assert_eq!(c.query_size, 100);
    assert!(!c.query_rev);
    assert_eq!(c.query_start, 10);
    assert_eq!(c.query_end, 90);
    assert_eq!(c.id, 0);
    assert_eq!(c.blocks.len(), 1);
    assert_eq!(
        (c.blocks[0].size, c.blocks[0].target_gap, c.blocks[0].query_gap),
        (10, 5, 0)
    );
    assert_eq!(c.final_size, 70);
}

#[test]
fn reverse_strand_coordinates_round_trip() {
    // query_size 100, begin 10, end 40, no terminal indels: the adjusted
    // begin/end must be 100-40=60 and 100-10=90.
    let rec = parse_record("q\t100\t10\t40\t-\tt\t200\t0\t30\tcg:Z:30M").unwrap();
    let (chains, _) = chains_of_record(&rec, 0).unwrap();
    assert_eq!(chains.len(), 1);
    assert_eq!(chains[0].query_start, 60);
    assert_eq!(chains[0].query_end, 90);
    assert!(chains[0].query_rev);
}

#[test]
fn synthesized_script_covers_the_shorter_axis() {
    // No edit-script tag: the synthesized script is 50M30D; the trailing
    // deletion is trimmed away, leaving one bare block of 50 and a target
    // end pulled back by 30.
    let rec = parse_record("q\t100\t0\t50\t+\tt\t200\t0\t80").unwrap();
    assert_eq!(synthesize(&rec), vec![run(50, CigarOp::Aligned), run(30, CigarOp::Del)]);
    let (chains, next) = chains_of_record(&rec, 0).unwrap();
    assert_eq!(next, 1);
    assert_eq!(chains.len(), 1);
    let c = &chains[0];
    assert_eq!(c.blocks.len(), 0);
    assert_eq!(c.final_size, 50);
    assert_eq!(c.target_start, 0);
    assert_eq!(c.target_end, 50);
    assert_eq!(c.query_start, 0);
    assert_eq!(c.query_end, 50);
}

#[test]
fn synthesized_script_uses_insertion_when_query_is_longer() {
    let rec = parse_record("q\t100\t0\t80\t+\tt\t200\t0\t50").unwrap();
    assert_eq!(synthesize(&rec), vec![run(50, CigarOp::Aligned), run(80 - 50, CigarOp::Ins)]);
}

#[test]
fn terminal_indels_are_trimmed_on_both_ends() {
    let rec = parse_record("q\t100\t10\t60\t+\tt\t200\t20\t90\tcg:Z:5I40M3D2I5M4D").unwrap();
    let (chains, _) = chains_of_record(&rec, 0).unwrap();
    let c = &chains[0];
    // leading 5I shifts the query begin; trailing 4D pulls the target end.
    assert_eq!(c.query_start, 15);
    assert_eq!(c.query_end, 60);
    assert_eq!(c.target_start, 20);
    assert_eq!(c.target_end, 86);
    assert_eq!(c.blocks.len(), 1);
    assert_eq!(
        (c.blocks[0].size, c.blocks[0].target_gap, c.blocks[0].query_gap),
        (40, 3, 2)
    );
    assert_eq!(c.final_size, 5);
}

#[test]
fn a_script_with_no_aligned_run_emits_nothing_and_consumes_no_id() {
    let rec = parse_record("q\t100\t10\t15\t+\tt\t200\t20\t20\tcg:Z:5I").unwrap();
    let (chains, next) = chains_of_record(&rec, 7).unwrap();
    assert!(chains.is_empty());
    assert_eq!(next, 7);
}

#[test]
fn block_sums_cover_both_trimmed_spans() {
    // The ungapped sizes plus one axis's gaps equal the adjusted span on
    // that axis.
    let rec = parse_record("q\t300\t0\t130\t+\tt\t300\t0\t130\tcg:Z:50M10I30M10D40M").unwrap();
    let (chains, _) = chains_of_record(&rec, 0).unwrap();
    let c = &chains[0];
    assert_eq!(c.blocks.len(), 2);
    let sizes: usize = c.blocks.iter().map(|b| b.size).sum::<usize>() + c.final_size;
    let tgaps: usize = c.blocks.iter().map(|b| b.target_gap).sum();
    let qgaps: usize = c.blocks.iter().map(|b| b.query_gap).sum();
    assert_eq!(sizes + tgaps, c.target_end - c.target_start);
    assert_eq!(sizes + qgaps, c.query_end - c.query_start);
}

#[test]
fn every_block_list_begins_and_ends_with_an_ungapped_size() {
    let rec = parse_record("q\t300\t0\t120\t+\tt\t300\t0\t110\tcg:Z:2D50M10I30M10D40M3I").unwrap();
    let (chains, _) = chains_of_record(&rec, 0).unwrap();
    let c = &chains[0];
    assert!(c.final_size > 0);
    for b in &c.blocks {
        assert!(b.size > 0);
    }
}

#[test]
fn consecutive_aligned_runs_merge_into_one_block() {
    let rec = parse_record("q\t100\t0\t20\t+\tt\t100\t0\t20\tcg:Z:5M5=5X5M").unwrap();
    let (chains, _) = chains_of_record(&rec, 0).unwrap();
    let c = &chains[0];
    assert!(c.blocks.is_empty());
    assert_eq!(c.final_size, 20);
}

#[test]
fn multiple_scripts_in_one_record_each_get_an_id() {
    let rec = parse_record("q\t100\t0\t20\t+\tt\t100\t0\t20\tcg:Z:20M\tcg:Z:5D\tcg:Z:10M").unwrap();
    let (chains, next) = chains_of_record(&rec, 3).unwrap();
    assert_eq!(chains.len(), 2);
    assert_eq!(chains[0].id, 3);
    assert_eq!(chains[1].id, 4);
    assert_eq!(next, 5);
}

#[test]
fn malformed_script_in_a_record_is_fatal() {
    let rec = parse_record("q\t100\t0\t20\t+\tt\t100\t0\t20\tcg:Z:20M\tcg:Z:xM").unwrap();
    assert_eq!(chains_of_record(&rec, 0), Err(PafError::MalformedScript));
}

#[test]
fn inconsistent_trim_deltas_are_out_of_range() {
    // A trailing deletion longer than the whole target interval cannot be
    // subtracted from the target end.
    let rec = parse_record("q\t100\t0\t5\t+\tt\t100\t0\t5\tcg:Z:5M90D").unwrap();
    assert_eq!(chains_of_record(&rec, 0), Err(PafError::OutOfRange));
}

#[test]
fn emit_script_skips_and_emits_like_the_record_engine() {
    let rec = parse_record("q\t100\t10\t90\t+\tt\t200\t20\t100").unwrap();
    let runs = vec![run(10, CigarOp::Aligned)];
    let c = emit_script(&rec, &runs, 5).unwrap().unwrap();
    assert_eq!(c.id, 5);
    let gap_only = vec![run(10, CigarOp::Del)];
    assert!(emit_script(&rec, &gap_only, 5).unwrap().is_none());
}

#[test]
fn zero_length_axis_still_emits_a_degenerate_chain() {
    // A zero-length query interval synthesizes 0M80D; the zero-length
    // aligned run survives the trim, so a chain with a bare zero block is
    // emitted: the deliberate compatibility behavior for degenerate spans.
    let rec = parse_record("q\t100\t10\t10\t+\tt\t200\t0\t80").unwrap();
    let (chains, next) = chains_of_record(&rec, 0).unwrap();
    assert_eq!(next, 1);
    assert_eq!(chains.len(), 1);
    assert_eq!(chains[0].final_size, 0);
    assert_eq!(chains[0].target_start, 0);
    assert_eq!(chains[0].target_end, 0);
}
