use paf2chain::chain::{process_lines, process_records, Chain};
use paf2chain::paf::parse_record;
use paf2chain::PafError;

fn lines(ls: &[&str]) -> Vec<String> {
    ls.iter().map(|l| l.to_string()).collect()
}

fn render(chains: &[Chain]) -> String {
    let mut out = String::new();
    for c in chains {
        let q_strand = if c.query_rev { "-" } else { "+" };
        out.push_str(&format!(
            "chain\t{}\t{}\t{}\t+\t{}\t{}\t{}\t{}\t{}\t{}\t{}\t{}\n",
            c.score,
            c.target_name,
            c.target_size,
            c.target_start,
            c.target_end,
            c.query_name,
            c.query_size,
            q_strand,
            c.query_start,
            c.query_end,
            c.id
        ));
        for b in &c.blocks {
            out.push_str(&format!("{}\t{}\t{}\n", b.size, b.target_gap, b.query_gap));
        }
        out.push_str(&format!("{}\n\n", c.final_size));
    }
    out
}

#[test]
fn ids_are_gapless_across_skipped_records() {
    // The middle record's script has no aligned run: it is skipped
    // silently and consumes no id.
    let input = lines(&[
        "q1\t100\t10\t90\t+\tt1\t200\t20\t100\tcg:Z:80M",
        "q2\t100\t10\t15\t+\tt2\t200\t20\t20\tcg:Z:5I",
        "q3\t100\t0\t50\t+\tt3\t200\t0\t50\tcg:Z:50M",
    ]);
    let (chains, next) = process_lines(&input, 0).unwrap();
    assert_eq!(chains.len(), 2);
    assert_eq!(chains[0].id, 0);
    assert_eq!(chains[1].id, 1);
    assert_eq!(next, 2);
    assert_eq!(chains[0].query_name, "q1");
    assert_eq!(chains[1].query_name, "q3");
}

#[test]
fn the_counter_threads_across_calls() {
    let input = lines(&["q\t100\t0\t50\t+\tt\t200\t0\t50\tcg:Z:50M"]);
    let recs: Vec<_> = input.iter().map(|l| parse_record(l).unwrap()).collect();
    let (chains, next) = process_records(&recs, 41).unwrap();
    assert_eq!(chains[0].id, 41);
    assert_eq!(next, 42);
}

#[test]
fn a_malformed_line_fails_the_whole_run() {
    let input = lines(&[
        "q1\t100\t10\t90\t+\tt1\t200\t20\t100\tcg:Z:80M",
        "not\ta\tpaf\tline",
    ]);
    assert_eq!(process_lines(&input, 0), Err(PafError::MalformedRecord));
}

#[test]
fn a_malformed_script_fails_the_whole_run() {
    let input = lines(&[
        "q1\t100\t10\t90\t+\tt1\t200\t20\t100\tcg:Z:80M",
        "q2\t100\t10\t90\t+\tt2\t200\t20\t100\tcg:Z:badM",
    ]);
    assert_eq!(process_lines(&input, 0), Err(PafError::MalformedScript));
}

#[test]
fn an_inconsistent_script_fails_the_whole_run() {
    let input = lines(&["q\t10\t0\t5\t+\tt\t10\t0\t5\tcg:Z:5M9D"]);
    assert_eq!(process_lines(&input, 0), Err(PafError::OutOfRange));
}

#[test]
fn rerunning_the_pipeline_is_byte_identical() {
    let input = lines(&[
        "q1\t100\t10\t90\t+\tt1\t200\t20\t100\tcg:Z:10M5D70M",
        "q2\t100\t10\t40\t-\tt1\t200\t0\t30\tcg:Z:30M",
        "q3\t100\t0\t50\t+\tt2\t200\t0\t80",
    ]);
    let (first, n1) = process_lines(&input, 0).unwrap();
    let (second, n2) = process_lines(&input, 0).unwrap();
    assert_eq!(first, second);
    assert_eq!(n1, n2);
    assert_eq!(render(&first), render(&second));
}

#[test]
fn full_stream_matches_the_expected_text() {
    let input = lines(&[
        "q1\t100\t10\t90\t+\tt1\t200\t20\t100\tcg:Z:10M5D70M",
        "q2\t100\t0\t50\t+\tt2\t200\t0\t80",
    ]);
    let (chains, _) = process_lines(&input, 0).unwrap();
    let expected = "chain\t255\tt1\t200\t+\t20\t100\tq1\t100\t+\t10\t90\t0\n\
                    10\t5\t0\n\
                    70\n\
                    \n\
                    chain\t255\tt2\t200\t+\t0\t50\tq2\t100\t+\t0\t50\t1\n\
                    50\n\
                    \n";
    assert_eq!(render(&chains), expected);
}

#[test]
fn empty_input_yields_no_chains() {
    let input: Vec<String> = Vec::new();
    let (chains, next) = process_lines(&input, 0).unwrap();
    assert!(chains.is_empty());
    assert_eq!(next, 0);
}
