use paf2chain::paf::{
    parse_record, paf_query, paf_query_begin, paf_query_end, paf_query_is_rev, paf_query_length,
    paf_target, paf_target_begin, paf_target_end, paf_target_length,
};
use paf2chain::PafError;

const LINE: &str = "q1\t100\t10\t90\t+\tt1\t200\t20\t100\tcg:Z:10M5D70M";

#[test]
fn field_accessors_read_the_nine_required_fields() {
    assert_eq!(paf_query(LINE), "q1");
    assert_eq!(paf_query_length(LINE), 100);
    assert_eq!(paf_query_begin(LINE), 10);
    assert_eq!(paf_query_end(LINE), 90);
    assert!(!paf_query_is_rev(LINE));
    assert_eq!(paf_target(LINE), "t1");
    assert_eq!(paf_target_length(LINE), 200);
    assert_eq!(paf_target_begin(LINE), 20);
    assert_eq!(paf_target_end(LINE), 100);
}

#[test]
fn reverse_strand_is_recognized() {
    let line = "q1\t100\t10\t90\t-\tt1\t200\t20\t100";
    assert!(paf_query_is_rev(line));
}

#[test]
fn parse_record_reads_all_fields_and_tags() {
    let rec = parse_record(LINE).unwrap();
    assert_eq!(rec.query_name, "q1");
    assert_eq!(rec.query_length, 100);
    assert_eq!(rec.query_begin, 10);
    assert_eq!(rec.query_end, 90);
    assert!(!rec.query_rev);
    assert_eq!(rec.target_name, "t1");
    assert_eq!(rec.target_length, 200);
    assert_eq!(rec.target_begin, 20);
    assert_eq!(rec.target_end, 100);
    assert_eq!(rec.cigars, vec!["10M5D70M".to_string()]);
}

#[test]
fn parse_record_accepts_a_line_without_tags() {
    let rec = parse_record("q\t50\t0\t50\t-\tt\t80\t0\t80").unwrap();
    assert!(rec.cigars.is_empty());
    assert!(rec.query_rev);
}

#[test]
fn parse_record_collects_every_edit_script_tag_in_order() {
    let rec = parse_record("q\t50\t0\t50\t+\tt\t80\t0\t80\tcg:Z:5M\txx:i:3\tcg:Z:7M").unwrap();
    assert_eq!(rec.cigars, vec!["5M".to_string(), "7M".to_string()]);
}

#[test]
fn too_few_fields_is_a_malformed_record() {
    assert_eq!(parse_record("q\t50\t0\t50\t+\tt\t80\t0"), Err(PafError::MalformedRecord));
}

#[test]
fn non_integer_numeric_field_is_a_malformed_record() {
    assert_eq!(
        parse_record("q\tfifty\t0\t50\t+\tt\t80\t0\t80"),
        Err(PafError::MalformedRecord)
    );
    assert_eq!(parse_record("q\t50\t0\t50\t+\tt\t80\t0\t8a0"), Err(PafError::MalformedRecord));
    assert_eq!(parse_record("q\t50\t0\t\t+\tt\t80\t0\t80"), Err(PafError::MalformedRecord));
}

#[test]
fn unrecognized_strand_symbol_is_a_malformed_record() {
    assert_eq!(parse_record("q\t50\t0\t50\t*\tt\t80\t0\t80"), Err(PafError::MalformedRecord));
    assert_eq!(parse_record("q\t50\t0\t50\t++\tt\t80\t0\t80"), Err(PafError::MalformedRecord));
}

#[test]
fn inverted_interval_is_a_malformed_record() {
    assert_eq!(parse_record("q\t50\t50\t0\t+\tt\t80\t0\t80"), Err(PafError::MalformedRecord));
    assert_eq!(parse_record("q\t50\t0\t50\t+\tt\t80\t80\t0"), Err(PafError::MalformedRecord));
}
