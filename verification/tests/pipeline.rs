use fasta_doctor::clean_hex_stream;
use fasta_doctor::convert_hex_to_text;
use fasta_doctor::encode;
use fasta_doctor::rename_headers_in_output;
use fasta_doctor::repair_bytes;
use fasta_doctor::unwrap_fasta;
use fasta_doctor::FastaError;

#[test]
fn test_rename_headers_in_output() {
    let input = ">header1\nATGC\n>header2\nATGC";
    let expected_output = ">A0B\nATGC\n>A1B\nATGC\n";
    let (output, mappings) = rename_headers_in_output(input).unwrap();

    assert_eq!(output, expected_output);
    assert_eq!(mappings.len(), 2);
    assert_eq!(mappings[0], (String::from(">header1"), String::from(">A0B")));
    assert_eq!(mappings[1], (String::from(">header2"), String::from(">A1B")));
}

#[test]
fn test_convert_hex_to_text_without_unwrap() {
    let hex_str = "3E686561646572310A41544743";
    let expected_output = ">header1\nATGC\n";
    let output = convert_hex_to_text(hex_str, false).unwrap();

    assert_eq!(output, expected_output);
}

#[test]
fn test_convert_hex_to_text_with_unwrap() {
    let hex_str = "3E686561646572310A415447430A3E686561646572320A43414754";
    let expected_output = ">header1\nATGC\n>header2\nCAGT\n";
    let output = convert_hex_to_text(hex_str, true).unwrap();

    assert_eq!(output, expected_output);
}

#[test]
fn test_unwrap_fasta() {
    let wrapped_fasta = ">header1\nATGC\nATGC\n>header2\nGCTA\nGCTA";
    let expected = ">header1\nATGCATGC\n>header2\nGCTAGCTA\n";
    let result = unwrap_fasta(wrapped_fasta);
    assert_eq!(result, expected);
}

fn run_pipeline(bytes: &[u8], unwrap: bool) -> String {
    let hex = encode(&bytes.to_vec());
    let clean = clean_hex_stream(&hex);
    convert_hex_to_text(&clean, unwrap).unwrap()
}

#[test]
fn leading_garbage_and_marker_runs_are_removed() {
    let out = run_pipeline(b"garbage>>header1\nATGC", false);
    assert_eq!(out, ">header1\nATGC\n");
}

#[test]
fn repair_bytes_composes_the_stages() {
    assert_eq!(repair_bytes(&b"garbage>>header1\nATGC".to_vec(), false), ">header1\nATGC\n");
    assert_eq!(
        repair_bytes(&b">h1\nAT\nGC\n>h2\nCA\nGT".to_vec(), true),
        ">h1\nATGC\n>h2\nCAGT\n"
    );
    assert_eq!(repair_bytes(&Vec::new(), false), "\n");
}

#[test]
fn unwrap_keeps_single_line_records() {
    let out = run_pipeline(b">header1\nATGC\n>header2\nCAGT", true);
    assert_eq!(out, ">header1\nATGC\n>header2\nCAGT\n");
}

#[test]
fn rename_replaces_headers_and_reports_mapping() {
    let cleaned = run_pipeline(b">header1\nATGC\n>header2\nCAGT", false);
    let (output, mappings) = rename_headers_in_output(&cleaned).unwrap();
    assert_eq!(output, ">A0B\nATGC\n>A1B\nCAGT\n");
    assert_eq!(mappings[0], (String::from(">header1"), String::from(">A0B")));
    assert_eq!(mappings[1], (String::from(">header2"), String::from(">A1B")));
}

#[test]
fn nul_byte_inside_sequence_is_removed() {
    let out = run_pipeline(b">h\nAT\x00GC", false);
    assert_eq!(out, ">h\nATGC\n");
}

#[test]
fn interior_line_feeds_survive_cleanup() {
    let out = run_pipeline(b">h\n\nATGC", false);
    assert_eq!(out, ">h\n\nATGC\n");
}

#[test]
fn pipeline_of_marker_run_alone_yields_one_marker() {
    let out = run_pipeline(b">>>>", false);
    assert_eq!(out, ">\n");
}

#[test]
fn decode_inverts_encode_without_filtering() {
    let bytes: Vec<u8> = vec![0x00, 0xFF, 0x0A, 0x3E, 0x41];
    let hex = encode(&bytes);
    assert_eq!(hex, "00FF0A3E41");
    let text = convert_hex_to_text(&hex, false).unwrap();
    let expected: String = vec!['\u{0}', '\u{ff}', '\n', '>', 'A', '\n'].into_iter().collect();
    assert_eq!(text, expected);
}

#[test]
fn unwrap_is_idempotent_on_unwrapped_text() {
    let once = unwrap_fasta(">h1\nAAAA\nCCCC\n>h2\nGG\nTT");
    let twice = unwrap_fasta(&once);
    assert_eq!(twice, once);
    let other = unwrap_fasta("no header\nat all");
    assert_eq!(unwrap_fasta(&other), other);
}

#[test]
fn odd_length_stream_is_a_parse_error() {
    assert_eq!(convert_hex_to_text("ABC", false), Err(FastaError::ParseOddLength));
}

#[test]
fn non_hex_pair_is_a_parse_error() {
    assert_eq!(convert_hex_to_text("ZZ", false), Err(FastaError::ParseInvalidPair));
}
