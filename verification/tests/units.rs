use std::path::Path;

use fasta_doctor::check_encoding;
use fasta_doctor::check_file_extension;
use fasta_doctor::clean_hex_stream;
use fasta_doctor::count_non_nul_chars;
use fasta_doctor::has_header_line;
use fasta_doctor::memory_warning_due;
use fasta_doctor::prechecks::check_content_text;
use fasta_doctor::rename_headers_in_output;
use fasta_doctor::unwrap_fasta;
use fasta_doctor::FastaError;

#[test]
fn test_valid_extension() {
    let filename = "sequence.fasta";
    assert!(Path::new(filename).extension().is_some());
    assert!(check_file_extension(filename).is_ok());
}

#[test]
fn test_invalid_extension() {
    let filename = "sequence.txt";
    assert!(check_file_extension(filename).is_err());
}

#[test]
fn extension_edge_cases() {
    assert!(check_file_extension("dir.txt/reads.fna").is_ok());
    assert!(check_file_extension("reads.faa").is_ok());
    assert!(check_file_extension("reads.aa").is_ok());
    assert!(check_file_extension("noext").is_err());
    assert!(check_file_extension(".fasta").is_err());
    assert_eq!(check_file_extension("reads.fa"), Err(FastaError::BadExtension));
}

#[test]
fn content_check_requires_a_header_line() {
    assert!(has_header_line(">sequence\nATCG"));
    assert!(has_header_line("AT\n>late header"));
    assert!(!has_header_line("ATCG"));
    assert!(check_content_text(">sequence\nATCG").is_ok());
    assert_eq!(check_content_text("ATCG"), Err(FastaError::MissingHeader));
}

#[test]
fn encoding_guard_rejects_multibyte_ratio() {
    // Sixteen-bit text: two bytes for each character.
    assert_eq!(check_encoding(20, 10), Err(FastaError::Encoding));
    assert!(check_encoding(19, 10).is_ok());
    assert!(check_encoding(0, 0).is_ok());
    assert_eq!(check_encoding(1, 0), Err(FastaError::Encoding));
}

#[test]
fn non_nul_characters_are_counted() {
    assert_eq!(count_non_nul_chars("ab\u{0}c"), 3);
    assert_eq!(count_non_nul_chars(""), 0);
    assert_eq!(count_non_nul_chars("\u{0}\u{0}"), 0);
}

#[test]
fn clean_hex_stream_stages() {
    // No marker: everything goes, the terminator stays.
    assert_eq!(clean_hex_stream(""), "0A");
    assert_eq!(clean_hex_stream("4141"), "0A");
    // Leading garbage is trimmed at the first marker pair.
    assert_eq!(clean_hex_stream("41413E41"), "3E410A");
    // Marker runs collapse to one.
    assert_eq!(clean_hex_stream("3E3E3E41"), "3E410A");
    // Control pairs vanish; the line feed 0A stays.
    assert_eq!(clean_hex_stream("3E0141"), "3E410A");
    assert_eq!(clean_hex_stream("3E0A41"), "3E0A410A");
    // Trailing line feeds are normalized to exactly one.
    assert_eq!(clean_hex_stream("3E410A0A0A"), "3E410A");
}

#[test]
fn rename_pads_labels_to_the_count_width() {
    let mut input = String::new();
    for i in 0..10 {
        input.push_str(&format!(">header{}\nAT\n", i));
    }
    let (output, mappings) = rename_headers_in_output(&input).unwrap();
    assert_eq!(mappings.len(), 10);
    assert_eq!(mappings[0].1, ">A00B");
    assert_eq!(mappings[9].1, ">A09B");
    assert!(output.starts_with(">A00B\nAT\n>A01B\n"));
}

#[test]
fn rename_of_empty_text_is_empty() {
    let (output, mappings) = rename_headers_in_output("").unwrap();
    assert_eq!(output, "");
    assert_eq!(mappings.len(), 0);
}

#[test]
fn unwrap_edge_cases() {
    assert_eq!(unwrap_fasta(""), "\n");
    assert_eq!(unwrap_fasta(">h"), ">h\n");
    assert_eq!(unwrap_fasta("AT\n>h\nA\nC"), "AT\n>h\nAC\n");
}

#[test]
fn memory_warning_threshold() {
    assert!(memory_warning_due(91, 100, false));
    assert!(!memory_warning_due(90, 100, false));
    assert!(!memory_warning_due(95, 100, true));
    assert!(memory_warning_due(1, 0, false));
    assert!(!memory_warning_due(0, 0, false));
}
