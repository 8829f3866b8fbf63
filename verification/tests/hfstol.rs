use morpho::hfstol::header::{hfstol_header_fits, is_modern_hfstol, read_hfstol_header, HfstolError, HfstolProperties};
use morpho::hfstol::tokenizer::{parse_symbols, symbol_table_fits, Tokenizer};
use morpho::metadata::split_properties;
use morpho::morphology::header::{decode_hfst_metadata_header, hfst_section_fits, is_modern_hfst, MetadataError};

fn dog_properties() -> Vec<u8> {
    let mut body = Vec::new();
    for s in ["version", "3.3", "type", "HFST_OL", "formulaic-definition", "T /", "name",
        "text(/home/garren/Projects/emMorph/hfst/dog.att)"] {
        body.extend_from_slice(s.as_bytes());
        body.push(0);
    }
    body
}

fn dog_header() -> Vec<u8> {
    let body = dog_properties();
    assert_eq!(body.len(), 104);
    let mut bytes = b"HFST\0".to_vec();
    bytes.extend_from_slice(&(body.len() as u16).to_le_bytes());
    bytes.push(0);
    bytes.extend_from_slice(&body);
    let fixed: [u32; 13] = [12, 19, 9, 10, 0, 1, 1, 1, 0, 0, 0, 0, 0];
    bytes.extend_from_slice(&5u16.to_le_bytes());
    bytes.extend_from_slice(&10u16.to_le_bytes());
    for v in fixed {
        bytes.extend_from_slice(&v.to_le_bytes());
    }
    bytes
}

#[test]
fn header_of_dog_example() {
    let bytes = dog_header();
    assert!(hfstol_header_fits(&bytes));
    let (meta, props, used) = read_hfstol_header(&bytes).unwrap();
    let pairs: Vec<(&str, &str)> = meta.iter().map(|m| (m.name(), m.value())).collect();
    assert_eq!(
        pairs,
        vec![
            ("version", "3.3"),
            ("type", "HFST_OL"),
            ("formulaic-definition", "T /"),
            ("name", "text(/home/garren/Projects/emMorph/hfst/dog.att)"),
        ]
    );
    assert_eq!(props.num_input_symbols, 5);
    assert_eq!(props.num_symbols, 10);
    assert_eq!(props.transition_index_size, 12);
    assert_eq!(props.transition_table_size, 19);
    assert_eq!(props.num_states, 9);
    assert_eq!(props.num_transitions, 10);
    assert_eq!(props.weighted, 0);
    assert_eq!(props.deterministic, 1);
    assert_eq!(props.input_deterministic, 1);
    assert_eq!(props.minimized, 1);
    assert_eq!(props.has_unweighted_input_epsilon_cycles, 0);
    assert_eq!(used, 5 + 3 + 104 + 56);
    assert_eq!(used, bytes.len());
}

#[test]
fn fixed_fields_are_little_endian() {
    let mut bytes = b"HFST\0".to_vec();
    bytes.extend_from_slice(&[2, 0, 0, b'a', 0]);
    bytes.extend_from_slice(&[0x01, 0x02, 0x03, 0x04, 0x05, 0x06, 0x07, 0x08]);
    bytes.extend_from_slice(&[0u8; 44]);
    bytes.extend_from_slice(&[0x09, 0x0a, 0x0b, 0x0c]);
    let (meta, props, used) = read_hfstol_header(&bytes).unwrap();
    assert_eq!(meta.len(), 1);
    assert_eq!((meta[0].name(), meta[0].value()), ("a", ""));
    assert_eq!(props.num_input_symbols, 0x0201);
    assert_eq!(props.num_symbols, 0x0403);
    assert_eq!(props.transition_index_size, 0x08070605);
    assert_eq!(props.has_unweighted_input_epsilon_cycles, 0x0c0b0a09);
    assert_eq!(used, 5 + 3 + 2 + 56);
}

#[test]
fn header_errors() {
    assert_eq!(read_hfstol_header(b"HFS").unwrap_err(), HfstolError::Truncated);
    assert_eq!(read_hfstol_header(b"\x05\x00\x0a\x00\x0c\x00").unwrap_err(), HfstolError::NotModern);
    assert_eq!(read_hfstol_header(b"HFST\0").unwrap_err(), HfstolError::EmptyMetadata);
    let bad = b"HFST\0\x04\x00\x00ab\xff\0".to_vec();
    assert!(hfstol_header_fits(&bad));
    assert_eq!(read_hfstol_header(&bad).unwrap_err(), HfstolError::InvalidUtf8);
    let no_final_nul = b"HFST\0\x03\x00\x00ab\xff".to_vec();
    assert!(hfstol_header_fits(&no_final_nul));
    assert_eq!(read_hfstol_header(&no_final_nul).unwrap_err(), HfstolError::MalformedMetadata);
    let bad_separator = b"HFST\0\x02\x00\x01a\0".to_vec();
    assert!(hfstol_header_fits(&bad_separator));
    assert_eq!(read_hfstol_header(&bad_separator).unwrap_err(), HfstolError::MalformedMetadata);
}

#[test]
fn header_error_messages() {
    assert_eq!(HfstolError::Truncated.message(), "failed to fill whole buffer");
    assert_eq!(
        HfstolError::NotModern.message(),
        "Could not parse the HFST-OL file as version 3.1+; it's probably an older version that's not supported."
    );
    assert_eq!(
        HfstolError::EmptyMetadata.message(),
        "The file buffer was empty when decoding metadata; is the file correct?"
    );
    assert_eq!(
        HfstolError::MalformedMetadata.message(),
        "The property section is malformed: its separator or its final byte is not NUL."
    );
    assert_eq!(HfstolError::InvalidUtf8.message(), "invalid utf-8 sequence in the property section");
}

#[test]
fn fixed_fields_must_be_whole() {
    let mut bytes = b"HFST\0\x02\x00\x00a\0".to_vec();
    bytes.extend_from_slice(&[0u8; 55]);
    assert!(!hfstol_header_fits(&bytes));
    bytes.push(0);
    assert!(hfstol_header_fits(&bytes));
    assert_eq!(read_hfstol_header(&bytes).unwrap().2, 5 + 5 + 56);
}

#[test]
fn cut_short_headers_are_detected() {
    assert!(!hfstol_header_fits(b"HFST\0\x05"));
    assert!(!hfstol_header_fits(b"HFST\0\x09\x00\x00ab"));
    assert!(!hfstol_header_fits(b"HFST\0\x02\x00\x00a\0"));
    assert!(hfstol_header_fits(b"HFST\0"));
    assert!(hfstol_header_fits(b"abc"));
}

#[test]
fn magic_detection() {
    assert!(is_modern_hfstol(b"HFST\0rest"));
    assert!(!is_modern_hfstol(b"HFST"));
    assert!(!is_modern_hfstol(b"HFSX\0"));
    assert!(is_modern_hfst(b"HFST\0"));
    assert!(!is_modern_hfst(b"\0\0\0\0\0"));
}

#[test]
fn property_pairs_drop_unpaired_last_string() {
    let pairs = split_properties(b"a\0b\0c").unwrap();
    assert_eq!(pairs, vec![("a".to_string(), "b".to_string())]);
    assert_eq!(split_properties(b"").unwrap(), vec![]);
    assert_eq!(
        split_properties(b"n\0\xc3\xa9\0").unwrap(),
        vec![("n".to_string(), "\u{e9}".to_string())]
    );
    assert!(split_properties(b"a\0\xc3").is_none());
    assert!(split_properties(b"\xff\0a\0b").is_none());
}

#[test]
fn morphology_metadata_header() {
    let body = dog_properties();
    let mut buffer = (body.len() as u16).to_le_bytes().to_vec();
    buffer.push(0);
    buffer.extend_from_slice(&body);
    buffer.extend_from_slice(b"trailing");
    assert!(hfst_section_fits(&buffer));
    let (meta, used) = decode_hfst_metadata_header(&buffer).unwrap();
    assert_eq!(used, 107);
    assert_eq!(meta.len(), 4);
    assert_eq!(meta[1].name(), "type");
    assert_eq!(meta[1].value(), "HFST_OL");
    assert!(!hfst_section_fits(&[9, 0, 0]));
    assert!(!hfst_section_fits(&[1]));
    assert_eq!(decode_hfst_metadata_header(&[2, 0, 0, 0xff, 0]).unwrap_err(), MetadataError::InvalidUtf8);
    assert_eq!(decode_hfst_metadata_header(&[2, 0, 0, b'a', b'b']).unwrap_err(), MetadataError::Malformed);
    assert_eq!(decode_hfst_metadata_header(&[2, 0, 7, b'a', 0]).unwrap_err(), MetadataError::Malformed);
    let (empty, used) = decode_hfst_metadata_header(&[0, 0, 0]).unwrap();
    assert!(empty.is_empty());
    assert_eq!(used, 3);
}

#[test]
fn morphology_section_of_greatest_length() {
    let mut buffer = vec![0xff, 0xff, 0];
    buffer.extend(std::iter::repeat(b'x').take(65534));
    buffer.push(0);
    assert_eq!(buffer.len(), 65538);
    assert!(hfst_section_fits(&buffer));
    let (meta, used) = decode_hfst_metadata_header(&buffer).unwrap();
    assert_eq!(used, 65538);
    assert_eq!(meta.len(), 1);
    assert_eq!(meta[0].name().len(), 65534);
    assert_eq!(meta[0].value(), "");
    assert!(!hfst_section_fits(&buffer[..65537]));
}

fn props(num_symbols: u16) -> HfstolProperties {
    HfstolProperties {
        num_input_symbols: 0,
        num_symbols,
        transition_index_size: 0,
        transition_table_size: 0,
        num_states: 0,
        num_transitions: 0,
        weighted: 0,
        deterministic: 0,
        input_deterministic: 0,
        minimized: 0,
        cyclic: 0,
        has_epsilon_epsilon_transitions: 0,
        has_input_epsilon_transitions: 0,
        has_input_epsilon_cycles: 0,
        has_unweighted_input_epsilon_cycles: 0,
    }
}

#[test]
fn symbols_are_split_into_alphabet_and_special() {
    let bytes = b"\x01\x00\x00@_EPSILON_SYMBOL_@\0a\0b\0@P.X.Y@\0^C\0zz";
    assert!(symbol_table_fits(bytes, 5));
    let (alphabet, special) = parse_symbols(bytes, props(5));
    assert_eq!(alphabet, vec![b"a".to_vec(), b"b".to_vec()]);
    assert_eq!(special, vec![b"@_EPSILON_SYMBOL_@".to_vec(), b"@P.X.Y@".to_vec(), b"^C".to_vec()]);
    let tokenizer = Tokenizer::new(bytes, props(2));
    assert_eq!(tokenizer.alphabet, vec![b"a".to_vec()]);
    assert_eq!(tokenizer.special_symbols, vec![b"@_EPSILON_SYMBOL_@".to_vec()]);
}

#[test]
fn symbol_tables_that_do_not_fit() {
    assert!(!symbol_table_fits(b"no at sign\0", 1));
    assert!(!symbol_table_fits(b"@a\0", 2));
    assert!(!symbol_table_fits(b"@a\0\0b\0", 2));
    assert!(symbol_table_fits(b"", 0) == false);
    assert!(symbol_table_fits(b"@", 0));
}

#[test]
fn tokenizer_display_text() {
    let bytes = b"@x@\0d\0o\0";
    let tokenizer = Tokenizer::new(bytes, props(3));
    assert_eq!(
        tokenizer.to_display_string(),
        "Alphabet: [\"d\", \"o\"], special_symbols: [\"@x@\"]"
    );
}
