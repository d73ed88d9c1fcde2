use fits::data::BLOCK_SIZE;
use fits::decode;
use fits::header::Bitpix;
use fits::parsing::parse_header;
use fits::parsing::Keyword;
use fits::values::Value;
use fits::Error;

fn card(text: &str) -> Vec<u8> {
    let mut v: Vec<u8> = text.bytes().collect();
    assert!(v.len() <= 80);
    while v.len() < 80 {
        v.push(b' ');
    }
    v
}

fn file(cards: &[&str], data: &[u8]) -> Vec<u8> {
    let mut buf: Vec<u8> = Vec::new();
    for c in cards {
        buf.extend_from_slice(&card(c));
    }
    while buf.len() % BLOCK_SIZE != 0 {
        buf.push(b' ');
    }
    buf.extend_from_slice(data);
    buf
}

#[test]
fn end_to_end_decode_test() {
    let mut data: Vec<u8> = Vec::new();
    data.extend_from_slice(&1.0f64.to_be_bytes());
    data.extend_from_slice(&2.0f64.to_be_bytes());
    assert_eq!(data.len(), 16);
    let buf = file(
        &["SIMPLE  = T", "BITPIX  = -64", "NAXIS   = 1", "NAXIS1  = 2", "END"],
        &data,
    );
    let (header, decoded) = decode(&buf).unwrap();
    assert!(header.simple);
    assert_eq!(header.bitpix, Bitpix::Float64);
    assert_eq!(header.naxis.get(), 1);
    assert_eq!(header.axes, vec![2]);
    let decoded = decoded.unwrap();
    let floats: Vec<f64> = decoded.values.iter().map(|b| f64::from_bits(*b)).collect();
    assert_eq!(floats, vec![1.0, 2.0]);
}

#[test]
fn decoded_length_matches_shape_test() {
    let mut data: Vec<u8> = Vec::new();
    for k in 0..6 {
        data.extend_from_slice(&(k as f64).to_be_bytes());
    }
    let buf = file(
        &[
            "SIMPLE  = T",
            "BITPIX  = -64",
            "NAXIS   = 2",
            "NAXIS1  = 3",
            "NAXIS2  = 2",
            "END",
        ],
        &data,
    );
    let (header, decoded) = decode(&buf).unwrap();
    assert_eq!(header.axes, vec![3, 2]);
    let decoded = decoded.unwrap();
    assert_eq!(decoded.values.len(), header.axes.iter().product::<usize>());
}

#[test]
fn no_axes_no_data_test() {
    let buf = file(&["SIMPLE  = T", "BITPIX  = -64", "NAXIS   = 0", "END"], &[]);
    let (header, decoded) = decode(&buf).unwrap();
    assert_eq!(header.naxis.get(), 0);
    assert_eq!(header.axes, Vec::<usize>::new());
    assert!(decoded.is_none());
}

#[test]
fn truncated_data_test() {
    let mut data: Vec<u8> = Vec::new();
    data.extend_from_slice(&1.0f64.to_be_bytes());
    data.extend_from_slice(&2.0f64.to_be_bytes());
    let mut buf = file(
        &["SIMPLE  = T", "BITPIX  = -64", "NAXIS   = 1", "NAXIS1  = 2", "END"],
        &data,
    );
    assert!(decode(&buf).is_ok());
    buf.pop();
    assert_eq!(decode(&buf).unwrap_err(), Error::TruncatedData);
}

#[test]
fn empty_data_section_is_truncated_test() {
    let buf = file(
        &["SIMPLE  = T", "BITPIX  = -64", "NAXIS   = 1", "NAXIS1  = 1", "END"],
        &[],
    );
    assert_eq!(decode(&buf).unwrap_err(), Error::TruncatedData);
}

#[test]
fn unsupported_bitpix_test() {
    let mut data: Vec<u8> = Vec::new();
    data.extend_from_slice(&[0, 0, 0, 1]);
    let buf = file(
        &["SIMPLE  = T", "BITPIX  = 32", "NAXIS   = 1", "NAXIS1  = 1", "END"],
        &data,
    );
    assert_eq!(decode(&buf).unwrap_err(), Error::UnsupportedBitpix(32));
}

#[test]
fn unsupported_bitpix_without_axes_test() {
    // no data unit is declared, so the missing codec never comes into play
    let buf = file(&["SIMPLE  = T", "BITPIX  = 16", "NAXIS   = 0", "END"], &[]);
    let (header, decoded) = decode(&buf).unwrap();
    assert_eq!(header.bitpix, Bitpix::Int16);
    assert!(decoded.is_none());
}

#[test]
fn malformed_header_test() {
    let empty: Vec<u8> = Vec::new();
    assert_eq!(decode(&empty).unwrap_err(), Error::MalformedHeader);
    let no_end = file(&["SIMPLE  = T", "BITPIX  = -64", "NAXIS   = 0"], &[]);
    assert_eq!(decode(&no_end).unwrap_err(), Error::MalformedHeader);
    let short: Vec<u8> = vec![b' '; 79];
    assert_eq!(decode(&short).unwrap_err(), Error::MalformedHeader);
}

#[test]
fn unsupported_literal_test() {
    let buf = file(
        &["SIMPLE  = T", "CPLX    = (1,2)", "BITPIX  = -64", "NAXIS   = 0", "END"],
        &[],
    );
    assert_eq!(decode(&buf).unwrap_err(), Error::UnsupportedLiteral);
}

#[test]
fn missing_mandatory_keyword_test() {
    let buf = file(&["SIMPLE  = T", "END"], &[]);
    assert_eq!(
        decode(&buf).unwrap_err(),
        Error::InvalidMandatoryKeyword("NAXIS".to_string())
    );
    let buf = file(&["SIMPLE  = T", "NAXIS   = 1", "BITPIX  = -64", "END"], &[]);
    assert_eq!(
        decode(&buf).unwrap_err(),
        Error::InvalidMandatoryKeyword("NAXIS1".to_string())
    );
    let buf = file(&["SIMPLE  = T", "NAXIS   = 0", "BITPIX  = 7", "END"], &[]);
    assert_eq!(
        decode(&buf).unwrap_err(),
        Error::InvalidMandatoryKeyword("BITPIX".to_string())
    );
}

#[test]
fn continuation_merge_test() {
    let buf = file(&["KEY     = 'abc&'", "CONTINUE= 'def'", "END"], &[]);
    let (keywords, _start) = parse_header(&buf).unwrap();
    assert_eq!(
        keywords,
        vec![Keyword::Value(
            "KEY".to_string(),
            Value::Str("abcdef".to_string()),
            String::new()
        )]
    );
}

#[test]
fn continuation_merges_comments_test() {
    // the sentinel is stripped from the string and the comment alike
    let buf = file(
        &["KEY     = 'abc&' / note&", "CONTINUE= 'def' / more", "END"],
        &[],
    );
    let (keywords, _start) = parse_header(&buf).unwrap();
    assert_eq!(
        keywords,
        vec![Keyword::Value(
            "KEY".to_string(),
            Value::Str("abcdef".to_string()),
            "notemore".to_string()
        )]
    );
}

#[test]
fn continuation_without_predecessor_test() {
    let buf = file(&["CONTINUE= 'def'", "END"], &[]);
    let (keywords, _start) = parse_header(&buf).unwrap();
    assert_eq!(
        keywords,
        vec![Keyword::Continue(
            "CONTINUE".to_string(),
            Value::Str("def".to_string()),
            String::new()
        )]
    );
}

#[test]
fn continuation_after_plain_string_stays_test() {
    // the predecessor's string does not end in the sentinel: no merge
    let buf = file(&["KEY     = 'abc'", "CONTINUE= 'def'", "END"], &[]);
    let (keywords, _start) = parse_header(&buf).unwrap();
    assert_eq!(keywords.len(), 2);
    assert_eq!(
        keywords[1],
        Keyword::Continue("CONTINUE".to_string(), Value::Str("def".to_string()), String::new())
    );
}

#[test]
fn reshaped_view_test() {
    let mut data: Vec<u8> = Vec::new();
    for k in 0..6 {
        data.extend_from_slice(&(k as f64).to_be_bytes());
    }
    let buf = file(
        &[
            "SIMPLE  = T",
            "BITPIX  = -64",
            "NAXIS   = 2",
            "NAXIS1  = 3",
            "NAXIS2  = 2",
            "END",
        ],
        &data,
    );
    let (header, decoded) = decode(&buf).unwrap();
    let decoded = decoded.unwrap();
    // the first axis varies fastest: element (x, y) sits at x + 3 * y
    for y in 0..2usize {
        for x in 0..3usize {
            let v = decoded.at(&vec![x, y], &header.axes);
            assert_eq!(f64::from_bits(v), (x + 3 * y) as f64);
        }
    }
    assert_eq!(fits::data::offset_of(&vec![2, 1], &vec![3, 2]), 5);
    assert_eq!(fits::data::offset_of(&vec![0, 0], &vec![3, 2]), 0);
}

#[test]
fn data_starts_at_block_boundary_test() {
    let buf = file(&["SIMPLE  = T", "BITPIX  = -64", "NAXIS   = 0", "END"], &[]);
    let (_keywords, start) = parse_header(&buf).unwrap();
    assert_eq!(start, BLOCK_SIZE);
}

#[test]
fn header_spans_two_blocks_test() {
    let mut cards: Vec<String> = vec![
        "SIMPLE  = T".to_string(),
        "BITPIX  = -64".to_string(),
        "NAXIS   = 1".to_string(),
        "NAXIS1  = 1".to_string(),
    ];
    for k in 0..40 {
        cards.push(format!("COMMENT filler line {}", k));
    }
    cards.push("END".to_string());
    let refs: Vec<&str> = cards.iter().map(|s| s.as_str()).collect();
    let buf = file(&refs, &3.5f64.to_be_bytes());
    let (keywords, start) = parse_header(&buf).unwrap();
    assert_eq!(start, 2 * BLOCK_SIZE);
    assert_eq!(keywords.len(), 44);
    let (header, decoded) = decode(&buf).unwrap();
    assert_eq!(header.axes, vec![1]);
    let decoded = decoded.unwrap();
    assert_eq!(f64::from_bits(decoded.values[0]), 3.5);
}
