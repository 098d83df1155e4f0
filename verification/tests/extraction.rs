use wasm_data_extract::digits::to_decimal;
use wasm_data_extract::loader::{extract_plan, ExtractError};
use wasm_data_extract::router::{plan, select, status_line, suffixed_path, OutputTarget};
use wasm_data_extract::selector::{parse_index_token, parse_indices, SelectError};

/// A minimal binary module whose data section holds the given payloads, in
/// order: a one-page memory and one active data segment per payload.
fn wasm_with_segments(segs: &[&[u8]]) -> Vec<u8> {
    let mut v = vec![0x00, 0x61, 0x73, 0x6d, 0x01, 0x00, 0x00, 0x00];
    v.extend_from_slice(&[0x05, 0x03, 0x01, 0x00, 0x01]);
    let mut body = vec![segs.len() as u8];
    for s in segs {
        assert!(s.len() < 128);
        body.push(0x00);
        body.extend_from_slice(&[0x41, 0x00, 0x0b]);
        body.push(s.len() as u8);
        body.extend_from_slice(s);
    }
    v.push(0x0b);
    v.push(body.len() as u8);
    v.extend_from_slice(&body);
    v
}

fn strings(toks: &[&str]) -> Vec<String> {
    toks.iter().map(|t| t.to_string()).collect()
}

#[test]
fn selector_collects_sorted_unique() {
    let r = parse_indices(&strings(&["5", "2", "5", "0"]));
    assert_eq!(r.ok().unwrap(), vec![0, 2, 5]);
}

#[test]
fn selector_accepts_leading_zeros() {
    let r = parse_indices(&strings(&["007"]));
    assert_eq!(r.ok().unwrap(), vec![7]);
}

#[test]
fn selector_rejects_empty_list() {
    match parse_indices(&strings(&[])) {
        Err(SelectError::NoIndices) => {}
        _ => panic!("an empty token list must be rejected"),
    }
}

#[test]
fn selector_rejects_first_bad_token() {
    match parse_indices(&strings(&["1", "x", "2", "y"])) {
        Err(SelectError::InvalidIndex(t)) => assert_eq!(t, "x"),
        _ => panic!("a non-integer token must be rejected"),
    }
}

#[test]
fn selector_rejects_negative_token() {
    match parse_indices(&strings(&["-1"])) {
        Err(SelectError::InvalidIndex(t)) => assert_eq!(t, "-1"),
        _ => panic!("a negative token must be rejected"),
    }
}

#[test]
fn selector_rejects_oversized_token() {
    match parse_indices(&strings(&["99999999999999999999999999"])) {
        Err(SelectError::InvalidIndex(_)) => {}
        _ => panic!("a token past the index range must be rejected"),
    }
}

#[test]
fn token_parse_is_exact() {
    assert_eq!(parse_index_token("123"), Some(123));
    assert_eq!(parse_index_token("0"), Some(0));
    assert_eq!(parse_index_token(""), None);
    assert_eq!(parse_index_token("1a"), None);
    assert_eq!(parse_index_token("+5"), None);
}

#[test]
fn select_pairs_requested_indices_with_segments() {
    let segments: Vec<Vec<u8>> = vec![b"abcd".to_vec(), b"".to_vec(), b"0123456789".to_vec()];
    let pairs = select(&segments, &vec![0, 2]);
    assert_eq!(pairs.len(), 2);
    assert_eq!(pairs[0].0, 0);
    assert_eq!(pairs[0].1, b"abcd".to_vec());
    assert_eq!(pairs[1].0, 2);
    assert_eq!(pairs[1].1, b"0123456789".to_vec());
}

#[test]
fn select_ignores_absent_indices() {
    let segments: Vec<Vec<u8>> = vec![b"a".to_vec(), b"b".to_vec(), b"c".to_vec()];
    let pairs = select(&segments, &vec![1, 5]);
    assert_eq!(pairs.len(), 1);
    assert_eq!(pairs[0].0, 1);
    assert_eq!(pairs[0].1, b"b".to_vec());
}

#[test]
fn plan_routes_to_stdout_in_order() {
    let segments: Vec<Vec<u8>> = vec![b"abcd".to_vec(), b"".to_vec(), b"0123456789".to_vec()];
    let acts = plan(&segments, &vec![0, 2], None);
    assert_eq!(acts.len(), 2);
    let mut stream: Vec<u8> = Vec::new();
    for a in &acts {
        assert!(matches!(a.target, OutputTarget::Stdout));
        stream.extend_from_slice(&a.payload);
    }
    assert_eq!(acts[0].index, 0);
    assert_eq!(acts[1].index, 2);
    assert_eq!(status_line(acts[0].index, acts[0].payload.len()), "data 0 has len 4");
    assert_eq!(status_line(acts[1].index, acts[1].payload.len()), "data 2 has len 10");
    assert_eq!(stream, b"abcd0123456789".to_vec());
}

#[test]
fn plan_single_selection_uses_bare_path() {
    let segments: Vec<Vec<u8>> = vec![b"aa".to_vec(), b"payload".to_vec()];
    let out = "out".to_string();
    let acts = plan(&segments, &vec![1], Some(&out));
    assert_eq!(acts.len(), 1);
    assert_eq!(acts[0].payload, b"payload".to_vec());
    match &acts[0].target {
        OutputTarget::File(p) => assert_eq!(p, "out"),
        _ => panic!("a single selection with an output path must go to a file"),
    }
}

#[test]
fn plan_multi_selection_suffixes_each_file() {
    let segments: Vec<Vec<u8>> =
        (0..6).map(|i| vec![i as u8; i + 1]).collect();
    let out = "out".to_string();
    let acts = plan(&segments, &vec![2, 5], Some(&out));
    assert_eq!(acts.len(), 2);
    match &acts[0].target {
        OutputTarget::File(p) => assert_eq!(p, "out.2"),
        _ => panic!("expected a file target"),
    }
    match &acts[1].target {
        OutputTarget::File(p) => assert_eq!(p, "out.5"),
        _ => panic!("expected a file target"),
    }
    assert_eq!(acts[0].payload, vec![2u8; 3]);
    assert_eq!(acts[1].payload, vec![5u8; 6]);
    for a in &acts {
        match &a.target {
            OutputTarget::File(p) => assert_ne!(p, "out"),
            _ => panic!("expected a file target"),
        }
    }
}

#[test]
fn decimal_rendering_is_exact() {
    assert_eq!(to_decimal(0), "0");
    assert_eq!(to_decimal(7), "7");
    assert_eq!(to_decimal(905), "905");
    assert_eq!(suffixed_path(&"out".to_string(), 25), "out.25");
    assert_eq!(status_line(31, 1000), "data 31 has len 1000");
}

#[test]
fn extract_plan_reads_real_module_segments() {
    let bytes = wasm_with_segments(&[b"abcd", b"", b"0123456789"]);
    let acts = extract_plan(&bytes, &strings(&["0", "2"]), None).ok().unwrap();
    assert_eq!(acts.len(), 2);
    assert_eq!(acts[0].index, 0);
    assert_eq!(acts[0].payload, b"abcd".to_vec());
    assert_eq!(acts[1].index, 2);
    assert_eq!(acts[1].payload, b"0123456789".to_vec());
    for a in &acts {
        assert!(matches!(a.target, OutputTarget::Stdout));
    }
}

#[test]
fn extract_plan_absent_index_is_not_an_error() {
    let bytes = wasm_with_segments(&[b"a", b"b", b"c"]);
    let out = "out".to_string();
    let acts = extract_plan(&bytes, &strings(&["5"]), Some(&out)).ok().unwrap();
    assert_eq!(acts.len(), 0);
}

#[test]
fn extract_plan_rejects_garbage_bytes() {
    let bytes = vec![0xde, 0xad, 0xbe, 0xef];
    match extract_plan(&bytes, &strings(&["0"]), None) {
        Err(ExtractError::BadModule(_)) => {}
        _ => panic!("bytes that are no module must be rejected"),
    }
}

#[test]
fn extract_plan_checks_tokens_before_module() {
    let bytes = vec![0xde, 0xad];
    match extract_plan(&bytes, &strings(&["zero"]), None) {
        Err(ExtractError::InvalidIndex(t)) => assert_eq!(t, "zero"),
        _ => panic!("token errors must be found before the module is read"),
    }
    match extract_plan(&bytes, &strings(&[]), None) {
        Err(ExtractError::NoIndices) => {}
        _ => panic!("an empty request must be found before the module is read"),
    }
}

#[test]
fn extract_plan_single_index_file_round_trip() {
    let bytes = wasm_with_segments(&[b"aa", b"payload bytes"]);
    let out = "dest".to_string();
    let acts = extract_plan(&bytes, &strings(&["1"]), Some(&out)).ok().unwrap();
    assert_eq!(acts.len(), 1);
    assert_eq!(acts[0].payload, b"payload bytes".to_vec());
    match &acts[0].target {
        OutputTarget::File(p) => assert_eq!(p, "dest"),
        _ => panic!("expected a file target"),
    }
}
