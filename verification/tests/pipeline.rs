use embed_pipeline::assemble::{dataset_from_pairs, merge, shuffle, split, SplitRatio};
use embed_pipeline::client::{embed_request_body, embed_response, truncate_text, Outcome};
use embed_pipeline::errors::PipelineError;
use embed_pipeline::loader::load_bytes;
use embed_pipeline::persist::{join_lines, persist_all, BufferedPersister};
use embed_pipeline::producer::{produce_all, produce_one};
use embed_pipeline::record::{Dataset, EmbeddingRecord, LabeledText};
use embed_pipeline::token::is_num_token;

fn chars(s: &str) -> Vec<char> {
    s.chars().collect()
}

fn toks(ts: &[&str]) -> Vec<Vec<u8>> {
    ts.iter().map(|t| t.as_bytes().to_vec()).collect()
}

fn record(ts: &[&str], label: &str) -> EmbeddingRecord {
    EmbeddingRecord { embedding: toks(ts), label: label.as_bytes().to_vec(), text: None }
}

fn ok_body(ts: &[&str]) -> Vec<u8> {
    let mut s = String::from("{\"embedding\":[");
    s.push_str(&ts.join(","));
    s.push_str("]}");
    s.into_bytes()
}

// ---- client: truncation and request building ----

#[test]
fn truncation_bounds_request_length() {
    let text: Vec<char> = std::iter::repeat('x').take(100).collect();
    let t = truncate_text(&text, 4);
    assert_eq!(t.len(), 16);
    assert!(t.iter().all(|&c| c == 'x'));
    let shorter = chars("abc");
    let t2 = truncate_text(&shorter, 4);
    assert_eq!(t2, shorter);
}

#[test]
fn request_body_has_expected_shape() {
    let body = embed_request_body(&chars("hi"), 8).unwrap();
    let s: String = body.into_iter().collect();
    assert_eq!(s, "{\"content\":\"hi\"}");
}

#[test]
fn request_body_escapes_quotes_and_controls() {
    let body = embed_request_body(&chars("a\"b\\c\nd"), 8).unwrap();
    let s: String = body.into_iter().collect();
    assert_eq!(s, "{\"content\":\"a\\\"b\\\\c\\u000ad\"}");
}

#[test]
fn empty_text_is_invalid_input_before_any_request() {
    let r = embed_request_body(&Vec::new(), 8);
    assert_eq!(r.unwrap_err(), PipelineError::InvalidInput);
}

// ---- client: response interpretation ----

#[test]
fn transport_failure_is_transport() {
    assert_eq!(embed_response(&Outcome::NoResponse).unwrap_err(), PipelineError::Transport);
}

#[test]
fn non_2xx_is_remote_rejected() {
    let r = embed_response(&Outcome::Response(500, ok_body(&["1.0"])));
    assert_eq!(r.unwrap_err(), PipelineError::RemoteRejected);
}

#[test]
fn success_body_yields_tokens() {
    let r = embed_response(&Outcome::Response(200, ok_body(&["0.1", "0.2"]))).unwrap();
    assert_eq!(r, toks(&["0.1", "0.2"]));
}

#[test]
fn success_body_with_whitespace_yields_tokens() {
    let body = b"{ \"embedding\" : [ 1 , 2.5 ] }".to_vec();
    let r = embed_response(&Outcome::Response(204, body)).unwrap();
    assert_eq!(r, toks(&["1", "2.5"]));
}

#[test]
fn bad_success_body_is_malformed_response() {
    let r = embed_response(&Outcome::Response(200, b"not json".to_vec()));
    assert_eq!(r.unwrap_err(), PipelineError::MalformedResponse);
    let r2 = embed_response(&Outcome::Response(200, b"{\"embedding\":[]}".to_vec()));
    assert_eq!(r2.unwrap_err(), PipelineError::MalformedResponse);
    let r3 = embed_response(&Outcome::Response(200, b"{\"embedding\":[1,\"x\"]}".to_vec()));
    assert_eq!(r3.unwrap_err(), PipelineError::MalformedResponse);
}

// ---- producer ----

#[test]
fn one_failing_item_of_three_keeps_the_run_going() {
    let items = vec![
        LabeledText { text: chars("first"), label: b"1.0".to_vec() },
        LabeledText { text: chars("second"), label: b"0.0".to_vec() },
        LabeledText { text: chars("third"), label: b"1.0".to_vec() },
    ];
    let outcomes = vec![
        Outcome::Response(200, ok_body(&["0.1", "0.2"])),
        Outcome::Response(503, ok_body(&["9"])),
        Outcome::Response(200, ok_body(&["0.3", "0.4"])),
    ];
    let rs = produce_all(&items, &outcomes);
    assert_eq!(rs.len(), 3);
    assert!(rs[0].is_ok());
    assert_eq!(rs[1].as_ref().unwrap_err(), &PipelineError::RemoteRejected);
    assert!(rs[2].is_ok());

    let (lines, summary) = persist_all(rs, 100);
    assert_eq!(summary.written, 2);
    assert_eq!(summary.failed, 1);
    assert_eq!(lines.len(), 2);
    assert_eq!(lines[0], b"{\"embedding\":[0.1,0.2],\"label\":1.0}".to_vec());
    assert_eq!(lines[1], b"{\"embedding\":[0.3,0.4],\"label\":1.0}".to_vec());
}

#[test]
fn produced_record_carries_label_and_text() {
    let item = LabeledText { text: chars("hello"), label: b"0.0".to_vec() };
    let rec = produce_one(&item, &Outcome::Response(200, ok_body(&["7"]))).unwrap();
    assert_eq!(rec.embedding, toks(&["7"]));
    assert_eq!(rec.label, b"0.0".to_vec());
    assert_eq!(rec.text, Some(chars("hello")));
}

#[test]
fn empty_item_fails_without_outcome_mattering() {
    let item = LabeledText { text: Vec::new(), label: b"1".to_vec() };
    let r = produce_one(&item, &Outcome::Response(200, ok_body(&["7"])));
    assert_eq!(r.unwrap_err(), PipelineError::InvalidInput);
}

// ---- persister ----

#[test]
fn persister_flushes_full_batches_and_the_remainder() {
    let mut p = BufferedPersister::new(2);
    assert!(p.offer(Ok(record(&["1"], "1.0"))).is_empty());
    let batch = p.offer(Ok(record(&["2"], "0.0")));
    assert_eq!(batch.len(), 2);
    assert_eq!(batch[0], b"{\"embedding\":[1],\"label\":1.0}".to_vec());
    assert_eq!(batch[1], b"{\"embedding\":[2],\"label\":0.0}".to_vec());
    assert!(p.offer(Err(PipelineError::Transport)).is_empty());
    assert!(p.offer(Ok(record(&["3"], "1.0"))).is_empty());
    let rest = p.finish();
    assert_eq!(rest.len(), 1);
    assert_eq!(p.written, 3);
    assert_eq!(p.failed, 1);
}

// ---- loader: the persisted formats ----

#[test]
fn round_trip_flat_lines() {
    let results = vec![
        Ok(record(&["0.25", "1.5"], "1.0")),
        Ok(record(&["-2e-3", "0.75"], "0.0")),
    ];
    let (lines, _) = persist_all(results, 10);
    let bytes = join_lines(&lines);
    let d = load_bytes(&bytes);
    assert_eq!(d.features.len(), 2);
    assert_eq!(d.labels.len(), 2);
    assert_eq!(d.features[0], toks(&["0.25", "1.5"]));
    assert_eq!(d.features[1], toks(&["-2e-3", "0.75"]));
    assert_eq!(d.labels[0], b"1.0".to_vec());
    assert_eq!(d.labels[1], b"0.0".to_vec());
    // the numeric values survive exactly
    let v: f64 = String::from_utf8(d.features[0][0].clone()).unwrap().parse().unwrap();
    assert_eq!(v, 0.25f64);
}

#[test]
fn flat_lines_with_extra_fields_and_order_load() {
    let bytes = b"{\"text\":\"abc\",\"label\":1.0,\"embedding\":[1,2]}\n".to_vec();
    let d = load_bytes(&bytes);
    assert_eq!(d.features, vec![toks(&["1", "2"])]);
    assert_eq!(d.labels, vec![b"1.0".to_vec()]);
}

#[test]
fn tuple_entry_lines_load() {
    let bytes = b"{\"embedding\":[3,4],\"entry\":[\"some text\",0.0]}\n".to_vec();
    let d = load_bytes(&bytes);
    assert_eq!(d.features, vec![toks(&["3", "4"])]);
    assert_eq!(d.labels, vec![b"0.0".to_vec()]);
}

#[test]
fn array_document_loads_in_order() {
    let bytes = b"[\n  {\"embedding\": [1], \"label\": 1},\n  {\"embedding\": [2], \"label\": 0}\n]".to_vec();
    let d = load_bytes(&bytes);
    assert_eq!(d.features, vec![toks(&["1"]), toks(&["2"])]);
    assert_eq!(d.labels, vec![b"1".to_vec(), b"0".to_vec()]);
}

#[test]
fn aggregate_document_excludes_empty_sentinel() {
    let bytes =
        b"{\"embeddings\": [[0.1,0.2],[0.3,0.4]], \"dataset\": [[\"hello\",1.0],[\"empty\",0.0]]}"
        .to_vec();
    let d = load_bytes(&bytes);
    assert_eq!(d.features, vec![toks(&["0.1", "0.2"])]);
    assert_eq!(d.labels, vec![b"1.0".to_vec()]);
}

#[test]
fn malformed_lines_are_skipped_not_fatal() {
    let bytes = b"{\"embedding\":[1],\"label\":1}\nnot json at all\n{\"embedding\":[2],\"label\":0}\n"
        .to_vec();
    let d = load_bytes(&bytes);
    assert_eq!(d.features.len(), 2);
}

#[test]
fn non_numeric_scalars_are_dropped_from_the_vector() {
    let bytes = b"{\"embedding\":[1,\"x\",2],\"label\":0}\n".to_vec();
    let d = load_bytes(&bytes);
    assert_eq!(d.features, vec![toks(&["1", "2"])]);
}

#[test]
fn empty_embeddings_are_skipped() {
    let bytes = b"{\"embedding\":[],\"label\":0}\n".to_vec();
    let d = load_bytes(&bytes);
    assert_eq!(d.features.len(), 0);
    assert_eq!(d.labels.len(), 0);
}

// ---- assembler ----

fn sample_dataset(n: usize) -> Dataset {
    let mut es = Vec::new();
    for i in 0..n {
        let t = format!("{}", i);
        es.push((vec![t.as_bytes().to_vec()], b"1.0".to_vec()));
    }
    dataset_from_pairs(es)
}

#[test]
fn split_sizes_are_floor_of_ratio() {
    let d = sample_dataset(5);
    let (a, b) = split(d, SplitRatio { num: 4, den: 5 });
    assert_eq!(a.features.len(), 4);
    assert_eq!(b.features.len(), 1);
    assert_eq!(a.labels.len(), 4);
    assert_eq!(b.labels.len(), 1);
    // order is preserved, no reshuffling
    assert_eq!(a.features[0], toks(&["0"]));
    assert_eq!(b.features[0], toks(&["4"]));
}

#[test]
fn split_sizes_sum_and_floor_on_odd_lengths() {
    let d = sample_dataset(7);
    let (a, b) = split(d, SplitRatio { num: 1, den: 2 });
    assert_eq!(a.features.len(), 3);
    assert_eq!(b.features.len(), 4);
}

#[test]
fn shuffle_preserves_pairs_and_alignment() {
    let mut es = Vec::new();
    for i in 0..20usize {
        let f = format!("{}", i);
        let l = format!("{}.0", i);
        es.push((vec![f.as_bytes().to_vec()], l.as_bytes().to_vec()));
    }
    let before: Vec<(Vec<Vec<u8>>, Vec<u8>)> = es.clone();
    let d = dataset_from_pairs(es);
    let s = shuffle(d);
    assert_eq!(s.features.len(), 20);
    assert_eq!(s.labels.len(), 20);
    let mut after: Vec<(Vec<Vec<u8>>, Vec<u8>)> = s
        .features
        .into_iter()
        .zip(s.labels.into_iter())
        .collect();
    let mut sorted_before = before;
    sorted_before.sort();
    after.sort();
    assert_eq!(sorted_before, after);
}

#[test]
fn merge_concatenates_uniform_dimensions() {
    let d1 = dataset_from_pairs(vec![(toks(&["1", "2"]), b"1".to_vec())]);
    let d2 = dataset_from_pairs(vec![(toks(&["3", "4"]), b"0".to_vec())]);
    let m = merge(vec![d1, d2]).unwrap();
    assert_eq!(m.features.len(), 2);
    assert_eq!(m.labels.len(), 2);
    assert_eq!(m.features[1], toks(&["3", "4"]));
}

#[test]
fn merge_of_mismatched_dimensions_is_shape_mismatch() {
    let d4 = dataset_from_pairs(vec![(toks(&["1", "2", "3", "4"]), b"1".to_vec())]);
    let d5 = dataset_from_pairs(vec![(toks(&["1", "2", "3", "4", "5"]), b"0".to_vec())]);
    let r = merge(vec![d4, d5]);
    assert_eq!(r.unwrap_err(), PipelineError::ShapeMismatch);
}

// ---- tokens ----

#[test]
fn number_token_shapes() {
    assert!(is_num_token(&b"-1.5e3".to_vec()));
    assert!(is_num_token(&b"0".to_vec()));
    assert!(is_num_token(&b"-0.5".to_vec()));
    assert!(is_num_token(&b"1e+10".to_vec()));
    assert!(is_num_token(&b"1.25E-3".to_vec()));
    assert!(!is_num_token(&b"".to_vec()));
    assert!(!is_num_token(&b"+1".to_vec()));
    assert!(!is_num_token(&b"abc".to_vec()));
    // number-shaped non-numbers are not tokens
    assert!(!is_num_token(&b"--".to_vec()));
    assert!(!is_num_token(&b"1..2".to_vec()));
    assert!(!is_num_token(&b"1e".to_vec()));
    assert!(!is_num_token(&b"01".to_vec()));
    assert!(!is_num_token(&b"1.".to_vec()));
    assert!(!is_num_token(&b"-".to_vec()));
}

#[test]
fn invalid_number_literals_make_the_line_malformed() {
    let bytes = b"{\"embedding\":[1e],\"label\":1}\n{\"embedding\":[2],\"label\":0}\n".to_vec();
    let d = load_bytes(&bytes);
    assert_eq!(d.features, vec![toks(&["2"])]);
    assert_eq!(d.labels, vec![b"0".to_vec()]);
}

#[test]
fn load_many_concatenates_sources_in_order() {
    let s1 = b"{\"embedding\":[1],\"label\":1}\n".to_vec();
    let s2 = b"{\"embedding\":[2],\"label\":0}\n".to_vec();
    let d = embed_pipeline::loader::load_many(&vec![s1, s2]);
    assert_eq!(d.features, vec![toks(&["1"]), toks(&["2"])]);
    assert_eq!(d.labels, vec![b"1".to_vec(), b"0".to_vec()]);
}

#[test]
fn unopenable_source_contributes_an_empty_result() {
    // a source that could not be read hands the loader no bytes at all
    let d = load_bytes(&Vec::new());
    assert_eq!(d.features.len(), 0);
    assert_eq!(d.labels.len(), 0);
}
