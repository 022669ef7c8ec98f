use prometheus::desc::LabelPair;
use prometheus::encoder::check_metric_family;
use prometheus::encoder::BinaryEncoder;
use prometheus::encoder::Encoder;
use prometheus::encoder::TextEncoder;
use prometheus::errors::Error;
use prometheus::family::Metric;
use prometheus::family::MetricFamily;
use prometheus::family::MetricType;

fn label(name: &str, value: &str) -> LabelPair {
    LabelPair::new(name.to_string(), value.to_string())
}

fn le64(x: u64) -> Vec<u8> {
    x.to_le_bytes().to_vec()
}

fn le32(x: u32) -> Vec<u8> {
    x.to_le_bytes().to_vec()
}

fn str_bin(s: &str) -> Vec<u8> {
    let mut out = le64(s.chars().count() as u64);
    for c in s.chars() {
        out.extend(le32(c as u32));
    }
    out
}

#[test]
fn test_bad_metrics() {
    let text = TextEncoder::new();
    let binary = BinaryEncoder::new();
    let mut text_writer = String::new();
    let mut binary_writer: Vec<u8> = Vec::new();

    // Empty metrics.
    let mut mfs = vec![MetricFamily::new(
        "test_counter_vec".to_string(),
        "help information".to_string(),
        MetricType::Counter,
        Vec::new(),
    )];
    check_metric_family(&mfs[0]).unwrap_err();
    text.encode(&mfs, &mut text_writer).unwrap_err();
    assert_eq!(text_writer.len(), 0);
    binary.encode(&mfs, &mut binary_writer).unwrap_err();
    assert_eq!(binary_writer.len(), 0);

    // Add a metric, then empty the name.
    mfs[0].metrics = vec![Metric::new(vec![label("labelname", "foo")], 1, None)];
    mfs[0].clear_name();
    check_metric_family(&mfs[0]).unwrap_err();
    text.encode(&mfs, &mut text_writer).unwrap_err();
    assert_eq!(text_writer.len(), 0);
    binary.encode(&mfs, &mut binary_writer).unwrap_err();
    assert_eq!(binary_writer.len(), 0);
}

#[test]
fn test_family_error_variants() {
    let no_metrics = MetricFamily::new(
        "test_counter_vec".to_string(),
        "help information".to_string(),
        MetricType::Counter,
        Vec::new(),
    );
    assert!(matches!(
        check_metric_family(&no_metrics).unwrap_err(),
        Error::NoMetrics
    ));

    let unnamed = MetricFamily::new(
        String::new(),
        "help information".to_string(),
        MetricType::Counter,
        vec![Metric::new(Vec::new(), 1, None)],
    );
    assert!(matches!(
        check_metric_family(&unnamed).unwrap_err(),
        Error::MissingName
    ));
}

#[test]
fn test_text_encode_exact() {
    let mfs = vec![MetricFamily::new(
        "requests_total".to_string(),
        "How many requests.".to_string(),
        MetricType::Counter,
        vec![
            Metric::new(vec![label("code", "200"), label("path", "/")], 1027, None),
            Metric::new(Vec::new(), 3, Some(-42)),
        ],
    )];
    let mut out = String::new();
    TextEncoder::new().encode(&mfs, &mut out).unwrap();
    assert_eq!(
        out,
        "# HELP requests_total How many requests.\n\
         # TYPE requests_total counter\n\
         requests_total{code=\"200\",path=\"/\"} 1027\n\
         requests_total 3 -42\n"
    );
}

#[test]
fn test_text_encode_appends_in_order() {
    let family = |name: &str| {
        MetricFamily::new(
            name.to_string(),
            "h".to_string(),
            MetricType::Untyped,
            vec![Metric::new(Vec::new(), 0, None)],
        )
    };
    let mfs = vec![family("one"), family("two")];
    let mut out = String::new();
    TextEncoder::new().encode(&mfs, &mut out).unwrap();
    assert_eq!(
        out,
        "# HELP one h\n# TYPE one untyped\none 0\n\
         # HELP two h\n# TYPE two untyped\ntwo 0\n"
    );
}

#[test]
fn test_binary_encode_exact() {
    let mfs = vec![MetricFamily::new(
        "ab".to_string(),
        String::new(),
        MetricType::Untyped,
        vec![Metric::new(vec![label("k", "v")], 258, Some(7))],
    )];
    let mut out: Vec<u8> = Vec::new();
    BinaryEncoder::new().encode(&mfs, &mut out).unwrap();

    let mut body: Vec<u8> = Vec::new();
    body.extend(str_bin("ab"));
    body.extend(str_bin(""));
    body.push(4u8); // untyped
    body.extend(le64(1)); // one metric
    body.extend(le64(1)); // one label pair
    body.extend(str_bin("k"));
    body.extend(str_bin("v"));
    body.extend(le64(258));
    body.push(1u8); // timestamp present
    body.extend(le64(7));

    let mut expected = le64(body.len() as u64);
    expected.extend(body);
    assert_eq!(out, expected);
}

#[test]
fn test_binary_encode_one_record_per_family() {
    let family = |name: &str| {
        MetricFamily::new(
            name.to_string(),
            String::new(),
            MetricType::Counter,
            vec![Metric::new(Vec::new(), 1, None)],
        )
    };
    let mfs = vec![family("a"), family("bc")];
    let mut out: Vec<u8> = Vec::new();
    BinaryEncoder::new().encode(&mfs, &mut out).unwrap();

    // Walk the length-delimited framing: two records, nothing more.
    let mut records = 0;
    let mut at = 0;
    while at < out.len() {
        let mut len_bytes = [0u8; 8];
        len_bytes.copy_from_slice(&out[at..at + 8]);
        let len = u64::from_le_bytes(len_bytes) as usize;
        at += 8 + len;
        records += 1;
    }
    assert_eq!(at, out.len());
    assert_eq!(records, 2);
}

#[test]
fn test_format_types() {
    assert_eq!(TextEncoder::new().format_type(), "text/plain; version=0.0.4");
    assert_eq!(
        BinaryEncoder::new().format_type(),
        "application/octet-stream; schema=metric-family; encoding=delimited"
    );
}

#[test]
fn test_error_leaves_earlier_families_unwritten() {
    // The first family is fine, the second is not: nothing may be written.
    let good = MetricFamily::new(
        "good".to_string(),
        "h".to_string(),
        MetricType::Counter,
        vec![Metric::new(Vec::new(), 1, None)],
    );
    let bad = MetricFamily::new(
        "bad".to_string(),
        "h".to_string(),
        MetricType::Counter,
        Vec::new(),
    );
    let mfs = vec![good, bad];
    let mut text_writer = String::new();
    assert!(matches!(
        TextEncoder::new().encode(&mfs, &mut text_writer).unwrap_err(),
        Error::NoMetrics
    ));
    assert_eq!(text_writer.len(), 0);
    let mut binary_writer: Vec<u8> = Vec::new();
    assert!(matches!(
        BinaryEncoder::new().encode(&mfs, &mut binary_writer).unwrap_err(),
        Error::NoMetrics
    ));
    assert_eq!(binary_writer.len(), 0);
}

#[test]
fn test_error_message_texts() {
    assert_eq!(
        Error::NotRegistered.message(),
        "collector is not registered"
    );
    assert_eq!(
        Error::Msg("custom condition".to_string()).message(),
        "custom condition"
    );
}
