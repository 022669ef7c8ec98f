//! Encoders: serialize a gathered snapshot into a wire format. Every encoder
//! validates each family before emitting a single byte, so a failing call
//! leaves the sink untouched.

use vstd::prelude::*;
use vstd::string::StrSliceExecFns;
use vstd::string::StringExecFns;
use crate::errors::Error;
use crate::desc::LabelPair;
use crate::family::Metric;
use crate::family::MetricFamily;
use crate::family::MetricType;

verus! {

/// A family an encoder accepts: it has a name and at least one metric.
pub open spec fn family_ok(mf: MetricFamily) -> bool {
    mf.metrics@.len() > 0 && mf.name@.len() > 0
}

/// The error reported for an unacceptable family; the metric check comes
/// first.
pub open spec fn family_error(mf: MetricFamily) -> Error {
    if mf.metrics@.len() == 0 {
        Error::NoMetrics
    } else {
        Error::MissingName
    }
}

/// The error of the first unacceptable family in the list.
pub open spec fn first_bad(s: Seq<MetricFamily>) -> Error
    decreases s.len(),
{
    if s.len() == 0 {
        arbitrary()
    } else if !family_ok(s[0]) {
        family_error(s[0])
    } else {
        first_bad(s.skip(1))
    }
}

proof fn lemma_first_bad(s: Seq<MetricFamily>, i: int)
    requires
        0 <= i < s.len(),
        forall|k: int| 0 <= k < i ==> family_ok(#[trigger] s[k]),
        !family_ok(s[i]),
    ensures
        first_bad(s) == family_error(s[i]),
    decreases i,
{
    if i > 0 {
        assert(forall|k: int| 0 <= k < i - 1 ==> s.skip(1)[k] == #[trigger] s[k + 1]);
        lemma_first_bad(s.skip(1), i - 1);
        assert(s.skip(1)[i - 1] == s[i]);
    }
}

/// Check the structural preconditions every encoder imposes on one family.
pub fn check_metric_family(mf: &MetricFamily) -> (r: Result<(), Error>)
    ensures
        (r is Ok) == family_ok(*mf),
        !family_ok(*mf) ==> r == Err::<(), Error>(family_error(*mf)),
{
    if mf.metrics.len() == 0 {
        return Err(Error::NoMetrics);
    }
    if mf.name.as_str().is_empty() {
        return Err(Error::MissingName);
    }
    Ok(())
}

/// An encoder of gathered metric families.
///
/// `encode` validates every family first and writes nothing at all if any
/// family is unacceptable. It performs no checks on the content of metric or
/// label names: invalid names pass through to invalid output.
pub trait Encoder {
    type Output;

    /// Serialize the families into the sink, all or nothing.
    fn encode(&self, mfs: &Vec<MetricFamily>, writer: &mut Self::Output) -> (r: Result<(), Error>)
        ensures
            r is Err ==> *final(writer) == *old(writer) && r->Err_0 == first_bad(mfs@),
            (r is Ok) == (forall|k: int| 0 <= k < mfs@.len() ==> family_ok(#[trigger] mfs@[k])),
    ;

    /// The content-type-like identifier of the format.
    fn format_type(&self) -> &'static str;
}

/// The decimal digit character for a value below ten.
pub open spec fn dec_digit(d: nat) -> char {
    if d == 0 {
        '0'
    } else if d == 1 {
        '1'
    } else if d == 2 {
        '2'
    } else if d == 3 {
        '3'
    } else if d == 4 {
        '4'
    } else if d == 5 {
        '5'
    } else if d == 6 {
        '6'
    } else if d == 7 {
        '7'
    } else if d == 8 {
        '8'
    } else {
        '9'
    }
}

/// The decimal rendering of a natural number, most significant digit first.
pub open spec fn dec_str(n: nat) -> Seq<char>
    decreases n,
{
    if n < 10 {
        seq![dec_digit(n)]
    } else {
        dec_str(n / 10).push(dec_digit(n % 10))
    }
}

/// The decimal rendering of an integer, with a leading minus when negative.
pub open spec fn int_str(v: int) -> Seq<char> {
    if v < 0 {
        seq!['-'] + dec_str((-v) as nat)
    } else {
        dec_str(v as nat)
    }
}

fn digit_str(d: u64) -> (r: &'static str)
    requires
        d < 10,
    ensures
        r@ == seq![dec_digit(d as nat)],
{
    let r: &'static str = match d {
        0 => "0",
        1 => "1",
        2 => "2",
        3 => "3",
        4 => "4",
        5 => "5",
        6 => "6",
        7 => "7",
        8 => "8",
        _ => "9",
    };
    proof {
        reveal_strlit("0");
        reveal_strlit("1");
        reveal_strlit("2");
        reveal_strlit("3");
        reveal_strlit("4");
        reveal_strlit("5");
        reveal_strlit("6");
        reveal_strlit("7");
        reveal_strlit("8");
        reveal_strlit("9");
        assert(r@ =~= seq![dec_digit(d as nat)]);
    }
    r
}

/// Render an unsigned value in decimal.
pub fn u64_to_string(n: u64) -> (r: String)
    ensures
        r@ == dec_str(n as nat),
    decreases n,
{
    if n < 10 {
        digit_str(n).to_owned()
    } else {
        let mut s = u64_to_string(n / 10);
        s.append(digit_str(n % 10));
        proof {
            assert(s@ =~= dec_str((n / 10) as nat).push(dec_digit((n % 10) as nat)));
        }
        s
    }
}

/// Render a signed value in decimal.
pub fn i64_to_string(v: i64) -> (r: String)
    ensures
        r@ == int_str(v as int),
{
    if v >= 0 {
        let r = u64_to_string(v as u64);
        proof {
            assert((v as u64) as nat == (v as int) as nat);
        }
        r
    } else {
        let m128: i128 = -(v as i128);
        let m: u64 = m128 as u64;
        let mut s = "-".to_owned();
        let digits = u64_to_string(m);
        s.append(digits.as_str());
        proof {
            reveal_strlit("-");
            assert(m as int == -(v as int));
            assert(s@ =~= seq!['-'] + dec_str((-(v as int)) as nat));
        }
        s
    }
}

/// One rendered label pair, `name="value"`, without any escaping.
pub open spec fn label_str(lp: LabelPair) -> Seq<char> {
    lp.name@ + "=\""@ + lp.value@ + "\""@
}

/// Rendered label pairs joined by commas.
pub open spec fn labels_str(ls: Seq<LabelPair>) -> Seq<char>
    decreases ls.len(),
{
    if ls.len() == 0 {
        Seq::empty()
    } else if ls.len() == 1 {
        label_str(ls[0])
    } else {
        labels_str(ls.drop_last()) + ","@ + label_str(ls.last())
    }
}

/// One sample line: name, optional label set, value, optional timestamp.
pub open spec fn metric_line(name: Seq<char>, m: Metric) -> Seq<char> {
    name + (if m.labels@.len() > 0 {
        "{"@ + labels_str(m.labels@) + "}"@
    } else {
        Seq::<char>::empty()
    }) + " "@ + dec_str(m.value as nat) + (match m.timestamp_ms {
        Some(t) => " "@ + int_str(t as int),
        None => Seq::<char>::empty(),
    }) + "\n"@
}

pub open spec fn metrics_text(name: Seq<char>, ms: Seq<Metric>) -> Seq<char>
    decreases ms.len(),
{
    if ms.len() == 0 {
        Seq::empty()
    } else {
        metrics_text(name, ms.drop_last()) + metric_line(name, ms.last())
    }
}

/// The lower-case name of a metric type in the text format.
pub open spec fn type_str(t: MetricType) -> Seq<char> {
    match t {
        MetricType::Counter => "counter"@,
        MetricType::Gauge => "gauge"@,
        MetricType::Histogram => "histogram"@,
        MetricType::Summary => "summary"@,
        MetricType::Untyped => "untyped"@,
    }
}

/// One family in the text format: HELP line, TYPE line, one line per metric.
pub open spec fn family_text(mf: MetricFamily) -> Seq<char> {
    "# HELP "@ + mf.name@ + " "@ + mf.help@ + "\n"@ + "# TYPE "@ + mf.name@ + " "@ + type_str(
        mf.metric_type,
    ) + "\n"@ + metrics_text(mf.name@, mf.metrics@)
}

/// The whole snapshot in the text format, family by family.
pub open spec fn text_encoding(s: Seq<MetricFamily>) -> Seq<char>
    decreases s.len(),
{
    if s.len() == 0 {
        Seq::empty()
    } else {
        text_encoding(s.drop_last()) + family_text(s.last())
    }
}

fn type_str_exec(t: MetricType) -> (r: &'static str)
    ensures
        r@ == type_str(t),
{
    match t {
        MetricType::Counter => "counter",
        MetricType::Gauge => "gauge",
        MetricType::Histogram => "histogram",
        MetricType::Summary => "summary",
        MetricType::Untyped => "untyped",
    }
}

fn write_labels(w: &mut String, ls: &Vec<LabelPair>)
    ensures
        final(w)@ == old(w)@ + labels_str(ls@),
{
    let mut i: usize = 0;
    while i < ls.len()
        invariant
            i <= ls@.len(),
            w@ == old(w)@ + labels_str(ls@.take(i as int)),
        decreases ls@.len() - i,
    {
        if i > 0 {
            w.append(",");
        }
        let lp = &ls[i];
        w.append(lp.name.as_str());
        w.append("=\"");
        w.append(lp.value.as_str());
        w.append("\"");
        proof {
            assert(ls@.take(i as int + 1).drop_last() =~= ls@.take(i as int));
            assert(ls@.take(i as int + 1).last() == ls@[i as int]);
            assert(w@ =~= old(w)@ + labels_str(ls@.take(i as int + 1)));
        }
        i = i + 1;
    }
    proof {
        assert(ls@.take(ls@.len() as int) =~= ls@);
    }
}

fn write_metric(w: &mut String, name: &str, m: &Metric)
    ensures
        final(w)@ == old(w)@ + metric_line(name@, *m),
{
    w.append(name);
    if m.labels.len() > 0 {
        w.append("{");
        write_labels(w, &m.labels);
        w.append("}");
    }
    w.append(" ");
    let value = u64_to_string(m.value);
    w.append(value.as_str());
    match m.timestamp_ms {
        Some(t) => {
            w.append(" ");
            let ts = i64_to_string(t);
            w.append(ts.as_str());
        },
        None => {},
    }
    w.append("\n");
    proof {
        assert(w@ =~= old(w)@ + metric_line(name@, *m));
    }
}

fn write_family(w: &mut String, mf: &MetricFamily)
    ensures
        final(w)@ == old(w)@ + family_text(*mf),
{
    w.append("# HELP ");
    w.append(mf.name.as_str());
    w.append(" ");
    w.append(mf.help.as_str());
    w.append("\n");
    w.append("# TYPE ");
    w.append(mf.name.as_str());
    w.append(" ");
    w.append(type_str_exec(mf.metric_type));
    w.append("\n");
    let ghost header = old(w)@ + "# HELP "@ + mf.name@ + " "@ + mf.help@ + "\n"@ + "# TYPE "@
        + mf.name@ + " "@ + type_str(mf.metric_type) + "\n"@;
    let mut i: usize = 0;
    while i < mf.metrics.len()
        invariant
            i <= mf.metrics@.len(),
            w@ == header + metrics_text(mf.name@, mf.metrics@.take(i as int)),
        decreases mf.metrics@.len() - i,
    {
        write_metric(w, mf.name.as_str(), &mf.metrics[i]);
        proof {
            assert(mf.metrics@.take(i as int + 1).drop_last() =~= mf.metrics@.take(i as int));
            assert(mf.metrics@.take(i as int + 1).last() == mf.metrics@[i as int]);
            assert(w@ =~= header + metrics_text(mf.name@, mf.metrics@.take(i as int + 1)));
        }
        i = i + 1;
    }
    proof {
        assert(mf.metrics@.take(mf.metrics@.len() as int) =~= mf.metrics@);
        assert(w@ =~= old(w)@ + family_text(*mf));
    }
}

/// The human-readable, line-oriented text form.
pub struct TextEncoder;

impl TextEncoder {
    pub fn new() -> TextEncoder {
        TextEncoder
    }
}

impl Encoder for TextEncoder {
    type Output = String;

    fn encode(&self, mfs: &Vec<MetricFamily>, writer: &mut String) -> (r: Result<(), Error>)
        ensures
            r is Ok ==> final(writer)@ == old(writer)@ + text_encoding(mfs@),
    {
        let mut i: usize = 0;
        while i < mfs.len()
            invariant
                i <= mfs@.len(),
                forall|k: int| 0 <= k < i ==> family_ok(#[trigger] mfs@[k]),
            decreases mfs@.len() - i,
        {
            match check_metric_family(&mfs[i]) {
                Ok(_) => {},
                Err(e) => {
                    proof {
                        lemma_first_bad(mfs@, i as int);
                    }
                    return Err(e);
                },
            }
            i = i + 1;
        }
        let mut j: usize = 0;
        proof {
            assert(mfs@.take(0) =~= Seq::<MetricFamily>::empty());
        }
        while j < mfs.len()
            invariant
                j <= mfs@.len(),
                writer@ == old(writer)@ + text_encoding(mfs@.take(j as int)),
            decreases mfs@.len() - j,
        {
            write_family(writer, &mfs[j]);
            proof {
                assert(mfs@.take(j as int + 1).drop_last() =~= mfs@.take(j as int));
                assert(mfs@.take(j as int + 1).last() == mfs@[j as int]);
                assert(writer@ =~= old(writer)@ + text_encoding(mfs@.take(j as int + 1)));
            }
            j = j + 1;
        }
        proof {
            assert(mfs@.take(mfs@.len() as int) =~= mfs@);
        }
        Ok(())
    }

    fn format_type(&self) -> (r: &'static str)
        ensures
            r@ == "text/plain; version=0.0.4"@,
    {
        "text/plain; version=0.0.4"
    }
}


/// A 64-bit value as eight little-endian bytes.
pub open spec fn le64(x: u64) -> Seq<u8> {
    seq![
        (x % 256) as u8,
        ((x / 0x100) % 256) as u8,
        ((x / 0x10000) % 256) as u8,
        ((x / 0x1000000) % 256) as u8,
        ((x / 0x100000000) % 256) as u8,
        ((x / 0x10000000000) % 256) as u8,
        ((x / 0x1000000000000) % 256) as u8,
        ((x / 0x100000000000000) % 256) as u8,
    ]
}

/// A 32-bit value as four little-endian bytes.
pub open spec fn le32(x: u32) -> Seq<u8> {
    seq![
        (x % 256) as u8,
        ((x / 0x100) % 256) as u8,
        ((x / 0x10000) % 256) as u8,
        ((x / 0x1000000) % 256) as u8,
    ]
}

/// The code points of a string, four little-endian bytes each.
pub open spec fn chars_bin(s: Seq<char>) -> Seq<u8>
    decreases s.len(),
{
    if s.len() == 0 {
        Seq::empty()
    } else {
        chars_bin(s.drop_last()) + le32(s.last() as u32)
    }
}

/// A string record: character count, then the code points.
pub open spec fn str_bin(s: Seq<char>) -> Seq<u8> {
    le64(s.len() as u64) + chars_bin(s)
}

pub open spec fn lp_bin(lp: LabelPair) -> Seq<u8> {
    str_bin(lp.name@) + str_bin(lp.value@)
}

pub open spec fn lps_bin(ls: Seq<LabelPair>) -> Seq<u8>
    decreases ls.len(),
{
    if ls.len() == 0 {
        Seq::empty()
    } else {
        lps_bin(ls.drop_last()) + lp_bin(ls.last())
    }
}

/// An optional timestamp: a presence byte, then the value if present.
pub open spec fn ts_bin(t: Option<i64>) -> Seq<u8> {
    match t {
        None => seq![0u8],
        Some(x) => seq![1u8] + le64(x as u64),
    }
}

/// One metric record: label count, labels, value, timestamp.
pub open spec fn metric_bin(m: Metric) -> Seq<u8> {
    le64(m.labels@.len() as u64) + lps_bin(m.labels@) + le64(m.value) + ts_bin(m.timestamp_ms)
}

pub open spec fn metrics_bin(ms: Seq<Metric>) -> Seq<u8>
    decreases ms.len(),
{
    if ms.len() == 0 {
        Seq::empty()
    } else {
        metrics_bin(ms.drop_last()) + metric_bin(ms.last())
    }
}

/// The tag byte of a metric type in the binary schema.
pub open spec fn type_byte(t: MetricType) -> u8 {
    match t {
        MetricType::Counter => 0u8,
        MetricType::Gauge => 1u8,
        MetricType::Histogram => 2u8,
        MetricType::Summary => 3u8,
        MetricType::Untyped => 4u8,
    }
}

/// The body of one family record: name, help, type tag, metric count,
/// metrics.
pub open spec fn family_bin(mf: MetricFamily) -> Seq<u8> {
    str_bin(mf.name@) + str_bin(mf.help@) + seq![type_byte(mf.metric_type)] + le64(
        mf.metrics@.len() as u64,
    ) + metrics_bin(mf.metrics@)
}

/// One length-delimited record: the byte length of the body, then the body.
pub open spec fn record_bin(mf: MetricFamily) -> Seq<u8> {
    le64(family_bin(mf).len() as u64) + family_bin(mf)
}

/// The whole snapshot in the binary format, one record per family.
pub open spec fn bin_encoding(s: Seq<MetricFamily>) -> Seq<u8>
    decreases s.len(),
{
    if s.len() == 0 {
        Seq::empty()
    } else {
        bin_encoding(s.drop_last()) + record_bin(s.last())
    }
}

fn push_le64(w: &mut Vec<u8>, x: u64)
    ensures
        final(w)@ == old(w)@ + le64(x),
{
    w.push((x % 256) as u8);
    w.push(((x / 0x100) % 256) as u8);
    w.push(((x / 0x10000) % 256) as u8);
    w.push(((x / 0x1000000) % 256) as u8);
    w.push(((x / 0x100000000) % 256) as u8);
    w.push(((x / 0x10000000000) % 256) as u8);
    w.push(((x / 0x1000000000000) % 256) as u8);
    w.push(((x / 0x100000000000000) % 256) as u8);
    proof {
        assert(w@ =~= old(w)@ + le64(x));
    }
}

fn push_le32(w: &mut Vec<u8>, x: u32)
    ensures
        final(w)@ == old(w)@ + le32(x),
{
    w.push((x % 256) as u8);
    w.push(((x / 0x100) % 256) as u8);
    w.push(((x / 0x10000) % 256) as u8);
    w.push(((x / 0x1000000) % 256) as u8);
    proof {
        assert(w@ =~= old(w)@ + le32(x));
    }
}

fn push_str_bin(w: &mut Vec<u8>, s: &str)
    ensures
        final(w)@ == old(w)@ + str_bin(s@),
{
    let n = s.unicode_len();
    push_le64(w, n as u64);
    let mut i: usize = 0;
    while i < n
        invariant
            n == s@.len(),
            i <= n,
            w@ == old(w)@ + le64(s@.len() as u64) + chars_bin(s@.take(i as int)),
        decreases n - i,
    {
        let c = s.get_char(i);
        push_le32(w, c as u32);
        proof {
            assert(s@.take(i as int + 1).drop_last() =~= s@.take(i as int));
            assert(s@.take(i as int + 1).last() == s@[i as int]);
            assert(w@ =~= old(w)@ + le64(s@.len() as u64) + chars_bin(s@.take(i as int + 1)));
        }
        i = i + 1;
    }
    proof {
        assert(s@.take(s@.len() as int) =~= s@);
        assert(w@ =~= old(w)@ + str_bin(s@));
    }
}

fn push_metric_bin(w: &mut Vec<u8>, m: &Metric)
    ensures
        final(w)@ == old(w)@ + metric_bin(*m),
{
    push_le64(w, m.labels.len() as u64);
    let ghost header = old(w)@ + le64(m.labels@.len() as u64);
    let mut i: usize = 0;
    while i < m.labels.len()
        invariant
            i <= m.labels@.len(),
            w@ == header + lps_bin(m.labels@.take(i as int)),
        decreases m.labels@.len() - i,
    {
        let lp = &m.labels[i];
        push_str_bin(w, lp.name.as_str());
        push_str_bin(w, lp.value.as_str());
        proof {
            assert(m.labels@.take(i as int + 1).drop_last() =~= m.labels@.take(i as int));
            assert(m.labels@.take(i as int + 1).last() == m.labels@[i as int]);
            assert(w@ =~= header + lps_bin(m.labels@.take(i as int + 1)));
        }
        i = i + 1;
    }
    proof {
        assert(m.labels@.take(m.labels@.len() as int) =~= m.labels@);
    }
    push_le64(w, m.value);
    match m.timestamp_ms {
        None => {
            w.push(0u8);
            proof {
                assert(w@ =~= old(w)@ + metric_bin(*m));
            }
        },
        Some(t) => {
            w.push(1u8);
            push_le64(w, #[verifier::truncate] (t as u64));
            proof {
                assert(w@ =~= old(w)@ + metric_bin(*m));
            }
        },
    }
}

fn push_family_bin(w: &mut Vec<u8>, mf: &MetricFamily)
    ensures
        final(w)@ == old(w)@ + family_bin(*mf),
{
    push_str_bin(w, mf.name.as_str());
    push_str_bin(w, mf.help.as_str());
    let tb: u8 = match mf.metric_type {
        MetricType::Counter => 0u8,
        MetricType::Gauge => 1u8,
        MetricType::Histogram => 2u8,
        MetricType::Summary => 3u8,
        MetricType::Untyped => 4u8,
    };
    w.push(tb);
    push_le64(w, mf.metrics.len() as u64);
    let ghost header = old(w)@ + str_bin(mf.name@) + str_bin(mf.help@) + seq![
        type_byte(mf.metric_type),
    ] + le64(mf.metrics@.len() as u64);
    proof {
        assert(w@ =~= header);
    }
    let mut i: usize = 0;
    while i < mf.metrics.len()
        invariant
            i <= mf.metrics@.len(),
            w@ == header + metrics_bin(mf.metrics@.take(i as int)),
        decreases mf.metrics@.len() - i,
    {
        push_metric_bin(w, &mf.metrics[i]);
        proof {
            assert(mf.metrics@.take(i as int + 1).drop_last() =~= mf.metrics@.take(i as int));
            assert(mf.metrics@.take(i as int + 1).last() == mf.metrics@[i as int]);
            assert(w@ =~= header + metrics_bin(mf.metrics@.take(i as int + 1)));
        }
        i = i + 1;
    }
    proof {
        assert(mf.metrics@.take(mf.metrics@.len() as int) =~= mf.metrics@);
        assert(w@ =~= old(w)@ + family_bin(*mf));
    }
}

/// The compact, length-delimited binary form: one record per family.
pub struct BinaryEncoder;

impl BinaryEncoder {
    pub fn new() -> BinaryEncoder {
        BinaryEncoder
    }
}

impl Encoder for BinaryEncoder {
    type Output = Vec<u8>;

    fn encode(&self, mfs: &Vec<MetricFamily>, writer: &mut Vec<u8>) -> (r: Result<(), Error>)
        ensures
            r is Ok ==> final(writer)@ == old(writer)@ + bin_encoding(mfs@),
    {
        let mut i: usize = 0;
        while i < mfs.len()
            invariant
                i <= mfs@.len(),
                forall|k: int| 0 <= k < i ==> family_ok(#[trigger] mfs@[k]),
            decreases mfs@.len() - i,
        {
            match check_metric_family(&mfs[i]) {
                Ok(_) => {},
                Err(e) => {
                    proof {
                        lemma_first_bad(mfs@, i as int);
                    }
                    return Err(e);
                },
            }
            i = i + 1;
        }
        let mut j: usize = 0;
        proof {
            assert(mfs@.take(0) =~= Seq::<MetricFamily>::empty());
        }
        while j < mfs.len()
            invariant
                j <= mfs@.len(),
                writer@ == old(writer)@ + bin_encoding(mfs@.take(j as int)),
            decreases mfs@.len() - j,
        {
            let mut body: Vec<u8> = Vec::new();
            push_family_bin(&mut body, &mfs[j]);
            push_le64(writer, body.len() as u64);
            writer.append(&mut body);
            proof {
                assert(mfs@.take(j as int + 1).drop_last() =~= mfs@.take(j as int));
                assert(mfs@.take(j as int + 1).last() == mfs@[j as int]);
                assert(writer@ =~= old(writer)@ + bin_encoding(mfs@.take(j as int + 1)));
            }
            j = j + 1;
        }
        proof {
            assert(mfs@.take(mfs@.len() as int) =~= mfs@);
        }
        Ok(())
    }

    fn format_type(&self) -> (r: &'static str)
        ensures
            r@ == "application/octet-stream; schema=metric-family; encoding=delimited"@,
    {
        "application/octet-stream; schema=metric-family; encoding=delimited"
    }
}

} // verus!
