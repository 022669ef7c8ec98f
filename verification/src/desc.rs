//! Immutable metric identity: label pairs and descriptors.

use vstd::prelude::*;

verus! {

/// One `name="value"` pair.
#[derive(Debug, Clone)]
pub struct LabelPair {
    pub name: String,
    pub value: String,
}

impl LabelPair {
    pub fn new(name: String, value: String) -> (r: LabelPair)
        ensures
            r.name@ == name@,
            r.value@ == value@,
    {
        LabelPair { name, value }
    }
}

/// The immutable identity of a metric definition.
///
/// `id` is the identity hash of the fully-qualified name together with the
/// const label values; two descriptors describing the same metric collide on
/// it by design. `dim_hash` covers the name, the set of label names and the
/// help text, so that two descriptors sharing a name but differing in shape
/// are detected as inconsistent. Both hashes are computed by the descriptor's
/// producer; this registry only compares them.
#[derive(Debug, Clone)]
pub struct Desc {
    /// The fully-qualified metric name, e.g. `http_requests_total`.
    pub fq_name: String,
    /// The help text of the metric.
    pub help: String,
    /// Constant label pairs, in label-name order.
    pub const_label_pairs: Vec<LabelPair>,
    /// Identity hash over `fq_name` and the const label values.
    pub id: u64,
    /// Shape hash over `fq_name`, all label names and `help`.
    pub dim_hash: u64,
}

impl Desc {
    pub fn new(
        fq_name: String,
        help: String,
        const_label_pairs: Vec<LabelPair>,
        id: u64,
        dim_hash: u64,
    ) -> (r: Desc)
        ensures
            r.fq_name@ == fq_name@,
            r.help@ == help@,
            r.const_label_pairs == const_label_pairs,
            r.id == id,
            r.dim_hash == dim_hash,
    {
        Desc { fq_name, help, const_label_pairs, id, dim_hash }
    }
}

} // verus!
