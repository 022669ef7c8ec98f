//! The registry: consistency-checked registration of collectors and the
//! deterministic, sorted `gather` snapshot.

use vstd::prelude::*;
use crate::desc::Desc;
use crate::errors::Error;
use crate::family::MetricFamily;
use crate::family::Metric;
use crate::order::str_lt;
use crate::order::sorted_metrics;
use crate::order::sort_spec;

verus! {

/// A capability that can describe itself and produce current metric values on
/// demand. Implemented by instrument types outside this crate; the registry
/// relies only on this interface.
pub trait Collector: Send + Sync {
    /// The descriptor list this collector exposes, as an abstract value.
    /// Implementations must keep it stable across calls.
    spec fn descs(&self) -> Seq<Desc>;

    /// The descriptors of all metrics this collector backs.
    fn desc(&self) -> (r: Vec<Desc>)
        ensures
            r@ == self.descs(),
    ;

    /// A snapshot of the current values; may differ from call to call.
    fn collect(&self) -> Vec<MetricFamily>;
}

/// Addition of descriptor ids, wrapping modulo 2^64.
pub open spec fn wadd(a: u64, b: u64) -> u64 {
    ((a + b) % 0x1_0000_0000_0000_0000) as u64
}

fn wadd_exec(a: u64, b: u64) -> (r: u64)
    ensures
        r == wadd(a, b),
{
    let s: u128 = (a as u128) + (b as u128);
    let m: u128 = s % 0x1_0000_0000_0000_0000u128;
    proof {
        assert(m < 0x1_0000_0000_0000_0000);
    }
    m as u64
}

/// First-match lookup in an association list from name to dimension hash.
pub open spec fn dims_lookup(dims: Seq<(String, u64)>, name: Seq<char>) -> Option<u64>
    decreases dims.len(),
{
    if dims.len() == 0 {
        None
    } else if dims[0].0@ == name {
        Some(dims[0].1)
    } else {
        dims_lookup(dims.skip(1), name)
    }
}

/// The collector ids present in the registration list.
pub open spec fn ids_of<C>(s: Seq<(u64, C)>) -> Seq<u64> {
    s.map_values(|p: (u64, C)| p.0)
}

/// The outcome of validating a descriptor list against the registry state
/// before any mutation: either the first error, in descriptor order, or the
/// accepted scratch descriptor ids, the new name-to-dimension-hash entries and
/// the structural collector id.
pub open spec fn validate(ds: Seq<Desc>, ids: Seq<u64>, dims: Seq<(String, u64)>) -> Result<
    (Seq<u64>, Seq<(String, u64)>, u64),
    Error,
>
    decreases ds.len(),
{
    if ds.len() == 0 {
        Ok((Seq::empty(), Seq::empty(), 0u64))
    } else {
        match validate(ds.drop_last(), ids, dims) {
            Err(e) => Err(e),
            Ok(acc) => {
                let d = ds.last();
                if ids.contains(d.id) {
                    Err(Error::DuplicateDescriptor)
                } else {
                    let existing = match dims_lookup(dims, d.fq_name@) {
                        Some(h) => Some(h),
                        None => dims_lookup(acc.1, d.fq_name@),
                    };
                    let mismatch = match existing {
                        Some(h) => h != d.dim_hash,
                        None => false,
                    };
                    if mismatch {
                        Err(Error::InconsistentDescriptor)
                    } else if acc.0.contains(d.id) {
                        Err(Error::DuplicateInCollector)
                    } else {
                        Ok(
                            (
                                acc.0.push(d.id),
                                if existing is Some {
                                    acc.1
                                } else {
                                    acc.1.push((d.fq_name, d.dim_hash))
                                },
                                wadd(acc.2, d.id),
                            ),
                        )
                    }
                }
            },
        }
    }
}

/// Once a prefix of the descriptor list fails validation, the whole list
/// fails with the same error.
proof fn lemma_validate_err_mono(ds: Seq<Desc>, ids: Seq<u64>, dims: Seq<(String, u64)>, i: int)
    requires
        0 <= i <= ds.len(),
        validate(ds.take(i), ids, dims) is Err,
    ensures
        validate(ds, ids, dims) == validate(ds.take(i), ids, dims),
    decreases ds.len() - i,
{
    if i < ds.len() {
        assert(ds.take(i + 1).drop_last() =~= ds.take(i));
        lemma_validate_err_mono(ds, ids, dims, i + 1);
    } else {
        assert(ds.take(i) =~= ds);
    }
}

/// A failed validation reports one of the three descriptor errors.
proof fn lemma_validate_err_kind(ds: Seq<Desc>, ids: Seq<u64>, dims: Seq<(String, u64)>)
    requires
        validate(ds, ids, dims) is Err,
    ensures
        ({
            let e = validate(ds, ids, dims)->Err_0;
            ||| e is DuplicateDescriptor
            ||| e is InconsistentDescriptor
            ||| e is DuplicateInCollector
        }),
    decreases ds.len(),
{
    if ds.len() > 0 && validate(ds.drop_last(), ids, dims) is Err {
        lemma_validate_err_kind(ds.drop_last(), ids, dims);
    }
}

/// What a successful validation guarantees about its outputs: the scratch ids
/// are fresh and distinct, and the new dimension-hash entries carry names the
/// registry has not seen.
proof fn lemma_validate_ok_props(ds: Seq<Desc>, ids: Seq<u64>, dims: Seq<(String, u64)>)
    requires
        validate(ds, ids, dims) is Ok,
    ensures
        ({
            let acc = validate(ds, ids, dims)->Ok_0;
            &&& forall|i: int, j: int| 0 <= i < j < acc.0.len() ==> acc.0[i] != acc.0[j]
            &&& forall|i: int| 0 <= i < acc.0.len() ==> !ids.contains(#[trigger] acc.0[i])
            &&& forall|i: int, j: int| 0 <= i < j < acc.1.len() ==> acc.1[i].0@ != acc.1[j].0@
            &&& forall|i: int|
                0 <= i < acc.1.len() ==> dims_lookup(dims, (#[trigger] acc.1[i]).0@) is None
        }),
    decreases ds.len(),
{
    if ds.len() > 0 {
        lemma_validate_ok_props(ds.drop_last(), ids, dims);
        let prev = validate(ds.drop_last(), ids, dims)->Ok_0;
        let acc = validate(ds, ids, dims)->Ok_0;
        let d = ds.last();
        assert(acc.0 == prev.0.push(d.id));
        assert(forall|i: int| 0 <= i < prev.0.len() ==> acc.0[i] == prev.0[i]);
        if dims_lookup(dims, d.fq_name@) is None && dims_lookup(prev.1, d.fq_name@) is None {
            lemma_lookup_none(prev.1, d.fq_name@);
        }
    }
}

/// A `None` lookup means no entry carries the name.
proof fn lemma_lookup_none(dims: Seq<(String, u64)>, name: Seq<char>)
    requires
        dims_lookup(dims, name) is None,
    ensures
        forall|j: int| 0 <= j < dims.len() ==> dims[j].0@ != name,
    decreases dims.len(),
{
    if dims.len() > 0 {
        lemma_lookup_none(dims.skip(1), name);
        assert forall|j: int| 0 <= j < dims.len() implies dims[j].0@ != name by {
            if j > 0 {
                assert(dims.skip(1)[j - 1] == dims[j]);
            }
        }
    }
}

fn ids_contains(ids: &Vec<u64>, x: u64) -> (r: bool)
    ensures
        r == ids@.contains(x),
{
    let mut i: usize = 0;
    while i < ids.len()
        invariant
            i <= ids@.len(),
            forall|j: int| 0 <= j < i ==> ids@[j] != x,
        decreases ids@.len() - i,
    {
        if ids[i] == x {
            return true;
        }
        i = i + 1;
    }
    proof {
        if ids@.contains(x) {
            let j = choose|j: int| 0 <= j < ids@.len() && ids@[j] == x;
            assert(ids@[j] != x);
        }
    }
    false
}

fn dims_find(dims: &Vec<(String, u64)>, name: &String) -> (r: Option<u64>)
    ensures
        r == dims_lookup(dims@, name@),
{
    let mut i: usize = 0;
    proof {
        assert(dims@.skip(0) =~= dims@);
    }
    while i < dims.len()
        invariant
            i <= dims@.len(),
            dims_lookup(dims@, name@) == dims_lookup(dims@.skip(i as int), name@),
        decreases dims@.len() - i,
    {
        if dims[i].0 == *name {
            proof {
                assert(dims@.skip(i as int)[0] == dims@[i as int]);
            }
            return Some(dims[i].1);
        }
        proof {
            assert(dims@.skip(i as int)[0] == dims@[i as int]);
            assert(dims@.skip(i as int).skip(1) =~= dims@.skip(i as int + 1));
        }
        i = i + 1;
    }
    proof {
        assert(dims@.skip(i as int).len() == 0);
    }
    None
}

/// The mutable state behind the registry's lock.
pub struct RegistryCore<C> {
    /// Registered collectors, keyed by their structural collector id.
    pub collectors: Vec<(u64, C)>,
    /// Every fully-qualified name ever accepted, with its dimension hash.
    /// Append-only for the life of the registry.
    pub dim_hashes: Vec<(String, u64)>,
    /// Every descriptor id ever accepted. Append-only as well.
    pub desc_ids: Vec<u64>,
}

impl<C: Collector> RegistryCore<C> {
    /// Well-formedness: collector ids, names and descriptor ids are unique.
    pub open spec fn wf(&self) -> bool {
        &&& forall|i: int, j: int|
            0 <= i < j < self.collectors@.len() ==> (#[trigger] self.collectors@[i]).0 != (
            #[trigger] self.collectors@[j]).0
        &&& forall|i: int, j: int|
            0 <= i < j < self.dim_hashes@.len() ==> (#[trigger] self.dim_hashes@[i]).0@ != (
            #[trigger] self.dim_hashes@[j]).0@
        &&& forall|i: int, j: int|
            0 <= i < j < self.desc_ids@.len() ==> self.desc_ids@[i] != self.desc_ids@[j]
    }

    pub fn new() -> (r: RegistryCore<C>)
        ensures
            r.wf(),
            r.collectors@.len() == 0,
            r.dim_hashes@.len() == 0,
            r.desc_ids@.len() == 0,
    {
        RegistryCore { collectors: Vec::new(), dim_hashes: Vec::new(), desc_ids: Vec::new() }
    }

    fn find_collector(&self, id: u64) -> (r: Option<usize>)
        ensures
            match r {
                Some(i) => i < self.collectors@.len() && self.collectors@[i as int].0 == id,
                None => !ids_of(self.collectors@).contains(id),
            },
    {
        let mut i: usize = 0;
        while i < self.collectors.len()
            invariant
                i <= self.collectors@.len(),
                forall|j: int| 0 <= j < i ==> (#[trigger] self.collectors@[j]).0 != id,
            decreases self.collectors@.len() - i,
        {
            if self.collectors[i].0 == id {
                return Some(i);
            }
            i = i + 1;
        }
        proof {
            if ids_of(self.collectors@).contains(id) {
                let j = choose|j: int|
                    0 <= j < ids_of(self.collectors@).len() && ids_of(self.collectors@)[j] == id;
                assert(self.collectors@[j].0 == id);
            }
        }
        None
    }

    /// Register a collector. The whole descriptor list is validated against
    /// the registry state before anything is committed: on any error the
    /// registry is left exactly as it was.
    pub fn register(&mut self, c: C) -> (r: Result<(), Error>)
        requires
            old(self).wf(),
        ensures
            final(self).wf(),
            ({
                let v = validate(c.descs(), old(self).desc_ids@, old(self).dim_hashes@);
                match v {
                    Err(e) => r == Err::<(), Error>(e) && *final(self) == *old(self),
                    Ok(acc) => {
                        if ids_of(old(self).collectors@).contains(acc.2) {
                            r == Err::<(), Error>(Error::AlreadyRegistered) && *final(self)
                                == *old(self)
                        } else {
                            r == Ok::<(), Error>(()) && final(self).collectors@ == old(
                                self,
                            ).collectors@.push((acc.2, c)) && final(self).desc_ids@ == old(
                                self,
                            ).desc_ids@ + acc.0 && final(self).dim_hashes@ == old(
                                self,
                            ).dim_hashes@ + acc.1
                        }
                    },
                }
            }),
    {
        let ds = c.desc();
        let ghost dseq = c.descs();
        let mut scratch: Vec<u64> = Vec::new();
        let mut pending: Vec<(String, u64)> = Vec::new();
        let mut cid: u64 = 0;
        let mut i: usize = 0;
        proof {
            assert(dseq.take(0) =~= Seq::<Desc>::empty());
        }
        while i < ds.len()
            invariant
                ds@ == dseq,
                dseq == c.descs(),
                i <= dseq.len(),
                *self == *old(self),
                old(self).wf(),
                validate(dseq.take(i as int), self.desc_ids@, self.dim_hashes@) == Ok::<
                    _,
                    Error,
                >((scratch@, pending@, cid)),
            decreases dseq.len() - i,
        {
            let ghost pre = (scratch@, pending@, cid);
            proof {
                assert(dseq.take(i as int + 1).drop_last() =~= dseq.take(i as int));
                assert(dseq.take(i as int + 1).last() == dseq[i as int]);
            }
            let d = &ds[i];
            if ids_contains(&self.desc_ids, d.id) {
                proof {
                    assert(validate(dseq.take(i as int + 1), self.desc_ids@, self.dim_hashes@)
                        == Err::<(Seq<u64>, Seq<(String, u64)>, u64), Error>(
                        Error::DuplicateDescriptor,
                    ));
                    lemma_validate_err_mono(dseq, self.desc_ids@, self.dim_hashes@, i as int + 1);
                }
                return Err(Error::DuplicateDescriptor);
            }
            let committed = dims_find(&self.dim_hashes, &d.fq_name);
            let existing = match committed {
                Some(h) => Some(h),
                None => dims_find(&pending, &d.fq_name),
            };
            let mismatch = match existing {
                Some(h) => h != d.dim_hash,
                None => false,
            };
            if mismatch {
                proof {
                    assert(validate(dseq.take(i as int + 1), self.desc_ids@, self.dim_hashes@)
                        == Err::<(Seq<u64>, Seq<(String, u64)>, u64), Error>(
                        Error::InconsistentDescriptor,
                    ));
                    lemma_validate_err_mono(dseq, self.desc_ids@, self.dim_hashes@, i as int + 1);
                }
                return Err(Error::InconsistentDescriptor);
            }
            if ids_contains(&scratch, d.id) {
                proof {
                    assert(validate(dseq.take(i as int + 1), self.desc_ids@, self.dim_hashes@)
                        == Err::<(Seq<u64>, Seq<(String, u64)>, u64), Error>(
                        Error::DuplicateInCollector,
                    ));
                    lemma_validate_err_mono(dseq, self.desc_ids@, self.dim_hashes@, i as int + 1);
                }
                return Err(Error::DuplicateInCollector);
            }
            scratch.push(d.id);
            if existing.is_none() {
                pending.push((d.fq_name.clone(), d.dim_hash));
            }
            cid = wadd_exec(cid, d.id);
            i = i + 1;
        }
        proof {
            assert(dseq.take(dseq.len() as int) =~= dseq);
        }
        match self.find_collector(cid) {
            Some(idx) => {
                proof {
                    assert(ids_of(self.collectors@)[idx as int] == self.collectors@[idx as int].0);
                    assert(ids_of(self.collectors@).contains(cid));
                }
                Err(Error::AlreadyRegistered)
            },
            None => {
                let ghost pre = *self;
                let ghost acc = (scratch@, pending@, cid);
                proof {
                    lemma_validate_ok_props(dseq, pre.desc_ids@, pre.dim_hashes@);
                }
                self.collectors.push((cid, c));
                self.desc_ids.append(&mut scratch);
                self.dim_hashes.append(&mut pending);
                proof {
                    assert forall|a: int, b: int|
                        0 <= a < b < self.collectors@.len() implies (
                    #[trigger] self.collectors@[a]).0 != (#[trigger] self.collectors@[b]).0 by {
                        if b == self.collectors@.len() - 1 {
                            assert(pre.collectors@[a] == self.collectors@[a]);
                            if pre.collectors@[a].0 == cid {
                                assert(ids_of(pre.collectors@)[a] == cid);
                                assert(ids_of(pre.collectors@).contains(cid));
                            }
                        } else {
                            assert(pre.collectors@[a] == self.collectors@[a]);
                            assert(pre.collectors@[b] == self.collectors@[b]);
                        }
                    }
                    assert forall|a: int, b: int|
                        0 <= a < b < self.desc_ids@.len() implies self.desc_ids@[a]
                        != self.desc_ids@[b] by {
                        let n = pre.desc_ids@.len() as int;
                        if b < n {
                        } else if a < n {
                            assert(self.desc_ids@[b] == acc.0[b - n]);
                            assert(!pre.desc_ids@.contains(acc.0[b - n]));
                            if self.desc_ids@[a] == self.desc_ids@[b] {
                                assert(pre.desc_ids@.contains(acc.0[b - n]));
                            }
                        } else {
                            assert(self.desc_ids@[a] == acc.0[a - n]);
                            assert(self.desc_ids@[b] == acc.0[b - n]);
                        }
                    }
                    assert forall|a: int, b: int|
                        0 <= a < b < self.dim_hashes@.len() implies (
                    #[trigger] self.dim_hashes@[a]).0@ != (#[trigger] self.dim_hashes@[b]).0@ by {
                        let n = pre.dim_hashes@.len() as int;
                        if b < n {
                        } else if a < n {
                            assert(self.dim_hashes@[b] == acc.1[b - n]);
                            assert(dims_lookup(pre.dim_hashes@, acc.1[b - n].0@) is None);
                            lemma_lookup_none(pre.dim_hashes@, acc.1[b - n].0@);
                            assert(pre.dim_hashes@[a] == self.dim_hashes@[a]);
                        } else {
                            assert(self.dim_hashes@[a] == acc.1[a - n]);
                            assert(self.dim_hashes@[b] == acc.1[b - n]);
                        }
                    }
                }
                Ok(())
            },
        }
    }
}


/// Has the descriptor at `i` the same id as an earlier one in the list?
pub open spec fn seen_before(ds: Seq<Desc>, i: int) -> bool {
    exists|j: int| 0 <= j < i && ds[j].id == ds[i].id
}

/// The structural collector id of a descriptor list: the wrapping sum of its
/// distinct descriptor ids, in first-occurrence order. Both `register` and
/// `unregister` use this one, wrapping, convention.
pub open spec fn unreg_id(ds: Seq<Desc>) -> u64
    decreases ds.len(),
{
    if ds.len() == 0 {
        0u64
    } else {
        let prev = unreg_id(ds.drop_last());
        if seen_before(ds, ds.len() - 1) {
            prev
        } else {
            wadd(prev, ds.last().id)
        }
    }
}

impl<C: Collector> RegistryCore<C> {
    /// Remove the collector whose descriptor list matches the one handed in.
    /// The name and descriptor-id records are kept: consistency must hold for
    /// the life of the registry, even after an instrument is retired.
    pub fn unregister(&mut self, c: &C) -> (r: Result<(), Error>)
        requires
            old(self).wf(),
        ensures
            final(self).wf(),
            final(self).dim_hashes@ == old(self).dim_hashes@,
            final(self).desc_ids@ == old(self).desc_ids@,
            ({
                let cid = unreg_id(c.descs());
                if ids_of(old(self).collectors@).contains(cid) {
                    &&& r == Ok::<(), Error>(())
                    &&& exists|i: int|
                        #![auto]
                        0 <= i < old(self).collectors@.len() && old(self).collectors@[i].0 == cid
                            && final(self).collectors@ == old(self).collectors@.remove(i)
                } else {
                    r == Err::<(), Error>(Error::NotRegistered) && *final(self) == *old(self)
                }
            }),
    {
        let ds = c.desc();
        let ghost dseq = c.descs();
        let mut seen: Vec<u64> = Vec::new();
        let mut cid: u64 = 0;
        let mut i: usize = 0;
        proof {
            assert(dseq.take(0) =~= Seq::<Desc>::empty());
        }
        while i < ds.len()
            invariant
                ds@ == dseq,
                i <= dseq.len(),
                cid == unreg_id(dseq.take(i as int)),
                forall|x: u64|
                    #![auto]
                    seen@.contains(x) <==> exists|j: int| 0 <= j < i && dseq[j].id == x,
            decreases dseq.len() - i,
        {
            let ghost pre_seen = seen@;
            let d = &ds[i];
            proof {
                assert(dseq.take(i as int + 1).drop_last() =~= dseq.take(i as int));
                assert(dseq.take(i as int + 1).last() == dseq[i as int]);
                assert(seen_before(dseq.take(i as int + 1), i as int) <==> exists|j: int|
                    0 <= j < i && dseq[j].id == dseq[i as int].id) by {
                    let t = dseq.take(i as int + 1);
                    assert(forall|j: int| 0 <= j <= i ==> #[trigger] t[j] == dseq[j]);
                    if seen_before(t, i as int) {
                        let j = choose|j: int| 0 <= j < i && t[j].id == t[i as int].id;
                        assert(dseq[j].id == dseq[i as int].id);
                    }
                    if exists|j: int| 0 <= j < i && dseq[j].id == dseq[i as int].id {
                        let j = choose|j: int| 0 <= j < i && dseq[j].id == dseq[i as int].id;
                        assert(t[j].id == t[i as int].id);
                    }
                }
            }
            if !ids_contains(&seen, d.id) {
                seen.push(d.id);
                cid = wadd_exec(cid, d.id);
                proof {
                    assert forall|x: u64| #![auto]
                        seen@.contains(x) <==> exists|j: int|
                            0 <= j < i + 1 && dseq[j].id == x by {
                        if seen@.contains(x) {
                            let k = choose|k: int| 0 <= k < seen@.len() && seen@[k] == x;
                            if k < pre_seen.len() {
                                assert(pre_seen.contains(x));
                            } else {
                                assert(x == dseq[i as int].id);
                            }
                        }
                        if exists|j: int| 0 <= j < i + 1 && dseq[j].id == x {
                            let j = choose|j: int| 0 <= j < i + 1 && dseq[j].id == x;
                            if j < i {
                                assert(pre_seen.contains(x));
                                let k = choose|k: int|
                                    0 <= k < pre_seen.len() && pre_seen[k] == x;
                                assert(seen@[k] == x);
                            } else {
                                assert(seen@[seen@.len() - 1] == x);
                            }
                        }
                    }
                }
            } else {
                proof {
                    assert(seen_before(dseq.take(i as int + 1), i as int));
                    assert forall|x: u64| #![auto]
                        seen@.contains(x) <==> exists|j: int|
                            0 <= j < i + 1 && dseq[j].id == x by {
                        if exists|j: int| 0 <= j < i + 1 && dseq[j].id == x {
                            let j = choose|j: int| 0 <= j < i + 1 && dseq[j].id == x;
                            if j == i {
                                assert(seen@.contains(dseq[i as int].id));
                            }
                        }
                    }
                }
            }
            i = i + 1;
        }
        proof {
            assert(dseq.take(dseq.len() as int) =~= dseq);
        }
        match self.find_collector(cid) {
            Some(idx) => {
                let ghost pre = *self;
                self.collectors.remove(idx);
                proof {
                    assert(self.collectors@ == pre.collectors@.remove(idx as int));
                    assert forall|a: int, b: int|
                        0 <= a < b < self.collectors@.len() implies (
                    #[trigger] self.collectors@[a]).0 != (#[trigger] self.collectors@[b]).0 by {
                        let n = idx as int;
                        if b < n {
                        } else if a < n {
                            assert(self.collectors@[b] == pre.collectors@[b + 1]);
                        } else {
                            assert(self.collectors@[a] == pre.collectors@[a + 1]);
                            assert(self.collectors@[b] == pre.collectors@[b + 1]);
                        }
                    }
                    assert(ids_of(pre.collectors@)[idx as int] == cid);
                    assert(ids_of(pre.collectors@).contains(cid));
                }
                Ok(())
            },
            None => Err(Error::NotRegistered),
        }
    }
}


/// Does some family in the list carry this name?
pub open spec fn has_name(s: Seq<MetricFamily>, name: Seq<char>) -> bool {
    exists|i: int| 0 <= i < s.len() && s[i].name@ == name
}

/// The first family in the list carrying the name.
pub open spec fn first_with_name(s: Seq<MetricFamily>, name: Seq<char>) -> MetricFamily
    decreases s.len(),
{
    if s.len() == 0 {
        arbitrary()
    } else if s[0].name@ == name {
        s[0]
    } else {
        first_with_name(s.skip(1), name)
    }
}

/// All metrics contributed under a given family name, in input order: the
/// concatenation of the metric lists of the families carrying the name.
pub open spec fn metrics_under(s: Seq<MetricFamily>, name: Seq<char>) -> Seq<Metric>
    decreases s.len(),
{
    if s.len() == 0 {
        Seq::empty()
    } else {
        let prev = metrics_under(s.drop_last(), name);
        if s.last().name@ == name {
            prev + s.last().metrics@
        } else {
            prev
        }
    }
}

/// Family names strictly ascending: sorted and free of duplicates.
pub open spec fn sorted_family_names(s: Seq<MetricFamily>) -> bool {
    forall|i: int, j: int| 0 <= i < j < s.len() ==> str_lt(s[i].name@, s[j].name@)
}

/// A name nobody in the list carries contributes no metrics.
proof fn lemma_metrics_under_absent(s: Seq<MetricFamily>, name: Seq<char>)
    requires
        !has_name(s, name),
    ensures
        metrics_under(s, name) == Seq::<Metric>::empty(),
    decreases s.len(),
{
    if s.len() > 0 {
        assert(!has_name(s.drop_last(), name)) by {
            if has_name(s.drop_last(), name) {
                let i = choose|i: int|
                    0 <= i < s.drop_last().len() && s.drop_last()[i].name@ == name;
                assert(s[i].name@ == name);
            }
        }
        assert(s.last().name@ != name);
        lemma_metrics_under_absent(s.drop_last(), name);
    }
}

/// How one more family changes the per-name metric contribution.
proof fn lemma_metrics_under_step(s: Seq<MetricFamily>, z: MetricFamily, name: Seq<char>)
    ensures
        z.name@ == name ==> metrics_under(s.push(z), name) == metrics_under(s, name) + z.metrics@,
        z.name@ != name ==> metrics_under(s.push(z), name) == metrics_under(s, name),
{
    assert(s.push(z).drop_last() =~= s);
    assert(s.push(z).last() == z);
}

/// How one more family changes `has_name` and `first_with_name`.
proof fn lemma_first_with_name_push(s: Seq<MetricFamily>, z: MetricFamily, name: Seq<char>)
    ensures
        has_name(s, name) ==> first_with_name(s.push(z), name) == first_with_name(s, name),
        !has_name(s, name) && z.name@ == name ==> first_with_name(s.push(z), name) == z,
        has_name(s.push(z), name) <==> has_name(s, name) || z.name@ == name,
    decreases s.len(),
{
    if s.len() == 0 {
        assert(s.push(z)[0] == z);
        if z.name@ == name {
        } else {
            assert(first_with_name(s.push(z), name) == first_with_name(s.push(z).skip(1), name));
        }
        if has_name(s.push(z), name) {
            let i = choose|i: int| 0 <= i < s.push(z).len() && s.push(z)[i].name@ == name;
            assert(i == 0);
        }
    } else {
        assert(s.push(z).skip(1) =~= s.skip(1).push(z));
        lemma_first_with_name_push(s.skip(1), z, name);
        assert(s.push(z)[0] == s[0]);
        if s[0].name@ == name {
            assert(has_name(s, name)) by {
                assert(s[0].name@ == name);
            }
        } else {
            assert(has_name(s, name) <==> has_name(s.skip(1), name)) by {
                if has_name(s, name) {
                    let i = choose|i: int| 0 <= i < s.len() && s[i].name@ == name;
                    assert(s.skip(1)[i - 1].name@ == name);
                }
                if has_name(s.skip(1), name) {
                    let i = choose|i: int| 0 <= i < s.skip(1).len() && s.skip(1)[i].name@ == name;
                    assert(s[i + 1].name@ == name);
                }
            }
            assert(has_name(s.push(z), name) <==> has_name(s.skip(1).push(z), name)) by {
                if has_name(s.push(z), name) {
                    let i = choose|i: int| 0 <= i < s.push(z).len() && s.push(z)[i].name@ == name;
                    assert(i > 0);
                    assert(s.skip(1).push(z)[i - 1].name@ == name);
                }
                if has_name(s.skip(1).push(z), name) {
                    let i = choose|i: int|
                        0 <= i < s.skip(1).push(z).len() && s.skip(1).push(z)[i].name@ == name;
                    assert(s.push(z)[i + 1].name@ == name);
                }
            }
        }
    }
}

/// Where a family named `name` would stand among the sorted families: the
/// index of the entry with that name, or the insertion point for it.
fn fam_find_pos(fams: &Vec<MetricFamily>, name: &str) -> (r: (usize, bool))
    requires
        sorted_family_names(fams@),
    ensures
        r.0 <= fams@.len(),
        forall|j: int| 0 <= j < r.0 ==> str_lt((#[trigger] fams@[j]).name@, name@),
        r.1 ==> r.0 < fams@.len() && fams@[r.0 as int].name@ == name@,
        !r.1 && (r.0 as int) < fams@.len() ==> str_lt(name@, fams@[r.0 as int].name@),
{
    let mut pos: usize = 0;
    while pos < fams.len()
        invariant
            pos <= fams@.len(),
            forall|j: int| 0 <= j < pos ==> str_lt((#[trigger] fams@[j]).name@, name@),
        decreases fams@.len() - pos,
    {
        match crate::order::str_cmp(fams[pos].name.as_str(), name) {
            crate::order::Cmp::Lt => {
                pos = pos + 1;
            },
            crate::order::Cmp::Eq => {
                return (pos, true);
            },
            crate::order::Cmp::Gt => {
                return (pos, false);
            },
        }
    }
    (pos, false)
}

/// Merge families by name and sort: same-named families are folded together
/// in input order (the first occurrence fixes help text and type), families
/// come out in strictly ascending name order, and each family's metric list
/// is exactly the stable sort of its contributions, so the result is a fixed
/// function of the input and repeated calls on equal input agree element for
/// element, even for malformed or inconsistent metrics.
pub fn merge_and_sort(input: Vec<MetricFamily>) -> (r: Vec<MetricFamily>)
    ensures
        sorted_family_names(r@),
        forall|k: int| 0 <= k < r@.len() ==> sorted_metrics((#[trigger] r@[k]).metrics@),
        forall|k: int| 0 <= k < r@.len() ==> has_name(input@, (#[trigger] r@[k]).name@),
        forall|n: Seq<char>|
            #[trigger] has_name(input@, n) ==> exists|k: int|
                0 <= k < r@.len() && r@[k].name@ == n,
        forall|k: int|
            0 <= k < r@.len() ==> (#[trigger] r@[k]).metrics@ == sort_spec(
                metrics_under(input@, r@[k].name@),
            ),
        forall|k: int|
            0 <= k < r@.len() ==> (#[trigger] r@[k]).help == first_with_name(
                input@,
                r@[k].name@,
            ).help && r@[k].metric_type == first_with_name(input@, r@[k].name@).metric_type,
        input@.len() == 0 ==> r@.len() == 0,
{
    let ghost orig = input@;
    let mut rest = input;
    let mut fams: Vec<MetricFamily> = Vec::new();
    proof {
        assert(orig.take(0) =~= Seq::<MetricFamily>::empty());
    }
    let mut done: usize = 0;
    let input_len = rest.len();
    proof {
        assert(orig.len() == input_len);
    }
    while rest.len() > 0
        invariant
            done <= orig.len(),
            orig.len() <= usize::MAX,
            done + rest@.len() == orig.len(),
            rest@ =~= orig.skip(done as int),
            sorted_family_names(fams@),
            forall|k: int|
                0 <= k < fams@.len() ==> has_name(
                    orig.take(done as int),
                    (#[trigger] fams@[k]).name@,
                ),
            forall|n: Seq<char>|
                #[trigger] has_name(orig.take(done as int), n) ==> exists|k: int|
                    0 <= k < fams@.len() && fams@[k].name@ == n,
            forall|k: int|
                0 <= k < fams@.len() ==> (#[trigger] fams@[k]).metrics@ == metrics_under(
                    orig.take(done as int),
                    fams@[k].name@,
                ),
            forall|k: int|
                0 <= k < fams@.len() ==> (#[trigger] fams@[k]).help == first_with_name(
                    orig.take(done as int),
                    fams@[k].name@,
                ).help && fams@[k].metric_type == first_with_name(
                    orig.take(done as int),
                    fams@[k].name@,
                ).metric_type,
        decreases rest@.len(),
    {
        proof {
            assert(rest@.len() == orig.len() - done);
        }
        let mf = rest.remove(0);
        proof {
            assert(mf == orig[done as int]);
            assert(rest@ =~= orig.skip(done as int + 1));
            assert(orig.take(done as int + 1) =~= orig.take(done as int).push(mf));
        }
        let ghost prefix = orig.take(done as int);
        let (pos, found) = fam_find_pos(&fams, mf.name.as_str());
        let ghost pre_fams = fams@;
        if found {
            let mut f = fams.remove(pos);
            let mut incoming = mf.metrics;
            let ghost f_pre = f;
            f.metrics.append(&mut incoming);
            fams.insert(pos, f);
            proof {
                assert(fams@ =~= pre_fams.update(pos as int, f));
                assert(f.metrics@ == f_pre.metrics@ + mf.metrics@);
                assert forall|k: int|
                    0 <= k < fams@.len() implies (#[trigger] fams@[k]).metrics@ == metrics_under(
                    orig.take(done as int + 1),
                    fams@[k].name@,
                ) by {
                    lemma_metrics_under_step(prefix, mf, fams@[k].name@);
                    if k != pos {
                        assert(fams@[k] == pre_fams[k]);
                        assert(fams@[k].name@ != mf.name@) by {
                            if k < pos {
                                assert(str_lt(pre_fams[k].name@, mf.name@));
                                crate::order::lemma_str_lt_irrefl(mf.name@);
                            } else {
                                assert(str_lt(mf.name@, pre_fams[k].name@)) by {
                                    assert(str_lt(pre_fams[pos as int].name@, pre_fams[k].name@));
                                }
                                crate::order::lemma_str_lt_irrefl(mf.name@);
                            }
                        }
                    }
                }
                assert forall|k: int|
                    0 <= k < fams@.len() implies has_name(
                    orig.take(done as int + 1),
                    (#[trigger] fams@[k]).name@,
                ) && (#[trigger] fams@[k]).help == first_with_name(
                    orig.take(done as int + 1),
                    fams@[k].name@,
                ).help && fams@[k].metric_type == first_with_name(
                    orig.take(done as int + 1),
                    fams@[k].name@,
                ).metric_type by {
                    lemma_first_with_name_push(prefix, mf, fams@[k].name@);
                }
                assert forall|n: Seq<char>|
                    #[trigger] has_name(orig.take(done as int + 1), n) implies exists|k: int|
                        0 <= k < fams@.len() && fams@[k].name@ == n by {
                    lemma_first_with_name_push(prefix, mf, n);
                    if has_name(prefix, n) {
                        let k = choose|k: int| 0 <= k < pre_fams.len() && pre_fams[k].name@ == n;
                        assert(fams@[k].name@ == n);
                    } else {
                        assert(n == mf.name@);
                        assert(fams@[pos as int].name@ == n);
                    }
                }
            }
        } else {
            proof {
                assert(!has_name(prefix, mf.name@)) by {
                    if has_name(prefix, mf.name@) {
                        let k = choose|k: int|
                            0 <= k < pre_fams.len() && pre_fams[k].name@ == mf.name@;
                        if k < pos {
                            crate::order::lemma_str_lt_irrefl(mf.name@);
                        } else {
                            assert(str_lt(mf.name@, pre_fams[k].name@)) by {
                                if k > pos {
                                    crate::order::lemma_str_lt_trans(
                                        mf.name@,
                                        pre_fams[pos as int].name@,
                                        pre_fams[k].name@,
                                    );
                                }
                            }
                            crate::order::lemma_str_lt_irrefl(mf.name@);
                        }
                    }
                }
                lemma_metrics_under_absent(prefix, mf.name@);
            }
            let ghost newf = mf;
            fams.insert(pos, mf);
            proof {
                assert(fams@ =~= pre_fams.insert(pos as int, newf));
                assert forall|a: int, b: int|
                    0 <= a < b < fams@.len() implies str_lt(
                    (#[trigger] fams@[a]).name@,
                    (#[trigger] fams@[b]).name@,
                ) by {
                    let p = pos as int;
                    if b < p {
                    } else if a > p {
                        assert(fams@[a] == pre_fams[a - 1] && fams@[b] == pre_fams[b - 1]);
                    } else if a == p {
                        assert(fams@[a] == newf && fams@[b] == pre_fams[b - 1]);
                        if b - 1 > p {
                            crate::order::lemma_str_lt_trans(
                                newf.name@,
                                pre_fams[p].name@,
                                pre_fams[b - 1].name@,
                            );
                        }
                    } else if b == p {
                        assert(fams@[a] == pre_fams[a] && fams@[b] == newf);
                    } else {
                        assert(fams@[a] == pre_fams[a] && fams@[b] == pre_fams[b - 1]);
                    }
                }
                assert forall|k: int|
                    0 <= k < fams@.len() implies (#[trigger] fams@[k]).metrics@ == metrics_under(
                        orig.take(done as int + 1),
                        fams@[k].name@,
                    ) && has_name(
                        orig.take(done as int + 1),
                        fams@[k].name@,
                    ) && fams@[k].help == first_with_name(
                        orig.take(done as int + 1),
                        fams@[k].name@,
                    ).help && fams@[k].metric_type == first_with_name(
                        orig.take(done as int + 1),
                        fams@[k].name@,
                    ).metric_type by {
                    lemma_metrics_under_step(prefix, mf, fams@[k].name@);
                    lemma_first_with_name_push(prefix, mf, fams@[k].name@);
                    if k != pos {
                        let pk = if k < pos {
                            k
                        } else {
                            k - 1
                        };
                        assert(fams@[k] == pre_fams[pk]);
                        assert(fams@[k].name@ != mf.name@) by {
                            if has_name(prefix, fams@[k].name@) && fams@[k].name@ == mf.name@ {
                                assert(has_name(prefix, mf.name@));
                            }
                        }
                    } else {
                        assert(fams@[k] == newf);
                        assert(metrics_under(prefix, mf.name@) == Seq::<Metric>::empty());
                        assert(metrics_under(prefix, mf.name@) + mf.metrics@ =~= mf.metrics@);
                    }
                }
                assert forall|n: Seq<char>|
                    #[trigger] has_name(orig.take(done as int + 1), n) implies exists|k: int|
                        0 <= k < fams@.len() && fams@[k].name@ == n by {
                    lemma_first_with_name_push(prefix, mf, n);
                    if has_name(prefix, n) {
                        let k = choose|k: int| 0 <= k < pre_fams.len() && pre_fams[k].name@ == n;
                        if k < pos {
                            assert(fams@[k].name@ == n);
                        } else {
                            assert(fams@[k + 1].name@ == n);
                        }
                    } else {
                        assert(fams@[pos as int].name@ == n);
                    }
                }
            }
        }
        done = done + 1;
    }
    proof {
        assert(orig.take(done as int) =~= orig);
    }
    proof {
        if orig.len() == 0 && fams@.len() > 0 {
            assert(has_name(orig, fams@[0].name@));
        }
    }
    let mut i: usize = 0;
    while i < fams.len()
        invariant
            i <= fams@.len(),
            sorted_family_names(fams@),
            forall|k: int| 0 <= k < i ==> sorted_metrics((#[trigger] fams@[k]).metrics@),
            forall|k: int| 0 <= k < fams@.len() ==> has_name(orig, (#[trigger] fams@[k]).name@),
            forall|n: Seq<char>|
                #[trigger] has_name(orig, n) ==> exists|k: int|
                    0 <= k < fams@.len() && fams@[k].name@ == n,
            forall|k: int|
                0 <= k < i ==> (#[trigger] fams@[k]).metrics@ == sort_spec(
                    metrics_under(orig, fams@[k].name@),
                ),
            forall|k: int|
                i <= k < fams@.len() ==> (#[trigger] fams@[k]).metrics@ == metrics_under(
                    orig,
                    fams@[k].name@,
                ),
            forall|k: int|
                0 <= k < fams@.len() ==> (#[trigger] fams@[k]).help == first_with_name(
                    orig,
                    fams@[k].name@,
                ).help && fams@[k].metric_type == first_with_name(orig, fams@[k].name@).metric_type,
        decreases fams@.len() - i,
    {
        let ghost pre_fams = fams@;
        let f = fams.remove(i);
        let ghost f_pre = f;
        let sorted = crate::order::sort_metrics(f.metrics);
        let f2 = MetricFamily { name: f.name, help: f.help, metric_type: f.metric_type, metrics: sorted };
        fams.insert(i, f2);
        proof {
            assert(fams@ =~= pre_fams.update(i as int, f2));
            assert(f2.name@ == pre_fams[i as int].name@);
            assert(f_pre == pre_fams[i as int]);
            assert(f2.metrics@ == sort_spec(metrics_under(orig, f2.name@)));
            assert forall|n: Seq<char>| #[trigger]
                has_name(orig, n) implies exists|k: int|
                    0 <= k < fams@.len() && fams@[k].name@ == n by {
                let k = choose|k: int| 0 <= k < pre_fams.len() && pre_fams[k].name@ == n;
                assert(fams@[k].name@ == n);
            }
        }
        i = i + 1;
    }
    proof {
        if orig.len() == 0 && fams@.len() > 0 {
            assert(has_name(orig, fams@[0].name@));
        }
    }
    fams
}

impl<C: Collector> RegistryCore<C> {
    /// Collect from every registered collector and return the merged, sorted
    /// snapshot. Reads collector state; never mutates the registry.
    pub fn gather(&self) -> (r: Vec<MetricFamily>)
        ensures
            sorted_family_names(r@),
            forall|k: int| 0 <= k < r@.len() ==> sorted_metrics((#[trigger] r@[k]).metrics@),
            self.collectors@.len() == 0 ==> r@.len() == 0,
    {
        let mut all: Vec<MetricFamily> = Vec::new();
        let mut i: usize = 0;
        while i < self.collectors.len()
            invariant
                i <= self.collectors@.len(),
                self.collectors@.len() == 0 ==> all@.len() == 0,
            decreases self.collectors@.len() - i,
        {
            let cref = &self.collectors[i];
            let mut mfs = cref.1.collect();
            all.append(&mut mfs);
            i = i + 1;
        }
        merge_and_sort(all)
    }
}


/// The invariant the registry's lock maintains: whatever the value of this
/// predicate, the guarded core is well-formed.
pub struct CorePred<C> {
    marker: core::marker::PhantomData<C>,
}

impl<C: Collector> vstd::rwlock::RwLockPredicate<RegistryCore<C>> for CorePred<C> {
    open spec fn inv(self, v: RegistryCore<C>) -> bool {
        v.wf()
    }
}

/// A shared handle to a lock-guarded registry core. Clones share the same
/// underlying registry; `register` and `unregister` take the exclusive side
/// of the lock, `gather` only the shared side, so concurrent gathers never
/// block each other.
#[derive(Clone)]
pub struct Registry<C: Collector> {
    r: std::sync::Arc<vstd::rwlock::RwLock<RegistryCore<C>, CorePred<C>>>,
}

impl<C: Collector> Registry<C> {
    /// A fresh, empty registry.
    pub fn new() -> Registry<C> {
        let core = RegistryCore::new();
        Registry {
            r: std::sync::Arc::new(
                vstd::rwlock::RwLock::new(
                    core,
                    Ghost(CorePred { marker: core::marker::PhantomData }),
                ),
            ),
        }
    }

    /// Register a collector, taking the write lock for the duration. On any
    /// error the registry state is exactly what it was before the call; the
    /// outcome depends on the state found behind the lock, for which
    /// [`RegistryCore::register`] carries the precise contract. Whatever that
    /// state, a failure is one of the four registration errors.
    pub fn register(&self, c: C) -> (r: Result<(), Error>)
        ensures
            r is Err ==> {
                ||| r->Err_0 is DuplicateDescriptor
                ||| r->Err_0 is InconsistentDescriptor
                ||| r->Err_0 is DuplicateInCollector
                ||| r->Err_0 is AlreadyRegistered
            },
    {
        let (mut core, handle) = self.r.acquire_write();
        let ghost pre = core;
        let res = core.register(c);
        proof {
            if res is Err && validate(c.descs(), pre.desc_ids@, pre.dim_hashes@) is Err {
                lemma_validate_err_kind(c.descs(), pre.desc_ids@, pre.dim_hashes@);
            }
        }
        handle.release_write(core);
        res
    }

    /// Unregister the collector equal (by descriptors) to the one passed in,
    /// taking the write lock; see [`RegistryCore::unregister`] for the precise
    /// contract against the state found. A failure can only mean the
    /// collector was not registered.
    pub fn unregister(&self, c: &C) -> (r: Result<(), Error>)
        ensures
            r is Err ==> r->Err_0 is NotRegistered,
    {
        let (mut core, handle) = self.r.acquire_write();
        let res = core.unregister(c);
        handle.release_write(core);
        res
    }

    /// Gather a snapshot under the shared lock: families in strictly
    /// ascending name order, each family's metrics sorted by the metric
    /// order.
    pub fn gather(&self) -> (r: Vec<MetricFamily>)
        ensures
            sorted_family_names(r@),
            forall|k: int| 0 <= k < r@.len() ==> sorted_metrics((#[trigger] r@[k]).metrics@),
    {
        let handle = self.r.acquire_read();
        let res = handle.borrow().gather();
        handle.release_read();
        res
    }
}

impl<C: Collector> Default for Registry<C> {
    fn default() -> Registry<C> {
        Registry::new()
    }
}

/// Law: a descriptor whose fully-qualified name was recorded with a different
/// dimension hash is rejected as inconsistent, whatever collector carries it
/// as its descriptor. Together with `register`'s contract, the registry is
/// then left unchanged.
pub proof fn lemma_inconsistent_shape_rejected(
    ds: Seq<Desc>,
    ids: Seq<u64>,
    dims: Seq<(String, u64)>,
)
    requires
        ds.len() == 1,
        !ids.contains(ds[0].id),
        dims_lookup(dims, ds[0].fq_name@) is Some,
        dims_lookup(dims, ds[0].fq_name@)->Some_0 != ds[0].dim_hash,
    ensures
        validate(ds, ids, dims) == Err::<(Seq<u64>, Seq<(String, u64)>, u64), Error>(
            Error::InconsistentDescriptor,
        ),
{
    let e = Seq::<Desc>::empty();
    assert(ds.drop_last() =~= e);
    assert(validate(e, ids, dims) == Ok::<(Seq<u64>, Seq<(String, u64)>, u64), Error>(
        (Seq::empty(), Seq::empty(), 0u64),
    ));
    assert(ds.last() == ds[0]);
}

/// Looking a name up in a concatenation finds the earlier record first.
proof fn lemma_lookup_append(x: Seq<(String, u64)>, y: Seq<(String, u64)>, n: Seq<char>)
    ensures
        dims_lookup(x + y, n) == (if dims_lookup(x, n) is Some {
            dims_lookup(x, n)
        } else {
            dims_lookup(y, n)
        }),
    decreases x.len(),
{
    if x.len() == 0 {
        assert(x + y =~= y);
    } else {
        lemma_lookup_append(x.skip(1), y, n);
        assert((x + y).skip(1) =~= x.skip(1) + y);
        assert((x + y)[0] == x[0]);
    }
}

/// A committed registration records every accepted descriptor's name with
/// that descriptor's dimension hash.
pub proof fn lemma_names_recorded(ds: Seq<Desc>, ids: Seq<u64>, dims: Seq<(String, u64)>)
    requires
        validate(ds, ids, dims) is Ok,
    ensures
        forall|i: int|
            0 <= i < ds.len() ==> dims_lookup(
                dims + validate(ds, ids, dims)->Ok_0.1,
                (#[trigger] ds[i]).fq_name@,
            ) == Some(ds[i].dim_hash),
    decreases ds.len(),
{
    if ds.len() > 0 {
        lemma_names_recorded(ds.drop_last(), ids, dims);
        let prev = validate(ds.drop_last(), ids, dims)->Ok_0;
        let acc = validate(ds, ids, dims)->Ok_0;
        let d = ds.last();
        let committed = dims_lookup(dims, d.fq_name@);
        let pend_prev = dims_lookup(prev.1, d.fq_name@);
        let entry = (d.fq_name, d.dim_hash);
        assert forall|i: int|
            0 <= i < ds.len() implies dims_lookup(
            dims + acc.1,
            (#[trigger] ds[i]).fq_name@,
        ) == Some(ds[i].dim_hash) by {
            let n = ds[i].fq_name@;
            lemma_lookup_append(dims, acc.1, n);
            lemma_lookup_append(dims, prev.1, n);
            if acc.1 != prev.1 {
                assert(acc.1 == prev.1.push(entry));
                assert(prev.1.push(entry) =~= prev.1 + seq![entry]);
                lemma_lookup_append(prev.1, seq![entry], n);
            }
            if i < ds.len() - 1 {
                assert(ds.drop_last()[i] == ds[i]);
                assert(dims_lookup(dims + prev.1, n) == Some(ds[i].dim_hash));
            } else {
                if committed is Some {
                    assert(committed == Some(d.dim_hash));
                } else if pend_prev is Some {
                    assert(pend_prev == Some(d.dim_hash));
                    assert(acc.1 == prev.1);
                } else {
                    assert(acc.1 == prev.1.push(entry));
                    assert(dims_lookup(seq![entry], n) == Some(d.dim_hash));
                }
            }
        }
    }
}

/// Law: an accepted collector fixes the dimension hash of each of its names
/// for the life of the registry. A later collector whose descriptor reuses
/// such a name with a different hash, under a fresh identity, is rejected as
/// inconsistent, so `register` returns the error with the state unchanged.
pub proof fn lemma_shape_conflict_after_registration(
    ds1: Seq<Desc>,
    ids: Seq<u64>,
    dims: Seq<(String, u64)>,
    d2: Desc,
    i: int,
)
    requires
        validate(ds1, ids, dims) is Ok,
        0 <= i < ds1.len(),
        d2.fq_name@ == ds1[i].fq_name@,
        d2.dim_hash != ds1[i].dim_hash,
        !(ids + validate(ds1, ids, dims)->Ok_0.0).contains(d2.id),
    ensures
        validate(
            seq![d2],
            ids + validate(ds1, ids, dims)->Ok_0.0,
            dims + validate(ds1, ids, dims)->Ok_0.1,
        ) == Err::<(Seq<u64>, Seq<(String, u64)>, u64), Error>(Error::InconsistentDescriptor),
{
    lemma_names_recorded(ds1, ids, dims);
    let dims2 = dims + validate(ds1, ids, dims)->Ok_0.1;
    assert(dims_lookup(dims2, d2.fq_name@) == Some(ds1[i].dim_hash));
    assert(seq![d2][0] == d2);
    lemma_inconsistent_shape_rejected(seq![d2], ids + validate(ds1, ids, dims)->Ok_0.0, dims2);
}

/// Every descriptor id of a successfully validated list ends up in the
/// scratch id set that registration commits.
proof fn lemma_validate_ok_ids(ds: Seq<Desc>, ids: Seq<u64>, dims: Seq<(String, u64)>)
    requires
        validate(ds, ids, dims) is Ok,
    ensures
        forall|i: int|
            0 <= i < ds.len() ==> validate(ds, ids, dims)->Ok_0.0.contains(
                (#[trigger] ds[i]).id,
            ),
    decreases ds.len(),
{
    if ds.len() > 0 {
        lemma_validate_ok_ids(ds.drop_last(), ids, dims);
        let prev = validate(ds.drop_last(), ids, dims)->Ok_0;
        let acc = validate(ds, ids, dims)->Ok_0;
        assert(acc.0 == prev.0.push(ds.last().id));
        assert forall|i: int| 0 <= i < ds.len() implies acc.0.contains((#[trigger] ds[i]).id) by {
            if i < ds.len() - 1 {
                assert(ds.drop_last()[i] == ds[i]);
                assert(prev.0.contains(ds[i].id));
                let j = choose|j: int| 0 <= j < prev.0.len() && prev.0[j] == ds[i].id;
                assert(acc.0[j] == ds[i].id);
            } else {
                assert(acc.0[acc.0.len() - 1] == ds[i].id);
            }
        }
    }
}

/// Law: registering the same descriptor list again, after it was accepted and
/// committed, fails. With at least one descriptor the first check that
/// trips is the global descriptor-id check, so the error is
/// `DuplicateDescriptor`; a collector without descriptors reaches the
/// structural-id check instead and `register`'s contract reports
/// `AlreadyRegistered` for it, since its collector id was just inserted.
pub proof fn lemma_reregister_rejected(ds: Seq<Desc>, ids: Seq<u64>, dims: Seq<(String, u64)>)
    requires
        validate(ds, ids, dims) is Ok,
        ds.len() > 0,
    ensures
        ({
            let acc = validate(ds, ids, dims)->Ok_0;
            validate(ds, ids + acc.0, dims + acc.1) == Err::<
                (Seq<u64>, Seq<(String, u64)>, u64),
                Error,
            >(Error::DuplicateDescriptor)
        }),
{
    let acc = validate(ds, ids, dims)->Ok_0;
    let ids2 = ids + acc.0;
    let dims2 = dims + acc.1;
    lemma_validate_ok_ids(ds, ids, dims);
    assert(acc.0.contains(ds[0].id));
    assert(ids2.contains(ds[0].id)) by {
        let j = choose|j: int| 0 <= j < acc.0.len() && acc.0[j] == ds[0].id;
        assert(ids2[ids.len() + j] == ds[0].id);
    }
    let e = Seq::<Desc>::empty();
    assert(ds.take(1).drop_last() =~= e);
    assert(validate(e, ids2, dims2) == Ok::<(Seq<u64>, Seq<(String, u64)>, u64), Error>(
        (Seq::empty(), Seq::empty(), 0u64),
    ));
    assert(ds.take(1).last() == ds[0]);
    assert(validate(ds.take(1), ids2, dims2) == Err::<(Seq<u64>, Seq<(String, u64)>, u64), Error>(
        Error::DuplicateDescriptor,
    ));
    lemma_validate_err_mono(ds, ids2, dims2, 1);
}

/// Law: after the one collector with a given structural id is removed,
/// no collector with that id remains, so a second unregister with the same
/// descriptors fails with `NotRegistered` by `unregister`'s contract.
pub proof fn lemma_unregister_twice<C>(pre: Seq<(u64, C)>, post: Seq<(u64, C)>, cid: u64, i: int)
    requires
        forall|a: int, b: int| 0 <= a < b < pre.len() ==> (#[trigger] pre[a]).0 != (#[trigger] pre[b]).0,
        0 <= i < pre.len(),
        pre[i].0 == cid,
        post == pre.remove(i),
    ensures
        !ids_of(post).contains(cid),
{
    if ids_of(post).contains(cid) {
        let j = choose|j: int| 0 <= j < ids_of(post).len() && ids_of(post)[j] == cid;
        assert(post[j].0 == cid);
        if j < i {
            assert(pre[j].0 == cid);
        } else {
            assert(pre[j + 1].0 == cid);
        }
    }
}


impl Collector for Box<dyn Collector> {
    open spec fn descs(&self) -> Seq<Desc> {
        (**self).descs()
    }

    fn desc(&self) -> (r: Vec<Desc>)
        ensures
            r@ == self.descs(),
    {
        (**self).desc()
    }

    fn collect(&self) -> Vec<MetricFamily> {
        (**self).collect()
    }
}


/// Two strictly name-sorted family lists carrying the same set of names list
/// them identically.
proof fn lemma_sorted_same_names_equal(r1: Seq<MetricFamily>, r2: Seq<MetricFamily>)
    requires
        sorted_family_names(r1),
        sorted_family_names(r2),
        forall|n: Seq<char>| #![trigger has_name(r1, n)] #![trigger has_name(r2, n)]
            has_name(r1, n) <==> has_name(r2, n),
    ensures
        r1.len() == r2.len(),
        forall|k: int| 0 <= k < r1.len() ==> (#[trigger] r1[k]).name@ == r2[k].name@,
    decreases r1.len(),
{
    if r1.len() == 0 {
        if r2.len() > 0 {
            assert(has_name(r2, r2[0].name@));
            assert(has_name(r1, r2[0].name@));
            let i = choose|i: int| 0 <= i < r1.len() && r1[i].name@ == r2[0].name@;
            assert(false);
        }
    } else if r2.len() == 0 {
        assert(has_name(r1, r1[0].name@));
        assert(has_name(r2, r1[0].name@));
        let i = choose|i: int| 0 <= i < r2.len() && r2[i].name@ == r1[0].name@;
        assert(false);
    } else {
        assert(r1[0].name@ == r2[0].name@) by {
            if r1[0].name@ != r2[0].name@ {
                assert(has_name(r1, r1[0].name@));
                assert(has_name(r2, r1[0].name@));
                let j = choose|j: int| 0 <= j < r2.len() && r2[j].name@ == r1[0].name@;
                assert(j > 0);
                assert(str_lt(r2[0].name@, r2[j].name@));
                assert(has_name(r2, r2[0].name@));
                assert(has_name(r1, r2[0].name@));
                let i = choose|i: int| 0 <= i < r1.len() && r1[i].name@ == r2[0].name@;
                assert(i > 0);
                assert(str_lt(r1[0].name@, r1[i].name@));
                crate::order::lemma_str_lt_asym(r1[0].name@, r2[0].name@);
            }
        }
        let t1 = r1.skip(1);
        let t2 = r2.skip(1);
        assert(forall|j: int| 0 <= j < t1.len() ==> #[trigger] t1[j] == r1[j + 1]);
        assert(forall|j: int| 0 <= j < t2.len() ==> #[trigger] t2[j] == r2[j + 1]);
        assert(sorted_family_names(t1));
        assert(sorted_family_names(t2));
        assert forall|n: Seq<char>| #![trigger has_name(t1, n)] #![trigger has_name(t2, n)]
            has_name(t1, n) <==> has_name(t2, n) by {
            if has_name(t1, n) {
                let j = choose|j: int| 0 <= j < t1.len() && t1[j].name@ == n;
                assert(r1[j + 1].name@ == n);
                assert(has_name(r1, n));
                assert(str_lt(r1[0].name@, n));
                let k = choose|k: int| 0 <= k < r2.len() && r2[k].name@ == n;
                assert(k > 0) by {
                    if k == 0 {
                        crate::order::lemma_str_lt_irrefl(n);
                    }
                }
                assert(t2[k - 1].name@ == n);
                assert(has_name(t2, n));
            }
            if has_name(t2, n) {
                let j = choose|j: int| 0 <= j < t2.len() && t2[j].name@ == n;
                assert(r2[j + 1].name@ == n);
                assert(has_name(r2, n));
                assert(str_lt(r2[0].name@, n));
                let k = choose|k: int| 0 <= k < r1.len() && r1[k].name@ == n;
                assert(k > 0) by {
                    if k == 0 {
                        crate::order::lemma_str_lt_irrefl(n);
                    }
                }
                assert(t1[k - 1].name@ == n);
                assert(has_name(t1, n));
            }
        }
        lemma_sorted_same_names_equal(t1, t2);
        assert forall|k: int| 0 <= k < r1.len() implies (#[trigger] r1[k]).name@
            == r2[k].name@ by {
            if k > 0 {
                assert(t1[k - 1].name@ == t2[k - 1].name@);
            }
        }
    }
}

/// Law: the gathered snapshot is reproducible. Any two family lists that
/// both satisfy `merge_and_sort`'s contract for the same collected input are
/// identical element for element — names, help texts, types and the full,
/// tie-ordered metric lists. Since the collectors are walked in a fixed
/// order, two `gather` calls whose collectors return equal output therefore
/// observe the same snapshot, even for malformed or inconsistent metrics.
pub proof fn lemma_snapshot_reproducible(
    input: Seq<MetricFamily>,
    r1: Seq<MetricFamily>,
    r2: Seq<MetricFamily>,
)
    requires
        sorted_family_names(r1),
        sorted_family_names(r2),
        forall|k: int| 0 <= k < r1.len() ==> has_name(input, (#[trigger] r1[k]).name@),
        forall|k: int| 0 <= k < r2.len() ==> has_name(input, (#[trigger] r2[k]).name@),
        forall|n: Seq<char>|
            #[trigger] has_name(input, n) ==> exists|k: int|
                0 <= k < r1.len() && r1[k].name@ == n,
        forall|n: Seq<char>|
            #[trigger] has_name(input, n) ==> exists|k: int|
                0 <= k < r2.len() && r2[k].name@ == n,
        forall|k: int|
            0 <= k < r1.len() ==> (#[trigger] r1[k]).metrics@ == sort_spec(
                metrics_under(input, r1[k].name@),
            ),
        forall|k: int|
            0 <= k < r2.len() ==> (#[trigger] r2[k]).metrics@ == sort_spec(
                metrics_under(input, r2[k].name@),
            ),
        forall|k: int|
            0 <= k < r1.len() ==> (#[trigger] r1[k]).help == first_with_name(
                input,
                r1[k].name@,
            ).help && r1[k].metric_type == first_with_name(input, r1[k].name@).metric_type,
        forall|k: int|
            0 <= k < r2.len() ==> (#[trigger] r2[k]).help == first_with_name(
                input,
                r2[k].name@,
            ).help && r2[k].metric_type == first_with_name(input, r2[k].name@).metric_type,
    ensures
        r1.len() == r2.len(),
        forall|k: int|
            0 <= k < r1.len() ==> (#[trigger] r1[k]).name@ == r2[k].name@ && r1[k].help
                == r2[k].help && r1[k].metric_type == r2[k].metric_type && r1[k].metrics@
                == r2[k].metrics@,
{
    assert forall|n: Seq<char>| #![trigger has_name(r1, n)] #![trigger has_name(r2, n)]
        has_name(r1, n) <==> has_name(r2, n) by {
        if has_name(r1, n) {
            let k = choose|k: int| 0 <= k < r1.len() && r1[k].name@ == n;
            assert(has_name(input, r1[k].name@));
            let j = choose|j: int| 0 <= j < r2.len() && r2[j].name@ == n;
            assert(has_name(r2, n));
        }
        if has_name(r2, n) {
            let k = choose|k: int| 0 <= k < r2.len() && r2[k].name@ == n;
            assert(has_name(input, r2[k].name@));
            let j = choose|j: int| 0 <= j < r1.len() && r1[j].name@ == n;
            assert(has_name(r1, n));
        }
    }
    lemma_sorted_same_names_equal(r1, r2);
}

} // verus!
