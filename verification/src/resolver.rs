//! The build set resolver: expands a requested set to its transitive
//! dependency closure, orders it for building, annotates every node with its
//! tree hash, and decides which nodes are up to date and can be skipped.

use crate::fuzzy::bytes_eq;
use crate::graph::{dep_view, edge_fn, topo_sort, tree_hashes, wf_deps};
use crate::hex::{all_hex_digits, hex_decode, hex_value};
use crate::parse::{Definition, ParseErrorKind};
use crate::reach::{
    enumerates, has_cycle, is_path, lemma_ordered_acyclic, lemma_reachable_in_closed_set, lemma_reaches_self, lemma_reaches_step,
    lemma_reaches_trans, reaches, xor_seq,
};
use crate::store::{
    clone_bytes, entry_deps, entry_error, entry_parses, has_name, is_parse_of, DefinitionStore, FileEntry,
    StoreError,
};
use vstd::prelude::*;
use vstd::seq_lib::*;

verus! {

/// A failed build-set resolution.
#[derive(Debug)]
pub enum ResolveError {
    /// A lookup or parse failure, as the store reported it.
    Store(StoreError),
    /// Neither an explicit list nor "all" was requested: nothing to do.
    NothingRequested,
    /// The dependency graph has a cycle through the named definitions.
    Cycle { names: Vec<Vec<u8>> },
    /// An artifact record carries a malformed hash annotation.
    BadRecord { path: Vec<u8> },
}

/// One artifact record of the external builder: a source path and the two
/// hash annotations, as hex strings.
pub struct ArtifactRecord {
    /// The definition path the artifact was built from.
    pub path: Vec<u8>,
    /// The recorded content hash, 16 lowercase hex digits.
    pub content_hex: Vec<u8>,
    /// The recorded tree hash, 16 lowercase hex digits.
    pub tree_hex: Vec<u8>,
}

/// Whether a record's annotations are well-formed.
pub open spec fn record_ok(r: ArtifactRecord) -> bool {
    r.content_hex@.len() == 16 && all_hex_digits(r.content_hex@) && r.tree_hex@.len() == 16
        && all_hex_digits(r.tree_hex@)
}

/// Decodes every record's hash annotations.  A malformed annotation is a
/// hard failure naming the record's path: an artifact that cannot be
/// reasoned about must not be silently skipped over.
pub fn parse_records(recs: &Vec<ArtifactRecord>) -> (r: Result<
    Vec<(Vec<u8>, u64, u64)>,
    ResolveError,
>)
    ensures
        r is Ok <==> (forall|i: int| 0 <= i < recs@.len() ==> record_ok(#[trigger] recs@[i])),
        r matches Ok(rs) ==> rs@.len() == recs@.len() && forall|i: int|
            0 <= i < rs@.len() ==> (#[trigger] rs@[i]).0@ == recs@[i].path@ && rs@[i].1 as int
                == hex_value(recs@[i].content_hex@) && rs@[i].2 as int == hex_value(
                recs@[i].tree_hex@,
            ),
        r matches Err(e) ==> (e matches ResolveError::BadRecord { path } && exists|i: int|
            0 <= i < recs@.len() && !record_ok(#[trigger] recs@[i]) && path@ == recs@[i].path@),
{
    let mut out: Vec<(Vec<u8>, u64, u64)> = Vec::new();
    let mut i: usize = 0;
    while i < recs.len()
        invariant
            i <= recs@.len(),
            out@.len() == i,
            forall|k: int| 0 <= k < i ==> record_ok(#[trigger] recs@[k]),
            forall|k: int|
                0 <= k < i ==> (#[trigger] out@[k]).0@ == recs@[k].path@ && out@[k].1 as int
                    == hex_value(recs@[k].content_hex@) && out@[k].2 as int == hex_value(
                    recs@[k].tree_hex@,
                ),
        decreases recs@.len() - i,
    {
        let c: Option<u64> = hex_decode(&recs[i].content_hex);
        let t: Option<u64> = hex_decode(&recs[i].tree_hex);
        match (c, t) {
            (Some(cv), Some(tv)) => {
                let path: Vec<u8> = clone_bytes(&recs[i].path);
                out.push((path, cv, tv));
            },
            _ => {
                proof {
                    assert(!record_ok(recs@[i as int]));
                }
                let path: Vec<u8> = clone_bytes(&recs[i].path);
                return Err(ResolveError::BadRecord { path });
            },
        }
        i = i + 1;
    }
    Ok(out)
}

/// The recorded hashes for a path: the first record that matches it.
pub open spec fn recorded_for(rs: Seq<(Vec<u8>, u64, u64)>, path: Seq<u8>) -> Option<(u64, u64)>
    decreases rs.len(),
{
    if rs.len() == 0 {
        Option::None
    } else if rs[0].0@ == path {
        Some((rs[0].1, rs[0].2))
    } else {
        recorded_for(rs.drop_first(), path)
    }
}

/// Looks a path up among the decoded records.
pub fn lookup_record(rs: &Vec<(Vec<u8>, u64, u64)>, path: &[u8]) -> (r: Option<(u64, u64)>)
    ensures
        r == recorded_for(rs@, path@),
{
    let mut i: usize = 0;
    proof {
        assert(rs@.skip(0) =~= rs@);
    }
    while i < rs.len()
        invariant
            i <= rs@.len(),
            recorded_for(rs@, path@) == recorded_for(rs@.skip(i as int), path@),
        decreases rs@.len() - i,
    {
        proof {
            assert(rs@.skip(i as int)[0] == rs@[i as int]);
            assert(rs@.skip(i as int).drop_first() =~= rs@.skip(i + 1));
        }
        if bytes_eq(rs[i].0.as_slice(), path) {
            return Some((rs[i].1, rs[i].2));
        }
        i = i + 1;
    }
    proof {
        assert(rs@.skip(rs@.len() as int).len() == 0);
    }
    None
}

/// What to do with one node.
#[derive(PartialEq, Eq, Structural, Clone, Copy, Debug)]
pub enum Action {
    /// Invoke the external builder for this node.
    Build,
    /// The recorded artifact is up to date: report and move on.
    Skip,
}

/// The skip-or-build verdict for one node.  With `force` every node is
/// built; otherwise a node is skipped exactly when a recorded artifact
/// matches both its content hash and its tree hash.
pub fn decide(force: bool, recorded: Option<(u64, u64)>, content_hash: u64, tree_hash: u64) -> (a:
    Action)
    ensures
        a == Action::Build <==> (force || recorded is None || recorded.unwrap().0 != content_hash
            || recorded.unwrap().1 != tree_hash),
        a == Action::Skip <==> !(force || recorded is None || recorded.unwrap().0 != content_hash
            || recorded.unwrap().1 != tree_hash),
{
    if force {
        return Action::Build;
    }
    match recorded {
        Option::None => Action::Build,
        Some((c, t)) => {
            if c == content_hash && t == tree_hash {
                Action::Skip
            } else {
                Action::Build
            }
        },
    }
}


/// The byte views of a sequence of owned names.
pub open spec fn views_of(req: Seq<Vec<u8>>) -> Seq<Seq<u8>> {
    req.map_values(|v: Vec<u8>| v@)
}

/// The names of a sequence of definitions.
pub open spec fn names_of(ds: Seq<Definition>) -> Seq<Seq<u8>> {
    ds.map_values(|d: Definition| d.name@)
}

/// The definition is the parse of some store entry inside the requested
/// closure.
pub open spec fn def_from_closure(es: Seq<FileEntry>, reqv: Seq<Seq<u8>>, d: Definition) -> bool {
    exists|j: int| 0 <= j < es.len() && is_parse_of(d, #[trigger] es[j]) && req_reaches(es, reqv, j)
}

/// What a successful resolution returns: definitions with pairwise distinct
/// names, each parsed from a store entry in the requested closure; every
/// entry of the requested closure is represented; the set is closed under
/// declared dependency names; and the first `req_count` definitions are the
/// deduplicated requested names in request order.
pub open spec fn resolved_set_ok(
    es: Seq<FileEntry>,
    reqv: Seq<Seq<u8>>,
    ds: Seq<Definition>,
    req_count: int,
) -> bool {
    &&& forall|t1: int, t2: int|
        0 <= t1 < t2 < ds.len() ==> (#[trigger] ds[t1]).name@ != (#[trigger] ds[t2]).name@
    &&& forall|t: int| 0 <= t < ds.len() ==> def_from_closure(es, reqv, #[trigger] ds[t])
    &&& forall|j: int|
        0 <= j < es.len() && req_reaches(es, reqv, j) ==> defs_have_name(ds, es[j].name@)
    &&& forall|t: int, k: int|
        0 <= t < ds.len() && 0 <= k < ds[t].depends_on@.len() ==> defs_have_name(
            ds,
            (#[trigger] ds[t].depends_on@[k])@,
        )
    &&& 0 <= req_count <= ds.len()
    &&& names_of(ds.take(req_count)) =~= dedup_names(reqv)
}

/// The name-resolution edge relation over store entries: entry `a` points
/// to entry `b` when `a` parses and declares `b`'s name as a dependency.
pub open spec fn store_edge(es: Seq<FileEntry>) -> spec_fn(int, int) -> bool {
    |a: int, b: int|
        0 <= a < es.len() && 0 <= b < es.len() && entry_parses(es[a]) && entry_deps(es[a]).contains(
            es[b].name@,
        )
}

/// Entry `j` belongs to the requested closure: some requested name resolves
/// to an entry from which `j` is reachable along dependency declarations.
pub open spec fn req_reaches(es: Seq<FileEntry>, req: Seq<Seq<u8>>, j: int) -> bool {
    exists|r: int, i: int|
        0 <= r < req.len() && 0 <= i < es.len() && (#[trigger] es[i]).name@ == (
        #[trigger] req[r]) && reaches(store_edge(es), i, j)
}

/// The requested names deduplicated, first occurrences kept in order.
pub open spec fn dedup_names(req: Seq<Seq<u8>>) -> Seq<Seq<u8>>
    decreases req.len(),
{
    if req.len() == 0 {
        Seq::empty()
    } else {
        let rest = dedup_names(req.drop_last());
        if rest.contains(req.last()) {
            rest
        } else {
            rest.push(req.last())
        }
    }
}

/// Whether `defs` holds a definition named `n`.
pub open spec fn defs_have_name(ds: Seq<Definition>, n: Seq<u8>) -> bool {
    exists|t: int| 0 <= t < ds.len() && (#[trigger] ds[t]).name@ == n
}

/// Finds a definition by name.
fn defs_find(ds: &Vec<Definition>, n: &[u8]) -> (r: Option<usize>)
    ensures
        match r {
            Some(t) => t < ds@.len() && ds@[t as int].name@ == n@,
            None => !defs_have_name(ds@, n@),
        },
{
    let mut t: usize = 0;
    while t < ds.len()
        invariant
            t <= ds@.len(),
            forall|k: int| 0 <= k < t ==> (#[trigger] ds@[k]).name@ != n@,
        decreases ds@.len() - t,
    {
        if bytes_eq(ds[t].name.as_slice(), n) {
            return Some(t);
        }
        t = t + 1;
    }
    None
}

/// Expands the requested names to the full build set: every requested
/// definition and everything it transitively depends on, each parsed once,
/// deduplicated by name.  The first `r.1` definitions are the deduplicated
/// requested ones in request order; the rest were pulled in transitively.
/// Resolution succeeds exactly when every requested name and every
/// transitively declared dependency name resolves to a parsable entry.
#[verifier::loop_isolation(false)]
#[verifier::rlimit(100)]
#[verifier::spinoff_prover]
pub fn resolve_set(store: &DefinitionStore, requested: &Vec<Vec<u8>>) -> (r: Result<
    (Vec<Definition>, usize),
    StoreError,
>)
    requires
        store.wf(),
    ensures
        r matches Ok(p) ==> resolved_set_ok(store.entries@, views_of(requested@), p.0@, p.1 as int),
        r matches Err(e) ==> match e {
            StoreError::NotFound { name, .. } => !has_name(store.entries@, name@) && (views_of(
                requested@,
            ).contains(name@) || exists|j: int|
                0 <= j < store.entries@.len() && req_reaches(
                    store.entries@,
                    views_of(requested@),
                    j,
                ) && entry_parses(#[trigger] store.entries@[j]) && entry_deps(
                    store.entries@[j],
                ).contains(name@)),
            StoreError::Parse { path, kind } => exists|j: int|
                0 <= j < store.entries@.len() && req_reaches(
                    store.entries@,
                    views_of(requested@),
                    j,
                ) && !entry_parses(#[trigger] store.entries@[j]) && path@
                    == store.entries@[j].path@ && kind == entry_error(store.entries@[j]),
            StoreError::ParseAggregate { .. } => false,
        },
{
    let ghost es = store.entries@;
    let ghost e = store_edge(es);
    let ghost reqv = views_of(requested@);
    let n_entries: usize = store.entries.len();
    let mut defs: Vec<Definition> = Vec::new();
    let ghost idxs: Seq<int> = Seq::empty();
    let mut idxs_t = Ghost(idxs);
    let mut rq: usize = 0;
    proof {
        assert(reqv.take(0) =~= Seq::<Seq<u8>>::empty());
        assert(dedup_names(reqv.take(0)) =~= Seq::<Seq<u8>>::empty());
        assert(defs@.take(0).map_values(|d: Definition| d.name@) =~= Seq::<Seq<u8>>::empty());
    }
    while rq < requested.len()
        invariant
            defs@.len() == idxs_t@.len(),
            forall|t: int|
                0 <= t < defs@.len() ==> 0 <= #[trigger] idxs_t@[t] < es.len() && is_parse_of(
                    defs@[t],
                    es[idxs_t@[t]],
                ) && defs@[t].name@ == es[idxs_t@[t]].name@ && req_reaches(es, reqv, idxs_t@[t]),
            forall|t1: int, t2: int|
                0 <= t1 < t2 < defs@.len() ==> (#[trigger] defs@[t1]).name@ != (
                #[trigger] defs@[t2]).name@,
            rq <= requested@.len(),
            defs@.map_values(|d: Definition| d.name@) =~= dedup_names(reqv.take(rq as int)),
        decreases requested@.len() - rq,
    {
        let name: &Vec<u8> = &requested[rq];
        proof {
            assert(reqv.take(rq + 1).drop_last() =~= reqv.take(rq as int));
            assert(reqv.take(rq + 1).last() == reqv[rq as int]);
            assert(reqv[rq as int] == name@);
        }
        match defs_find(&defs, name.as_slice()) {
            Some(_) => {
                proof {
                    let t = choose|t: int| 0 <= t < defs@.len() && defs@[t].name@ == name@;
                    assert(defs@.map_values(|d: Definition| d.name@)[t] == name@);
                    assert(dedup_names(reqv.take(rq as int)).contains(name@));
                }
            },
            None => {
                proof {
                    assert(!dedup_names(reqv.take(rq as int)).contains(name@)) by {
                        if dedup_names(reqv.take(rq as int)).contains(name@) {
                            let t = choose|t: int|
                                0 <= t < dedup_names(reqv.take(rq as int)).len() && dedup_names(
                                    reqv.take(rq as int),
                                )[t] == name@;
                            assert(defs@.map_values(|d: Definition| d.name@)[t] == name@);
                            assert(defs@[t].name@ == name@);
                        }
                    }
                }
                match store.find(name.as_slice()) {
                    Ok(d) => {
                        let ghost j = choose|j: int|
                            0 <= j < es.len() && (#[trigger] es[j]).name@ == name@ && is_parse_of(
                                d,
                                es[j],
                            );
                        proof {
                            lemma_reaches_self(e, j);
                            assert(es[j].name@ == reqv[rq as int]);
                            assert(req_reaches(es, reqv, j));
                            idxs_t@ = idxs_t@.push(j);
                        }
                        defs.push(d);
                        proof {
                            assert(defs@.map_values(|d2: Definition| d2.name@)
                                =~= dedup_names(reqv.take(rq as int)).push(name@));
                        }
                    },
                    Err(err) => {
                        match &err {
                            StoreError::NotFound { name: n2, .. } => {
                                proof {
                                    assert(reqv[rq as int] == n2@);
                                    assert(views_of(requested@).contains(n2@));
                                }
                            },
                            StoreError::Parse { .. } => {
                                proof {
                                    let j = choose|j: int|
                                        0 <= j < es.len() && (#[trigger] es[j]).name@ == name@
                                            && !entry_parses(es[j]) && match err {
                                            StoreError::Parse { path: p2, .. } => p2@ == es[j].path@,
                                            _ => false,
                                        };
                                    lemma_reaches_self(e, j);
                                    assert(es[j].name@ == reqv[rq as int]);
                                    assert(req_reaches(es, views_of(requested@), j));
                                }
                            },
                            StoreError::ParseAggregate { .. } => {
                                proof {
                                    assert(false);
                                }
                            },
                        }
                        return Err(err);
                    },
                }
            },
        }
        rq = rq + 1;
    }
    let req_count: usize = defs.len();
    proof {
        assert(reqv.take(reqv.len() as int) =~= reqv);
        assert(defs@.take(req_count as int) =~= defs@);
    }
    let mut i: usize = 0;
    while i < defs.len()
        invariant
            defs@.len() == idxs_t@.len(),
            i <= defs@.len(),
            req_count <= defs@.len(),
            forall|t: int|
                0 <= t < defs@.len() ==> 0 <= #[trigger] idxs_t@[t] < es.len() && is_parse_of(
                    defs@[t],
                    es[idxs_t@[t]],
                ) && defs@[t].name@ == es[idxs_t@[t]].name@ && req_reaches(es, reqv, idxs_t@[t]),
            forall|t1: int, t2: int|
                0 <= t1 < t2 < defs@.len() ==> (#[trigger] defs@[t1]).name@ != (
                #[trigger] defs@[t2]).name@,
            defs@.take(req_count as int).map_values(|d: Definition| d.name@) =~= dedup_names(reqv),
            forall|t: int, k: int|
                0 <= t < i && 0 <= k < defs@[t].depends_on@.len() ==> defs_have_name(
                    defs@,
                    (#[trigger] defs@[t].depends_on@[k])@,
                ),
        decreases es.len() + 1 - i,
    {
        proof {
            lemma_distinct_defs_bounded(defs@, idxs_t@, es);
        }
        let deg: usize = defs[i].depends_on.len();
        let mut k: usize = 0;
        while k < deg
            invariant
                defs@.len() == idxs_t@.len(),
                i < defs@.len(),
                req_count <= defs@.len(),
                deg == defs@[i as int].depends_on@.len(),
                k <= deg,
                forall|t: int|
                    0 <= t < defs@.len() ==> 0 <= #[trigger] idxs_t@[t] < es.len() && is_parse_of(
                        defs@[t],
                        es[idxs_t@[t]],
                    ) && defs@[t].name@ == es[idxs_t@[t]].name@ && req_reaches(es, reqv, idxs_t@[t]),
                forall|t1: int, t2: int|
                    0 <= t1 < t2 < defs@.len() ==> (#[trigger] defs@[t1]).name@ != (
                    #[trigger] defs@[t2]).name@,
                defs@.take(req_count as int).map_values(|d: Definition| d.name@) =~= dedup_names(
                    reqv,
                ),
                forall|t: int, k2: int|
                    0 <= t < i && 0 <= k2 < defs@[t].depends_on@.len() ==> defs_have_name(
                        defs@,
                        (#[trigger] defs@[t].depends_on@[k2])@,
                    ),
                forall|k2: int|
                    0 <= k2 < k ==> defs_have_name(defs@, (#[trigger] defs@[i as int].depends_on@[k2])@),
            decreases deg - k,
        {
            let dep: Vec<u8> = clone_bytes(&defs[i].depends_on[k]);
            proof {
                assert(dep@ == defs@[i as int].depends_on@[k as int]@);
            }
            match defs_find(&defs, dep.as_slice()) {
                Some(w) => {
                    proof {
                        assert(defs@[w as int].name@ == dep@);
                        assert(defs_have_name(defs@, dep@));
                    }
                },
                None => {
                    match store.find(dep.as_slice()) {
                        Ok(d) => {
                            let ghost ji = idxs_t@[i as int];
                            let ghost j = choose|j: int|
                                0 <= j < es.len() && (#[trigger] es[j]).name@ == dep@
                                    && is_parse_of(d, es[j]);
                            proof {
                                assert(entry_parses(es[ji])) by {
                                    assert(is_parse_of(defs@[i as int], es[ji]));
                                }
                                assert(entry_deps(es[ji]).contains(dep@)) by {
                                    lemma_deps_of_parse(defs@[i as int], es[ji], k as int);
                                }
                                assert(e(ji, j));
                                lemma_reaches_step(e, ji, j);
                                let (r0, i0) = choose|r0: int, i0: int|
                                    0 <= r0 < reqv.len() && 0 <= i0 < es.len() && (
                                    #[trigger] es[i0]).name@ == (#[trigger] reqv[r0]) && reaches(
                                        e,
                                        i0,
                                        ji,
                                    );
                                lemma_reaches_trans(e, i0, ji, j);
                                assert(req_reaches(es, reqv, j));
                                idxs_t@ = idxs_t@.push(j);
                            }
                            let ghost pre_defs = defs@;
                            defs.push(d);
                            proof {
                                assert(defs@.take(req_count as int) =~= pre_defs.take(
                                    req_count as int,
                                ));
                                assert forall|t: int, k2: int|
                                    0 <= t < i && 0 <= k2 < defs@[t].depends_on@.len()
                                        implies defs_have_name(
                                    defs@,
                                    (#[trigger] defs@[t].depends_on@[k2])@,
                                ) by {
                                    assert(defs@[t] == pre_defs[t]);
                                    assert(defs_have_name(pre_defs, pre_defs[t].depends_on@[k2]@));
                                    let w = choose|w: int|
                                        0 <= w < pre_defs.len() && (#[trigger] pre_defs[w]).name@
                                            == pre_defs[t].depends_on@[k2]@;
                                    assert(defs@[w].name@ == defs@[t].depends_on@[k2]@);
                                }
                                assert(defs@[defs@.len() - 1].name@ == dep@);
                                assert(defs_have_name(defs@, dep@));
                                assert forall|k2: int|
                                    0 <= k2 < k implies defs_have_name(
                                    defs@,
                                    (#[trigger] defs@[i as int].depends_on@[k2])@,
                                ) by {
                                    assert(defs@[i as int] == pre_defs[i as int]);
                                    assert(defs_have_name(
                                        pre_defs,
                                        pre_defs[i as int].depends_on@[k2]@,
                                    ));
                                    let w = choose|w: int|
                                        0 <= w < pre_defs.len() && (#[trigger] pre_defs[w]).name@
                                            == pre_defs[i as int].depends_on@[k2]@;
                                    assert(defs@[w].name@ == defs@[i as int].depends_on@[k2]@);
                                }
                            }
                        },
                        Err(err) => {
                            let ghost ji = idxs_t@[i as int];
                            proof {
                                assert(entry_parses(es[ji])) by {
                                    assert(is_parse_of(defs@[i as int], es[ji]));
                                }
                                assert(entry_deps(es[ji]).contains(dep@)) by {
                                    lemma_deps_of_parse(defs@[i as int], es[ji], k as int);
                                }
                            }
                            match &err {
                                StoreError::NotFound { name: n2, .. } => {
                                    proof {
                                        assert(n2@ == dep@);
                                        assert(req_reaches(es, views_of(requested@), ji));
                                    }
                                },
                                StoreError::Parse { .. } => {
                                    proof {
                                        let j = choose|j: int|
                                            0 <= j < es.len() && (#[trigger] es[j]).name@ == dep@
                                                && !entry_parses(es[j]) && match err {
                                                StoreError::Parse { path: p2, .. } => p2@
                                                    == es[j].path@,
                                                _ => false,
                                            };
                                        assert(e(ji, j));
                                        lemma_reaches_step(e, ji, j);
                                        let (r0, i0) = choose|r0: int, i0: int|
                                            0 <= r0 < reqv.len() && 0 <= i0 < es.len() && (
                                            #[trigger] es[i0]).name@ == (#[trigger] reqv[r0])
                                                && reaches(e, i0, ji);
                                        lemma_reaches_trans(e, i0, ji, j);
                                        assert(req_reaches(es, views_of(requested@), j));
                                    }
                                },
                                StoreError::ParseAggregate { .. } => {
                                    proof {
                                        assert(false);
                                    }
                                },
                            }
                            return Err(err);
                        },
                    }
                },
            }
            k = k + 1;
        }
        i = i + 1;
    }
    proof {
        assert forall|j: int|
            0 <= j < es.len() && req_reaches(es, reqv, j) implies defs_have_name(
            defs@,
            es[j].name@,
        ) by {
            let inset = |x: int| 0 <= x < es.len() && defs_have_name(defs@, es[x].name@);
            assert forall|x: int, y: int| inset(x) && #[trigger] e(x, y) implies inset(y) by {
                let t = choose|t: int| 0 <= t < defs@.len() && (#[trigger] defs@[t]).name@ == es[x].name@;
                assert(idxs_t@[t] == x) by {
                    lemma_same_name_same_entry(es, idxs_t@[t], x, store);
                }
                assert(entry_deps(es[x]).contains(es[y].name@));
                let kk = choose|kk: int|
                    0 <= kk < entry_deps(es[x]).len() && entry_deps(es[x])[kk] == es[y].name@;
                assert(defs@[t].depends_on@.map_values(|v: Vec<u8>| v@) =~= entry_deps(es[x])) by {
                    lemma_parse_deps_eq(defs@[t], es[x]);
                }
                assert(defs@[t].depends_on@[kk]@ == es[y].name@);
                assert(defs_have_name(defs@, defs@[t].depends_on@[kk]@));
            }
            let (r0, i0) = choose|r0: int, i0: int|
                0 <= r0 < reqv.len() && 0 <= i0 < es.len() && (#[trigger] es[i0]).name@ == (
                #[trigger] reqv[r0]) && reaches(e, i0, j);
            assert(inset(i0)) by {
                assert(dedup_names(reqv).contains(reqv[r0])) by {
                    lemma_dedup_contains(reqv, r0);
                }
                let w = choose|w: int|
                    0 <= w < dedup_names(reqv).len() && dedup_names(reqv)[w] == reqv[r0];
                assert(defs@.take(req_count as int).map_values(|d: Definition| d.name@)[w]
                    == reqv[r0]);
                assert(defs@[w].name@ == es[i0].name@);
            }
            lemma_reachable_in_closed_set(e, inset, i0, j);
        }
        assert(es == store.entries@);
        assert(forall|t1: int, t2: int|
            0 <= t1 < t2 < defs@.len() ==> (#[trigger] defs@[t1]).name@ != (
            #[trigger] defs@[t2]).name@);

        assert(forall|j: int|
            0 <= j < store.entries@.len() && req_reaches(store.entries@, reqv, j)
                ==> defs_have_name(defs@, store.entries@[j].name@));
        assert(forall|t: int, k: int|
            0 <= t < defs@.len() && 0 <= k < defs@[t].depends_on@.len() ==> defs_have_name(
                defs@,
                (#[trigger] defs@[t].depends_on@[k])@,
            ));
        assert(req_count <= defs@.len());
        assert(names_of(defs@.take(req_count as int)) =~= dedup_names(reqv));
        assert(resolved_set_ok(store.entries@, views_of(requested@), defs@, req_count as int)) by {
            assert forall|t: int| 0 <= t < defs@.len() implies def_from_closure(
                store.entries@,
                views_of(requested@),
                #[trigger] defs@[t],
            ) by {
                let j = idxs_t@[t];
                assert(0 <= j < store.entries@.len());
                assert(is_parse_of(defs@[t], store.entries@[j]));
                assert(req_reaches(store.entries@, views_of(requested@), j));
                assert(def_from_closure(store.entries@, views_of(requested@), defs@[t]));
            }
            assert(names_of(defs@.take(req_count as int)) =~= dedup_names(views_of(requested@)));
        }
    }
    Ok((defs, req_count))
}

/// A parsed definition's dependency views are exactly its entry's declared
/// names.
proof fn lemma_parse_deps_eq(d: Definition, e: FileEntry)
    requires
        is_parse_of(d, e),
    ensures
        d.depends_on@.map_values(|v: Vec<u8>| v@) =~= entry_deps(e),
{
}

/// One declared dependency of a parsed definition is declared by its entry.
proof fn lemma_deps_of_parse(d: Definition, e: FileEntry, k: int)
    requires
        is_parse_of(d, e),
        0 <= k < d.depends_on@.len(),
    ensures
        entry_deps(e).contains(d.depends_on@[k]@),
{
    lemma_parse_deps_eq(d, e);
    assert(d.depends_on@.map_values(|v: Vec<u8>| v@)[k] == d.depends_on@[k]@);
    assert(entry_deps(e)[k] == d.depends_on@[k]@);
}

/// Two entry indices carrying the same name coincide in a well-formed store.
proof fn lemma_same_name_same_entry(es: Seq<FileEntry>, a: int, b: int, store: &DefinitionStore)
    requires
        store.wf(),
        store.entries@ == es,
        0 <= a < es.len(),
        0 <= b < es.len(),
        es[a].name@ == es[b].name@,
    ensures
        a == b,
{
}

/// Every requested name appears in the deduplicated request.
proof fn lemma_dedup_contains(req: Seq<Seq<u8>>, r: int)
    requires
        0 <= r < req.len(),
    ensures
        dedup_names(req).contains(req[r]),
    decreases req.len(),
{
    if r == req.len() - 1 {
        if !dedup_names(req.drop_last()).contains(req.last()) {
            assert(dedup_names(req)[dedup_names(req).len() - 1] == req.last());
        } else {
            let w = choose|w: int|
                0 <= w < dedup_names(req.drop_last()).len() && dedup_names(req.drop_last())[w]
                    == req.last();
            assert(dedup_names(req)[w] == req.last()) by {
                lemma_dedup_prefix(req);
            }
        }
    } else {
        lemma_dedup_contains(req.drop_last(), r);
        assert(req.drop_last()[r] == req[r]);
        let w = choose|w: int|
            0 <= w < dedup_names(req.drop_last()).len() && dedup_names(req.drop_last())[w]
                == req[r];
        assert(dedup_names(req)[w] == req[r]) by {
            lemma_dedup_prefix(req);
        }
    }
}

/// Deduplication of a longer request extends that of its prefix.
proof fn lemma_dedup_prefix(req: Seq<Seq<u8>>)
    requires
        req.len() >= 1,
    ensures
        forall|w: int|
            0 <= w < dedup_names(req.drop_last()).len() ==> #[trigger] dedup_names(req)[w]
                == dedup_names(req.drop_last())[w],
        dedup_names(req).len() >= dedup_names(req.drop_last()).len(),
{
}

/// Distinct definitions backed by distinct entries are no more numerous
/// than the entries.
proof fn lemma_distinct_defs_bounded(ds: Seq<Definition>, idxs: Seq<int>, es: Seq<FileEntry>)
    requires
        ds.len() == idxs.len(),
        forall|t: int| 0 <= t < idxs.len() ==> 0 <= #[trigger] idxs[t] < es.len(),
        forall|t: int|
            0 <= t < ds.len() ==> (#[trigger] ds[t]).name@ == es[idxs[t]].name@,
        forall|t1: int, t2: int|
            0 <= t1 < t2 < ds.len() ==> (#[trigger] ds[t1]).name@ != (#[trigger] ds[t2]).name@,
    ensures
        ds.len() <= es.len(),
{
    broadcast use vstd::set::group_set_axioms;
    broadcast use vstd::seq_lib::seq_to_set_is_finite;

    assert(idxs.no_duplicates()) by {
        assert forall|t1: int, t2: int|
            0 <= t1 < t2 < idxs.len() implies idxs[t1] != idxs[t2] by {
            assert(ds[t1].name@ != ds[t2].name@);
        }
    }
    idxs.unique_seq_to_set();
    let range = vstd::set_lib::set_int_range(0, es.len() as int);
    vstd::set_lib::lemma_int_range(0, es.len() as int);
    assert(idxs.to_set().subset_of(range)) by {
        assert forall|x: int| idxs.to_set().contains(x) implies range.contains(x) by {
            assert(idxs.contains(x));
            let t = choose|t: int| 0 <= t < idxs.len() && idxs[t] == x;
            assert(0 <= idxs[t] < es.len());
        }
    }
    vstd::set_lib::lemma_len_subset(idxs.to_set(), range);
}


/// Like `is_parse_of`, but silent about the tree hash, which propagation
/// rewrites after parsing.
pub open spec fn is_source_of(d: Definition, e: FileEntry) -> bool {
    match e.content {
        crate::store::FileContent::Bytes(b) => {
            &&& b@.len() > 0
            &&& vstd::utf8::valid_utf8(b@)
            &&& d.name@ == e.name@
            &&& d.path@ == e.path@
            &&& d.bang@ == crate::parse::first_line(b@)
            &&& Some(d.depends_on@.map_values(|v: Vec<u8>| v@)) == crate::parse::spec_deps(b@)
            &&& d.content_hash == crate::hashing::spec_content_hash(b@)
        },
        _ => false,
    }
}

/// The definition stems, up to its tree hash, from some store entry inside
/// the requested closure.
pub open spec fn planned_from_closure(es: Seq<FileEntry>, reqv: Seq<Seq<u8>>, d: Definition) -> bool {
    exists|j: int| 0 <= j < es.len() && is_source_of(d, #[trigger] es[j]) && req_reaches(es, reqv, j)
}

/// Dependency `k` of definition `i` is named by an earlier definition.
pub open spec fn dep_listed_earlier(ds: Seq<Definition>, i: int, k: int) -> bool {
    exists|m: int| 0 <= m < i && ds[i].depends_on@[k]@ == (#[trigger] ds[m]).name@
}

/// The names a plan is asked for: every known name with `all`, else the
/// explicit request.
pub open spec fn requested_names(es: Seq<FileEntry>, requested: Seq<Vec<u8>>, all: bool) -> Seq<
    Seq<u8>,
> {
    if all {
        names_of_entries(es)
    } else {
        views_of(requested)
    }
}

/// The requested closure is resolvable: every requested name exists, every
/// entry reachable from the request parses, and every dependency name such
/// an entry declares exists.
pub open spec fn closure_ok(es: Seq<FileEntry>, reqv: Seq<Seq<u8>>) -> bool {
    &&& forall|r: int| 0 <= r < reqv.len() ==> has_name(es, #[trigger] reqv[r])
    &&& forall|j: int|
        0 <= j < es.len() && #[trigger] req_reaches(es, reqv, j) ==> entry_parses(es[j])
    &&& forall|j: int, k: int|
        0 <= j < es.len() && req_reaches(es, reqv, j) && 0 <= k < entry_deps(es[j]).len()
            ==> has_name(es, #[trigger] entry_deps(es[j])[k])
}

/// Some entry this definition is the parse of.
pub open spec fn entry_of(es: Seq<FileEntry>, d: Definition) -> int {
    choose|j: int| 0 <= j < es.len() && is_parse_of(d, #[trigger] es[j])
}

/// A cycle among definitions drawn from the store is a cycle among the
/// store's entries.
proof fn lemma_defs_cycle_to_store(es: Seq<FileEntry>, reqv: Seq<Seq<u8>>, ds: Seq<Definition>)
    requires
        has_cycle(defs_edge(ds)),
        forall|t: int| 0 <= t < ds.len() ==> def_from_closure(es, reqv, #[trigger] ds[t]),
    ensures
        has_cycle(store_edge(es)),
{
    let ed = defs_edge(ds);
    let e = store_edge(es);
    let p = choose|p: Seq<int>| is_path(ed, p) && p.len() >= 2 && p.first() == p.last();
    assert forall|k: int| 0 <= k < p.len() implies 0 <= #[trigger] p[k] < ds.len() by {
        if k < p.len() - 1 {
            assert(ed(p[k + 1 - 1], p[k + 1]));
        } else {
            assert(ed(p[k - 1 + 1 - 1], p[k - 1 + 1]));
        }
    }
    assert forall|k: int| 0 <= k < p.len() implies 0 <= entry_of(es, ds[#[trigger] p[k]])
        < es.len() && is_parse_of(ds[p[k]], es[entry_of(es, ds[p[k]])]) by {
        assert(def_from_closure(es, reqv, ds[p[k]]));
        let j0 = choose|j0: int|
            0 <= j0 < es.len() && is_parse_of(ds[p[k]], #[trigger] es[j0]) && req_reaches(
                es,
                reqv,
                j0,
            );
        assert(is_parse_of(ds[p[k]], es[j0]));
    }
    let q = p.map_values(|t: int| entry_of(es, ds[t]));
    assert forall|j: int| 1 <= j < q.len() implies e(q[j - 1], #[trigger] q[j]) by {
        assert(ed(p[j - 1], p[j]));
        let a = p[j - 1];
        let b = p[j];
        let ja = entry_of(es, ds[a]);
        let jb = entry_of(es, ds[b]);
        assert(is_parse_of(ds[a], es[ja]) && is_parse_of(ds[b], es[jb]));
        assert(entry_parses(es[ja]));
        assert(entry_deps(es[ja]) =~= ds[a].depends_on@.map_values(|v: Vec<u8>| v@));
        assert(ds[a].depends_on@.map_values(|v: Vec<u8>| v@).contains(ds[b].name@));
        assert(ds[b].name@ == es[jb].name@);
        assert(entry_deps(es[ja]).contains(es[jb].name@));
        assert(q[j - 1] == ja && q[j] == jb);
    }
    assert(is_path(e, q));
    assert(q.len() >= 2);
    assert(q.first() == q.last()) by {
        assert(p[0] == p[p.len() - 1]);
        assert(q[0] == entry_of(es, ds[p[0]]));
        assert(q[q.len() - 1] == entry_of(es, ds[p[p.len() - 1]]));
    }
    assert(has_cycle(e));
}

/// An index graph built by name resolution draws exactly the name-level
/// dependency edges.
proof fn lemma_index_edge_equiv(dv: Seq<Seq<usize>>, ds: Seq<Definition>)
    requires
        dv.len() == ds.len(),
        ds.len() <= usize::MAX,
        forall|t1: int, t2: int|
            0 <= t1 < t2 < ds.len() ==> (#[trigger] ds[t1]).name@ != (#[trigger] ds[t2]).name@,
        forall|a: int| 0 <= a < dv.len() ==> (#[trigger] dv[a]).len() == ds[a].depends_on@.len(),
        forall|a: int, k: int|
            0 <= a < dv.len() && 0 <= k < dv[a].len() ==> (#[trigger] dv[a][k]) < ds.len()
                && ds[dv[a][k] as int].name@ == ds[a].depends_on@[k]@,
    ensures
        forall|a: int, b: int| #[trigger] edge_fn(dv)(a, b) <==> #[trigger] defs_edge(ds)(a, b),
{
    let e1 = edge_fn(dv);
    let e3 = defs_edge(ds);
    assert forall|a: int, b: int| #[trigger] e1(a, b) <==> #[trigger] e3(a, b) by {
        if e1(a, b) {
            assert(dv[a].contains(b as usize));
            let k = choose|k: int| 0 <= k < dv[a].len() && dv[a][k] == b as usize;
            assert(dv[a][k] as int == b);
            assert(ds[b].name@ == ds[a].depends_on@[k]@);
            assert(ds[a].depends_on@.map_values(|v: Vec<u8>| v@)[k] == ds[a].depends_on@[k]@);
            assert(ds[a].depends_on@.map_values(|v: Vec<u8>| v@).contains(ds[b].name@));
        }
        if e3(a, b) {
            let dm = ds[a].depends_on@.map_values(|v: Vec<u8>| v@);
            let k = choose|k: int| 0 <= k < dm.len() && (#[trigger] dm[k]) == ds[b].name@;
            assert(dm.len() == ds[a].depends_on@.len());
            assert(dm[k] == ds[a].depends_on@[k]@);
            assert(ds[a].depends_on@[k]@ == ds[b].name@);
            let w = dv[a][k];
            assert(ds[w as int].name@ == ds[a].depends_on@[k]@);
            assert(w as int == b) by {
                if (w as int) < b {
                    assert(ds[w as int].name@ != ds[b].name@);
                } else if (w as int) > b {
                    assert(ds[b].name@ != ds[w as int].name@);
                }
            }
            assert(dv[a].contains(b as usize)) by {
                assert(dv[a][k] == b as usize);
            }
        }
    }
}

/// The dependency edge relation over a definition list: `a -> b` when `a`
/// declares `b`'s name.
pub open spec fn defs_edge(ds: Seq<Definition>) -> spec_fn(int, int) -> bool {
    |a: int, b: int|
        0 <= a < ds.len() && 0 <= b < ds.len() && ds[a].depends_on@.map_values(
            |v: Vec<u8>| v@,
        ).contains(ds[b].name@)
}

/// Resolves every declared dependency name to its index in `defs`.
/// Callable only on a closed, duplicate-free definition list, where every
/// name resolves.
fn build_graph(defs: &Vec<Definition>) -> (deps: Vec<Vec<usize>>)
    requires
        forall|t1: int, t2: int|
            0 <= t1 < t2 < defs@.len() ==> (#[trigger] defs@[t1]).name@ != (
            #[trigger] defs@[t2]).name@,
        forall|t: int, k: int|
            0 <= t < defs@.len() && 0 <= k < defs@[t].depends_on@.len() ==> defs_have_name(
                defs@,
                (#[trigger] defs@[t].depends_on@[k])@,
            ),
    ensures
        deps@.len() == defs@.len(),
        forall|a: int|
            0 <= a < deps@.len() ==> (#[trigger] deps@[a])@.len() == defs@[a].depends_on@.len(),
        forall|a: int, k: int|
            0 <= a < deps@.len() && 0 <= k < deps@[a]@.len() ==> (#[trigger] deps@[a]@[k])
                < defs@.len() && defs@[deps@[a]@[k] as int].name@ == defs@[a].depends_on@[k]@,
{
    let mut deps: Vec<Vec<usize>> = Vec::new();
    let mut a: usize = 0;
    while a < defs.len()
        invariant
            a <= defs@.len(),
            deps@.len() == a,
            forall|x: int|
                0 <= x < a ==> (#[trigger] deps@[x])@.len() == defs@[x].depends_on@.len(),
            forall|x: int, k: int|
                0 <= x < a && 0 <= k < deps@[x]@.len() ==> (#[trigger] deps@[x]@[k]) < defs@.len()
                    && defs@[deps@[x]@[k] as int].name@ == defs@[x].depends_on@[k]@,
            forall|t1: int, t2: int|
                0 <= t1 < t2 < defs@.len() ==> (#[trigger] defs@[t1]).name@ != (
                #[trigger] defs@[t2]).name@,
            forall|t: int, k: int|
                0 <= t < defs@.len() && 0 <= k < defs@[t].depends_on@.len() ==> defs_have_name(
                    defs@,
                    (#[trigger] defs@[t].depends_on@[k])@,
                ),
        decreases defs@.len() - a,
    {
        let mut row: Vec<usize> = Vec::new();
        let deg: usize = defs[a].depends_on.len();
        let mut k: usize = 0;
        while k < deg
            invariant
                a < defs@.len(),
                deg == defs@[a as int].depends_on@.len(),
                k <= deg,
                row@.len() == k,
                forall|x: int|
                    0 <= x < k ==> (#[trigger] row@[x]) < defs@.len()
                        && defs@[row@[x] as int].name@ == defs@[a as int].depends_on@[x]@,
                forall|t1: int, t2: int|
                    0 <= t1 < t2 < defs@.len() ==> (#[trigger] defs@[t1]).name@ != (
                    #[trigger] defs@[t2]).name@,
                forall|t: int, k2: int|
                    0 <= t < defs@.len() && 0 <= k2 < defs@[t].depends_on@.len()
                        ==> defs_have_name(defs@, (#[trigger] defs@[t].depends_on@[k2])@),
            decreases deg - k,
        {
            let dep: Vec<u8> = clone_bytes(&defs[a].depends_on[k]);
            proof {
                assert(dep@ == defs@[a as int].depends_on@[k as int]@);
                assert(defs_have_name(defs@, dep@));
            }
            match defs_find(defs, dep.as_slice()) {
                Some(t) => {
                    row.push(t);
                },
                None => {
                    proof {
                        assert(false);
                    }
                },
            }
            k = k + 1;
        }
        deps.push(row);
        a = a + 1;
    }
    deps
}

/// The recorded hashes for a path among raw artifact records: the first
/// record matching the path, its annotations read as hex.
pub open spec fn recorded_raw(recs: Seq<ArtifactRecord>, path: Seq<u8>) -> Option<(int, int)>
    decreases recs.len(),
{
    if recs.len() == 0 {
        Option::None
    } else if recs[0].path@ == path {
        Some((hex_value(recs[0].content_hex@), hex_value(recs[0].tree_hex@)))
    } else {
        recorded_raw(recs.drop_first(), path)
    }
}

/// Decoded records answer lookups exactly as the raw records do.
proof fn lemma_recorded_decoded(
    recs: Seq<ArtifactRecord>,
    rs: Seq<(Vec<u8>, u64, u64)>,
    path: Seq<u8>,
)
    requires
        rs.len() == recs.len(),
        forall|i: int|
            0 <= i < rs.len() ==> (#[trigger] rs[i]).0@ == recs[i].path@ && rs[i].1 as int
                == hex_value(recs[i].content_hex@) && rs[i].2 as int == hex_value(
                recs[i].tree_hex@,
            ),
    ensures
        match recorded_for(rs, path) {
            Some(p) => recorded_raw(recs, path) == Some((p.0 as int, p.1 as int)),
            Option::None => recorded_raw(recs, path) is None,
        },
    decreases recs.len(),
{
    if recs.len() > 0 {
        assert(rs[0].0@ == recs[0].path@);
        if recs[0].path@ != path {
            assert(forall|i: int|
                0 <= i < rs.len() - 1 ==> rs.drop_first()[i] == rs[i + 1]
                    && recs.drop_first()[i] == recs[i + 1]);
            lemma_recorded_decoded(recs.drop_first(), rs.drop_first(), path);
        }
    }
}

/// A resolved, ordered, annotated build set.
pub struct BuildPlan {
    /// The effective build set in build order: every dependency stands
    /// strictly before each of its dependents, and each definition carries
    /// its propagated tree hash.
    pub defs: Vec<Definition>,
    /// Per definition, in the same order: build it, or skip it as up to
    /// date.
    pub actions: Vec<Action>,
    /// How many definitions were requested (deduplicated).
    pub requested_count: usize,
    /// How many more were pulled in as transitive dependencies.
    pub transitive_count: usize,
}

/// Resolves, orders and annotates a build set.  `requested` names the
/// definitions to build (ignored when `all` is set, which takes every known
/// definition); `force` builds everything; `records` is the external
/// builder's artifact registry.
///
/// The planned set is exactly the requested transitive closure; its order
/// puts every dependency strictly before its dependents, which certifies
/// the graph acyclic; each definition's tree hash combines, by XOR, the
/// content hashes of exactly its reachable dependencies (itself included),
/// whatever the traversal order; and each action is `Skip` exactly when
/// `force` is unset and a record matches the definition's path with both
/// hashes equal.  A dependency cycle is rejected with no plan at all.
#[verifier::loop_isolation(false)]
#[verifier::rlimit(100)]
#[verifier::spinoff_prover]
pub fn plan(
    store: &DefinitionStore,
    requested: &Vec<Vec<u8>>,
    all: bool,
    force: bool,
    records: &Vec<ArtifactRecord>,
) -> (r: Result<BuildPlan, ResolveError>)
    requires
        store.wf(),
    ensures
        r matches Err(e) ==> (e matches ResolveError::NothingRequested <==> (!all && requested@.len()
            == 0)),
        r matches Err(e) ==> match e {
            ResolveError::NothingRequested => true,
            ResolveError::Cycle { .. } => has_cycle(store_edge(store.entries@)),
            ResolveError::BadRecord { path } => exists|i: int|
                0 <= i < records@.len() && !record_ok(#[trigger] records@[i]) && path@
                    == records@[i].path@,
            ResolveError::Store(se) => match se {
                StoreError::NotFound { name, .. } => !has_name(store.entries@, name@) && (
                requested_names(store.entries@, requested@, all).contains(name@) || exists|j: int|
                    0 <= j < store.entries@.len() && req_reaches(
                        store.entries@,
                        requested_names(store.entries@, requested@, all),
                        j,
                    ) && entry_parses(#[trigger] store.entries@[j]) && entry_deps(
                        store.entries@[j],
                    ).contains(name@)),
                StoreError::Parse { path, kind } => exists|j: int|
                    0 <= j < store.entries@.len() && req_reaches(
                        store.entries@,
                        requested_names(store.entries@, requested@, all),
                        j,
                    ) && !entry_parses(#[trigger] store.entries@[j]) && path@
                        == store.entries@[j].path@ && kind == entry_error(store.entries@[j]),
                StoreError::ParseAggregate { .. } => false,
            },
        },
        (all || requested@.len() > 0) && (forall|i: int|
            0 <= i < records@.len() ==> record_ok(#[trigger] records@[i])) && closure_ok(
            store.entries@,
            requested_names(store.entries@, requested@, all),
        ) && !has_cycle(store_edge(store.entries@)) ==> r is Ok,
        r matches Ok(p) ==> {
            &&& p.defs@.len() == p.actions@.len()
            &&& p.requested_count + p.transitive_count == p.defs@.len()
            &&& p.requested_count == dedup_names(
                requested_names(store.entries@, requested@, all),
            ).len()
            &&& forall|t1: int, t2: int|
                0 <= t1 < t2 < p.defs@.len() ==> (#[trigger] p.defs@[t1]).name@ != (
                #[trigger] p.defs@[t2]).name@
            &&& forall|i: int, k: int|
                0 <= i < p.defs@.len() && 0 <= k < p.defs@[i].depends_on@.len()
                    ==> #[trigger] dep_listed_earlier(p.defs@, i, k)
            &&& !has_cycle(defs_edge(p.defs@))
            &&& forall|t: int|
                0 <= t < p.defs@.len() ==> planned_from_closure(
                    store.entries@,
                    requested_names(store.entries@, requested@, all),
                    #[trigger] p.defs@[t],
                )
            &&& forall|j: int|
                0 <= j < store.entries@.len() && req_reaches(
                    store.entries@,
                    requested_names(store.entries@, requested@, all),
                    j,
                ) ==> defs_have_name(p.defs@, store.entries@[j].name@)
            &&& forall|i: int, s: Seq<int>|
                0 <= i < p.defs@.len() && #[trigger] enumerates(
                    defs_edge(p.defs@),
                    p.defs@.len() as int,
                    s,
                    i,
                ) ==> p.defs@[i].tree_hash == xor_seq(mapped_hashes(p.defs@, s))
            &&& forall|i: int|
                0 <= i < p.actions@.len() ==> ((#[trigger] p.actions@[i]) == Action::Build <==> (
                force || recorded_raw(records@, p.defs@[i].path@) != Some(
                    (p.defs@[i].content_hash as int, p.defs@[i].tree_hash as int),
                )))
        },
{
    if !all && requested.len() == 0 {
        return Err(ResolveError::NothingRequested);
    }
    let rs: Vec<(Vec<u8>, u64, u64)> = match parse_records(records) {
        Ok(rs) => rs,
        Err(e) => {
            proof {
                assert(!(e matches ResolveError::NothingRequested));
            }
            return Err(e);
        },
    };
    // the requested name list: explicit, or every known name
    let mut req: Vec<Vec<u8>> = Vec::new();
    if all {
        let mut i: usize = 0;
        while i < store.entries.len()
            invariant
                i <= store.entries@.len(),
                req@.len() == i,
                forall|k: int| 0 <= k < i ==> (#[trigger] req@[k])@ == store.entries@[k].name@,
            decreases store.entries@.len() - i,
        {
            let n: Vec<u8> = clone_bytes(&store.entries[i].name);
            req.push(n);
            i = i + 1;
        }
        proof {
            assert(views_of(req@) =~= names_of_entries(store.entries@));
        }
    } else {
        let mut i: usize = 0;
        while i < requested.len()
            invariant
                i <= requested@.len(),
                req@.len() == i,
                forall|k: int| 0 <= k < i ==> (#[trigger] req@[k])@ == requested@[k]@,
            decreases requested@.len() - i,
        {
            let n: Vec<u8> = clone_bytes(&requested[i]);
            req.push(n);
            i = i + 1;
        }
        proof {
            assert(views_of(req@) =~= views_of(requested@));
        }
    }
    let ghost reqv = views_of(req@);
    proof {
        assert(reqv == requested_names(store.entries@, requested@, all));
    }
    let (defs0, req_count) = match resolve_set(store, &req) {
        Ok(p) => p,
        Err(e) => {
            match &e {
                StoreError::NotFound { name: n2, .. } => {
                    proof {
                        let es2 = store.entries@;
                        if closure_ok(es2, reqv) {
                            if reqv.contains(n2@) {
                                let r0 = choose|r0: int| 0 <= r0 < reqv.len() && reqv[r0] == n2@;
                                assert(has_name(es2, reqv[r0]));
                            } else {
                                let j = choose|j: int|
                                    0 <= j < es2.len() && req_reaches(es2, reqv, j)
                                        && entry_parses(#[trigger] es2[j]) && entry_deps(
                                        es2[j],
                                    ).contains(n2@);
                                let kk = choose|kk: int|
                                    0 <= kk < entry_deps(es2[j]).len() && entry_deps(es2[j])[kk]
                                        == n2@;
                                assert(has_name(es2, entry_deps(es2[j])[kk]));
                            }
                            assert(false);
                        }
                    }
                },
                StoreError::Parse { .. } => {
                    proof {
                        let es2 = store.entries@;
                        if closure_ok(es2, reqv) {
                            let j = choose|j: int|
                                0 <= j < es2.len() && req_reaches(es2, reqv, j) && !entry_parses(
                                    #[trigger] es2[j],
                                ) && match e {
                                    StoreError::Parse { path: ref p2, .. } => p2@ == es2[j].path@,
                                    _ => false,
                                };
                            assert(req_reaches(es2, reqv, j));
                            assert(entry_parses(es2[j]));
                            assert(false);
                        }
                    }
                },
                StoreError::ParseAggregate { .. } => {
                    proof {
                        assert(false);
                    }
                },
            }
            return Err(ResolveError::Store(e));
        },
    };
    let deps0: Vec<Vec<usize>> = build_graph(&defs0);
    let n0: usize = defs0.len();
    proof {
        assert(defs0@.len() == n0 as int);
        assert(wf_deps(dep_view(&deps0)));
    }
    let ord: Vec<usize> = match topo_sort(&deps0) {
        Ok(o) => o,
        Err(cyc) => {
            // name the cycle, best effort
            let mut names: Vec<Vec<u8>> = Vec::new();
            let mut t: usize = 0;
            while t < cyc.len()
                invariant
                    t <= cyc@.len(),
                decreases cyc@.len() - t,
            {
                if cyc[t] < defs0.len() {
                    let n: Vec<u8> = clone_bytes(&defs0[cyc[t]].name);
                    names.push(n);
                }
                t = t + 1;
            }
            proof {
                lemma_index_edge_equiv(dep_view(&deps0), defs0@);
                crate::reach::lemma_cycle_congruence(
                    edge_fn(dep_view(&deps0)),
                    defs_edge(defs0@),
                );
                assert(has_cycle(defs_edge(defs0@)));
                lemma_defs_cycle_to_store(store.entries@, reqv, defs0@);
            }
            return Err(ResolveError::Cycle { names });
        },
    };
    // reorder the definitions into build order
    let mut defs: Vec<Definition> = Vec::new();
    let mut t: usize = 0;
    while t < ord.len()
        invariant
            t <= ord@.len(),
            ord@.len() == defs0@.len(),
            defs@.len() == t,
            forall|k: int| 0 <= k < ord@.len() ==> (#[trigger] ord@[k]) < defs0@.len(),
            forall|k: int| 0 <= k < t ==> def_like(#[trigger] defs@[k], defs0@[ord@[k] as int]),
        decreases ord@.len() - t,
    {
        let d: Definition = clone_definition(&defs0[ord[t]]);
        defs.push(d);
        t = t + 1;
    }
    proof {
        lemma_perm_contains(ord@, defs0@.len() as int);
        assert((forall|t1: int, t2: int|
            0 <= t1 < t2 < defs@.len() ==> (#[trigger] defs@[t1]).name@ != (
            #[trigger] defs@[t2]).name@) && (forall|t: int, k: int|
            0 <= t < defs@.len() && 0 <= k < defs@[t].depends_on@.len() ==> defs_have_name(
                defs@,
                (#[trigger] defs@[t].depends_on@[k])@,
            ))) by {
        assert forall|t1: int, t2: int|
            0 <= t1 < t2 < defs@.len() implies (#[trigger] defs@[t1]).name@ != (
        #[trigger] defs@[t2]).name@ by {
            assert(ord@[t1] != ord@[t2]);
            assert(defs@[t1].name@ == defs0@[ord@[t1] as int].name@);
            assert(defs@[t2].name@ == defs0@[ord@[t2] as int].name@);
            if ord@[t1] < ord@[t2] {
            } else {
            }
        }
        assert forall|t: int, k: int|
            0 <= t < defs@.len() && 0 <= k < defs@[t].depends_on@.len() implies defs_have_name(
            defs@,
            (#[trigger] defs@[t].depends_on@[k])@,
        ) by {
            let d0 = defs0@[ord@[t] as int];
            assert(def_like(defs@[t], d0));
            assert(defs@[t].depends_on@.map_values(|v: Vec<u8>| v@).len()
                == defs@[t].depends_on@.len());
            assert(d0.depends_on@.map_values(|v: Vec<u8>| v@).len() == d0.depends_on@.len());
            assert(0 <= k < d0.depends_on@.len());
            assert(defs@[t].depends_on@.map_values(|v: Vec<u8>| v@)[k] == defs@[t].depends_on@[k]@);
            assert(d0.depends_on@.map_values(|v: Vec<u8>| v@)[k] == d0.depends_on@[k]@);
            assert(defs@[t].depends_on@[k]@ == d0.depends_on@[k]@);
            assert(defs_have_name(defs0@, d0.depends_on@[k]@));
            let w = choose|w: int|
                0 <= w < defs0@.len() && (#[trigger] defs0@[w]).name@ == d0.depends_on@[k]@;
            assert(ord@.contains(w as usize));
            let m = choose|m: int| 0 <= m < ord@.len() && ord@[m] == w as usize;
            assert(defs@[m].name@ == defs0@[w].name@);
            assert(defs_have_name(defs@, defs@[t].depends_on@[k]@));
        }
        }
    }
    // rebuild the index graph on the ordered set and propagate tree hashes
    let deps: Vec<Vec<usize>> = build_graph(&defs);
    proof {
        assert(wf_deps(dep_view(&deps)));
    }
    let mut ch: Vec<u64> = Vec::new();
    let mut t2: usize = 0;
    while t2 < defs.len()
        invariant
            t2 <= defs@.len(),
            ch@.len() == t2,
            forall|k: int| 0 <= k < t2 ==> #[trigger] ch@[k] == defs@[k].content_hash,
        decreases defs@.len() - t2,
    {
        ch.push(defs[t2].content_hash);
        t2 = t2 + 1;
    }
    let tree: Vec<u64> = tree_hashes(&deps, &ch);
    let mut out: Vec<Definition> = Vec::new();
    let mut rem: Vec<Definition> = defs;
    let ghost defs_v = rem@;
    let mut t3: usize = 0;
    while rem.len() > 0
        invariant
            t3 == defs_v.len() - rem@.len(),
            t3 <= defs_v.len(),
            tree@.len() == defs_v.len(),
            out@.len() == t3,
            forall|k: int| 0 <= k < rem@.len() ==> #[trigger] rem@[k] == defs_v[k + t3],
            forall|k: int|
                0 <= k < t3 ==> same_but_tree(#[trigger] out@[k], defs_v[k], tree@[k]),
        decreases rem@.len(),
    {
        let mut d: Definition = rem.remove(0);
        d.tree_hash = tree[t3];
        out.push(d);
        t3 = t3 + 1;
    }
    // decide skip or build for every node, in order
    let mut actions: Vec<Action> = Vec::new();
    let mut t4: usize = 0;
    while t4 < out.len()
        invariant
            t4 <= out@.len(),
            actions@.len() == t4,
            forall|i: int|
                0 <= i < t4 ==> ((#[trigger] actions@[i]) == Action::Build <==> (force
                    || recorded_raw(records@, out@[i].path@) != Some(
                    (out@[i].content_hash as int, out@[i].tree_hash as int),
                ))),
            rs@.len() == records@.len(),
            forall|i: int|
                0 <= i < rs@.len() ==> (#[trigger] rs@[i]).0@ == records@[i].path@ && rs@[i].1 as int
                    == hex_value(records@[i].content_hex@) && rs@[i].2 as int == hex_value(
                    records@[i].tree_hex@,
                ),
        decreases out@.len() - t4,
    {
        let rec: Option<(u64, u64)> = lookup_record(&rs, out[t4].path.as_slice());
        let a: Action = decide(force, rec, out[t4].content_hash, out[t4].tree_hash);
        proof {
            lemma_recorded_decoded(records@, rs@, out@[t4 as int].path@);
        }
        actions.push(a);
        t4 = t4 + 1;
    }
    let requested_count: usize = req_count;
    let transitive_count: usize = out.len() - req_count;
    proof {
        let ghost rq = if all {
            names_of_entries(store.entries@)
        } else {
            views_of(requested@)
        };
        assert(rq == reqv);
        lemma_perm_contains(ord@, defs0@.len() as int);
        assert(defs_v == defs@);
        lemma_plan_finish(
            store.entries@,
            reqv,
            defs0@,
            defs_v,
            out@,
            ord@,
            dep_view(&deps0),
            dep_view(&deps),
            ch@,
            tree@,
        );
        lemma_plan_graph(defs_v, out@, dep_view(&deps), ch@, tree@);
        assert(names_of(defs0@.take(req_count as int)).len() == req_count as int);
        assert(req_count as int == dedup_names(reqv).len());
    }
    Ok(
        BuildPlan {
            defs: out,
            actions,
            requested_count,
            transitive_count,
        },
    )
}

/// The content hashes at a sequence of node indices.
pub open spec fn mapped_hashes(ds: Seq<Definition>, s: Seq<int>) -> Seq<u64> {
    s.map_values(|j: int| content_hashes_of(ds)[j])
}

/// The content hashes of a definition list, in order.
pub open spec fn content_hashes_of(ds: Seq<Definition>) -> Seq<u64> {
    ds.map_values(|d: Definition| d.content_hash)
}

/// The names of a store's entries, in order.
pub open spec fn names_of_entries(es: Seq<FileEntry>) -> Seq<Seq<u8>> {
    es.map_values(|e: FileEntry| e.name@)
}

/// Equal in every field but the tree hash, which is the given one.
pub open spec fn same_but_tree(d2: Definition, d: Definition, h: u64) -> bool {
    &&& d2.name@ == d.name@
    &&& d2.path@ == d.path@
    &&& d2.bang@ == d.bang@
    &&& d2.depends_on@ == d.depends_on@
    &&& d2.content_hash == d.content_hash
    &&& d2.tree_hash == h
}

/// Whether two definitions agree in every observable field.
pub open spec fn def_like(a: Definition, b: Definition) -> bool {
    &&& a.name@ == b.name@
    &&& a.path@ == b.path@
    &&& a.bang@ == b.bang@
    &&& a.depends_on@.map_values(|v: Vec<u8>| v@) == b.depends_on@.map_values(|v: Vec<u8>| v@)
    &&& a.content_hash == b.content_hash
    &&& a.tree_hash == b.tree_hash
}

/// Copies a definition.
fn clone_definition(d: &Definition) -> (r: Definition)
    ensures
        def_like(r, *d),
{
    let name: Vec<u8> = clone_bytes(&d.name);
    let path: Vec<u8> = clone_bytes(&d.path);
    let bang: Vec<u8> = clone_bytes(&d.bang);
    let mut depends_on: Vec<Vec<u8>> = Vec::new();
    let mut k: usize = 0;
    while k < d.depends_on.len()
        invariant
            k <= d.depends_on@.len(),
            depends_on@.len() == k,
            forall|x: int| 0 <= x < k ==> #[trigger] depends_on@[x]@ == d.depends_on@[x]@,
        decreases d.depends_on@.len() - k,
    {
        let v: Vec<u8> = clone_bytes(&d.depends_on[k]);
        depends_on.push(v);
        k = k + 1;
    }
    proof {
        assert(depends_on@.map_values(|v: Vec<u8>| v@) =~= d.depends_on@.map_values(
            |v: Vec<u8>| v@,
        ));
    }
    Definition {
        name,
        path,
        bang,
        depends_on,
        content_hash: d.content_hash,
        tree_hash: d.tree_hash,
    }
}


/// A duplicate-free sequence of `n` indices below `n` contains every index.
proof fn lemma_perm_contains(ord: Seq<usize>, n: int)
    requires
        n >= 0,
        n <= usize::MAX,
        ord.len() == n,
        ord.no_duplicates(),
        forall|k: int| 0 <= k < ord.len() ==> (#[trigger] ord[k]) < n,
    ensures
        forall|x: int| 0 <= x < n ==> ord.contains(#[trigger] (x as usize)),
{
    broadcast use vstd::set::group_set_axioms;
    broadcast use vstd::seq_lib::seq_to_set_is_finite;

    let s = ord.map_values(|u: usize| u as int);
    assert(s.no_duplicates()) by {
        assert(forall|k1: int, k2: int|
            0 <= k1 < k2 < s.len() ==> ord[k1] != ord[k2] && s[k1] == ord[k1] as int && s[k2]
                == ord[k2] as int);
    }
    s.unique_seq_to_set();
    let range = vstd::set_lib::set_int_range(0, n);
    vstd::set_lib::lemma_int_range(0, n);
    assert(s.to_set().subset_of(range)) by {
        assert forall|x: int| s.to_set().contains(x) implies range.contains(x) by {
            assert(s.contains(x));
            let k = choose|k: int| 0 <= k < s.len() && s[k] == x;
            assert(ord[k] < n);
        }
    }
    assert forall|x: int| 0 <= x < n implies ord.contains(#[trigger] (x as usize)) by {
        if !s.to_set().contains(x) {
            assert(s.to_set().subset_of(range.remove(x)));
            assert(range.remove(x).len() == n - 1);
            vstd::set_lib::lemma_len_subset(s.to_set(), range.remove(x));
            assert(false);
        }
        assert(s.contains(x));
        let k = choose|k: int| 0 <= k < s.len() && s[k] == x;
        assert(ord[k] == x as usize);
    }
}


/// Carries the resolver's and graph engine's guarantees across the reorder
/// and the tree-hash rewrite to the final plan.
#[verifier::rlimit(100)]
#[verifier::spinoff_prover]
proof fn lemma_plan_finish(
    es_p: Seq<FileEntry>,
    reqv: Seq<Seq<u8>>,
    defs0_v: Seq<Definition>,
    defs_v: Seq<Definition>,
    out_v: Seq<Definition>,
    ord_v: Seq<usize>,
    dv0: Seq<Seq<usize>>,
    dv: Seq<Seq<usize>>,
    ch_v: Seq<u64>,
    tree_v: Seq<u64>,
)
    requires
        out_v.len() == defs_v.len(),
        defs_v.len() == defs0_v.len(),
        ord_v.len() == defs0_v.len(),
        tree_v.len() == defs_v.len(),
        ch_v.len() == defs_v.len(),
        dv.len() == defs_v.len(),
        dv0.len() == defs0_v.len(),
        defs0_v.len() <= usize::MAX,
        // the order is a permutation that puts dependencies first
        ord_v.no_duplicates(),
        forall|k: int| 0 <= k < ord_v.len() ==> (#[trigger] ord_v[k]) < defs0_v.len(),
        forall|k: int, t: int|
            0 <= k < ord_v.len() && 0 <= t < dv0[ord_v[k] as int].len() ==> ord_v.take(k).contains(
                #[trigger] dv0[ord_v[k] as int][t],
            ),
        forall|x: int| 0 <= x < defs0_v.len() ==> ord_v.contains(#[trigger] (x as usize)),
        // the index graphs resolve names exactly
        forall|a: int|
            0 <= a < dv0.len() ==> (#[trigger] dv0[a]).len() == defs0_v[a].depends_on@.len(),
        forall|a: int, k: int|
            0 <= a < dv0.len() && 0 <= k < dv0[a].len() ==> (#[trigger] dv0[a][k])
                < defs0_v.len() && defs0_v[dv0[a][k] as int].name@ == defs0_v[a].depends_on@[k]@,
        forall|a: int|
            0 <= a < dv.len() ==> (#[trigger] dv[a]).len() == defs_v[a].depends_on@.len(),
        forall|a: int, k: int|
            0 <= a < dv.len() && 0 <= k < dv[a].len() ==> (#[trigger] dv[a][k]) < defs_v.len()
                && defs_v[dv[a][k] as int].name@ == defs_v[a].depends_on@[k]@,
        // reorder and rewrite relations
        forall|k: int| 0 <= k < defs_v.len() ==> def_like(#[trigger] defs_v[k], defs0_v[ord_v[k] as int]),
        forall|k: int|
            0 <= k < out_v.len() ==> same_but_tree(#[trigger] out_v[k], defs_v[k], tree_v[k]),
        // the resolved set's own guarantees
        forall|t1: int, t2: int|
            0 <= t1 < t2 < defs0_v.len() ==> (#[trigger] defs0_v[t1]).name@ != (
            #[trigger] defs0_v[t2]).name@,
        forall|t: int|
            0 <= t < defs0_v.len() ==> def_from_closure(es_p, reqv, #[trigger] defs0_v[t]),
        forall|j: int|
            0 <= j < es_p.len() && req_reaches(es_p, reqv, j) ==> defs_have_name(
                defs0_v,
                es_p[j].name@,
            ),
        // the propagated hashes
        forall|k: int| 0 <= k < ch_v.len() ==> #[trigger] ch_v[k] == defs_v[k].content_hash,
        forall|i: int, s: Seq<int>|
            0 <= i < dv.len() && #[trigger] enumerates(edge_fn(dv), dv.len() as int, s, i)
                ==> tree_v[i] == xor_seq(s.map_values(|j: int| ch_v[j])),
    ensures
        forall|t1: int, t2: int|
            0 <= t1 < t2 < out_v.len() ==> (#[trigger] out_v[t1]).name@ != (
            #[trigger] out_v[t2]).name@,
        forall|i: int, k: int|
            0 <= i < out_v.len() && 0 <= k < out_v[i].depends_on@.len()
                ==> #[trigger] dep_listed_earlier(out_v, i, k),
        forall|t: int|
            0 <= t < out_v.len() ==> planned_from_closure(es_p, reqv, #[trigger] out_v[t]),
        forall|j: int|
            0 <= j < es_p.len() && req_reaches(es_p, reqv, j) ==> defs_have_name(
                out_v,
                es_p[j].name@,
            ),
{
        let es = es_p;
        let n = out_v.len() as int;
        // names and dependency views survive the tree-hash rewrite
                assert forall|k: int| 0 <= k < n implies (#[trigger] out_v[k]).name@ == defs_v[k].name@
            && out_v[k].depends_on@.map_values(|v: Vec<u8>| v@) == defs_v[k].depends_on@.map_values(
            |v: Vec<u8>| v@,
        ) && out_v[k].content_hash == defs_v[k].content_hash by {
            assert(same_but_tree(out_v[k], defs_v[k], tree_v[k]));
        }
        // distinct names
        assert forall|t1: int, t2: int|
            0 <= t1 < t2 < n implies (#[trigger] out_v[t1]).name@ != (#[trigger] out_v[t2]).name@ by {
            assert(defs_v[t1].name@ != defs_v[t2].name@);
        }
        // dependencies come strictly earlier in the order
        assert forall|i: int, k: int|
            0 <= i < n && 0 <= k < out_v[i].depends_on@.len() implies #[trigger] dep_listed_earlier(
            out_v,
            i,
            k,
        ) by {
            let d0 = defs0_v[ord_v[i] as int];
            assert(def_like(defs_v[i], d0));
            assert(out_v[i].depends_on@ == defs_v[i].depends_on@);
            assert(defs_v[i].depends_on@.map_values(|v: Vec<u8>| v@).len()
                == defs_v[i].depends_on@.len());
            assert(d0.depends_on@.map_values(|v: Vec<u8>| v@).len() == d0.depends_on@.len());
            assert(0 <= k < d0.depends_on@.len());
            assert(defs_v[i].depends_on@.map_values(|v: Vec<u8>| v@)[k]
                == defs_v[i].depends_on@[k]@);
            assert(d0.depends_on@.map_values(|v: Vec<u8>| v@)[k] == d0.depends_on@[k]@);
            assert(out_v[i].depends_on@[k]@ == d0.depends_on@[k]@);
            let w = dv0[ord_v[i] as int][k];
            assert(dv0[ord_v[i] as int][k] == w);
            assert(defs0_v[w as int].name@ == d0.depends_on@[k]@);
            assert(ord_v.take(i).contains(w));
            let m = choose|m: int| 0 <= m < ord_v.take(i).len() && ord_v.take(i)[m] == w;
            assert(ord_v[m] == w);
            assert(out_v[m].name@ == defs_v[m].name@);
            assert(defs_v[m].name@ == defs0_v[w as int].name@);
            assert(0 <= m < i && out_v[i].depends_on@[k]@ == out_v[m].name@);
            assert(dep_listed_earlier(out_v, i, k));
        }
        // every planned definition stems from the requested closure
        assert forall|t: int| 0 <= t < n implies planned_from_closure(
            es,
            reqv,
            #[trigger] out_v[t],
        ) by {
            let d0 = defs0_v[ord_v[t] as int];
            assert(def_from_closure(es, reqv, d0));
            let j = choose|j: int|
                0 <= j < es.len() && is_parse_of(d0, #[trigger] es[j]) && req_reaches(es, reqv, j);
            assert(def_like(defs_v[t], d0));
            assert(out_v[t].name@ == d0.name@ && out_v[t].path@ == d0.path@ && out_v[t].bang@
                == d0.bang@ && out_v[t].content_hash == d0.content_hash);
            assert(out_v[t].depends_on@.map_values(|v: Vec<u8>| v@) == d0.depends_on@.map_values(
                |v: Vec<u8>| v@,
            ));
            assert(is_source_of(out_v[t], es[j]));
            assert(planned_from_closure(es, reqv, out_v[t]));
        }
        // and every closure entry is planned
        assert forall|j: int|
            0 <= j < es.len() && req_reaches(es, reqv, j) implies defs_have_name(
            out_v,
            es[j].name@,
        ) by {
            assert(defs_have_name(defs0_v, es[j].name@));
            let w = choose|w: int|
                0 <= w < defs0_v.len() && (#[trigger] defs0_v[w]).name@ == es[j].name@;
            assert(ord_v.contains(w as usize));
            let m = choose|m: int| 0 <= m < ord_v.len() && ord_v[m] == w as usize;
            assert(out_v[m].name@ == defs_v[m].name@);
            assert(defs_v[m].name@ == defs0_v[w].name@);
            assert(defs_have_name(out_v, es[j].name@));
        }
}


/// Carries the graph engine's ordering and tree-hash guarantees onto the
/// final, reordered and rewritten definition list.
#[verifier::rlimit(100)]
#[verifier::spinoff_prover]
proof fn lemma_plan_graph(
    defs_v: Seq<Definition>,
    out_v: Seq<Definition>,
    dv: Seq<Seq<usize>>,
    ch_v: Seq<u64>,
    tree_v: Seq<u64>,
)
    requires
        out_v.len() == defs_v.len(),
        dv.len() == defs_v.len(),
        ch_v.len() == defs_v.len(),
        tree_v.len() == defs_v.len(),
        defs_v.len() <= usize::MAX,
        forall|t1: int, t2: int|
            0 <= t1 < t2 < out_v.len() ==> (#[trigger] out_v[t1]).name@ != (
            #[trigger] out_v[t2]).name@,
        forall|i: int, k: int|
            0 <= i < out_v.len() && 0 <= k < out_v[i].depends_on@.len()
                ==> #[trigger] dep_listed_earlier(out_v, i, k),
        forall|a: int| 0 <= a < dv.len() ==> (#[trigger] dv[a]).len() == defs_v[a].depends_on@.len(),
        forall|a: int, k: int|
            0 <= a < dv.len() && 0 <= k < dv[a].len() ==> (#[trigger] dv[a][k]) < defs_v.len()
                && defs_v[dv[a][k] as int].name@ == defs_v[a].depends_on@[k]@,
        forall|k: int|
            0 <= k < out_v.len() ==> same_but_tree(#[trigger] out_v[k], defs_v[k], tree_v[k]),
        forall|k: int| 0 <= k < ch_v.len() ==> #[trigger] ch_v[k] == defs_v[k].content_hash,
        forall|i: int, s: Seq<int>|
            0 <= i < dv.len() && #[trigger] enumerates(edge_fn(dv), dv.len() as int, s, i)
                ==> tree_v[i] == xor_seq(s.map_values(|j: int| ch_v[j])),
    ensures
        !has_cycle(defs_edge(out_v)),
        forall|i: int, s: Seq<int>|
            0 <= i < out_v.len() && #[trigger] enumerates(
                defs_edge(out_v),
                out_v.len() as int,
                s,
                i,
            ) ==> out_v[i].tree_hash == xor_seq(mapped_hashes(out_v, s)),
{
    let n = out_v.len() as int;
    assert forall|k: int| 0 <= k < n implies (#[trigger] out_v[k]).name@ == defs_v[k].name@
        && out_v[k].depends_on@ == defs_v[k].depends_on@ && out_v[k].content_hash
        == defs_v[k].content_hash by {
        assert(same_but_tree(out_v[k], defs_v[k], tree_v[k]));
    }
    assert forall|t1: int, t2: int|
        0 <= t1 < t2 < n implies (#[trigger] defs_v[t1]).name@ != (#[trigger] defs_v[t2]).name@ by {
        assert(out_v[t1].name@ != out_v[t2].name@);
    }
    lemma_index_edge_equiv(dv, defs_v);
    let e1 = edge_fn(dv);
    let e2 = defs_edge(defs_v);
    let e3 = defs_edge(out_v);
    assert forall|a: int, b: int| #[trigger] e2(a, b) <==> #[trigger] e3(a, b) by {
        if 0 <= a < n && 0 <= b < n {
            assert(out_v[a].depends_on@ == defs_v[a].depends_on@);
            assert(out_v[a].depends_on@.map_values(|v: Vec<u8>| v@) == defs_v[a].depends_on@
                .map_values(|v: Vec<u8>| v@));
            assert(out_v[b].name@ == defs_v[b].name@);
        }
    }
    assert forall|a: int, b: int| #[trigger] e1(a, b) <==> #[trigger] e3(a, b) by {
        assert(e1(a, b) <==> e2(a, b));
        assert(e2(a, b) <==> e3(a, b));
    }
    let ident = Seq::new(n as nat, |i: int| i);
    assert(ident.no_duplicates());
    assert forall|a: int, b: int| #[trigger] e3(a, b) implies ident.contains(a) && ident.contains(
        b,
    ) && ident.index_of(b) < ident.index_of(a) by {
        assert(ident[a] == a && ident[b] == b);
        assert(ident.contains(a) && ident.contains(b));
        let dm = out_v[a].depends_on@.map_values(|v: Vec<u8>| v@);
        let k = choose|k: int| 0 <= k < dm.len() && (#[trigger] dm[k]) == out_v[b].name@;
        assert(dm.len() == out_v[a].depends_on@.len());
        assert(dm[k] == out_v[a].depends_on@[k]@);
        assert(dep_listed_earlier(out_v, a, k));
        let m = choose|m: int|
            0 <= m < a && out_v[a].depends_on@[k]@ == (#[trigger] out_v[m]).name@;
        assert(m == b) by {
            if m < b {
                assert(out_v[m].name@ != out_v[b].name@);
            } else if m > b {
                assert(out_v[b].name@ != out_v[m].name@);
            }
        }
        assert(ident.index_of(a) == a) by {
            let ia = ident.index_of(a);
            assert(0 <= ia < n && ident[ia] == a);
        }
        assert(ident.index_of(b) == b) by {
            let ib = ident.index_of(b);
            assert(0 <= ib < n && ident[ib] == b);
        }
    }
    lemma_ordered_acyclic(e3, ident);
    assert(ch_v =~= content_hashes_of(out_v)) by {
        assert(forall|k: int|
            0 <= k < n ==> #[trigger] ch_v[k] == defs_v[k].content_hash && out_v[k].content_hash
                == defs_v[k].content_hash && content_hashes_of(out_v)[k] == out_v[k].content_hash);
    }
    assert forall|i: int, s: Seq<int>|
        0 <= i < n && #[trigger] enumerates(e3, n, s, i) implies out_v[i].tree_hash == xor_seq(
        mapped_hashes(out_v, s),
    ) by {
        crate::reach::lemma_enumerates_congruence(e3, e1, n, s, i);
        assert(tree_v[i] == xor_seq(s.map_values(|j: int| ch_v[j])));
        assert(s.map_values(|j: int| ch_v[j]) =~= mapped_hashes(out_v, s));
        assert(out_v[i].tree_hash == tree_v[i]) by {
            assert(same_but_tree(out_v[i], defs_v[i], tree_v[i]));
        }
    }
}

} // verus!


