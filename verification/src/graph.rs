//! The dependency graph: every collected file is a node; a resolved import
//! target that names another collected file is an edge from the importing
//! file (the dependent) to the named file (the dependency).
//!
//! Resolution follows the one rule of `paths`: each raw target is joined
//! onto the directory of the importing file. A resolved target kept only
//! when it is a key of the record, so every edge points at a node; targets
//! that resolve to nothing are dropped silently. Repeated import lines are
//! kept as repeated edges.

use crate::extract::spec_extract;
use crate::paths::spec_resolve;
use crate::record::FileRecord;
use vstd::prelude::*;

verus! {

/// Whether `p` occurs among `keys`.
pub open spec fn keys_contain(keys: Seq<Seq<u8>>, p: Seq<u8>) -> bool {
    exists|i: int| 0 <= i < keys.len() && keys[i] == p
}

/// The index of `p` among `keys` (meaningful when `keys` holds `p` once).
pub open spec fn key_index(keys: Seq<Seq<u8>>, p: Seq<u8>) -> int {
    choose|i: int| 0 <= i < keys.len() && keys[i] == p
}

/// The node indices that the raw targets `ts` of a file at path `p` give:
/// each target is resolved against `p`'s directory and kept iff the
/// resolution is a key, in target order, repeats preserved.
pub open spec fn dep_indices(keys: Seq<Seq<u8>>, p: Seq<u8>, ts: Seq<Seq<u8>>) -> Seq<usize>
    decreases ts.len(),
{
    if ts.len() == 0 {
        Seq::empty()
    } else {
        let rt = spec_resolve(p, ts[0]);
        let rest = dep_indices(keys, p, ts.drop_first());
        if keys_contain(keys, rt) {
            seq![key_index(keys, rt) as usize] + rest
        } else {
            rest
        }
    }
}

/// The dependency list of the file at index `i` of the record.
pub open spec fn record_deps(files: FileRecord, i: int) -> Seq<usize> {
    dep_indices(files.paths(), files.paths()[i], spec_extract(files.contents()[i]))
}

/// The whole dependency structure of the record, node by node.
pub open spec fn record_dep_seq(files: FileRecord) -> Seq<Seq<usize>> {
    Seq::new(files.paths().len(), |i: int| record_deps(files, i))
}

/// A dependency graph over the files of a record: `nodes[i]` is the path of
/// node `i`, and `deps[i]` lists, in import order, the indices of the nodes
/// that node `i` depends on.
pub struct DepGraph {
    pub nodes: Vec<Vec<u8>>,
    pub deps: Vec<Vec<usize>>,
}

impl DepGraph {
    /// The node paths.
    pub open spec fn node_seq(self) -> Seq<Seq<u8>> {
        self.nodes@.map_values(|v: Vec<u8>| v@)
    }

    /// The dependency lists.
    pub open spec fn dep_seq(self) -> Seq<Seq<usize>> {
        self.deps@.map_values(|v: Vec<usize>| v@)
    }

    /// Every node has a dependency list, every dependency entry is a node
    /// index, and node paths are distinct.
    pub open spec fn wf(self) -> bool {
        &&& self.dep_seq().len() == self.node_seq().len()
        &&& forall|i: int, k: int|
            0 <= i < self.dep_seq().len() && 0 <= k < self.dep_seq()[i].len() ==> (
            self.dep_seq()[i][k] as int) < self.node_seq().len()
        &&& forall|i: int, j: int|
            0 <= i < j < self.node_seq().len() ==> self.node_seq()[i] != self.node_seq()[j]
    }

    /// The path of node `i`.
    pub fn node_at(&self, i: usize) -> (r: &Vec<u8>)
        requires
            i < self.node_seq().len(),
        ensures
            r@ == self.node_seq()[i as int],
    {
        &self.nodes[i]
    }
}

/// The index of the key equal to `p`, if any.
pub fn find_index(keys: &Vec<Vec<u8>>, p: &Vec<u8>) -> (r: Option<usize>)
    ensures
        match r {
            Option::Some(j) => j < keys@.len() && keys@.map_values(|v: Vec<u8>| v@)[j as int]
                == p@,
            Option::None => !keys_contain(keys@.map_values(|v: Vec<u8>| v@), p@),
        },
{
    let mut i: usize = 0;
    while i < keys.len()
        invariant
            0 <= i <= keys@.len(),
            forall|j: int| 0 <= j < i ==> keys@[j]@ != p@,
        decreases keys@.len() - i,
    {
        if crate::paths::bytes_eq(&keys[i], p) {
            return Some(i);
        }
        i = i + 1;
    }
    proof {
        let ks = keys@.map_values(|v: Vec<u8>| v@);
        assert forall|j: int| 0 <= j < ks.len() implies ks[j] != p@ by {
            assert(ks[j] == keys@[j]@);
        }
    }
    None
}

/// Builds the dependency graph of a record: one node per file in record
/// order, and for each file the resolved, kept import targets as node
/// indices. Construction never fails.
pub fn build_dependency_graph(files: &FileRecord) -> (g: DepGraph)
    requires
        files.wf(),
    ensures
        g.wf(),
        g.node_seq() == files.paths(),
        g.dep_seq() == record_dep_seq(*files),
{
    let n = files.len();
    let mut nodes: Vec<Vec<u8>> = Vec::new();
    let mut i: usize = 0;
    while i < n
        invariant
            0 <= i <= n,
            n == files.paths().len(),
            nodes@.map_values(|v: Vec<u8>| v@) =~~= files.paths().take(i as int),
        decreases n - i,
    {
        let p = files.path_at(i);
        let copy = crate::paths::copy_range(p, 0, p.len());
        proof {
            assert(copy@ =~~= files.paths()[i as int]);
            assert(nodes@.push(copy).map_values(|v: Vec<u8>| v@) =~~= nodes@.map_values(
                |v: Vec<u8>| v@,
            ).push(copy@));
        }
        nodes.push(copy);
        proof {
            assert(nodes@.map_values(|v: Vec<u8>| v@) =~~= files.paths().take(i + 1 as int));
        }
        i = i + 1;
    }
    proof {
        assert(files.paths().take(n as int) =~~= files.paths());
    }
    let ghost keys = files.paths();
    let mut deps: Vec<Vec<usize>> = Vec::new();
    let mut i: usize = 0;
    while i < n
        invariant
            0 <= i <= n,
            n == files.paths().len(),
            n == files.contents().len(),
            files.wf(),
            keys == files.paths(),
            nodes@.map_values(|v: Vec<u8>| v@) == keys,
            deps@.len() == i,
            forall|j: int| 0 <= j < i ==> deps@.map_values(|v: Vec<usize>| v@)[j] == record_deps(
                *files,
                j,
            ),
        decreases n - i,
    {
        let targets = crate::extract::extract_imports(files.content_at(i));
        let ghost ts = spec_extract(files.contents()[i as int]);
        let ghost p = files.paths()[i as int];
        let mut row: Vec<usize> = Vec::new();
        let mut k: usize = 0;
        proof {
            assert(ts.skip(0) =~~= ts);
        }
        while k < targets.len()
            invariant
                0 <= k <= targets@.len(),
                targets@.map_values(|v: Vec<u8>| v@) == ts,
                files.wf(),
                keys == files.paths(),
                nodes@.map_values(|v: Vec<u8>| v@) == keys,
                p == files.paths()[i as int],
                0 <= i < n == files.paths().len(),
                dep_indices(keys, p, ts) == row@ + dep_indices(keys, p, ts.skip(k as int)),
                forall|m: int| 0 <= m < row@.len() ==> (row@[m] as int) < keys.len(),
            decreases targets@.len() - k,
        {
            let resolved = crate::paths::resolve_target(files.path_at(i), &targets[k]);
            proof {
                assert(targets@.map_values(|v: Vec<u8>| v@)[k as int] == targets@[k as int]@);
                assert(resolved@ == spec_resolve(p, ts[k as int]));
                assert(ts.skip(k as int)[0] == ts[k as int]);
                assert(ts.skip(k as int).drop_first() =~~= ts.skip(k + 1 as int));
            }
            let found = find_index(&nodes, &resolved);
            match found {
                Some(j) => {
                    proof {
                        assert(keys_contain(keys, resolved@));
                        let jj = key_index(keys, resolved@);
                        assert(0 <= jj < keys.len() && keys[jj] == resolved@);
                        assert(keys[j as int] == resolved@);
                        assert(jj == j);
                        assert(dep_indices(keys, p, ts.skip(k as int)) == seq![j as usize]
                            + dep_indices(keys, p, ts.skip(k + 1 as int)));
                        assert(row@.push(j) + dep_indices(keys, p, ts.skip(k + 1 as int)) =~~=
                            row@ + dep_indices(keys, p, ts.skip(k as int)));
                    }
                    row.push(j);
                },
                None => {
                    proof {
                        assert(dep_indices(keys, p, ts.skip(k as int)) == dep_indices(
                            keys,
                            p,
                            ts.skip(k + 1 as int),
                        ));
                    }
                },
            }
            k = k + 1;
        }
        proof {
            assert(ts.skip(targets@.len() as int) =~~= Seq::<Seq<u8>>::empty());
            assert(dep_indices(keys, p, ts.skip(targets@.len() as int)) =~~= Seq::<usize>::empty());
            assert(row@ + Seq::<usize>::empty() =~~= row@);
            assert(row@ == dep_indices(keys, p, ts));
            assert(deps@.push(row).map_values(|v: Vec<usize>| v@) =~~= deps@.map_values(
                |v: Vec<usize>| v@,
            ).push(row@));
        }
        deps.push(row);
        i = i + 1;
    }
    let g = DepGraph { nodes, deps };
    proof {
        assert(g.dep_seq() =~~= record_dep_seq(*files));
        assert(g.node_seq() == keys);
        assert forall|i2: int, k2: int|
            0 <= i2 < g.dep_seq().len() && 0 <= k2 < g.dep_seq()[i2].len() implies (
        g.dep_seq()[i2][k2] as int) < g.node_seq().len() by {
            lemma_dep_indices_bounded(keys, files.paths()[i2], spec_extract(files.contents()[i2]));
        }
    }
    g
}

/// Every index that `dep_indices` yields is a key index.
pub proof fn lemma_dep_indices_bounded(keys: Seq<Seq<u8>>, p: Seq<u8>, ts: Seq<Seq<u8>>)
    ensures
        forall|m: int|
            0 <= m < dep_indices(keys, p, ts).len() ==> (dep_indices(keys, p, ts)[m] as int)
                < keys.len(),
    decreases ts.len(),
{
    if ts.len() > 0 {
        lemma_dep_indices_bounded(keys, p, ts.drop_first());
        let rt = spec_resolve(p, ts[0]);
        let rest = dep_indices(keys, p, ts.drop_first());
        let whole = dep_indices(keys, p, ts);
        if keys_contain(keys, rt) {
            let jj = key_index(keys, rt);
            assert(0 <= jj < keys.len() && keys[jj] == rt);
            assert(whole == seq![jj as usize] + rest);
            assert forall|m: int| 0 <= m < whole.len() implies (whole[m] as int) < keys.len() by {
                if m > 0 {
                    assert(whole[m] == rest[m - 1]);
                }
            }
        }
    }
}

} // verus!
