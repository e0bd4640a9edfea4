//! The sheet engine: entry storage, static dependency extraction, the value
//! cache, cycle detection and cascading invalidation.

use vstd::prelude::*;
use vstd::seq_lib::*;
use vstd::set_lib::*;
use crate::errors::SheetError;
use crate::graph::{Rel, edge, has_cycle_from, in_cycle, is_path, names_of, reaches,
    lemma_closed_reaches, lemma_cycle_compose, lemma_cycle_decompose, lemma_cycle_decompose_last, lemma_path_repeat_cycle,
    lemma_reaches_decompose_last, lemma_reaches_refl, lemma_reaches_step, lemma_reaches_trans, lemma_reach_edge_cycle};
use crate::script::{compiled_of, deps_of, run_of, env_map, compile_script, scan_dependencies,
    run_script, lemma_env_map_dom, lemma_env_map_present};

verus! {

broadcast use {
    vstd::seq_lib::lemma_seq_contains_after_push,
    vstd::prelude::Seq::<_>::lemma_push_to_set_commute,
};

/// One entry: its name, its raw script, the script's compiled form (the
/// prelude excluded; merged at evaluation time) and the names the script
/// statically references.
#[derive(Debug)]
pub struct Row {
    pub name: String,
    pub script: String,
    pub ast: rhai::AST,
    pub deps: Vec<String>,
}

/// The names of a list of rows, in row order.
pub open spec fn row_names(rows: Seq<Row>) -> Seq<Seq<char>> {
    rows.map_values(|r: Row| r.name@)
}

/// No two rows share a name.
pub open spec fn unique_names(rows: Seq<Row>) -> bool {
    forall|i: int, j: int|
        0 <= i < j < rows.len() ==> #[trigger] rows[i].name@ != #[trigger] rows[j].name@
}

/// Some row carries this name.
pub open spec fn defines(rows: Seq<Row>, n: Seq<char>) -> bool {
    row_names(rows).contains(n)
}

/// The index of the row carrying this name (unique when names are).
pub open spec fn idx_of(rows: Seq<Row>, n: Seq<char>) -> int {
    choose|i: int| 0 <= i < rows.len() && rows[i].name@ == n
}

/// The row carrying this name.
pub open spec fn row_at(rows: Seq<Row>, n: Seq<char>) -> Row {
    rows[idx_of(rows, n)]
}

/// The script of the entry with this name.
pub open spec fn script_at(rows: Seq<Row>, n: Seq<char>) -> Seq<char> {
    row_at(rows, n).script@
}

/// The statically referenced names of the entry with this name.
pub open spec fn deps_at(rows: Seq<Row>, n: Seq<char>) -> Seq<Seq<char>> {
    names_of(row_at(rows, n).deps@)
}

/// The dependency relation the rows induce.
pub open spec fn rel_of(rows: Seq<Row>) -> Rel {
    Map::new(|n: Seq<char>| defines(rows, n), |n: Seq<char>| deps_at(rows, n))
}

/// Every name a list of rows mentions: each row's name and everything its
/// scripts reference (including names no row defines).
pub open spec fn univ_of(rows: Seq<Row>) -> Set<Seq<char>>
    decreases rows.len(),
{
    if rows.len() == 0 {
        Set::empty()
    } else {
        univ_of(rows.drop_last()).insert(rows.last().name@).union(
            names_of(rows.last().deps@).to_set(),
        )
    }
}

pub proof fn lemma_univ_finite(rows: Seq<Row>)
    ensures
        univ_of(rows).finite(),
    decreases rows.len(),
{
    broadcast use vstd::seq_lib::seq_to_set_is_finite;

    if rows.len() > 0 {
        lemma_univ_finite(rows.drop_last());
    }
}

/// Each row's name, and each name its script references, is in the universe.
pub proof fn lemma_univ_member(rows: Seq<Row>, i: int)
    requires
        0 <= i < rows.len(),
    ensures
        univ_of(rows).contains(rows[i].name@),
        forall|d: Seq<char>|
            names_of(rows[i].deps@).contains(d) ==> univ_of(rows).contains(d),
    decreases rows.len(),
{
    if i == rows.len() - 1 {
        assert forall|d: Seq<char>| names_of(rows[i].deps@).contains(d) implies univ_of(
            rows,
        ).contains(d) by {
            assert(names_of(rows.last().deps@).to_set().contains(d));
        }
    } else {
        lemma_univ_member(rows.drop_last(), i);
        assert(rows.drop_last()[i] == rows[i]);
    }
}

/// Both endpoints of an edge are in the universe.
pub proof fn lemma_univ_edge(rows: Seq<Row>, a: Seq<char>, b: Seq<char>)
    requires
        edge(rel_of(rows), a, b),
    ensures
        univ_of(rows).contains(a),
        univ_of(rows).contains(b),
{
    let i = idx_of(rows, a);
    assert(defines(rows, a));
    assert(exists|k: int| 0 <= k < rows.len() && row_names(rows)[k] == a);
    let k = choose|k: int| 0 <= k < rows.len() && row_names(rows)[k] == a;
    assert(rows[k].name@ == a);
    assert(0 <= i < rows.len() && rows[i].name@ == a);
    lemma_univ_member(rows, i);
    assert(rel_of(rows)[a] == deps_at(rows, a));
    assert(names_of(rows[i].deps@).contains(b));
}

/// The chooser behind `idx_of` picks the one matching row.
pub proof fn lemma_idx_of(rows: Seq<Row>, i: int)
    requires
        unique_names(rows),
        0 <= i < rows.len(),
    ensures
        defines(rows, rows[i].name@),
        idx_of(rows, rows[i].name@) == i,
{
    let n = rows[i].name@;
    assert(row_names(rows)[i] == n);
    assert(defines(rows, n));
    let j = idx_of(rows, n);
    assert(0 <= j < rows.len() && rows[j].name@ == n);
    if i < j {
        assert(rows[i].name@ != rows[j].name@);
    } else if j < i {
        assert(rows[j].name@ != rows[i].name@);
    }
}

/// A defined name is the name of the row `idx_of` picks.
pub proof fn lemma_defines_idx(rows: Seq<Row>, n: Seq<char>)
    requires
        defines(rows, n),
    ensures
        0 <= idx_of(rows, n) < rows.len(),
        rows[idx_of(rows, n)].name@ == n,
{
    let k = choose|k: int| 0 <= k < rows.len() && row_names(rows)[k] == n;
    assert(rows[k].name@ == n);
    assert(0 <= idx_of(rows, n) < rows.len() && rows[idx_of(rows, n)].name@ == n);
}

/// Taking views commutes with appending a name.
pub proof fn lemma_names_push(s: Seq<String>, e: String)
    ensures
        names_of(s.push(e)) == names_of(s).push(e@),
{
    assert(names_of(s.push(e)) =~= names_of(s).push(e@));
}

/// Taking views commutes with dropping the last name.
pub proof fn lemma_names_drop_last(s: Seq<String>)
    requires
        s.len() > 0,
    ensures
        names_of(s.drop_last()) == names_of(s).drop_last(),
{
    assert(names_of(s.drop_last()) =~= names_of(s).drop_last());
}

/// Replaces one element of a vector.
fn vec_update<T>(v: &mut Vec<T>, i: usize, x: T)
    requires
        i < old(v)@.len(),
    ensures
        final(v)@ == old(v)@.update(i as int, x),
{
    v.remove(i);
    v.insert(i, x);
    proof {
        assert(v@ =~= old(v)@.update(i as int, x));
    }
}

/// Clones a list of names, keeping every view.
fn clone_names(v: &Vec<String>) -> (r: Vec<String>)
    ensures
        names_of(r@) == names_of(v@),
        r@.len() == v@.len(),
        forall|i: int| 0 <= i < v@.len() ==> #[trigger] r@[i]@ == v@[i]@,
{
    let mut out: Vec<String> = Vec::new();
    let n = v.len();
    let mut i: usize = 0;
    while i < n
        invariant
            n == v@.len(),
            0 <= i <= n,
            out@.len() == i,
            forall|j: int| 0 <= j < i ==> #[trigger] out@[j]@ == v@[j]@,
        decreases n - i,
    {
        out.push(v[i].clone());
        i = i + 1;
    }
    proof {
        assert(names_of(out@) =~= names_of(v@));
    }
    out
}

/// Clones one row, the compiled form included.
pub(crate) fn clone_row(r: &Row) -> (out: Row)
    ensures
        out.name@ == r.name@,
        out.script@ == r.script@,
        out.ast == r.ast,
        names_of(out.deps@) == names_of(r.deps@),
{
    Row {
        name: r.name.clone(),
        script: r.script.clone(),
        ast: r.ast.clone(),
        deps: clone_names(&r.deps),
    }
}

/// Whether a list of names carries this name.
pub(crate) fn contains_name(v: &Vec<String>, name: &String) -> (r: bool)
    ensures
        r == names_of(v@).contains(name@),
{
    let n = v.len();
    let mut i: usize = 0;
    while i < n
        invariant
            n == v@.len(),
            0 <= i <= n,
            forall|j: int| 0 <= j < i ==> #[trigger] v@[j]@ != name@,
        decreases n - i,
    {
        if v[i] == *name {
            assert(names_of(v@)[i as int] == name@);
            return true;
        }
        i = i + 1;
    }
    proof {
        assert forall|j: int| 0 <= j < names_of(v@).len() implies #[trigger] names_of(v@)[j]
            != name@ by {
            assert(v@[j]@ != name@);
        }
    }
    false
}

/// Finds the row carrying this name.
pub(crate) fn find_row(rows: &Vec<Row>, name: &String) -> (r: Option<usize>)
    ensures
        r matches Some(i) ==> i < rows@.len() && rows@[i as int].name@ == name@,
        r is None ==> !defines(rows@, name@),
{
    let n = rows.len();
    let mut i: usize = 0;
    while i < n
        invariant
            n == rows@.len(),
            0 <= i <= n,
            forall|j: int| 0 <= j < i ==> #[trigger] rows@[j].name@ != name@,
        decreases n - i,
    {
        if rows[i].name == *name {
            return Some(i);
        }
        i = i + 1;
    }
    proof {
        assert forall|j: int| 0 <= j < row_names(rows@).len() implies #[trigger] row_names(
            rows@,
        )[j] != name@ by {
            assert(rows@[j].name@ != name@);
        }
    }
    None
}

/// The names an entry statically references (empty for an unknown name).
fn successors(rows: &Vec<Row>, name: &String) -> (r: Vec<String>)
    requires
        unique_names(rows@),
    ensures
        defines(rows@, name@) ==> names_of(r@) == deps_at(rows@, name@),
        !defines(rows@, name@) ==> r@.len() == 0,
{
    match find_row(rows, name) {
        Some(i) => {
            proof {
                lemma_idx_of(rows@, i as int);
            }
            clone_names(&rows[i].deps)
        },
        None => Vec::new(),
    }
}

/// Every name reachable from `start` over the dependency relation.
fn reach_set(rows: &Vec<Row>, start: &String) -> (r: Vec<String>)
    requires
        unique_names(rows@),
    ensures
        forall|n: Seq<char>| names_of(r@).contains(n) <==> reaches(rel_of(rows@), start@, n),
{
    let ghost rel = rel_of(rows@);
    let ghost u = univ_of(rows@).insert(start@);
    proof {
        lemma_univ_finite(rows@);
        lemma_reaches_refl(rel, start@);
    }
    let mut found: Vec<String> = Vec::new();
    found.push(start.clone());
    let mut pending: Vec<String> = Vec::new();
    pending.push(start.clone());
    proof {
        assert(names_of(found@) =~= seq![start@]);
        assert(names_of(pending@) =~= seq![start@]);
        assert(names_of(found@).to_set() <= u);
        names_of(found@).unique_seq_to_set();
        lemma_len_subset(names_of(found@).to_set(), u);
    }
    while pending.len() > 0
        invariant
            unique_names(rows@),
            rel == rel_of(rows@),
            u == univ_of(rows@).insert(start@),
            u.finite(),
            names_of(found@).no_duplicates(),
            names_of(found@).contains(start@),
            names_of(found@).to_set() <= u,
            names_of(found@).len() <= u.len(),
            forall|n: Seq<char>| names_of(found@).contains(n) ==> reaches(rel, start@, n),
            forall|j: int|
                0 <= j < pending@.len() ==> names_of(found@).contains(#[trigger] pending@[j]@),
            forall|a: Seq<char>, b: Seq<char>|
                names_of(found@).contains(a) && !names_of(pending@).contains(a) && #[trigger] edge(
                    rel,
                    a,
                    b,
                ) ==> names_of(found@).contains(b),
        decreases u.len() - names_of(found@).len(), pending@.len(),
    {
        let ghost found0 = found@;
        let ghost pend0 = pending@;
        let cur = pending.pop().unwrap();
        let ghost pend1 = pending@;
        proof {
            lemma_names_drop_last(pend0);
            assert(names_of(pend0)[pend0.len() - 1] == cur@);
            assert(names_of(found@).contains(cur@));
            assert forall|a: Seq<char>, b: Seq<char>|
                names_of(found@).contains(a) && !names_of(pend1).contains(a) && a != cur@
                    && #[trigger] edge(rel, a, b) implies names_of(found@).contains(b) by {
                if names_of(pend0).contains(a) {
                    let j = choose|j: int|
                        0 <= j < names_of(pend0).len() && names_of(pend0)[j] == a;
                    if j < pend0.len() - 1 {
                        assert(names_of(pend1)[j] == a);
                        assert(names_of(pend1).contains(a));
                    }
                }
            }
        }
        let succ = successors(rows, &cur);
        let m = succ.len();
        let mut k: usize = 0;
        while k < m
            invariant
                unique_names(rows@),
                rel == rel_of(rows@),
                u == univ_of(rows@).insert(start@),
                u.finite(),
                m == succ@.len(),
                0 <= k <= m,
                defines(rows@, cur@) ==> names_of(succ@) == deps_at(rows@, cur@),
                !defines(rows@, cur@) ==> succ@.len() == 0,
                names_of(found@).contains(cur@),
                names_of(found@).no_duplicates(),
                names_of(found@).contains(start@),
                names_of(found@).to_set() <= u,
                names_of(found@).len() <= u.len(),
                found@.len() >= found0.len(),
                pending@.len() + found0.len() <= pend1.len() + found@.len(),
                forall|n: Seq<char>| names_of(found@).contains(n) ==> reaches(rel, start@, n),
                forall|j: int|
                    0 <= j < pending@.len() ==> names_of(found@).contains(#[trigger] pending@[j]@),
                forall|t: int| 0 <= t < k ==> names_of(found@).contains(#[trigger] succ@[t]@),
                forall|a: Seq<char>, b: Seq<char>|
                    names_of(found@).contains(a) && !names_of(pending@).contains(a) && a != cur@
                        && #[trigger] edge(rel, a, b) ==> names_of(found@).contains(b),
            decreases m - k,
        {
            let candidate = succ[k].clone();
            assert(names_of(succ@)[k as int] == candidate@);
            proof {
                assert(defines(rows@, cur@));
                assert(edge(rel, cur@, candidate@));
                lemma_reaches_step(rel, start@, cur@, candidate@);
                lemma_univ_edge(rows@, cur@, candidate@);
            }
            if !contains_name(&found, &candidate) {
                let ghost fbefore = found@;
                let ghost qbefore = pending@;
                found.push(candidate.clone());
                pending.push(candidate);
                proof {
                    assert(found@ == fbefore.push(found@.last()));
                    lemma_names_push(fbefore, found@.last());
                    assert(found@.last()@ == candidate@);
                    assert(names_of(found@) == names_of(fbefore).push(candidate@));
                    assert(pending@ == qbefore.push(pending@.last()));
                    lemma_names_push(qbefore, pending@.last());
                    assert(names_of(pending@) == names_of(qbefore).push(candidate@));
                    assert forall|i: int, j: int|
                        0 <= i < j < names_of(found@).len() implies names_of(found@)[i]
                        != names_of(found@)[j] by {
                        if j == names_of(found@).len() - 1 {
                            if names_of(found@)[i] == candidate@ {
                                assert(names_of(fbefore).contains(candidate@));
                            }
                        }
                    }
                    assert(names_of(found@).no_duplicates());
                    assert(u.contains(candidate@));
                    assert(names_of(found@).to_set() <= u);
                    names_of(found@).unique_seq_to_set();
                    lemma_len_subset(names_of(found@).to_set(), u);
                    assert forall|a: Seq<char>, b: Seq<char>|
                        names_of(found@).contains(a) && !names_of(pending@).contains(a) && a
                            != cur@ && #[trigger] edge(rel, a, b) implies names_of(
                        found@,
                    ).contains(b) by {
                        if a != candidate@ {
                            assert(names_of(fbefore).contains(a));
                            assert(!names_of(qbefore).contains(a));
                        } else {
                            assert(names_of(pending@).contains(a));
                        }
                    }
                }
            }
            k = k + 1;
        }
        proof {
            assert forall|a: Seq<char>, b: Seq<char>|
                names_of(found@).contains(a) && !names_of(pending@).contains(a) && #[trigger] edge(
                    rel,
                    a,
                    b,
                ) implies names_of(found@).contains(b) by {
                if a == cur@ {
                    assert(defines(rows@, cur@));
                    assert(rel[cur@] == deps_at(rows@, cur@));
                    assert(names_of(succ@).contains(b));
                    let t = choose|t: int|
                        0 <= t < names_of(succ@).len() && names_of(succ@)[t] == b;
                    assert(succ@[t]@ == b);
                }
            }
        }
    }
    proof {
        assert forall|n: Seq<char>| reaches(rel, start@, n) implies names_of(found@).contains(
            n,
        ) by {
            let p = choose|p: Seq<Seq<char>>|
                is_path(rel, p) && p.first() == start@ && p.last() == n;
            lemma_closed_reaches(rel, names_of(found@).to_set(), p);
        }
    }
    found
}

/// Whether any node on a cycle is reachable from `start`: the eval-time
/// cycle check, run over the dependency direction.
pub(crate) fn has_cycle(rows: &Vec<Row>, start: &String) -> (r: bool)
    requires
        unique_names(rows@),
    ensures
        r == has_cycle_from(rel_of(rows@), start@),
{
    let ghost rel = rel_of(rows@);
    let reach = reach_set(rows, start);
    let n = reach.len();
    let mut i: usize = 0;
    while i < n
        invariant
            unique_names(rows@),
            rel == rel_of(rows@),
            n == reach@.len(),
            0 <= i <= n,
            forall|n2: Seq<char>|
                names_of(reach@).contains(n2) <==> reaches(rel, start@, n2),
            forall|j: int| 0 <= j < i ==> !in_cycle(rel, #[trigger] reach@[j]@),
        decreases n - i,
    {
        let node = &reach[i];
        assert(names_of(reach@)[i as int] == node@);
        let succ = successors(rows, node);
        let m = succ.len();
        let mut k: usize = 0;
        while k < m
            invariant
                unique_names(rows@),
                rel == rel_of(rows@),
                m == succ@.len(),
                0 <= k <= m,
                i < n,
                n == reach@.len(),
                node == &reach[i as int],
                names_of(reach@).contains(node@),
                forall|n2: Seq<char>|
                    names_of(reach@).contains(n2) <==> reaches(rel, start@, n2),
                defines(rows@, node@) ==> names_of(succ@) == deps_at(rows@, node@),
                !defines(rows@, node@) ==> succ@.len() == 0,
                forall|t: int| 0 <= t < k ==> !reaches(rel, #[trigger] succ@[t]@, node@),
            decreases m - k,
        {
            let target = &succ[k];
            assert(names_of(succ@)[k as int] == target@);
            let back = reach_set(rows, target);
            if contains_name(&back, node) {
                proof {
                    assert(edge(rel, node@, target@));
                    assert(reaches(rel, target@, node@));
                    lemma_cycle_compose(rel, node@, target@);
                    assert(reaches(rel, start@, node@));
                }
                return true;
            }
            k = k + 1;
        }
        proof {
            if in_cycle(rel, node@) {
                lemma_cycle_decompose(rel, node@);
                let mm = choose|mm: Seq<char>| #[trigger] edge(rel, node@, mm) && reaches(
                    rel,
                    mm,
                    node@,
                );
                assert(defines(rows@, node@));
                assert(names_of(succ@) == deps_at(rows@, node@));
                assert(rel_of(rows@)[node@] == deps_at(rows@, node@));
                assert(names_of(succ@).contains(mm));
                let t = choose|t: int|
                    0 <= t < names_of(succ@).len() && names_of(succ@)[t] == mm;
                assert(succ@[t]@ == mm);
                assert(!reaches(rel, mm, node@));
            }
        }
        i = i + 1;
    }
    proof {
        if has_cycle_from(rel, start@) {
            let n2 = choose|n2: Seq<char>| reaches(rel, start@, n2) && #[trigger] in_cycle(
                rel,
                n2,
            );
            assert(names_of(reach@).contains(n2));
            let j = choose|j: int|
                0 <= j < names_of(reach@).len() && names_of(reach@)[j] == n2;
            assert(reach@[j]@ == n2);
        }
    }
    false
}

/// The entries whose scripts statically reference `name`.
fn direct_dependents(rows: &Vec<Row>, name: &String) -> (r: Vec<String>)
    requires
        unique_names(rows@),
    ensures
        forall|n: Seq<char>| names_of(r@).contains(n) <==> edge(rel_of(rows@), n, name@),
        names_of(r@).no_duplicates(),
{
    let ghost rel = rel_of(rows@);
    let mut out: Vec<String> = Vec::new();
    let n = rows.len();
    let mut i: usize = 0;
    while i < n
        invariant
            unique_names(rows@),
            rel == rel_of(rows@),
            n == rows@.len(),
            0 <= i <= n,
            forall|n2: Seq<char>|
                names_of(out@).contains(n2) ==> edge(rel, n2, name@),
            forall|j: int|
                0 <= j < i && names_of(rows@[j].deps@).contains(name@) ==> names_of(
                    out@,
                ).contains(#[trigger] rows@[j].name@),
            names_of(out@).no_duplicates(),
            forall|n2: Seq<char>|
                names_of(out@).contains(n2) ==> exists|j: int|
                    0 <= j < i && (#[trigger] rows@[j]).name@ == n2,
        decreases n - i,
    {
        if contains_name(&rows[i].deps, name) {
            proof {
                lemma_idx_of(rows@, i as int);
                assert(deps_at(rows@, rows@[i as int].name@) == names_of(rows@[i as int].deps@));
            }
            let ghost obefore = out@;
            out.push(rows[i].name.clone());
            proof {
                assert(names_of(out@) =~= names_of(obefore).push(rows@[i as int].name@));
                assert forall|n2: Seq<char>| names_of(out@).contains(n2) implies edge(
                    rel,
                    n2,
                    name@,
                ) by {
                    if n2 != rows@[i as int].name@ {
                        assert(names_of(obefore).contains(n2));
                    }
                }
                // each row contributes its name at most once, and names are
                // unique across rows
                assert forall|i2: int, j2: int|
                    0 <= i2 < j2 < names_of(out@).len() implies names_of(out@)[i2] != names_of(
                    out@,
                )[j2] by {
                    if j2 == names_of(out@).len() - 1 {
                        if names_of(out@)[i2] == rows@[i as int].name@ {
                            assert(names_of(obefore).contains(rows@[i as int].name@));
                            let j3 = choose|j3: int|
                                0 <= j3 < i && (#[trigger] rows@[j3]).name@ == rows@[i as int].name@;
                            assert(rows@[j3].name@ != rows@[i as int].name@);
                        }
                    }
                }
                assert forall|n2: Seq<char>| names_of(out@).contains(n2) implies exists|j: int|
                    0 <= j < i + 1 && (#[trigger] rows@[j]).name@ == n2 by {
                    if n2 != rows@[i as int].name@ {
                        assert(names_of(obefore).contains(n2));
                    } else {
                        assert(rows@[i as int].name@ == n2);
                    }
                }
            }
        }
        i = i + 1;
    }
    proof {
        assert forall|n2: Seq<char>| edge(rel, n2, name@) implies names_of(out@).contains(
            n2,
        ) by {
            lemma_defines_idx(rows@, n2);
            let j = idx_of(rows@, n2);
            assert(deps_at(rows@, n2) == names_of(rows@[j].deps@));
            assert(names_of(rows@[j].deps@).contains(name@));
        }
    }
    out
}


/// The names of a definition document's entries, in document order.
pub open spec fn doc_names(entries: Seq<(String, String)>) -> Seq<Seq<char>> {
    entries.map_values(|p: (String, String)| p.0@)
}

/// Every script of the document compiles, the prelude included.
pub open spec fn all_compile(prelude: Seq<char>, entries: Seq<(String, String)>) -> bool {
    &&& compiled_of(prelude) is Some
    &&& forall|i: int|
        0 <= i < entries.len() ==> compiled_of((#[trigger] entries[i]).1@) is Some
}

/// Every name a document's scripts statically reference is defined by the
/// document.
pub open spec fn doc_deps_defined(entries: Seq<(String, String)>) -> bool {
    forall|i: int, d: Seq<char>|
        0 <= i < entries.len() && #[trigger] deps_of(entries[i].1@).contains(d)
            ==> doc_names(entries).contains(d)
}

/// Construction succeeds exactly on such documents.
pub open spec fn parse_accepts(prelude: Seq<char>, entries: Seq<(String, String)>) -> bool {
    all_compile(prelude, entries) && doc_deps_defined(entries)
}

/// The cached value a cache column holds for a name, if any.
pub open spec fn cached_at(
    rows: Seq<Row>,
    cache: Seq<Option<rhai::Dynamic>>,
    n: Seq<char>,
) -> Option<rhai::Dynamic> {
    if defines(rows, n) {
        cache[idx_of(rows, n)]
    } else {
        None
    }
}

/// A cached slot holds a genuine evaluator outcome for its row: some
/// dependency environment, binding only the row's statically extracted
/// dependencies, over which executing the row's script under the given
/// prelude yields exactly the cached value. How that environment relates to
/// the cache's current contents is stated on `eval` itself (`resolves_deps`)
/// rather than here: it cannot be a state invariant, because invalidation
/// removes a dependency's cached value before it removes the dependents',
/// and a cyclic-dependency error can leave exactly such a state behind.
pub open spec fn value_coherent(prelude: Seq<char>, row: Row, slot: Option<rhai::Dynamic>) -> bool {
    slot matches Some(v) ==> exists|env: Map<Seq<char>, rhai::Dynamic>|
        #[trigger] run_of(prelude, row.script@, env) == Some(v) && env.dom() <= names_of(
            row.deps@,
        ).to_set()
}

/// `env` is a dependency environment an evaluation of `name` resolved its
/// lookup calls against: it binds only statically extracted dependencies of
/// `name`, every binding agrees with the cache after the evaluation, and
/// every dependency that already had a cached value before the evaluation
/// is bound to exactly that value.
pub open spec fn resolves_deps(
    pre: Sheet,
    post: Sheet,
    name: Seq<char>,
    env: Map<Seq<char>, rhai::Dynamic>,
) -> bool {
    &&& env.dom() <= deps_at(pre.rows_view(), name).to_set()
    &&& forall|d: Seq<char>| #[trigger] env.dom().contains(d) ==> post.cached(d) == Some(env[d])
    &&& forall|d: Seq<char>|
        deps_at(pre.rows_view(), name).contains(d) && #[trigger] pre.cached(d) is Some
            ==> env.dom().contains(d) && Some(env[d]) == pre.cached(d)
}

/// One sheet: the prelude shared by all entries, the entries with their
/// compiled forms and extracted dependencies, the per-entry value cache, and
/// a counter of evaluator executions.
#[derive(Debug)]
pub struct Sheet {
    prelude: String,
    prelude_ast: rhai::AST,
    rows: Vec<Row>,
    cache: Vec<Option<rhai::Dynamic>>,
    runs: u64,
}

impl Sheet {
    /// The prelude's source text.
    pub closed spec fn prelude_view(&self) -> Seq<char> {
        self.prelude@
    }

    /// The prelude's compiled form.
    pub closed spec fn prelude_ast_view(&self) -> rhai::AST {
        self.prelude_ast
    }

    /// The entries, in insertion order.
    pub closed spec fn rows_view(&self) -> Seq<Row> {
        self.rows@
    }

    /// The cached values, aligned with the rows.
    pub closed spec fn cache_view(&self) -> Seq<Option<rhai::Dynamic>> {
        self.cache@
    }

    /// How many times the evaluator has been executed.
    pub closed spec fn runs_view(&self) -> u64 {
        self.runs
    }

    /// The dependency relation of this sheet.
    pub open spec fn rel(&self) -> Rel {
        rel_of(self.rows_view())
    }

    /// The cached value of a name, if any.
    pub open spec fn cached(&self, n: Seq<char>) -> Option<rhai::Dynamic> {
        cached_at(self.rows_view(), self.cache_view(), n)
    }

    /// Well-formedness: names are unique; every stored compiled form and
    /// dependency list is derived from the current script for that entry and
    /// the current prelude; the cache runs in lock-step with the rows; and
    /// every cached value is a genuine evaluator outcome for its own entry
    /// over some environment of its statically extracted dependencies.
    pub open spec fn wf(&self) -> bool {
        &&& unique_names(self.rows_view())
        &&& compiled_of(self.prelude_view()) == Some(self.prelude_ast_view())
        &&& self.cache_view().len() == self.rows_view().len()
        &&& forall|i: int|
            0 <= i < self.rows_view().len() ==> compiled_of(
                (#[trigger] self.rows_view()[i]).script@,
            ) == Some(self.rows_view()[i].ast)
        &&& forall|i: int|
            0 <= i < self.rows_view().len() ==> names_of(
                (#[trigger] self.rows_view()[i]).deps@,
            ) == deps_of(self.rows_view()[i].script@)
        &&& forall|i: int|
            0 <= i < self.rows_view().len() ==> value_coherent(
                self.prelude_view(),
                (#[trigger] self.rows_view()[i]),
                self.cache_view()[i],
            )
    }

    /// Constructs a sheet from a definition document: compiles the prelude
    /// and every entry, extracts each entry's static dependencies, and
    /// validates that every referenced dependency is defined. Fails entirely
    /// (no partial sheet) on any compile or missing-dependency error.
    pub fn parse(prelude: String, entries: Vec<(String, String)>) -> (r: Result<Sheet, SheetError>)
        requires
            forall|i: int, j: int|
                0 <= i < j < entries@.len() ==> (#[trigger] entries@[i]).0@ != (
                #[trigger] entries@[j]).0@,
        ensures
            r is Ok <==> parse_accepts(prelude@, entries@),
            r matches Ok(s) ==> {
                &&& s.wf()
                &&& s.prelude_view() == prelude@
                &&& s.rows_view().len() == entries@.len()
                &&& forall|i: int|
                    0 <= i < entries@.len() ==> (#[trigger] s.rows_view()[i]).name@
                        == entries@[i].0@ && s.rows_view()[i].script@ == entries@[i].1@
                        && names_of(s.rows_view()[i].deps@) == deps_of(entries@[i].1@)
                &&& forall|n: Seq<char>| #[trigger] s.cached(n) is None
                &&& s.runs_view() == 0
            },
            r matches Err(SheetError::BadScript(_)) ==> !all_compile(prelude@, entries@),
            r matches Err(SheetError::BadDependency(d)) ==> {
                &&& all_compile(prelude@, entries@)
                &&& !doc_deps_defined(entries@)
                &&& exists|i: int|
                    0 <= i < entries@.len() && deps_of((#[trigger] entries@[i]).1@).contains(d@)
                &&& !doc_names(entries@).contains(d@)
            },
            r is Err ==> (r matches Err(SheetError::BadScript(_)) || r matches Err(
                SheetError::BadDependency(_),
            )),
    {
        let prelude_ast = match compile_script(prelude.as_str()) {
            Ok(a) => a,
            Err(e) => {
                return Err(SheetError::BadScript(e));
            },
        };
        let n = entries.len();
        let mut rows: Vec<Row> = Vec::new();
        let mut i: usize = 0;
        while i < n
            invariant
                n == entries@.len(),
                0 <= i <= n,
                rows@.len() == i,
                forall|i2: int, j2: int|
                    0 <= i2 < j2 < entries@.len() ==> (#[trigger] entries@[i2]).0@ != (
                    #[trigger] entries@[j2]).0@,
                forall|j: int|
                    0 <= j < i ==> (#[trigger] rows@[j]).name@ == entries@[j].0@
                        && rows@[j].script@ == entries@[j].1@,
                forall|j: int|
                    0 <= j < i ==> compiled_of((#[trigger] rows@[j]).script@) == Some(rows@[j].ast),
                forall|j: int|
                    0 <= j < i ==> names_of((#[trigger] rows@[j]).deps@) == deps_of(
                        rows@[j].script@,
                    ),
            decreases n - i,
        {
            let name = entries[i].0.clone();
            let script = entries[i].1.clone();
            let ast = match compile_script(script.as_str()) {
                Ok(a) => a,
                Err(e) => {
                    assert(compiled_of(entries@[i as int].1@) is None);
                    return Err(SheetError::BadScript(e));
                },
            };
            let deps = scan_dependencies(script.as_str(), &ast);
            rows.push(Row { name, script, ast, deps });
            i = i + 1;
        }
        proof {
            assert(unique_names(rows@));
            assert(row_names(rows@) =~= doc_names(entries@));
        }
        let mut i: usize = 0;
        while i < n
            invariant
                n == entries@.len(),
                n == rows@.len(),
                0 <= i <= n,
                compiled_of(prelude@) is Some,
                unique_names(rows@),
                row_names(rows@) == doc_names(entries@),
                forall|j: int|
                    0 <= j < n ==> (#[trigger] rows@[j]).name@ == entries@[j].0@
                        && rows@[j].script@ == entries@[j].1@,
                forall|j: int|
                    0 <= j < n ==> compiled_of((#[trigger] rows@[j]).script@) == Some(rows@[j].ast),
                forall|j: int|
                    0 <= j < n ==> names_of((#[trigger] rows@[j]).deps@) == deps_of(
                        rows@[j].script@,
                    ),
                forall|j: int, t: int|
                    0 <= j < i && 0 <= t < names_of(rows@[j].deps@).len() ==> defines(
                        rows@,
                        #[trigger] names_of(rows@[j].deps@)[t],
                    ),
            decreases n - i,
        {
            let m = rows[i].deps.len();
            let mut k: usize = 0;
            while k < m
                invariant
                    n == entries@.len(),
                    n == rows@.len(),
                    0 <= i < n,
                    compiled_of(prelude@) is Some,
                    m == rows@[i as int].deps@.len(),
                    0 <= k <= m,
                    unique_names(rows@),
                    row_names(rows@) == doc_names(entries@),
                    forall|j: int|
                        0 <= j < n ==> (#[trigger] rows@[j]).name@ == entries@[j].0@
                            && rows@[j].script@ == entries@[j].1@,
                    forall|j: int|
                        0 <= j < n ==> names_of((#[trigger] rows@[j]).deps@) == deps_of(
                            rows@[j].script@,
                        ),
                    forall|j: int|
                        0 <= j < n ==> compiled_of((#[trigger] rows@[j]).script@) == Some(
                            rows@[j].ast,
                        ),
                    forall|t: int|
                        0 <= t < k ==> defines(
                            rows@,
                            #[trigger] names_of(rows@[i as int].deps@)[t],
                        ),
                decreases m - k,
            {
                let dep = rows[i].deps[k].clone();
                assert(names_of(rows@[i as int].deps@)[k as int] == dep@);
                match find_row(&rows, &dep) {
                    Some(f) => {
                        proof {
                            assert(row_names(rows@)[f as int] == dep@);
                            assert(defines(rows@, dep@));
                        }
                    },
                    None => {
                        proof {
                            assert(deps_of(entries@[i as int].1@).contains(dep@));
                            assert(!doc_names(entries@).contains(dep@));
                            assert(!doc_deps_defined(entries@));
                            assert forall|j: int|
                                0 <= j < entries@.len() implies compiled_of(
                                (#[trigger] entries@[j]).1@,
                            ) is Some by {
                                assert(compiled_of(rows@[j].script@) == Some(rows@[j].ast));
                            }
                            assert(all_compile(prelude@, entries@));
                        }
                        return Err(SheetError::BadDependency(dep));
                    },
                }
                k = k + 1;
            }
            i = i + 1;
        }
        let mut cache: Vec<Option<rhai::Dynamic>> = Vec::new();
        let mut i: usize = 0;
        while i < n
            invariant
                0 <= i <= n,
                cache@.len() == i,
                forall|j: int| 0 <= j < i ==> (#[trigger] cache@[j]) is None,
            decreases n - i,
        {
            cache.push(None);
            i = i + 1;
        }
        let sheet = Sheet { prelude, prelude_ast, rows, cache, runs: 0 };
        proof {
            assert forall|i2: int, d: Seq<char>|
                0 <= i2 < entries@.len() && #[trigger] deps_of(entries@[i2].1@).contains(d)
                    implies doc_names(entries@).contains(d) by {
                assert(names_of(sheet.rows_view()[i2].deps@) == deps_of(entries@[i2].1@));
                let t = choose|t: int|
                    0 <= t < names_of(sheet.rows_view()[i2].deps@).len() && names_of(
                        sheet.rows_view()[i2].deps@,
                    )[t] == d;
                assert(defines(sheet.rows_view(), d));
            }
            assert forall|n2: Seq<char>| #[trigger] sheet.cached(n2) is None by {
                if defines(sheet.rows_view(), n2) {
                    lemma_defines_idx(sheet.rows_view(), n2);
                }
            }
            assert forall|j: int|
                0 <= j < entries@.len() implies compiled_of(
                (#[trigger] entries@[j]).1@,
            ) is Some by {
                assert(compiled_of(sheet.rows_view()[j].script@) == Some(sheet.rows_view()[j].ast));
            }
            assert(all_compile(prelude@, entries@));
            assert(doc_deps_defined(entries@));
        }
        Ok(sheet)
    }

    /// Replaces the prelude: compiles the new script and, only on success,
    /// stores it and clears the entire value cache (any entry may rely on
    /// prelude-defined helpers). On compile failure the previous prelude
    /// stays active and nothing changes.
    pub fn insert_prelude(&mut self, script: String) -> (r: Result<(), SheetError>)
        requires
            old(self).wf(),
        ensures
            final(self).wf(),
            r is Ok <==> compiled_of(script@) is Some,
            r is Ok ==> {
                &&& final(self).prelude_view() == script@
                &&& final(self).rows_view() == old(self).rows_view()
                &&& final(self).runs_view() == old(self).runs_view()
                &&& forall|n: Seq<char>| #[trigger] final(self).cached(n) is None
            },
            r is Err ==> *final(self) == *old(self) && r matches Err(SheetError::BadScript(_)),
    {
        match compile_script(script.as_str()) {
            Ok(ast) => {
                self.prelude = script;
                self.prelude_ast = ast;
                self.clear_cache();
                Ok(())
            },
            Err(e) => Err(SheetError::BadScript(e)),
        }
    }

    /// Recompiles the current prelude and clears the entire value cache.
    pub fn build_prelude(&mut self) -> (r: Result<(), SheetError>)
        requires
            old(self).wf(),
        ensures
            final(self).wf(),
            r is Ok,
            final(self).prelude_view() == old(self).prelude_view(),
            final(self).rows_view() == old(self).rows_view(),
            final(self).runs_view() == old(self).runs_view(),
            forall|n: Seq<char>| #[trigger] final(self).cached(n) is None,
    {
        let source = self.prelude.clone();
        match compile_script(source.as_str()) {
            Ok(ast) => {
                self.prelude_ast = ast;
                self.clear_cache();
                Ok(())
            },
            Err(e) => {
                proof {
                    assert(false);
                }
                Err(SheetError::BadScript(e))
            },
        }
    }

    /// Drops every cached value, keeping the rows.
    fn clear_cache(&mut self)
        requires
            old(self).cache_view().len() == old(self).rows_view().len(),
        ensures
            final(self).prelude_view() == old(self).prelude_view(),
            final(self).prelude_ast_view() == old(self).prelude_ast_view(),
            final(self).rows_view() == old(self).rows_view(),
            final(self).runs_view() == old(self).runs_view(),
            final(self).cache_view().len() == final(self).rows_view().len(),
            forall|i: int|
                0 <= i < final(self).cache_view().len() ==> (
                #[trigger] final(self).cache_view()[i]) is None,
            forall|n: Seq<char>| #[trigger] final(self).cached(n) is None,
    {
        let n = self.rows.len();
        let mut cache: Vec<Option<rhai::Dynamic>> = Vec::new();
        let mut i: usize = 0;
        while i < n
            invariant
                0 <= i <= n,
                cache@.len() == i,
                forall|j: int| 0 <= j < i ==> (#[trigger] cache@[j]) is None,
            decreases n - i,
        {
            cache.push(None);
            i = i + 1;
        }
        self.cache = cache;
        proof {
            assert forall|n2: Seq<char>| #[trigger] self.cached(n2) is None by {
                if defines(self.rows_view(), n2) {
                    lemma_defines_idx(self.rows_view(), n2);
                }
            }
        }
    }

    /// The raw script of an entry, if defined.
    pub fn get_source(&self, name: &str) -> (r: Option<String>)
        requires
            self.wf(),
        ensures
            r matches Some(s) ==> defines(self.rows_view(), name@) && s@ == script_at(
                self.rows_view(),
                name@,
            ),
            r is None ==> !defines(self.rows_view(), name@),
    {
        let key: String = name.to_owned();
        match find_row(&self.rows, &key) {
            Some(i) => {
                proof {
                    lemma_idx_of(self.rows_view(), i as int);
                }
                Some(self.rows[i].script.clone())
            },
            None => None,
        }
    }
}


/// How `insert_entry` and `build_entry` change the store: the named entry
/// now carries `script` with its extracted dependencies, every other entry
/// is untouched, and cached values are only ever dropped, only within the
/// set of entries that statically reach the changed name.
pub open spec fn upserted(pre: Sheet, post: Sheet, name: Seq<char>, script: Seq<char>) -> bool {
    &&& post.prelude_view() == pre.prelude_view()
    &&& post.prelude_ast_view() == pre.prelude_ast_view()
    &&& post.runs_view() == pre.runs_view()
    &&& defines(post.rows_view(), name)
    &&& script_at(post.rows_view(), name) == script
    &&& deps_at(post.rows_view(), name) == deps_of(script)
    &&& forall|n: Seq<char>|
        n != name ==> #[trigger] defines(post.rows_view(), n) == defines(pre.rows_view(), n)
    &&& forall|n: Seq<char>|
        n != name && defines(pre.rows_view(), n) ==> #[trigger] script_at(post.rows_view(), n)
            == script_at(pre.rows_view(), n) && deps_at(post.rows_view(), n) == deps_at(
            pre.rows_view(),
            n,
        )
    &&& forall|n: Seq<char>|
        #[trigger] post.cached(n) == pre.cached(n) || post.cached(n) is None
    &&& forall|n: Seq<char>|
        #[trigger] post.cached(n) != pre.cached(n) ==> reaches(post.rel(), n, name)
}

impl Sheet {
    /// Removes the cached value of `name`, then recursively does the same
    /// for every entry whose dependency list carries `name`. A dependent
    /// found on the visited path (or depending on itself) is a cycle and is
    /// reported as one.
    fn invalidate_rec(&mut self, name: &String, visited: &Vec<String>) -> (r: Result<
        (),
        SheetError,
    >)
        requires
            old(self).wf(),
        ensures
            final(self).wf(),
            final(self).prelude_view() == old(self).prelude_view(),
            final(self).prelude_ast_view() == old(self).prelude_ast_view(),
            final(self).rows_view() == old(self).rows_view(),
            final(self).runs_view() == old(self).runs_view(),
            forall|n: Seq<char>|
                #[trigger] final(self).cached(n) == old(self).cached(n) || final(self).cached(
                    n,
                ) is None,
            forall|n: Seq<char>|
                #[trigger] final(self).cached(n) != old(self).cached(n) ==> reaches(
                    final(self).rel(),
                    n,
                    name@,
                ),
            final(self).cached(name@) is None,
            r is Ok ==> forall|n: Seq<char>|
                reaches(final(self).rel(), n, name@) ==> #[trigger] final(self).cached(n) is None,
            r matches Err(e) ==> e matches SheetError::CyclicDependency(_),
            r matches Err(SheetError::CyclicDependency(c)) ==> reaches(final(self).rel(), c@, name@)
                && (names_of(visited@).contains(c@) || in_cycle(final(self).rel(), c@)),
            r is Ok ==> forall|c: Seq<char>|
                reaches(final(self).rel(), c, name@) ==> !#[trigger] in_cycle(
                    final(self).rel(),
                    c,
                ),
        decreases univ_of(self.rows_view()).difference(
            names_of(visited@).to_set().insert(name@),
        ).len(),
    {
        let ghost rel = rel_of(self.rows@);
        let ghost entry = *self;
        proof {
            lemma_univ_finite(self.rows@);
            lemma_reaches_refl(rel, name@);
        }
        match find_row(&self.rows, name) {
            Some(i) => {
                proof {
                    lemma_idx_of(self.rows@, i as int);
                }
                vec_update(&mut self.cache, i, None);
                proof {
                    assert forall|n: Seq<char>|
                        #[trigger] self.cached(n) != entry.cached(n) implies n == name@ by {
                        if defines(self.rows_view(), n) {
                            lemma_defines_idx(self.rows_view(), n);
                        }
                    }
                }
            },
            None => {},
        }
        let ghost cleared = *self;
        let dependents = direct_dependents(&self.rows, name);
        let mut parents = clone_names(visited);
        parents.push(name.clone());
        proof {
            lemma_names_push(visited@, parents@.last());
            assert(names_of(parents@) == names_of(visited@).push(name@));
        }
        let m = dependents.len();
        let mut k: usize = 0;
        while k < m
            invariant
                self.wf(),
                entry == *old(self),
                m == dependents@.len(),
                0 <= k <= m,
                rel == rel_of(self.rows@),
                self.rows_view() == entry.rows_view(),
                self.prelude_view() == entry.prelude_view(),
                self.prelude_ast_view() == entry.prelude_ast_view(),
                self.runs_view() == entry.runs_view(),
                entry.wf(),
                names_of(parents@) == names_of(visited@).push(name@),
                forall|n: Seq<char>|
                    names_of(dependents@).contains(n) <==> edge(rel, n, name@),
                self.cached(name@) is None,
                forall|n: Seq<char>|
                    #[trigger] self.cached(n) == entry.cached(n) || self.cached(n) is None,
                forall|n: Seq<char>|
                    #[trigger] self.cached(n) != entry.cached(n) ==> reaches(rel, n, name@),
                forall|t: int, n: Seq<char>|
                    0 <= t < k && reaches(rel, n, #[trigger] dependents@[t]@) ==> #[trigger] self
                        .cached(n) is None,
                forall|t: int, c: Seq<char>|
                    #![trigger dependents@[t]@, in_cycle(rel, c)]
                    0 <= t < k && reaches(rel, c, dependents@[t]@) ==> !in_cycle(rel, c),
            decreases m - k,
        {
            let d = dependents[k].clone();
            assert(names_of(dependents@)[k as int] == d@);
            proof {
                assert(names_of(dependents@).contains(d@));
                assert(edge(rel, d@, name@));
            }
            if d == *name || contains_name(visited, &d) {
                proof {
                    lemma_reaches_refl(rel, d@);
                    lemma_reaches_step(rel, d@, d@, name@);
                    if d@ == name@ {
                        // a self-dependent entry closes a cycle at once
                        lemma_cycle_compose(rel, d@, name@);
                    } else {
                        assert(names_of(visited@).contains(d@));
                    }
                }
                return Err(SheetError::CyclicDependency(d));
            }
            proof {
                // the recursive call strictly shrinks the unvisited universe
                broadcast use vstd::set::axiom_set_difference_finite;
                broadcast use vstd::set::axiom_set_remove_len;
                lemma_univ_finite(self.rows@);
                let x = names_of(visited@).to_set().insert(name@);
                assert(names_of(parents@).to_set() == names_of(visited@).push(name@).to_set());
                assert(names_of(parents@).to_set() =~= x);
                assert(names_of(parents@).to_set().insert(d@) =~= x.insert(d@));
                lemma_univ_edge(self.rows@, d@, name@);
                assert(!x.contains(d@));
                assert(univ_of(self.rows@).difference(x).contains(d@));
                assert(univ_of(self.rows@).difference(x.insert(d@)) =~= univ_of(
                    self.rows@,
                ).difference(x).remove(d@));
            }
            let ghost before = *self;
            match self.invalidate_rec(&d, &parents) {
                Ok(()) => {
                    proof {
                        assert forall|n: Seq<char>|
                            #[trigger] self.cached(n) != entry.cached(n) implies reaches(
                            rel,
                            n,
                            name@,
                        ) by {
                            if self.cached(n) != before.cached(n) {
                                lemma_reaches_step(rel, n, d@, name@);
                            }
                        }
                        assert forall|t: int, n: Seq<char>|
                            0 <= t < k + 1 && reaches(rel, n, #[trigger] dependents@[t]@) implies
                            #[trigger] self.cached(n) is None by {
                            if t < k {
                                assert(before.cached(n) is None);
                            } else {
                                assert(reaches(rel, n, d@));
                            }
                        }
                        assert forall|t: int, c: Seq<char>|
                            #![trigger dependents@[t]@, in_cycle(rel, c)]
                            0 <= t < k + 1 && reaches(rel, c, dependents@[t]@) implies !in_cycle(
                            rel,
                            c,
                        ) by {
                            if t == k {
                                assert(reaches(rel, c, d@));
                                assert(reaches(self.rel(), c, d@));
                                assert(!in_cycle(self.rel(), c));
                            }
                        }
                    }
                },
                Err(e) => {
                    proof {
                        if let SheetError::CyclicDependency(c) = &e {
                            assert(reaches(self.rel(), c@, d@));
                            lemma_reaches_step(rel, c@, d@, name@);
                            if names_of(parents@).contains(c@) {
                                if c@ == name@ {
                                    // the cycle closes through this entry:
                                    // name reaches d and d depends on name
                                    lemma_reach_edge_cycle(rel, name@, d@);
                                } else {
                                    let j = choose|j: int|
                                        0 <= j < names_of(parents@).len() && names_of(
                                            parents@,
                                        )[j] == c@;
                                    assert(names_of(visited@)[j] == c@);
                                    assert(names_of(visited@).contains(c@));
                                }
                            }
                        }
                        assert forall|n: Seq<char>|
                            #[trigger] self.cached(n) != entry.cached(n) implies reaches(
                            rel,
                            n,
                            name@,
                        ) by {
                            if self.cached(n) != before.cached(n) {
                                lemma_reaches_step(rel, n, d@, name@);
                            }
                        }
                    }
                    return Err(e);
                },
            }
            k = k + 1;
        }
        proof {
            assert forall|n: Seq<char>| reaches(rel, n, name@) implies #[trigger] self.cached(
                n,
            ) is None by {
                if n != name@ {
                    lemma_reaches_decompose_last(rel, n, name@);
                    let d = choose|d: Seq<char>|
                        reaches(rel, n, d) && #[trigger] edge(rel, d, name@);
                    assert(names_of(dependents@).contains(d));
                    let t = choose|t: int|
                        0 <= t < names_of(dependents@).len() && names_of(dependents@)[t] == d;
                    assert(dependents@[t]@ == d);
                }
            }
            assert forall|c: Seq<char>| reaches(rel, c, name@) implies !#[trigger] in_cycle(
                rel,
                c,
            ) by {
                if in_cycle(rel, c) {
                    if c == name@ {
                        lemma_cycle_decompose_last(rel, name@);
                        let z = choose|z: Seq<char>|
                            #[trigger] edge(rel, z, name@) && reaches(rel, name@, z);
                        assert(names_of(dependents@).contains(z));
                        let t = choose|t: int|
                            0 <= t < names_of(dependents@).len() && names_of(dependents@)[t] == z;
                        assert(dependents@[t]@ == z);
                        assert(reaches(rel, name@, dependents@[t]@));
                        assert(!in_cycle(rel, name@));
                    } else {
                        lemma_reaches_decompose_last(rel, c, name@);
                        let dd = choose|dd: Seq<char>|
                            reaches(rel, c, dd) && #[trigger] edge(rel, dd, name@);
                        assert(names_of(dependents@).contains(dd));
                        let t = choose|t: int|
                            0 <= t < names_of(dependents@).len() && names_of(dependents@)[t] == dd;
                        assert(dependents@[t]@ == dd);
                        assert(reaches(rel, c, dependents@[t]@));
                        assert(!in_cycle(rel, c));
                    }
                }
            }
        }
        Ok(())
    }

    /// Removes the cached value of `name` and of every entry that statically
    /// depends on it, directly or transitively. A looping dependent closure
    /// is always reported as a cyclic-dependency error (success proves the
    /// closure acyclic), and a reported name either lies on a cycle or was
    /// handed in on the visited path. `bad_parents` is the visited path of
    /// an outer invalidation (empty at the root).
    pub fn invalidate_cache(&mut self, name: &str, bad_parents: &Vec<String>) -> (r: Result<
        (),
        SheetError,
    >)
        requires
            old(self).wf(),
        ensures
            final(self).wf(),
            final(self).prelude_view() == old(self).prelude_view(),
            final(self).rows_view() == old(self).rows_view(),
            final(self).runs_view() == old(self).runs_view(),
            forall|n: Seq<char>|
                #[trigger] final(self).cached(n) == old(self).cached(n) || final(self).cached(
                    n,
                ) is None,
            forall|n: Seq<char>|
                #[trigger] final(self).cached(n) != old(self).cached(n) ==> reaches(
                    final(self).rel(),
                    n,
                    name@,
                ),
            final(self).cached(name@) is None,
            r is Ok ==> forall|n: Seq<char>|
                reaches(final(self).rel(), n, name@) ==> #[trigger] final(self).cached(n) is None,
            r matches Err(e) ==> e matches SheetError::CyclicDependency(_),
            r matches Err(SheetError::CyclicDependency(c)) ==> reaches(final(self).rel(), c@, name@)
                && (names_of(bad_parents@).contains(c@) || in_cycle(final(self).rel(), c@)),
            r is Ok ==> forall|c: Seq<char>|
                reaches(final(self).rel(), c, name@) ==> !#[trigger] in_cycle(
                    final(self).rel(),
                    c,
                ),
    {
        let key: String = name.to_owned();
        self.invalidate_rec(&key, bad_parents)
    }

    /// Stores a validated entry (compiled form and extracted dependencies
    /// included) and invalidates the cached values of its dependent closure.
    fn commit_entry(&mut self, name: String, script: String, ast: rhai::AST, deps: Vec<String>)
        -> (r: Result<(), SheetError>)
        requires
            old(self).wf(),
            compiled_of(script@) == Some(ast),
            names_of(deps@) == deps_of(script@),
        ensures
            final(self).wf(),
            upserted(*old(self), *final(self), name@, script@),
            final(self).rows_view().len() == old(self).rows_view().len() + (if defines(
                old(self).rows_view(),
                name@,
            ) {
                0int
            } else {
                1int
            }),
            final(self).cached(name@) is None,
            r is Ok ==> forall|n: Seq<char>|
                reaches(final(self).rel(), n, name@) ==> #[trigger] final(self).cached(n) is None,
            r matches Err(e) ==> e matches SheetError::CyclicDependency(_),
            r matches Err(SheetError::CyclicDependency(c)) ==> in_cycle(final(self).rel(), c@)
                && reaches(final(self).rel(), c@, name@),
            r is Ok ==> forall|c: Seq<char>|
                reaches(final(self).rel(), c, name@) ==> !#[trigger] in_cycle(
                    final(self).rel(),
                    c,
                ),
    {
        let ghost entry = *self;
        let key = name.clone();
        let row = Row { name, script, ast, deps };
        match find_row(&self.rows, &key) {
            Some(i) => {
                proof {
                    lemma_idx_of(self.rows@, i as int);
                }
                vec_update(&mut self.rows, i, row);
                vec_update(&mut self.cache, i, None);
                proof {
                    assert forall|i2: int, j2: int|
                        0 <= i2 < j2 < self.rows@.len() implies #[trigger] self.rows@[i2].name@
                        != #[trigger] self.rows@[j2].name@ by {
                        assert(entry.rows_view()[i2].name@ != entry.rows_view()[j2].name@);
                    }
                    lemma_idx_of(self.rows@, i as int);
                }
            },
            None => {
                self.rows.push(row);
                self.cache.push(None);
                proof {
                    assert forall|i2: int, j2: int|
                        0 <= i2 < j2 < self.rows@.len() implies #[trigger] self.rows@[i2].name@
                        != #[trigger] self.rows@[j2].name@ by {
                        if j2 < self.rows@.len() - 1 {
                            assert(entry.rows_view()[i2].name@ != entry.rows_view()[j2].name@);
                        } else {
                            assert(row_names(entry.rows_view())[i2] == entry.rows_view()[i2].name@);
                        }
                    }
                    lemma_idx_of(self.rows@, self.rows@.len() - 1);
                }
            },
        }
        proof {
            assert forall|n: Seq<char>|
                n != key@ implies #[trigger] defines(self.rows_view(), n) == defines(
                entry.rows_view(),
                n,
            ) by {
                if defines(self.rows_view(), n) {
                    lemma_defines_idx(self.rows_view(), n);
                    let j = idx_of(self.rows_view(), n);
                    assert(row_names(entry.rows_view())[j] == n);
                }
                if defines(entry.rows_view(), n) {
                    lemma_defines_idx(entry.rows_view(), n);
                    let j = idx_of(entry.rows_view(), n);
                    assert(row_names(self.rows_view())[j] == n);
                }
            }
            assert forall|n: Seq<char>|
                n != key@ && defines(entry.rows_view(), n) implies #[trigger] script_at(
                self.rows_view(),
                n,
            ) == script_at(entry.rows_view(), n) && deps_at(self.rows_view(), n) == deps_at(
                entry.rows_view(),
                n,
            ) && self.cached(n) == entry.cached(n) by {
                lemma_defines_idx(entry.rows_view(), n);
                let j = idx_of(entry.rows_view(), n);
                assert(self.rows_view()[j].name@ == n);
                lemma_idx_of(self.rows_view(), j);
                lemma_idx_of(entry.rows_view(), j);
            }
            assert forall|n: Seq<char>|
                #[trigger] self.cached(n) == entry.cached(n) || self.cached(n) is None by {
                if n != key@ && !defines(entry.rows_view(), n) {
                    assert(!defines(self.rows_view(), n));
                }
            }
            assert forall|n: Seq<char>| n != key@ implies #[trigger] self.cached(n)
                == entry.cached(n) by {
                if !defines(entry.rows_view(), n) {
                    assert(!defines(self.rows_view(), n));
                }
            }
        }
        let ghost mid = *self;
        let empty: Vec<String> = Vec::new();
        let r = self.invalidate_rec(&key, &empty);
        proof {
            assert(names_of(empty@).len() == 0);
            assert forall|n: Seq<char>|
                #[trigger] self.cached(n) == entry.cached(n) || self.cached(n) is None by {
                if self.cached(n) != mid.cached(n) {
                } else {
                    assert(mid.cached(n) == entry.cached(n) || mid.cached(n) is None);
                }
            }
            lemma_reaches_refl(self.rel(), key@);
            assert forall|n: Seq<char>|
                #[trigger] self.cached(n) != entry.cached(n) implies reaches(
                self.rel(),
                n,
                key@,
            ) by {
                if self.cached(n) == mid.cached(n) {
                    assert(mid.cached(n) != entry.cached(n));
                    assert(n == key@);
                }
            }
            assert(upserted(entry, *self, key@, script_at(self.rows_view(), key@)));
        }
        r
    }

    /// Replaces (or adds) an entry: validates that the script compiles, and
    /// only on success commits it, re-extracts its dependencies and
    /// invalidates the cached values of everything that depends on it. On
    /// compile failure the prior entry is left untouched.
    pub fn insert_entry(&mut self, name: &str, script: String) -> (r: Result<(), SheetError>)
        requires
            old(self).wf(),
        ensures
            final(self).wf(),
            compiled_of(script@) is None <==> r matches Err(SheetError::BadScript(_)),
            r matches Err(SheetError::BadScript(_)) ==> *final(self) == *old(self),
            compiled_of(script@) is Some ==> upserted(*old(self), *final(self), name@, script@),
            compiled_of(script@) is Some ==> final(self).cached(name@) is None,
            r is Ok ==> forall|n: Seq<char>|
                reaches(final(self).rel(), n, name@) ==> #[trigger] final(self).cached(n) is None,
            r matches Err(e) ==> (e matches SheetError::BadScript(_) || e
                matches SheetError::CyclicDependency(_)),
            r matches Err(SheetError::CyclicDependency(c)) ==> in_cycle(final(self).rel(), c@)
                && reaches(final(self).rel(), c@, name@),
            r is Ok ==> forall|c: Seq<char>|
                reaches(final(self).rel(), c, name@) ==> !#[trigger] in_cycle(
                    final(self).rel(),
                    c,
                ),
    {
        match compile_script(script.as_str()) {
            Err(e) => Err(SheetError::BadScript(e)),
            Ok(ast) => {
                let deps = scan_dependencies(script.as_str(), &ast);
                let key: String = name.to_owned();
                self.commit_entry(key, script, ast, deps)
            },
        }
    }

    /// Recompiles the stored script of `name`, re-extracts its dependencies
    /// and invalidates the cached values of its dependent closure; does
    /// nothing for an unknown name.
    pub fn build_entry(&mut self, name: &str) -> (r: Result<(), SheetError>)
        requires
            old(self).wf(),
        ensures
            final(self).wf(),
            !defines(old(self).rows_view(), name@) ==> r is Ok && *final(self) == *old(self),
            defines(old(self).rows_view(), name@) ==> upserted(
                *old(self),
                *final(self),
                name@,
                script_at(old(self).rows_view(), name@),
            ),
            r is Ok ==> forall|n: Seq<char>|
                reaches(final(self).rel(), n, name@) ==> #[trigger] final(self).cached(n) is None
                    || !defines(old(self).rows_view(), name@),
            r matches Err(e) ==> e matches SheetError::CyclicDependency(_),
            r matches Err(SheetError::CyclicDependency(c)) ==> in_cycle(final(self).rel(), c@)
                && reaches(final(self).rel(), c@, name@),
            (r is Ok && defines(old(self).rows_view(), name@)) ==> forall|c: Seq<char>|
                reaches(final(self).rel(), c, name@) ==> !#[trigger] in_cycle(
                    final(self).rel(),
                    c,
                ),
    {
        let key: String = name.to_owned();
        match find_row(&self.rows, &key) {
            None => Ok(()),
            Some(i) => {
                proof {
                    lemma_idx_of(self.rows@, i as int);
                }
                let script = self.rows[i].script.clone();
                match compile_script(script.as_str()) {
                    Ok(ast) => {
                        let deps = scan_dependencies(script.as_str(), &ast);
                        self.commit_entry(key, script, ast, deps)
                    },
                    Err(e) => {
                        proof {
                            assert(false);
                        }
                        Err(SheetError::BadScript(e))
                    },
                }
            },
        }
    }
}


impl Sheet {
    /// Evaluates an entry on the way down from an evaluation root from which
    /// no cycle is reachable; `trail` is the dependency path walked so far.
    /// A cached value is returned as is; otherwise the entry's static
    /// dependencies are resolved first (a dependency that fails to evaluate
    /// resolves to the unit value: the documented policy), the script runs
    /// with the prelude merged ahead of it, and a successful result is
    /// cached.
    fn eval_inner(&mut self, name: &String, Ghost(trail): Ghost<Seq<Seq<char>>>) -> (r: Result<
        rhai::Dynamic,
        SheetError,
    >)
        requires
            old(self).wf(),
            is_path(old(self).rel(), trail),
            trail.last() == name@,
            trail.no_duplicates(),
            !has_cycle_from(old(self).rel(), trail.first()),
            trail.to_set() <= univ_of(old(self).rows_view()).insert(trail.first()),
        ensures
            final(self).wf(),
            final(self).prelude_view() == old(self).prelude_view(),
            final(self).prelude_ast_view() == old(self).prelude_ast_view(),
            final(self).rows_view() == old(self).rows_view(),
            forall|n: Seq<char>|
                old(self).cached(n) is Some ==> #[trigger] final(self).cached(n) == old(self).cached(n),
            forall|n: Seq<char>|
                #[trigger] final(self).cached(n) != old(self).cached(n) ==> reaches(
                    old(self).rel(),
                    name@,
                    n,
                ),
            old(self).cached(name@) matches Some(v) ==> (r matches Ok(rv) && rv == v) && *final(self) == *old(self),
            !defines(old(self).rows_view(), name@) ==> (r matches Err(
                SheetError::BadDependency(s),
            ) && s@ == name@) && *final(self) == *old(self),
            defines(old(self).rows_view(), name@) ==> (r matches Ok(v) ==> final(self).cached(
                name@,
            ) == Some(v)),
            (defines(old(self).rows_view(), name@) && deps_at(old(self).rows_view(), name@).len()
                == 0) ==> {
                &&& r is Ok <==> run_of(
                    old(self).prelude_view(),
                    script_at(old(self).rows_view(), name@),
                    Map::empty(),
                ) is Some
                &&& (r matches Ok(v) ==> run_of(
                    old(self).prelude_view(),
                    script_at(old(self).rows_view(), name@),
                    Map::empty(),
                ) == Some(v))
            },
            r matches Err(e) ==> (e matches SheetError::BadDependency(_) || e
                matches SheetError::EvalFailure(_)),
            defines(old(self).rows_view(), name@) && r is Err ==> r matches Err(
                SheetError::EvalFailure(_),
            ),
            r is Err ==> final(self).cached(name@) == old(self).cached(name@),
            (defines(old(self).rows_view(), name@) && old(self).cached(name@) is None) ==> {
                &&& (r matches Ok(v) ==> exists|env: Map<Seq<char>, rhai::Dynamic>|
                    #[trigger] run_of(
                        old(self).prelude_view(),
                        script_at(old(self).rows_view(), name@),
                        env,
                    ) == Some(v) && resolves_deps(*old(self), *final(self), name@, env))
                &&& (r is Err ==> exists|env: Map<Seq<char>, rhai::Dynamic>|
                    #[trigger] run_of(
                        old(self).prelude_view(),
                        script_at(old(self).rows_view(), name@),
                        env,
                    ) is None && resolves_deps(*old(self), *final(self), name@, env))
            },
        decreases univ_of(self.rows_view()).insert(trail.first()).len() - trail.len(),
    {
        let ghost entry = *self;
        let ghost rel = rel_of(self.rows@);
        let idx = match find_row(&self.rows, name) {
            None => {
                return Err(SheetError::BadDependency(name.clone()));
            },
            Some(i) => i,
        };
        proof {
            lemma_idx_of(self.rows@, idx as int);
        }
        let hit: Option<rhai::Dynamic> = match &self.cache[idx] {
            Some(v) => Some(v.clone()),
            None => None,
        };
        if let Some(v) = hit {
            proof {
                assert(self.cache_view()[idx as int] == Some(v));
                assert(entry.cached(name@) == Some(v));
                if deps_at(entry.rows_view(), name@).len() == 0 {
                    // a dependency-free entry's cached value pins the
                    // evaluator outcome over the empty environment
                    assert(value_coherent(
                        self.prelude_view(),
                        self.rows_view()[idx as int],
                        self.cache_view()[idx as int],
                    ));
                    let env = choose|env: Map<Seq<char>, rhai::Dynamic>|
                        #[trigger] run_of(
                            self.prelude_view(),
                            self.rows_view()[idx as int].script@,
                            env,
                        ) == Some(v) && env.dom() <= names_of(
                            self.rows_view()[idx as int].deps@,
                        ).to_set();
                    assert(names_of(self.rows_view()[idx as int].deps@).len() == 0);
                    assert forall|x: Seq<char>| !#[trigger] env.dom().contains(x) by {
                        if env.dom().contains(x) {
                            assert(names_of(self.rows_view()[idx as int].deps@).to_set().contains(
                                x,
                            ));
                        }
                    }
                    assert(env.dom() =~= Set::<Seq<char>>::empty());
                    assert(env =~= Map::<Seq<char>, rhai::Dynamic>::empty());
                }
            }
            return Ok(v);
        }
        proof {
            assert(entry.cached(name@) is None);
        }
        let deps = clone_names(&self.rows[idx].deps);
        let mut resolved: Vec<(String, rhai::Dynamic)> = Vec::new();
        let nm = deps.len();
        let mut k: usize = 0;
        while k < nm
            invariant
                self.wf(),
                entry == *old(self),
                self.rows_view() == entry.rows_view(),
                self.prelude_view() == entry.prelude_view(),
                self.prelude_ast_view() == entry.prelude_ast_view(),
                rel == rel_of(self.rows@),
                nm == deps@.len(),
                0 <= k <= nm,
                resolved@.len() <= k,
                idx < self.rows@.len(),
                self.rows@[idx as int].name@ == name@,
                names_of(deps@) == deps_at(entry.rows_view(), name@),
                is_path(rel, trail),
                trail.last() == name@,
                trail.no_duplicates(),
                !has_cycle_from(rel, trail.first()),
                trail.to_set() <= univ_of(entry.rows_view()).insert(trail.first()),
                forall|n: Seq<char>|
                    entry.cached(n) is Some ==> #[trigger] self.cached(n) == entry.cached(n),
                forall|n: Seq<char>|
                    #[trigger] self.cached(n) != entry.cached(n) ==> reaches(rel, name@, n),
                self.cached(name@) == entry.cached(name@),
                forall|t: int|
                    0 <= t < resolved@.len() ==> {
                        &&& names_of(deps@).contains((#[trigger] resolved@[t]).0@)
                        &&& self.cached(resolved@[t].0@) == Some(resolved@[t].1)
                        &&& resolved@[t].0@ != name@
                    },
                forall|d: Seq<char>|
                    names_of(deps@).take(k as int).contains(d) && #[trigger] entry.cached(
                        d,
                    ) is Some ==> exists|t: int|
                        0 <= t < resolved@.len() && (#[trigger] resolved@[t]).0@ == d && Some(
                            resolved@[t].1,
                        ) == entry.cached(d),
            decreases nm - k,
        {
            let d = deps[k].clone();
            proof {
                assert(names_of(deps@)[k as int] == d@);
                assert(deps_at(entry.rows_view(), name@).contains(d@));
                assert(row_names(entry.rows_view())[idx as int] == name@);
                assert(defines(entry.rows_view(), name@));
                assert(rel[name@] == deps_at(entry.rows_view(), name@));
                assert(edge(rel, name@, d@));
                if trail.contains(d@) {
                    let j = choose|j: int| 0 <= j < trail.len() && trail[j] == d@;
                    let p2 = trail.push(d@);
                    assert forall|t: int| 0 <= t < p2.len() - 1 implies edge(
                        rel,
                        #[trigger] p2[t],
                        p2[t + 1],
                    ) by {
                        if t < trail.len() - 1 {
                            assert(edge(rel, trail[t], trail[t + 1]));
                        } else {
                            assert(p2[t] == name@ && p2[t + 1] == d@);
                        }
                    }
                    assert(is_path(rel, p2));
                    lemma_path_repeat_cycle(rel, p2, j, p2.len() - 1);
                    assert(false);
                }
                let p2 = trail.push(d@);
                assert forall|t: int| 0 <= t < p2.len() - 1 implies edge(
                    rel,
                    #[trigger] p2[t],
                    p2[t + 1],
                ) by {
                    if t < trail.len() - 1 {
                        assert(edge(rel, trail[t], trail[t + 1]));
                    } else {
                        assert(p2[t] == name@ && p2[t + 1] == d@);
                    }
                }
                assert forall|t: int, u: int| 0 <= t < u < p2.len() implies p2[t] != p2[u] by {
                    if u < trail.len() {
                        assert(trail.no_duplicates());
                    } else {
                        assert(p2[u] == d@ && !trail.contains(d@));
                    }
                }
                assert(p2.no_duplicates());
                lemma_univ_edge(self.rows@, name@, d@);
                assert(p2.to_set() =~= trail.to_set().insert(d@));
                assert(p2.to_set() <= univ_of(entry.rows_view()).insert(trail.first()));
                // the extended trail still fits inside the finite universe
                lemma_univ_finite(self.rows@);
                p2.unique_seq_to_set();
                lemma_len_subset(
                    p2.to_set(),
                    univ_of(entry.rows_view()).insert(trail.first()),
                );
                broadcast use vstd::set::axiom_set_insert_finite;

            }
            let ghost stbefore = *self;
            let ghost rbefore = resolved@;
            let sub = self.eval_inner(&d, Ghost(trail.push(d@)));
            proof {
                lemma_reaches_refl(rel, name@);
                lemma_reaches_step(rel, name@, name@, d@);
                assert forall|n: Seq<char>|
                    #[trigger] self.cached(n) != entry.cached(n) implies reaches(
                    rel,
                    name@,
                    n,
                ) by {
                    if self.cached(n) != stbefore.cached(n) {
                        assert(reaches(rel, d@, n));
                        lemma_reaches_trans(rel, name@, d@, n);
                    }
                }
                // the recursion cannot have filled this entry's own slot:
                // that would close a cycle reachable from the root
                if self.cached(name@) != stbefore.cached(name@) {
                    assert(reaches(rel, d@, name@));
                    lemma_cycle_compose(rel, name@, d@);
                    assert(is_path(rel, trail) && trail.first() == trail.first() && trail.last()
                        == name@);
                    assert(reaches(rel, trail.first(), name@));
                    assert(has_cycle_from(rel, trail.first()));
                }
                assert(self.cached(name@) == entry.cached(name@));
                assert(trail[trail.len() - 1] == name@);
                assert(trail.contains(name@));
                assert(d@ != name@);
            }
            match sub {
                Ok(v) => {
                    proof {
                        assert(stbefore.cached(d@) is Some ==> self.cached(d@) == stbefore.cached(
                            d@,
                        ));
                    }
                    resolved.push((d, v));
                    proof {
                        assert(resolved@ == rbefore.push((resolved@.last())));
                        assert forall|t: int|
                            0 <= t < resolved@.len() implies {
                            &&& names_of(deps@).contains((#[trigger] resolved@[t]).0@)
                            &&& self.cached(resolved@[t].0@) == Some(resolved@[t].1)
                            &&& resolved@[t].0@ != name@
                        } by {
                            if t < rbefore.len() {
                                assert(resolved@[t] == rbefore[t]);
                                assert(stbefore.cached(rbefore[t].0@) == Some(rbefore[t].1));
                            } else {
                                assert(resolved@[t].0@ == d@ && resolved@[t].1 == v);
                                assert(names_of(deps@)[k as int] == d@);
                            }
                        }
                    }
                },
                Err(_) => {
                    proof {
                        assert forall|t: int|
                            0 <= t < resolved@.len() implies {
                            &&& names_of(deps@).contains((#[trigger] resolved@[t]).0@)
                            &&& self.cached(resolved@[t].0@) == Some(resolved@[t].1)
                            &&& resolved@[t].0@ != name@
                        } by {
                            assert(stbefore.cached(resolved@[t].0@) == Some(resolved@[t].1));
                        }
                        if entry.cached(d@) is Some {
                            assert(stbefore.cached(d@) == entry.cached(d@));
                            assert(false);
                        }
                    }
                },
            }
            proof {
                assert(names_of(deps@).take(k + 1 as int) =~= names_of(deps@).take(
                    k as int,
                ).push(names_of(deps@)[k as int]));
                assert forall|d2: Seq<char>|
                    names_of(deps@).take(k + 1 as int).contains(d2) && #[trigger] entry.cached(
                        d2,
                    ) is Some implies exists|t: int|
                    0 <= t < resolved@.len() && (#[trigger] resolved@[t]).0@ == d2 && Some(
                        resolved@[t].1,
                    ) == entry.cached(d2) by {
                    if names_of(deps@).take(k as int).contains(d2) {
                        let t0 = choose|t0: int|
                            0 <= t0 < rbefore.len() && (#[trigger] rbefore[t0]).0@ == d2 && Some(
                                rbefore[t0].1,
                            ) == entry.cached(d2);
                        assert(resolved@[t0] == rbefore[t0]);
                    } else {
                        assert(d2 == names_of(deps@)[k as int]);
                        assert(d2 == d@);
                        assert(resolved@[resolved@.len() - 1].0@ == d@);
                    }
                }
            }
            k = k + 1;
        }
        let ghost mid = *self;
        proof {
            assert(compiled_of(self.rows@[idx as int].script@) == Some(self.rows@[idx as int].ast));
        }
        let outcome = run_script(
            self.prelude.as_str(),
            &self.prelude_ast,
            self.rows[idx].script.as_str(),
            &self.rows[idx].ast,
            resolved,
        );
        if self.runs < u64::MAX {
            self.runs = self.runs + 1;
        }
        proof {
            assert(self.cache_view() == mid.cache_view());
            assert(self.rows_view() == mid.rows_view());
            assert forall|n: Seq<char>| #[trigger] self.cached(n) == mid.cached(n) by {}
            assert forall|n: Seq<char>|
                entry.cached(n) is Some implies #[trigger] self.cached(n) == entry.cached(n) by {
                assert(self.cached(n) == mid.cached(n));
            }
            lemma_reaches_refl(rel, name@);
            assert forall|n: Seq<char>|
                #[trigger] self.cached(n) != entry.cached(n) implies reaches(rel, name@, n) by {
                assert(self.cached(n) == mid.cached(n));
            }
            assert(self.cached(name@) == entry.cached(name@));
            assert(script_at(entry.rows_view(), name@) == self.rows_view()[idx as int].script@);
            assert(deps_at(entry.rows_view(), name@) == names_of(deps@));
            // the resolved pairs describe a dependency environment whose
            // bindings agree with the cache and cover every dependency that
            // was cached when this evaluation started
            assert forall|x: Seq<char>|
                #[trigger] env_map(resolved@).dom().contains(x) implies deps_at(
                entry.rows_view(),
                name@,
            ).to_set().contains(x) && self.cached(x) == Some(env_map(resolved@)[x]) && x
                != name@ by {
                lemma_env_map_dom(resolved@, x);
                let t = choose|t: int|
                    0 <= t < resolved@.len() && (#[trigger] resolved@[t]).0@ == x && env_map(
                        resolved@,
                    )[x] == resolved@[t].1;
                assert(names_of(deps@).contains(x));
                assert(mid.cached(x) == Some(resolved@[t].1));
            }
            assert(names_of(deps@).take(nm as int) =~= names_of(deps@));
            assert forall|d2: Seq<char>|
                deps_at(entry.rows_view(), name@).contains(d2) && #[trigger] entry.cached(
                    d2,
                ) is Some implies env_map(resolved@).dom().contains(d2) && Some(
                env_map(resolved@)[d2],
            ) == entry.cached(d2) by {
                assert(names_of(deps@).take(nm as int).contains(d2));
                let t = choose|t: int|
                    0 <= t < resolved@.len() && (#[trigger] resolved@[t]).0@ == d2 && Some(
                        resolved@[t].1,
                    ) == entry.cached(d2);
                lemma_env_map_present(resolved@, t);
                lemma_env_map_dom(resolved@, d2);
                let t2 = choose|t2: int|
                    0 <= t2 < resolved@.len() && (#[trigger] resolved@[t2]).0@ == d2 && env_map(
                        resolved@,
                    )[d2] == resolved@[t2].1;
                assert(mid.cached(d2) == Some(resolved@[t2].1));
                assert(mid.cached(d2) == entry.cached(d2));
            }
            assert(resolves_deps(entry, *self, name@, env_map(resolved@)));
        }
        match outcome {
            Ok(v) => {
                let stored = v.clone();
                let ghost before = *self;
                vec_update(&mut self.cache, idx, Some(stored));
                proof {
                    assert forall|i2: int|
                        0 <= i2 < self.rows_view().len() implies value_coherent(
                        self.prelude_view(),
                        (#[trigger] self.rows_view()[i2]),
                        self.cache_view()[i2],
                    ) by {
                        if i2 == idx as int {
                            assert(run_of(
                                self.prelude_view(),
                                self.rows_view()[i2].script@,
                                env_map(resolved@),
                            ) == Some(v));
                            assert forall|x: Seq<char>|
                                #[trigger] env_map(resolved@).dom().contains(x) implies names_of(
                                self.rows_view()[i2].deps@,
                            ).to_set().contains(x) by {
                                lemma_env_map_dom(resolved@, x);
                                let t = choose|t: int|
                                    0 <= t < resolved@.len() && (#[trigger] resolved@[t]).0@ == x
                                        && env_map(resolved@)[x] == resolved@[t].1;
                                assert(names_of(deps@).contains(x));
                            }
                            assert(value_coherent(
                                self.prelude_view(),
                                self.rows_view()[i2],
                                self.cache_view()[i2],
                            ));
                        } else {
                            assert(value_coherent(
                                before.prelude_view(),
                                before.rows_view()[i2],
                                before.cache_view()[i2],
                            ));
                            assert(self.cache_view()[i2] == before.cache_view()[i2]);
                        }
                    }
                    assert forall|n: Seq<char>|
                        entry.cached(n) is Some implies #[trigger] self.cached(n) == entry.cached(
                        n,
                    ) by {
                        if defines(self.rows_view(), n) {
                            lemma_defines_idx(self.rows_view(), n);
                            if idx_of(self.rows_view(), n) == idx as int {
                                assert(n == name@);
                                assert(entry.cached(name@) is None);
                            } else {
                                assert(self.cached(n) == before.cached(n));
                                assert(before.cached(n) == entry.cached(n));
                            }
                        }
                    }
                    lemma_reaches_refl(rel, name@);
                    assert forall|n: Seq<char>|
                        n != name@ implies #[trigger] self.cached(n) == before.cached(n) by {
                        if defines(self.rows_view(), n) {
                            lemma_defines_idx(self.rows_view(), n);
                            if idx_of(self.rows_view(), n) == idx as int {
                                assert(n == name@);
                            }
                        }
                    }
                    assert forall|x: Seq<char>|
                        #[trigger] env_map(resolved@).dom().contains(x) implies self.cached(x)
                        == Some(env_map(resolved@)[x]) by {
                        assert(x != name@);
                        assert(self.cached(x) == before.cached(x));
                    }
                    assert(resolves_deps(entry, *self, name@, env_map(resolved@)));
                    assert forall|n: Seq<char>|
                        #[trigger] self.cached(n) != entry.cached(n) implies reaches(
                        rel,
                        name@,
                        n,
                    ) by {
                        if defines(self.rows_view(), n) {
                            lemma_defines_idx(self.rows_view(), n);
                            if idx_of(self.rows_view(), n) == idx as int {
                                assert(n == name@);
                            } else {
                                assert(self.cached(n) == before.cached(n));
                                if before.cached(n) != entry.cached(n) {
                                    assert(reaches(rel, name@, n));
                                }
                            }
                        } else {
                            assert(self.cached(n) == entry.cached(n));
                        }
                    }
                }
                Ok(v)
            },
            Err(e) => Err(SheetError::EvalFailure(e)),
        }
    }

    /// Evaluates an entry: rejects the request with a cyclic-dependency
    /// error when a cycle is reachable from it; returns the cached value
    /// when one is present (without running the evaluator or changing any
    /// state); otherwise executes the entry's script over a dependency
    /// environment (the contract pins the result to `run_of` over an
    /// environment that agrees with the cache and binds every dependency
    /// that was already cached), caches the result on success, and
    /// propagates the evaluator's runtime failure, caching nothing for this
    /// entry, on failure. Inside a script, a lookup call resolves to the
    /// value of the named entry, computed recursively under these same
    /// rules; a lookup whose target is not statically extracted (a computed
    /// name) or fails to evaluate resolves to the unit value rather than
    /// aborting the outer evaluation.
    pub fn eval(&mut self, name: &str) -> (r: Result<rhai::Dynamic, SheetError>)
        requires
            old(self).wf(),
        ensures
            final(self).wf(),
            final(self).prelude_view() == old(self).prelude_view(),
            final(self).rows_view() == old(self).rows_view(),
            forall|n: Seq<char>|
                old(self).cached(n) is Some ==> #[trigger] final(self).cached(n) == old(self).cached(n),
            forall|n: Seq<char>|
                #[trigger] final(self).cached(n) != old(self).cached(n) ==> reaches(
                    old(self).rel(),
                    name@,
                    n,
                ),
            has_cycle_from(old(self).rel(), name@) ==> (r matches Err(
                SheetError::CyclicDependency(c),
            ) && c@ == name@) && *final(self) == *old(self),
            r matches Err(SheetError::CyclicDependency(_)) ==> has_cycle_from(
                old(self).rel(),
                name@,
            ),
            !has_cycle_from(old(self).rel(), name@) ==> {
                &&& (old(self).cached(name@) matches Some(v) ==> (r matches Ok(rv) && rv == v)
                    && *final(self) == *old(self))
                &&& (!defines(old(self).rows_view(), name@) ==> (r matches Err(
                    SheetError::BadDependency(s),
                ) && s@ == name@) && *final(self) == *old(self))
                &&& (defines(old(self).rows_view(), name@) ==> (r matches Ok(v) ==> final(self).cached(name@) == Some(v)))
                &&& ((defines(old(self).rows_view(), name@) && deps_at(
                    old(self).rows_view(),
                    name@,
                ).len() == 0) ==> {
                    &&& r is Ok <==> run_of(
                        old(self).prelude_view(),
                        script_at(old(self).rows_view(), name@),
                        Map::empty(),
                    ) is Some
                    &&& (r matches Ok(v) ==> run_of(
                        old(self).prelude_view(),
                        script_at(old(self).rows_view(), name@),
                        Map::empty(),
                    ) == Some(v))
                })
            },
            r matches Err(e) ==> (e matches SheetError::CyclicDependency(_) || e
                matches SheetError::BadDependency(_) || e matches SheetError::EvalFailure(_)),
            r is Err ==> final(self).cached(name@) == old(self).cached(name@),
            (!has_cycle_from(old(self).rel(), name@) && defines(old(self).rows_view(), name@) && r
                is Err) ==> r matches Err(SheetError::EvalFailure(_)),
            (!has_cycle_from(old(self).rel(), name@) && defines(old(self).rows_view(), name@)
                && old(self).cached(name@) is None) ==> {
                &&& (r matches Ok(v) ==> exists|env: Map<Seq<char>, rhai::Dynamic>|
                    #[trigger] run_of(
                        old(self).prelude_view(),
                        script_at(old(self).rows_view(), name@),
                        env,
                    ) == Some(v) && resolves_deps(*old(self), *final(self), name@, env))
                &&& (r is Err ==> exists|env: Map<Seq<char>, rhai::Dynamic>|
                    #[trigger] run_of(
                        old(self).prelude_view(),
                        script_at(old(self).rows_view(), name@),
                        env,
                    ) is None && resolves_deps(*old(self), *final(self), name@, env))
            },
    {
        let key: String = name.to_owned();
        if has_cycle(&self.rows, &key) {
            return Err(SheetError::CyclicDependency(key));
        }
        let ghost trail = seq![key@];
        proof {
            assert(is_path(rel_of(self.rows@), trail));
            assert(trail.no_duplicates());
            assert(trail.to_set() =~= Set::empty().insert(key@));
            assert(trail.to_set() <= univ_of(self.rows_view()).insert(trail.first()));
        }
        self.eval_inner(&key, Ghost(trail))
    }

    /// The names an entry statically references (empty for an unknown name).
    pub fn dependencies(&self, name: &str) -> (r: Vec<String>)
        requires
            self.wf(),
        ensures
            defines(self.rows_view(), name@) ==> names_of(r@) == deps_at(self.rows_view(), name@),
            !defines(self.rows_view(), name@) ==> r@.len() == 0,
    {
        let key: String = name.to_owned();
        successors(&self.rows, &key)
    }

    /// The entries whose scripts statically reference `name`.
    pub fn dependents(&self, name: &str) -> (r: Vec<String>)
        requires
            self.wf(),
        ensures
            forall|n: Seq<char>| names_of(r@).contains(n) <==> edge(self.rel(), n, name@),
            names_of(r@).no_duplicates(),
    {
        let key: String = name.to_owned();
        direct_dependents(&self.rows, &key)
    }

    /// Every defined entry name, in insertion order.
    pub fn entries(&self) -> (r: Vec<String>)
        ensures
            names_of(r@) == row_names(self.rows_view()),
    {
        let mut out: Vec<String> = Vec::new();
        let n = self.rows.len();
        let mut i: usize = 0;
        while i < n
            invariant
                n == self.rows@.len(),
                0 <= i <= n,
                out@.len() == i,
                forall|j: int| 0 <= j < i ==> #[trigger] out@[j]@ == self.rows@[j].name@,
            decreases n - i,
        {
            out.push(self.rows[i].name.clone());
            i = i + 1;
        }
        proof {
            assert(names_of(out@) =~= row_names(self.rows_view()));
        }
        out
    }

    /// Whether a cycle in the dependency relation is reachable from
    /// `start_at`.
    pub fn check_for_cycles(&self, start_at: &str) -> (r: bool)
        requires
            self.wf(),
        ensures
            r == has_cycle_from(self.rel(), start_at@),
    {
        let key: String = start_at.to_owned();
        has_cycle(&self.rows, &key)
    }

    /// How many entries the sheet holds.
    pub fn row_count(&self) -> (r: usize)
        ensures
            r == self.rows_view().len(),
    {
        self.rows.len()
    }

    /// A copy of one entry row, the compiled form included.
    pub(crate) fn row_clone(&self, i: usize) -> (r: Row)
        requires
            i < self.rows_view().len(),
        ensures
            r.name@ == self.rows_view()[i as int].name@,
            r.script@ == self.rows_view()[i as int].script@,
            r.ast == self.rows_view()[i as int].ast,
            names_of(r.deps@) == names_of(self.rows_view()[i as int].deps@),
    {
        clone_row(&self.rows[i])
    }

    /// How many times the evaluator has been executed for this sheet
    /// (saturating).
    pub fn eval_count(&self) -> (r: u64)
        ensures
            r == self.runs_view(),
    {
        self.runs
    }

    /// The definition document this sheet serializes back to: the prelude
    /// source, and each entry's name and script in entry order.
    pub fn document(&self) -> (r: (String, Vec<(String, String)>))
        ensures
            r.0@ == self.prelude_view(),
            r.1@.len() == self.rows_view().len(),
            forall|i: int|
                0 <= i < r.1@.len() ==> (#[trigger] r.1@[i]).0@ == self.rows_view()[i].name@
                    && r.1@[i].1@ == self.rows_view()[i].script@,
    {
        let mut out: Vec<(String, String)> = Vec::new();
        let n = self.rows.len();
        let mut i: usize = 0;
        while i < n
            invariant
                n == self.rows@.len(),
                0 <= i <= n,
                out@.len() == i,
                forall|j: int|
                    0 <= j < i ==> (#[trigger] out@[j]).0@ == self.rows@[j].name@ && out@[j].1@
                        == self.rows@[j].script@,
            decreases n - i,
        {
            out.push((self.rows[i].name.clone(), self.rows[i].script.clone()));
            i = i + 1;
        }
        (self.prelude.clone(), out)
    }
}

} // verus!
// === appended: Sheet ===
