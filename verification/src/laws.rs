//! The engine's cross-cutting laws, stated over the dependency relation and
//! the sheet model and proved once.

use vstd::prelude::*;
use crate::graph::{Rel, edge, has_cycle_from, names_of, reaches, lemma_cycle_compose,
    lemma_reaches_refl, lemma_reaches_step};
use crate::script::{compiled_of, deps_of};
use crate::sheet::{Sheet, all_compile, defines, doc_deps_defined, doc_names, parse_accepts,
    row_names};

verus! {

/// Transitive invalidation: when `a` statically depends on `b` and `b` on
/// `c`, both `a` and `b` are in the dependent closure of `c`, so any
/// mutation of `c` (`insert_entry`, `invalidate_cache`) clears both their
/// cached values along with `c`'s own.
pub proof fn lemma_transitive_dependents(rel: Rel, a: Seq<char>, b: Seq<char>, c: Seq<char>)
    requires
        edge(rel, a, b),
        edge(rel, b, c),
    ensures
        reaches(rel, a, c),
        reaches(rel, b, c),
{
    lemma_reaches_refl(rel, a);
    lemma_reaches_step(rel, a, a, b);
    lemma_reaches_step(rel, a, b, c);
    lemma_reaches_refl(rel, b);
    lemma_reaches_step(rel, b, b, c);
}

/// Cycle rejection: two entries that statically reference each other put
/// both names on a cycle, so `eval` of either is rejected with a
/// cyclic-dependency error instead of recursing forever.
pub proof fn lemma_mutual_reference_cycle(rel: Rel, a: Seq<char>, b: Seq<char>)
    requires
        edge(rel, a, b),
        edge(rel, b, a),
    ensures
        has_cycle_from(rel, a),
        has_cycle_from(rel, b),
{
    lemma_reaches_refl(rel, a);
    lemma_reaches_refl(rel, b);
    lemma_reaches_step(rel, b, b, a);
    lemma_cycle_compose(rel, a, b);
    lemma_reaches_step(rel, a, a, b);
    lemma_cycle_compose(rel, b, a);
}

/// Round trip: the document a well-formed sheet serializes to (its prelude
/// and its entries' names and scripts, as `document` returns them) is
/// accepted by `parse` whenever every referenced dependency is defined, and
/// describes the same sheet: the same entry names in the same order, the
/// same scripts, and hence the same extracted dependency lists.
pub proof fn lemma_document_round_trip(s: Sheet, doc: Seq<(String, String)>)
    requires
        s.wf(),
        doc.len() == s.rows_view().len(),
        forall|i: int|
            0 <= i < doc.len() ==> (#[trigger] doc[i]).0@ == s.rows_view()[i].name@ && doc[i].1@
                == s.rows_view()[i].script@,
        forall|i: int, d: Seq<char>|
            0 <= i < s.rows_view().len() && #[trigger] names_of(s.rows_view()[i].deps@).contains(d)
                ==> defines(s.rows_view(), d),
    ensures
        parse_accepts(s.prelude_view(), doc),
        doc_names(doc) == row_names(s.rows_view()),
        forall|i: int|
            0 <= i < doc.len() ==> deps_of((#[trigger] doc[i]).1@) == names_of(
                s.rows_view()[i].deps@,
            ),
{
    assert(compiled_of(s.prelude_view()) is Some);
    assert forall|i: int| 0 <= i < doc.len() implies compiled_of(
        (#[trigger] doc[i]).1@,
    ) is Some by {
        assert(compiled_of(s.rows_view()[i].script@) == Some(s.rows_view()[i].ast));
    }
    assert(all_compile(s.prelude_view(), doc));
    assert(doc_names(doc) =~= row_names(s.rows_view()));
    assert forall|i: int| 0 <= i < doc.len() implies deps_of((#[trigger] doc[i]).1@) == names_of(
        s.rows_view()[i].deps@,
    ) by {
        assert(names_of(s.rows_view()[i].deps@) == deps_of(s.rows_view()[i].script@));
    }
    assert forall|i: int, d: Seq<char>|
        0 <= i < doc.len() && #[trigger] deps_of(doc[i].1@).contains(d) implies doc_names(
        doc,
    ).contains(d) by {
        assert(names_of(s.rows_view()[i].deps@).contains(d));
        assert(defines(s.rows_view(), d));
    }
    assert(doc_deps_defined(doc));
}

} // verus!
