//! Layered composition: an ordered stack of sheets behaves as one logical
//! sheet. A higher layer overrides same-named entries of a lower one for
//! evaluation and for dependency queries, enumeration takes the union of all
//! layers, and invalidation is applied to every layer unconditionally.

use vstd::prelude::*;
use crate::errors::SheetError;
use crate::graph::{Rel, edge, has_cycle_from, in_cycle, names_of, reaches,
    lemma_no_cycle_without_exit};
use crate::sheet::{Row, Sheet, deps_at, defines, idx_of, rel_of, row_names, script_at,
    unique_names, has_cycle, find_row, contains_name, lemma_defines_idx, lemma_idx_of, lemma_names_push};
use crate::script::run_of;

verus! {

broadcast use vstd::seq_lib::lemma_seq_contains_after_push;

/// The common face of a single sheet and a stack of sheets.
pub trait GameSheet {
    /// The well-formedness the operations preserve.
    spec fn inv(&self) -> bool;

    /// Evaluates an entry by name.
    fn eval(&mut self, name: &str) -> (r: Result<rhai::Dynamic, SheetError>)
        requires
            old(self).inv(),
        ensures
            final(self).inv(),
    ;

    /// Drops the cached value of `name` and of its dependent closure.
    fn invalidate_cache(&mut self, name: &str, bad_parents: &Vec<String>) -> (r: Result<
        (),
        SheetError,
    >)
        requires
            old(self).inv(),
        ensures
            final(self).inv(),
    ;

    /// The names an entry statically references.
    fn dependencies(&self, name: &str) -> (r: Vec<String>)
        requires
            self.inv(),
    ;

    /// The entries that statically reference `name`.
    fn dependents(&self, name: &str) -> (r: Vec<String>)
        requires
            self.inv(),
    ;

    /// Every defined entry name.
    fn entries(&self) -> (r: Vec<String>)
        requires
            self.inv(),
    ;

    /// Whether a dependency cycle is reachable from `start_at`.
    fn check_for_cycles(&self, start_at: &str) -> (r: bool)
        requires
            self.inv(),
    ;
}

impl GameSheet for Sheet {
    open spec fn inv(&self) -> bool {
        self.wf()
    }

    fn eval(&mut self, name: &str) -> (r: Result<rhai::Dynamic, SheetError>) {
        Sheet::eval(self, name)
    }

    fn invalidate_cache(&mut self, name: &str, bad_parents: &Vec<String>) -> (r: Result<
        (),
        SheetError,
    >) {
        Sheet::invalidate_cache(self, name, bad_parents)
    }

    fn dependencies(&self, name: &str) -> (r: Vec<String>) {
        Sheet::dependencies(self, name)
    }

    fn dependents(&self, name: &str) -> (r: Vec<String>) {
        Sheet::dependents(self, name)
    }

    fn entries(&self) -> (r: Vec<String>) {
        Sheet::entries(self)
    }

    fn check_for_cycles(&self, start_at: &str) -> (r: bool) {
        Sheet::check_for_cycles(self, start_at)
    }
}

/// Some layer of the stack defines this name.
pub open spec fn stack_defines(layers: Seq<Sheet>, n: Seq<char>) -> bool {
    exists|i: int| 0 <= i < layers.len() && defines(#[trigger] layers[i].rows_view(), n)
}

/// `i` is the highest-priority layer defining `n`.
pub open spec fn is_top_defining(layers: Seq<Sheet>, n: Seq<char>, i: int) -> bool {
    &&& 0 <= i < layers.len()
    &&& defines(layers[i].rows_view(), n)
    &&& forall|j: int| i < j < layers.len() ==> !defines(#[trigger] layers[j].rows_view(), n)
}

/// A defined name has a highest defining layer.
pub proof fn lemma_top_defining_exists(layers: Seq<Sheet>, n: Seq<char>)
    requires
        stack_defines(layers, n),
    ensures
        exists|i: int| #[trigger] is_top_defining(layers, n, i),
    decreases layers.len(),
{
    if defines(layers.last().rows_view(), n) {
        assert(is_top_defining(layers, n, layers.len() - 1));
    } else {
        let w = choose|i: int| 0 <= i < layers.len() && defines(#[trigger] layers[i].rows_view(), n);
        assert(layers.drop_last()[w] == layers[w]);
        assert(stack_defines(layers.drop_last(), n));
        lemma_top_defining_exists(layers.drop_last(), n);
        let i = choose|i: int| #[trigger] is_top_defining(layers.drop_last(), n, i);
        assert(layers.drop_last()[i] == layers[i]);
        assert forall|j: int| i < j < layers.len() implies !defines(
            #[trigger] layers[j].rows_view(),
            n,
        ) by {
            if j < layers.len() - 1 {
                assert(layers.drop_last()[j] == layers[j]);
            }
        }
        assert(is_top_defining(layers, n, i));
    }
}

/// Layer `i` is the highest one defining `n`, holds a cached value for it,
/// and no dependency cycle is reachable from `n` inside that layer: the
/// stack serves that cached value.
pub open spec fn cache_ready(layers: Seq<Sheet>, n: Seq<char>, i: int) -> bool {
    &&& is_top_defining(layers, n, i)
    &&& !has_cycle_from(rel_of(layers[i].rows_view()), n)
    &&& layers[i].cached(n) is Some
}

/// Layer `i` is the highest one defining `n`, holds it without
/// dependencies, and can answer for it at once: from its cache, or by a
/// script whose execution succeeds.
pub open spec fn leaf_ready(layers: Seq<Sheet>, n: Seq<char>, i: int) -> bool {
    &&& is_top_defining(layers, n, i)
    &&& deps_at(layers[i].rows_view(), n).len() == 0
    &&& leaf_answer(layers, n, i) is Some
}

/// The value layer `i` holds for the dependency-free entry `n`: the cached
/// value, or what executing its script yields.
pub open spec fn leaf_answer(layers: Seq<Sheet>, n: Seq<char>, i: int) -> Option<rhai::Dynamic> {
    if layers[i].cached(n) is Some {
        layers[i].cached(n)
    } else {
        run_of(layers[i].prelude_view(), script_at(layers[i].rows_view(), n), Map::empty())
    }
}

/// An ordered stack of sheets, lowest priority first.
#[derive(Debug)]
pub struct Stack {
    layers: Vec<Sheet>,
}

impl Stack {
    /// The layers, lowest priority first.
    pub closed spec fn layers_view(&self) -> Seq<Sheet> {
        self.layers@
    }

    /// Every layer is well-formed.
    pub open spec fn wf(&self) -> bool {
        forall|i: int| 0 <= i < self.layers_view().len() ==> (#[trigger] self.layers_view()[i]).wf()
    }

    /// An empty stack.
    pub fn new() -> (r: Stack)
        ensures
            r.wf(),
            r.layers_view().len() == 0,
    {
        Stack { layers: Vec::new() }
    }

    /// Adds a layer on top (highest priority).
    pub fn push_layer(&mut self, layer: Sheet)
        requires
            old(self).wf(),
            layer.wf(),
        ensures
            final(self).wf(),
            final(self).layers_view() == old(self).layers_view().push(layer),
    {
        self.layers.push(layer);
        proof {
            assert forall|i: int|
                0 <= i < self.layers_view().len() implies (
            #[trigger] self.layers_view()[i]).wf() by {
                if i < old(self).layers_view().len() {
                    assert(old(self).layers_view()[i].wf());
                }
            }
        }
    }

    /// How many layers the stack holds.
    pub fn layer_count(&self) -> (r: usize)
        ensures
            r == self.layers_view().len(),
    {
        self.layers.len()
    }

    /// Evaluates an entry: tries the layers from highest to lowest priority
    /// and returns the first successful result; fails with a
    /// missing-dependency error naming the entry when every layer fails. In
    /// particular, when the highest layer defining `name` already holds a
    /// cached value for it (no cycle reachable), or holds it as a
    /// dependency-free entry whose script evaluates successfully, that
    /// layer's value is the result: higher layers do not define the name and
    /// therefore cannot serve it.
    pub fn eval(&mut self, name: &str) -> (r: Result<rhai::Dynamic, SheetError>)
        requires
            old(self).wf(),
        ensures
            final(self).wf(),
            final(self).layers_view().len() == old(self).layers_view().len(),
            forall|i: int|
                0 <= i < old(self).layers_view().len() ==> (#[trigger] final(self).layers_view()[i]).rows_view() == old(self).layers_view()[i].rows_view() && final(self).layers_view()[i].prelude_view() == old(self).layers_view()[i].prelude_view(),
            !stack_defines(old(self).layers_view(), name@) ==> (r matches Err(
                SheetError::BadDependency(s),
            ) && s@ == name@),
            r matches Err(e) ==> (e matches SheetError::BadDependency(s) && s@ == name@),
            forall|i: int|
                #[trigger] leaf_ready(old(self).layers_view(), name@, i) ==> (r matches Ok(v) && Some(
                    v,
                ) == leaf_answer(old(self).layers_view(), name@, i)),
            forall|i: int|
                #[trigger] cache_ready(old(self).layers_view(), name@, i) ==> (r matches Ok(v)
                    && Some(v) == old(self).layers_view()[i].cached(name@)),
    {
        let ghost layers0 = self.layers_view();
        let m = self.layers.len();
        let mut t: usize = 0;
        while t < m
            invariant
                m == self.layers_view().len(),
                layers0 == old(self).layers_view(),
                layers0.len() == m,
                0 <= t <= m,
                self.wf(),
                forall|i: int|
                    0 <= i < m ==> (#[trigger] self.layers_view()[i]).rows_view()
                        == layers0[i].rows_view() && self.layers_view()[i].prelude_view()
                        == layers0[i].prelude_view() && self.layers_view()[i].prelude_ast_view()
                        == layers0[i].prelude_ast_view(),
                forall|i: int| 0 <= i < m - t ==> #[trigger] self.layers_view()[i] == layers0[i],
                forall|i: int| #[trigger] leaf_ready(layers0, name@, i) ==> i < m - t,
                forall|i: int| #[trigger] cache_ready(layers0, name@, i) ==> i < m - t,
            decreases m - t,
        {
            let i = m - 1 - t;
            let ghost pre = self.layers_view();
            let mut layer = self.layers.remove(i);
            let ghost before = layer;
            proof {
                assert(pre[i as int].wf());
                assert(before == layers0[i as int]);
            }
            let out = layer.eval(name);
            self.layers.insert(i, layer);
            proof {
                assert(self.layers_view() =~= pre.update(i as int, self.layers_view()[i as int]));
                assert forall|j: int|
                    0 <= j < m implies (#[trigger] self.layers_view()[j]).rows_view()
                    == layers0[j].rows_view() && self.layers_view()[j].prelude_view()
                    == layers0[j].prelude_view() && self.layers_view()[j].prelude_ast_view()
                    == layers0[j].prelude_ast_view() by {
                    if j != i as int {
                        assert(self.layers_view()[j] == pre[j]);
                    }
                }
                assert forall|j: int|
                    0 <= j < m - t - 1 implies #[trigger] self.layers_view()[j] == layers0[j] by {
                    assert(self.layers_view()[j] == pre[j]);
                }
                if cache_ready(layers0, name@, i as int) {
                    assert(out matches Ok(v) && Some(v) == layers0[i as int].cached(name@));
                }
                if leaf_ready(layers0, name@, i as int) {
                    // an entry without dependencies has no outgoing edge, so
                    // this layer's evaluation cannot be rejected as cyclic
                    assert forall|b: Seq<char>| !#[trigger] edge(
                        rel_of(before.rows_view()),
                        name@,
                        b,
                    ) by {
                        if edge(rel_of(before.rows_view()), name@, b) {
                            assert(rel_of(before.rows_view())[name@] == deps_at(
                                before.rows_view(),
                                name@,
                            ));
                        }
                    }
                    lemma_no_cycle_without_exit(rel_of(before.rows_view()), name@);
                    assert(out matches Ok(v) && Some(v) == leaf_answer(layers0, name@, i as int));
                }
            }
            match out {
                Ok(v) => {
                    proof {
                        if !stack_defines(layers0, name@) {
                            assert forall|b: Seq<char>| !#[trigger] edge(
                                rel_of(before.rows_view()),
                                name@,
                                b,
                            ) by {}
                            lemma_no_cycle_without_exit(rel_of(before.rows_view()), name@);
                            assert(!defines(before.rows_view(), name@));
                            assert(false);
                        }
                        assert forall|j: int|
                            #[trigger] leaf_ready(layers0, name@, j) implies j == i as int && Some(
                            v,
                        ) == leaf_answer(layers0, name@, j) by {
                            if j != i as int {
                                assert(j < m - t);
                                assert(defines(layers0[j].rows_view(), name@));
                                // a successful layer defines the name, so no
                                // lower layer can be the top defining one
                                assert forall|b: Seq<char>| !defines(
                                    before.rows_view(),
                                    name@,
                                ) implies !#[trigger] edge(
                                    rel_of(before.rows_view()),
                                    name@,
                                    b,
                                ) by {}
                                if !defines(before.rows_view(), name@) {
                                    lemma_no_cycle_without_exit(
                                        rel_of(before.rows_view()),
                                        name@,
                                    );
                                }
                                assert(defines(layers0[i as int].rows_view(), name@));
                            }
                        }
                        assert forall|j: int|
                            #[trigger] cache_ready(layers0, name@, j) implies j == i as int && Some(
                            v,
                        ) == layers0[j].cached(name@) by {
                            if j != i as int {
                                assert(j < m - t);
                                assert(defines(layers0[j].rows_view(), name@));
                                assert forall|b: Seq<char>| !defines(
                                    before.rows_view(),
                                    name@,
                                ) implies !#[trigger] edge(
                                    rel_of(before.rows_view()),
                                    name@,
                                    b,
                                ) by {}
                                if !defines(before.rows_view(), name@) {
                                    lemma_no_cycle_without_exit(
                                        rel_of(before.rows_view()),
                                        name@,
                                    );
                                }
                                assert(defines(layers0[i as int].rows_view(), name@));
                            }
                        }
                    }
                    return Ok(v);
                },
                Err(_) => {
                    proof {
                        assert forall|j: int|
                            #[trigger] leaf_ready(layers0, name@, j) implies j < m - t - 1 by {
                            if j == i as int {
                                assert(out matches Ok(_));
                            }
                        }
                        assert forall|j: int|
                            #[trigger] cache_ready(layers0, name@, j) implies j < m - t - 1 by {
                            if j == i as int {
                                assert(out matches Ok(_));
                            }
                        }
                    }
                },
            }
            t = t + 1;
        }
        proof {
            if stack_defines(layers0, name@) {
                let w = choose|i: int|
                    0 <= i < layers0.len() && defines(#[trigger] layers0[i].rows_view(), name@);
                lemma_top_defining_exists(layers0, name@);
            }
            assert forall|j: int| !#[trigger] leaf_ready(layers0, name@, j) by {}
            assert forall|j: int| !#[trigger] cache_ready(layers0, name@, j) by {}
        }
        Err(SheetError::BadDependency(name.to_owned()))
    }

    /// Applies the invalidation to every layer unconditionally: an edit to a
    /// low-priority layer must stay visible when no higher layer overrides
    /// the name.
    pub fn invalidate_cache(&mut self, name: &str, bad_parents: &Vec<String>) -> (r: Result<
        (),
        SheetError,
    >)
        requires
            old(self).wf(),
        ensures
            final(self).wf(),
            final(self).layers_view().len() == old(self).layers_view().len(),
            forall|i: int|
                0 <= i < old(self).layers_view().len() ==> (#[trigger] final(self).layers_view()[i]).rows_view() == old(self).layers_view()[i].rows_view() && final(self).layers_view()[i].prelude_view() == old(self).layers_view()[i].prelude_view(),
            r is Ok ==> forall|i: int, n: Seq<char>|
                0 <= i < old(self).layers_view().len() && reaches(
                    final(self).layers_view()[i].rel(),
                    n,
                    name@,
                ) ==> (#[trigger] final(self).layers_view()[i].cached(n)) is None,
            r matches Err(e) ==> e matches SheetError::CyclicDependency(_),
            r matches Err(SheetError::CyclicDependency(c)) ==> exists|i: int|
                0 <= i < old(self).layers_view().len() && reaches(
                    (#[trigger] final(self).layers_view()[i]).rel(),
                    c@,
                    name@,
                ) && (names_of(bad_parents@).contains(c@) || in_cycle(
                    final(self).layers_view()[i].rel(),
                    c@,
                )),
            r is Ok ==> forall|i: int, c: Seq<char>|
                #![trigger in_cycle(final(self).layers_view()[i].rel(), c)]
                0 <= i < old(self).layers_view().len() && reaches(
                    final(self).layers_view()[i].rel(),
                    c,
                    name@,
                ) ==> !in_cycle(final(self).layers_view()[i].rel(), c),
    {
        let ghost layers0 = self.layers_view();
        let m = self.layers.len();
        let mut t: usize = 0;
        while t < m
            invariant
                m == self.layers_view().len(),
                layers0 == old(self).layers_view(),
                layers0.len() == m,
                0 <= t <= m,
                self.wf(),
                forall|i: int|
                    0 <= i < m ==> (#[trigger] self.layers_view()[i]).rows_view()
                        == layers0[i].rows_view() && self.layers_view()[i].prelude_view()
                        == layers0[i].prelude_view(),
                forall|i: int, n: Seq<char>|
                    0 <= i < t && reaches(self.layers_view()[i].rel(), n, name@) ==> (
                    #[trigger] self.layers_view()[i].cached(n)) is None,
                forall|i: int, c: Seq<char>|
                    #![trigger in_cycle(self.layers_view()[i].rel(), c)]
                    0 <= i < t && reaches(self.layers_view()[i].rel(), c, name@) ==> !in_cycle(
                        self.layers_view()[i].rel(),
                        c,
                    ),
            decreases m - t,
        {
            let ghost pre = self.layers_view();
            let mut layer = self.layers.remove(t);
            proof {
                assert(pre[t as int].wf());
            }
            match layer.invalidate_cache(name, bad_parents) {
                Ok(()) => {
                    self.layers.insert(t, layer);
                    proof {
                        assert(self.layers_view() =~= pre.update(
                            t as int,
                            self.layers_view()[t as int],
                        ));
                        assert forall|i: int|
                            0 <= i < m implies (#[trigger] self.layers_view()[i]).wf()
                            && self.layers_view()[i].rows_view() == layers0[i].rows_view()
                            && self.layers_view()[i].prelude_view()
                            == layers0[i].prelude_view() by {
                            if i != t as int {
                                assert(self.layers_view()[i] == pre[i]);
                            }
                        }
                        assert forall|i: int, n: Seq<char>|
                            0 <= i < t + 1 && reaches(self.layers_view()[i].rel(), n, name@) implies (
                            #[trigger] self.layers_view()[i].cached(n)) is None by {
                            if i < t {
                                assert(self.layers_view()[i] == pre[i]);
                            }
                        }
                        assert forall|i: int, c: Seq<char>|
                            #![trigger in_cycle(self.layers_view()[i].rel(), c)]
                            0 <= i < t + 1 && reaches(self.layers_view()[i].rel(), c, name@)
                            implies !in_cycle(self.layers_view()[i].rel(), c) by {
                            if i < t {
                                assert(self.layers_view()[i] == pre[i]);
                            }
                        }
                    }
                },
                Err(e) => {
                    self.layers.insert(t, layer);
                    proof {
                        assert(self.layers_view() =~= pre.update(
                            t as int,
                            self.layers_view()[t as int],
                        ));
                        assert forall|i: int|
                            0 <= i < m implies (#[trigger] self.layers_view()[i]).wf()
                            && self.layers_view()[i].rows_view() == layers0[i].rows_view()
                            && self.layers_view()[i].prelude_view()
                            == layers0[i].prelude_view() by {
                            if i != t as int {
                                assert(self.layers_view()[i] == pre[i]);
                            }
                        }
                        if let SheetError::CyclicDependency(c) = &e {
                            assert(reaches(self.layers_view()[t as int].rel(), c@, name@));
                        }
                    }
                    return Err(e);
                },
            }
            t = t + 1;
        }
        Ok(())
    }

    /// Resolves the dependency list against the highest-priority layer that
    /// defines `name`; empty when no layer does.
    pub fn dependencies(&self, name: &str) -> (r: Vec<String>)
        requires
            self.wf(),
        ensures
            forall|i: int|
                #[trigger] is_top_defining(self.layers_view(), name@, i) ==> names_of(r@)
                    == deps_at(self.layers_view()[i].rows_view(), name@),
            !stack_defines(self.layers_view(), name@) ==> r@.len() == 0,
    {
        let m = self.layers.len();
        let mut t: usize = 0;
        while t < m
            invariant
                m == self.layers_view().len(),
                0 <= t <= m,
                self.wf(),
                forall|i: int|
                    m - t <= i < m ==> !defines((#[trigger] self.layers_view()[i]).rows_view(), name@),
            decreases m - t,
        {
            let i = m - 1 - t;
            proof {
                assert(self.layers_view()[i as int].wf());
            }
            if self.layers[i].get_source(name).is_some() {
                proof {
                    assert(is_top_defining(self.layers_view(), name@, i as int));
                    assert forall|j: int|
                        #[trigger] is_top_defining(self.layers_view(), name@, j) implies j
                        == i as int by {}
                }
                return self.layers[i].dependencies(name);
            }
            t = t + 1;
        }
        proof {
            if stack_defines(self.layers_view(), name@) {
                let w = choose|i: int|
                    0 <= i < self.layers_view().len() && defines(
                        #[trigger] self.layers_view()[i].rows_view(),
                        name@,
                    );
                assert(!defines(self.layers_view()[w].rows_view(), name@));
            }
            assert forall|i: int|
                !#[trigger] is_top_defining(self.layers_view(), name@, i) by {}
        }
        Vec::new()
    }

    /// Resolves the dependents list against the highest-priority layer that
    /// defines `name`; empty when no layer does.
    pub fn dependents(&self, name: &str) -> (r: Vec<String>)
        requires
            self.wf(),
        ensures
            forall|i: int|
                #[trigger] is_top_defining(self.layers_view(), name@, i) ==> (forall|n: Seq<char>|
                    names_of(r@).contains(n) <==> edge(
                        (#[trigger] self.layers_view()[i]).rel(),
                        n,
                        name@,
                    )),
            !stack_defines(self.layers_view(), name@) ==> r@.len() == 0,
            names_of(r@).no_duplicates(),
    {
        let m = self.layers.len();
        let mut t: usize = 0;
        while t < m
            invariant
                m == self.layers_view().len(),
                0 <= t <= m,
                self.wf(),
                forall|i: int|
                    m - t <= i < m ==> !defines((#[trigger] self.layers_view()[i]).rows_view(), name@),
            decreases m - t,
        {
            let i = m - 1 - t;
            proof {
                assert(self.layers_view()[i as int].wf());
            }
            if self.layers[i].get_source(name).is_some() {
                proof {
                    assert(is_top_defining(self.layers_view(), name@, i as int));
                    assert forall|j: int|
                        #[trigger] is_top_defining(self.layers_view(), name@, j) implies j
                        == i as int by {}
                }
                return self.layers[i].dependents(name);
            }
            t = t + 1;
        }
        proof {
            if stack_defines(self.layers_view(), name@) {
                let w = choose|i: int|
                    0 <= i < self.layers_view().len() && defines(
                        #[trigger] self.layers_view()[i].rows_view(),
                        name@,
                    );
                assert(!defines(self.layers_view()[w].rows_view(), name@));
            }
            assert forall|i: int|
                !#[trigger] is_top_defining(self.layers_view(), name@, i) by {}
        }
        Vec::new()
    }

    /// The union, deduplicated, of every layer's entry names.
    pub fn entries(&self) -> (r: Vec<String>)
        requires
            self.wf(),
        ensures
            forall|n: Seq<char>|
                names_of(r@).contains(n) <==> stack_defines(self.layers_view(), n),
            names_of(r@).no_duplicates(),
    {
        let mut out: Vec<String> = Vec::new();
        let m = self.layers.len();
        let mut t: usize = 0;
        while t < m
            invariant
                m == self.layers_view().len(),
                0 <= t <= m,
                self.wf(),
                forall|n: Seq<char>|
                    names_of(out@).contains(n) ==> stack_defines(self.layers_view(), n),
                forall|i: int, n: Seq<char>|
                    0 <= i < t && #[trigger] defines(self.layers_view()[i].rows_view(), n)
                        ==> names_of(out@).contains(n),
                names_of(out@).no_duplicates(),
            decreases m - t,
        {
            proof {
                assert(self.layers_view()[t as int].wf());
            }
            let names = self.layers[t].entries();
            let k = names.len();
            let mut j: usize = 0;
            while j < k
                invariant
                    m == self.layers_view().len(),
                    0 <= t < m,
                    k == names@.len(),
                    0 <= j <= k,
                    self.wf(),
                    names_of(names@) == row_names(self.layers_view()[t as int].rows_view()),
                    forall|n: Seq<char>|
                        names_of(out@).contains(n) ==> stack_defines(self.layers_view(), n),
                    forall|i: int, n: Seq<char>|
                        0 <= i < t && #[trigger] defines(self.layers_view()[i].rows_view(), n)
                            ==> names_of(out@).contains(n),
                    forall|u: int| 0 <= u < j ==> names_of(out@).contains(#[trigger] names@[u]@),
                    names_of(out@).no_duplicates(),
                decreases k - j,
            {
                let candidate = names[j].clone();
                assert(names_of(names@)[j as int] == candidate@);
                if !contains_name(&out, &candidate) {
                    let ghost obefore = out@;
                    out.push(candidate);
                    proof {
                        assert(out@ == obefore.push(out@.last()));
                        lemma_names_push(obefore, out@.last());
                        assert forall|n: Seq<char>|
                            names_of(out@).contains(n) implies stack_defines(
                            self.layers_view(),
                            n,
                        ) by {
                            if n != names_of(names@)[j as int] {
                                assert(names_of(obefore).contains(n));
                            } else {
                                assert(defines(self.layers_view()[t as int].rows_view(), n));
                            }
                        }
                        assert forall|i2: int, j2: int|
                            0 <= i2 < j2 < names_of(out@).len() implies names_of(out@)[i2]
                            != names_of(out@)[j2] by {
                            if j2 == names_of(out@).len() - 1 {
                                if names_of(out@)[i2] == names_of(out@)[j2] {
                                    assert(names_of(obefore).contains(names_of(out@)[j2]));
                                }
                            }
                        }
                    }
                }
                j = j + 1;
            }
            proof {
                assert forall|i: int, n: Seq<char>|
                    0 <= i < t + 1 && #[trigger] defines(self.layers_view()[i].rows_view(), n) implies
                    names_of(out@).contains(n) by {
                    if i == t as int {
                        let u = choose|u: int|
                            0 <= u < row_names(self.layers_view()[i].rows_view()).len() && row_names(
                                self.layers_view()[i].rows_view(),
                            )[u] == n;
                        assert(names_of(names@)[u] == n);
                        assert(names@[u]@ == n);
                    }
                }
            }
            t = t + 1;
        }
        out
    }
}

/// The stack's dependency relation: each defined name resolves to the
/// dependency list of its highest defining layer.
pub open spec fn stack_rel(layers: Seq<Sheet>) -> Rel {
    Map::new(
        |n: Seq<char>| stack_defines(layers, n),
        |n: Seq<char>|
            deps_at(
                layers[choose|i: int| #[trigger] is_top_defining(layers, n, i)].rows_view(),
                n,
            ),
    )
}

impl Stack {
    /// One row per name, taken from its highest defining layer.
    fn combined_rows(&self) -> (r: Vec<Row>)
        requires
            self.wf(),
        ensures
            unique_names(r@),
            rel_of(r@) == stack_rel(self.layers_view()),
    {
        let mut out: Vec<Row> = Vec::new();
        let m = self.layers.len();
        let mut t: usize = 0;
        while t < m
            invariant
                m == self.layers_view().len(),
                0 <= t <= m,
                self.wf(),
                unique_names(out@),
                forall|n: Seq<char>|
                    #[trigger] defines(out@, n) <==> exists|u: int|
                        m - t <= u < m && defines(#[trigger] self.layers_view()[u].rows_view(), n),
                forall|n: Seq<char>|
                    #[trigger] defines(out@, n) ==> exists|u: int|
                        #[trigger] is_top_defining(self.layers_view(), n, u) && deps_at(out@, n)
                            == deps_at(self.layers_view()[u].rows_view(), n),
            decreases m - t,
        {
            let i = m - 1 - t;
            proof {
                assert(self.layers_view()[i as int].wf());
            }
            let k = self.layers[i].row_count();
            let mut j: usize = 0;
            while j < k
                invariant
                    m == self.layers_view().len(),
                    0 <= t < m,
                    i == m - 1 - t,
                    k == self.layers_view()[i as int].rows_view().len(),
                    0 <= j <= k,
                    self.wf(),
                    unique_names(out@),
                    forall|n: Seq<char>|
                        #[trigger] defines(out@, n) <==> ((exists|u: int|
                            m - t <= u < m && defines(
                                #[trigger] self.layers_view()[u].rows_view(),
                                n,
                            )) || (exists|v: int|
                            0 <= v < j && self.layers_view()[i as int].rows_view()[v].name@ == n)),
                    forall|n: Seq<char>|
                        #[trigger] defines(out@, n) ==> exists|u: int|
                            #[trigger] is_top_defining(self.layers_view(), n, u) && deps_at(out@, n)
                                == deps_at(self.layers_view()[u].rows_view(), n),
                decreases k - j,
            {
                proof {
                    assert(self.layers_view()[i as int].wf());
                }
                let row = self.layers[i].row_clone(j);
                let ghost n0 = row.name@;
                proof {
                    assert(row_names(self.layers_view()[i as int].rows_view())[j as int] == n0);
                }
                match find_row(&out, &row.name) {
                    Some(f) => {
                        proof {
                            assert(row_names(out@)[f as int] == n0);
                            assert(defines(out@, n0));
                            assert forall|n: Seq<char>|
                                #[trigger] defines(out@, n) implies ((exists|u: int|
                                    m - t <= u < m && defines(
                                        #[trigger] self.layers_view()[u].rows_view(),
                                        n,
                                    )) || (exists|v: int|
                                    0 <= v < j + 1 && self.layers_view()[i as int].rows_view()[v].name@
                                        == n)) by {}
                        }
                    },
                    None => {
                        let ghost obefore = out@;
                        out.push(row);
                        proof {
                            lemma_idx_of(self.layers_view()[i as int].rows_view(), j as int);
                            assert(defines(self.layers_view()[i as int].rows_view(), n0));
                            assert(is_top_defining(self.layers_view(), n0, i as int));
                            assert(!defines(obefore, n0));
                            assert forall|i2: int, j2: int|
                                0 <= i2 < j2 < out@.len() implies #[trigger] out@[i2].name@
                                != #[trigger] out@[j2].name@ by {
                                if j2 == out@.len() - 1 {
                                    assert(out@[i2] == obefore[i2]);
                                    assert(row_names(obefore)[i2] == obefore[i2].name@);
                                    if obefore[i2].name@ == n0 {
                                        assert(defines(obefore, n0));
                                    }
                                } else {
                                    assert(out@[i2] == obefore[i2] && out@[j2] == obefore[j2]);
                                    assert(obefore[i2].name@ != obefore[j2].name@);
                                }
                            }
                            lemma_idx_of(out@, out@.len() - 1);
                            assert(deps_at(out@, n0) == names_of(
                                self.layers_view()[i as int].rows_view()[j as int].deps@,
                            ));
                            lemma_defines_idx(self.layers_view()[i as int].rows_view(), n0);
                            assert(idx_of(self.layers_view()[i as int].rows_view(), n0) == j as int);
                            assert(deps_at(out@, n0) == deps_at(
                                self.layers_view()[i as int].rows_view(),
                                n0,
                            ));
                            assert forall|n: Seq<char>|
                                n != n0 implies (#[trigger] defines(out@, n) == defines(
                                obefore,
                                n,
                            )) by {
                                if defines(out@, n) {
                                    lemma_defines_idx(out@, n);
                                    let w = idx_of(out@, n);
                                    assert(row_names(obefore)[w] == n);
                                }
                                if defines(obefore, n) {
                                    lemma_defines_idx(obefore, n);
                                    let w = idx_of(obefore, n);
                                    assert(row_names(out@)[w] == n);
                                }
                            }
                            assert forall|n: Seq<char>|
                                n != n0 && defines(obefore, n) implies #[trigger] deps_at(out@, n)
                                == deps_at(obefore, n) by {
                                lemma_defines_idx(obefore, n);
                                let w = idx_of(obefore, n);
                                assert(out@[w].name@ == n);
                                lemma_idx_of(out@, w);
                                lemma_idx_of(obefore, w);
                            }
                            assert forall|n: Seq<char>|
                                #[trigger] defines(out@, n) implies ((exists|u: int|
                                    m - t <= u < m && defines(
                                        #[trigger] self.layers_view()[u].rows_view(),
                                        n,
                                    )) || (exists|v: int|
                                    0 <= v < j + 1 && self.layers_view()[i as int].rows_view()[v].name@
                                        == n)) by {
                                if n != n0 {
                                    assert(defines(obefore, n));
                                } else {
                                    assert(self.layers_view()[i as int].rows_view()[j as int].name@
                                        == n);
                                }
                            }
                            assert forall|n: Seq<char>|
                                ((exists|u: int|
                                    m - t <= u < m && defines(
                                        #[trigger] self.layers_view()[u].rows_view(),
                                        n,
                                    )) || (exists|v: int|
                                    0 <= v < j + 1 && self.layers_view()[i as int].rows_view()[v].name@
                                        == n)) implies #[trigger] defines(out@, n) by {
                                if n != n0 {
                                    assert(defines(obefore, n));
                                    lemma_defines_idx(obefore, n);
                                    let w = idx_of(obefore, n);
                                    assert(row_names(out@)[w] == n);
                                }
                            }
                        }
                    },
                }
                j = j + 1;
            }
            proof {
                assert forall|n: Seq<char>|
                    #[trigger] defines(out@, n) <==> exists|u: int|
                        m - t - 1 <= u < m && defines(
                            #[trigger] self.layers_view()[u].rows_view(),
                            n,
                        ) by {
                    if defines(out@, n) {
                        if exists|v: int|
                            0 <= v < k && self.layers_view()[i as int].rows_view()[v].name@ == n {
                            let v = choose|v: int|
                                0 <= v < k && self.layers_view()[i as int].rows_view()[v].name@ == n;
                            assert(row_names(self.layers_view()[i as int].rows_view())[v] == n);
                            assert(defines(self.layers_view()[i as int].rows_view(), n));
                        }
                    } else {
                        if exists|u: int|
                            m - t - 1 <= u < m && defines(
                                #[trigger] self.layers_view()[u].rows_view(),
                                n,
                            ) {
                            let u = choose|u: int|
                                m - t - 1 <= u < m && defines(
                                    #[trigger] self.layers_view()[u].rows_view(),
                                    n,
                                );
                            if u == i as int {
                                let v = choose|v: int|
                                    0 <= v < row_names(self.layers_view()[u].rows_view()).len()
                                        && row_names(self.layers_view()[u].rows_view())[v] == n;
                                assert(self.layers_view()[i as int].rows_view()[v].name@ == n);
                            }
                        }
                    }
                }
            }
            t = t + 1;
        }
        proof {
            assert forall|n: Seq<char>|
                #[trigger] defines(out@, n) == stack_defines(self.layers_view(), n) by {
                if defines(out@, n) {
                    let u = choose|u: int|
                        0 <= u < m && defines(#[trigger] self.layers_view()[u].rows_view(), n);
                    assert(stack_defines(self.layers_view(), n));
                }
                if stack_defines(self.layers_view(), n) {
                    let u = choose|u: int|
                        0 <= u < self.layers_view().len() && defines(
                            #[trigger] self.layers_view()[u].rows_view(),
                            n,
                        );
                    assert(0 <= u < m && defines(self.layers_view()[u].rows_view(), n));
                    assert(defines(out@, n));
                }
            }
            assert forall|n: Seq<char>| #[trigger] defines(out@, n) implies deps_at(out@, n)
                == stack_rel(self.layers_view())[n] by {
                let u = choose|u: int|
                    #[trigger] is_top_defining(self.layers_view(), n, u) && deps_at(out@, n) == deps_at(
                        self.layers_view()[u].rows_view(),
                        n,
                    );
                let w = choose|i2: int| #[trigger] is_top_defining(self.layers_view(), n, i2);
                if u < w {
                    assert(!defines(self.layers_view()[w].rows_view(), n));
                } else if w < u {
                    assert(!defines(self.layers_view()[u].rows_view(), n));
                }
            }
            assert(rel_of(out@) =~= stack_rel(self.layers_view()));
        }
        out
    }

    /// Whether a dependency cycle is reachable from `start_at` over the
    /// stack's combined relation (each name resolved against its highest
    /// defining layer).
    pub fn check_for_cycles(&self, start_at: &str) -> (r: bool)
        requires
            self.wf(),
        ensures
            r == has_cycle_from(stack_rel(self.layers_view()), start_at@),
    {
        let combined = self.combined_rows();
        let key: String = start_at.to_owned();
        has_cycle(&combined, &key)
    }
}

impl GameSheet for Stack {
    open spec fn inv(&self) -> bool {
        self.wf()
    }

    fn eval(&mut self, name: &str) -> (r: Result<rhai::Dynamic, SheetError>) {
        Stack::eval(self, name)
    }

    fn invalidate_cache(&mut self, name: &str, bad_parents: &Vec<String>) -> (r: Result<
        (),
        SheetError,
    >) {
        Stack::invalidate_cache(self, name, bad_parents)
    }

    fn dependencies(&self, name: &str) -> (r: Vec<String>) {
        Stack::dependencies(self, name)
    }

    fn dependents(&self, name: &str) -> (r: Vec<String>) {
        Stack::dependents(self, name)
    }

    fn entries(&self) -> (r: Vec<String>) {
        Stack::entries(self)
    }

    fn check_for_cycles(&self, start_at: &str) -> (r: bool) {
        Stack::check_for_cycles(self, start_at)
    }
}

} // verus!
