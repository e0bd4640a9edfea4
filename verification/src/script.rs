//! The boundary to the embedded expression evaluator.
//!
//! The engine treats the scripting language as an opaque capability: compile
//! a script, statically enumerate its lookup calls, and execute it against
//! the values resolved for those lookups. Compilation and execution are
//! performed by rhai, over an engine that holds rhai's standard packages
//! for arithmetic, logic, math, arrays, maps, strings, iterators and
//! function basics — not the time package and not the language-core
//! utilities (which register `timestamp`, a blocking `sleep` and a
//! process-terminating `exit`): every
//! registered built-in is a pure, returning function, the crate disables
//! rhai's closures so every value is plain data with no shared mutable
//! cells, and an operations limit turns runaway scripts into runtime errors
//! rather than hangs. Under that configuration the outcome of each
//! capability is a function of its textual inputs alone, which the
//! uninterpreted spec functions below name.

use vstd::prelude::*;
use rhai::packages::Package;

verus! {

#[verifier::external_type_specification]
#[verifier::external_body]
pub struct ExEngine(rhai::Engine);

#[verifier::external_type_specification]
#[verifier::external_body]
pub struct ExAst(rhai::AST);

#[verifier::external_type_specification]
#[verifier::external_body]
pub struct ExDynamic(rhai::Dynamic);

#[verifier::external_type_specification]
#[verifier::external_body]
pub struct ExParseError(rhai::ParseError);

#[verifier::external_type_specification]
#[verifier::external_body]
pub struct ExEvalAltResult(rhai::EvalAltResult);

/// Relies on rhai's `Dynamic::clone`: the clone is the same value.
pub assume_specification[ <rhai::Dynamic as Clone>::clone ](d: &rhai::Dynamic) -> (r: rhai::Dynamic)
    ensures
        r == *d,
;

/// Relies on rhai's `AST::clone`: the clone is the same compiled form.
pub assume_specification[ <rhai::AST as Clone>::clone ](a: &rhai::AST) -> (r: rhai::AST)
    ensures
        r == *a,
;

/// What compiling a script yields: `Some` compiled form, or `None` when the
/// script does not parse. Compilation is a pure function of the text.
pub uninterp spec fn compiled_of(script: Seq<char>) -> Option<rhai::AST>;

/// The names statically referenced by a script: the literal first arguments
/// of its calls to the lookup function `g`, in the order the compiled form
/// enumerates them.
pub uninterp spec fn deps_of(script: Seq<char>) -> Seq<Seq<char>>;

/// What executing a script yields, given the prelude merged ahead of it and
/// the values resolved for its lookup calls: `Some` value, or `None` when
/// execution fails at runtime. A lookup of a name absent from the
/// environment resolves to the unit value.
pub uninterp spec fn run_of(
    prelude: Seq<char>,
    script: Seq<char>,
    env: Map<Seq<char>, rhai::Dynamic>,
) -> Option<rhai::Dynamic>;

/// The lookup environment a list of resolved pairs describes: the first pair
/// with a given name wins.
pub open spec fn env_map(pairs: Seq<(String, rhai::Dynamic)>) -> Map<Seq<char>, rhai::Dynamic>
    decreases pairs.len(),
{
    if pairs.len() == 0 {
        Map::empty()
    } else {
        env_map(pairs.drop_first()).insert(pairs[0].0@, pairs[0].1)
    }
}

/// Builds the one engine configuration every capability runs under: the
/// standard packages whose built-ins are pure, returning functions
/// (arithmetic, logic, math, arrays, maps, strings, iterators and function
/// basics; not the time package and not the language-core utilities, whose
/// `sleep` and `exit` block or abort), with an operations limit so that a
/// script that never finishes is cut off with a runtime error instead of
/// blocking.
#[verifier::external_body]
fn fresh_engine() -> rhai::Engine {
    let mut engine = rhai::Engine::new_raw();
    rhai::packages::ArithmeticPackage::new().register_into_engine(&mut engine);
    rhai::packages::LogicPackage::new().register_into_engine(&mut engine);
    rhai::packages::BasicMathPackage::new().register_into_engine(&mut engine);
    rhai::packages::BasicArrayPackage::new().register_into_engine(&mut engine);
    rhai::packages::BasicMapPackage::new().register_into_engine(&mut engine);
    rhai::packages::BasicStringPackage::new().register_into_engine(&mut engine);
    rhai::packages::MoreStringPackage::new().register_into_engine(&mut engine);
    rhai::packages::BasicIteratorPackage::new().register_into_engine(&mut engine);
    rhai::packages::BasicFnPackage::new().register_into_engine(&mut engine);
    engine.set_max_operations(10_000_000);
    engine
}

/// Relies on rhai's `Engine::compile`: parsing is a pure function of the
/// script text, so the produced compiled form (or the rejection) is the one
/// `compiled_of` names.
#[verifier::external_body]
pub(crate) fn compile_script(script: &str) -> (r: Result<rhai::AST, rhai::ParseError>)
    ensures
        r is Ok <==> compiled_of(script@) is Some,
        r matches Ok(ast) ==> compiled_of(script@) == Some(ast),
{
    fresh_engine().compile(script)
}

/// Relies on rhai's `AST::walk`: it enumerates every node of the compiled
/// form (a call is an expression node, or a statement node when it stands
/// alone), and the walk collects the literal first arguments of calls to the
/// lookup function `g`. On the compiled form of `script` the outcome is the
/// list `deps_of` names.
#[verifier::external_body]
pub(crate) fn scan_dependencies(script: &str, ast: &rhai::AST) -> (r: Vec<String>)
    requires
        compiled_of(script@) == Some(*ast),
    ensures
        r@.map_values(|s: String| s@) == deps_of(script@),
{
    let mut out: Vec<String> = Vec::new();
    ast.walk(&mut |path| {
        let call = match path.last() {
            Some(rhai::ASTNode::Expr(rhai::Expr::FnCall(call, _))) => call,
            Some(rhai::ASTNode::Stmt(rhai::Stmt::FnCall(call, _))) => call,
            _ => return true,
        };
        if call.name == "g" {
            if let Some(rhai::Expr::StringConstant(s, _)) = call.args.get(0) {
                out.push(s.to_string());
            }
        }
        true
    });
    out
}

/// Relies on rhai's `Engine::eval_ast` over the fixed engine configuration
/// above, with the lookup function `g` registered to resolve names against
/// `env` (first matching pair wins, unit value when absent) and the
/// prelude's compiled form merged ahead of the entry's. Every registered
/// built-in is pure and returning, closures are disabled so the values in
/// `env` carry no shared mutable state, and the operations limit bounds the
/// run, so the outcome is the function of (prelude, script, environment)
/// that `run_of` names.
#[verifier::external_body]
pub(crate) fn run_script(
    prelude: &str,
    prelude_ast: &rhai::AST,
    script: &str,
    ast: &rhai::AST,
    env: Vec<(String, rhai::Dynamic)>,
) -> (r: Result<rhai::Dynamic, Box<rhai::EvalAltResult>>)
    requires
        compiled_of(prelude@) == Some(*prelude_ast),
        compiled_of(script@) == Some(*ast),
    ensures
        r is Ok <==> run_of(prelude@, script@, env_map(env@)) is Some,
        r matches Ok(v) ==> run_of(prelude@, script@, env_map(env@)) == Some(v),
{
    let mut engine = fresh_engine();
    engine.register_fn("g", move |name: &str| -> rhai::Dynamic {
        lookup_env(&env, name).unwrap_or(rhai::Dynamic::UNIT)
    });
    let merged = prelude_ast.merge(ast);
    engine.eval_ast::<rhai::Dynamic>(&merged)
}

/// Resolves a lookup-call name against the values computed for an entry's
/// static dependencies: the first pair whose name matches wins, as in the
/// environment `env_map` describes.
pub(crate) fn lookup_env(env: &Vec<(String, rhai::Dynamic)>, name: &str) -> (r: Option<
    rhai::Dynamic,
>)
    ensures
        r matches Some(v) ==> env_map(env@).contains_key(name@) && env_map(env@)[name@] == v,
        r is None ==> !env_map(env@).contains_key(name@),
{
    let key: String = name.to_owned();
    let n = env.len();
    let mut i: usize = 0;
    while i < n
        invariant
            n == env@.len(),
            0 <= i <= n,
            key@ == name@,
            forall|j: int| 0 <= j < i ==> env@[j].0@ != name@,
        decreases n - i,
    {
        if env[i].0 == key {
            proof {
                lemma_env_map_first(env@, name@, i as int);
            }
            return Some(env[i].1.clone());
        }
        i = i + 1;
    }
    proof {
        lemma_env_map_absent(env@, name@);
    }
    None
}

/// Every pair's name is in the environment.
pub(crate) proof fn lemma_env_map_present(pairs: Seq<(String, rhai::Dynamic)>, t: int)
    requires
        0 <= t < pairs.len(),
    ensures
        env_map(pairs).contains_key(pairs[t].0@),
    decreases pairs.len(),
{
    if t > 0 {
        lemma_env_map_present(pairs.drop_first(), t - 1);
    }
}

/// A name in the environment carries the value of one of its pairs.
pub(crate) proof fn lemma_env_map_dom(pairs: Seq<(String, rhai::Dynamic)>, n: Seq<char>)
    requires
        env_map(pairs).contains_key(n),
    ensures
        exists|t: int|
            0 <= t < pairs.len() && (#[trigger] pairs[t]).0@ == n && env_map(pairs)[n] == pairs[t].1,
    decreases pairs.len(),
{
    if pairs.len() > 0 && n != pairs[0].0@ {
        lemma_env_map_dom(pairs.drop_first(), n);
        let t = choose|t: int|
            0 <= t < pairs.drop_first().len() && (#[trigger] pairs.drop_first()[t]).0@ == n
                && env_map(pairs.drop_first())[n] == pairs.drop_first()[t].1;
        assert(pairs[t + 1].0@ == n && env_map(pairs)[n] == pairs[t + 1].1);
    }
}

/// The first pair with a matching name determines the environment's value.
proof fn lemma_env_map_first(pairs: Seq<(String, rhai::Dynamic)>, n: Seq<char>, i: int)
    requires
        0 <= i < pairs.len(),
        pairs[i].0@ == n,
        forall|j: int| 0 <= j < i ==> pairs[j].0@ != n,
    ensures
        env_map(pairs).contains_key(n),
        env_map(pairs)[n] == pairs[i].1,
    decreases pairs.len(),
{
    if i == 0 {
    } else {
        lemma_env_map_first(pairs.drop_first(), n, i - 1);
    }
}

/// A name no pair carries is absent from the environment.
proof fn lemma_env_map_absent(pairs: Seq<(String, rhai::Dynamic)>, n: Seq<char>)
    requires
        forall|j: int| 0 <= j < pairs.len() ==> pairs[j].0@ != n,
    ensures
        !env_map(pairs).contains_key(n),
    decreases pairs.len(),
{
    if pairs.len() == 0 {
    } else {
        lemma_env_map_absent(pairs.drop_first(), n);
    }
}

} // verus!
