//! Binding the arguments of a call to the parameters of a user function.
//! Positional arguments fill the parameters in order; a named argument fills
//! the parameter of its name; a parameter left over takes its default. The
//! plan says, parameter by parameter, where its value comes from, and which
//! error (if any) stops the binding after the parameters it lists.

use vstd::prelude::*;

use crate::ast::NodeId;
use crate::error::NativeError;
use crate::text::{append_chars, chars_of, decimal, decimal_chars, push_str, string_of};

verus! {

/// A parameter of a user function: its name and the expression of its
/// default value, if it has one.
#[derive(Debug, Clone)]
pub struct FnParam {
    pub name: String,
    pub default: Option<NodeId>,
}

/// Where the value of a parameter comes from.
#[derive(Debug, Clone, Copy, PartialEq, Eq, Structural)]
pub enum ArgSource {
    /// The positional argument with this index.
    Positional(usize),
    /// The named argument with this index.
    Named(usize),
    /// The value of the default expression.
    Default(NodeId),
}

/// The binding of the parameters `0 .. sources.len()`, then the error that
/// stops it, if one does.
#[derive(Debug, Clone)]
pub struct BindPlan {
    pub sources: Vec<ArgSource>,
    pub error: Option<NativeError>,
}

/// The names of `params`.
pub open spec fn param_names(params: Seq<FnParam>) -> Seq<Seq<char>> {
    params.map_values(|p: FnParam| p.name@)
}

/// The names of `named`.
pub open spec fn arg_names(named: Seq<String>) -> Seq<Seq<char>> {
    named.map_values(|s: String| s@)
}

/// The first index at which `key` occurs in `names`, or `names.len()`.
pub open spec fn first_index(names: Seq<Seq<char>>, key: Seq<char>) -> int
    decreases names.len(),
{
    if names.len() == 0 {
        0
    } else if names[0] == key {
        0
    } else {
        1 + first_index(names.drop_first(), key)
    }
}

/// The first named argument that no parameter has, or `named.len()`.
pub open spec fn first_unknown(names: Seq<Seq<char>>, params: Seq<Seq<char>>) -> int
    decreases names.len(),
{
    if names.len() == 0 {
        0
    } else if !params.contains(names[0]) {
        0
    } else {
        1 + first_unknown(names.drop_first(), params)
    }
}

/// Parameter `i` cannot be bound: given both ways, or given no way.
pub open spec fn stops_at(params: Seq<FnParam>, positional: int, named: Seq<Seq<char>>, i: int) -> bool {
    if i < positional {
        named.contains(params[i].name@)
    } else {
        !named.contains(params[i].name@) && params[i].default is None
    }
}

/// The first parameter that cannot be bound, or `params.len()`.
pub open spec fn first_stop(params: Seq<FnParam>, positional: int, named: Seq<Seq<char>>, i: int) -> int
    decreases params.len() - i,
{
    if i >= params.len() {
        params.len() as int
    } else if stops_at(params, positional, named, i) {
        i
    } else {
        first_stop(params, positional, named, i + 1)
    }
}

/// The message of the error that stops the binding at parameter `k`.
pub open spec fn stop_message(params: Seq<FnParam>, positional: int, k: int) -> Seq<char> {
    if k < positional {
        "argument '"@ + params[k].name@ + "' supplied both positionally and by name"@
    } else {
        "missing required argument '"@ + params[k].name@ + "'"@
    }
}

/// Where parameter `i` takes its value from, when it can be bound.
pub open spec fn source_of(params: Seq<FnParam>, positional: int, named: Seq<Seq<char>>, i: int) -> ArgSource {
    if i < positional {
        ArgSource::Positional(i as usize)
    } else if named.contains(params[i].name@) {
        ArgSource::Named(first_index(named, params[i].name@) as usize)
    } else {
        ArgSource::Default(params[i].default->0)
    }
}

pub proof fn lemma_first_index(names: Seq<Seq<char>>, key: Seq<char>)
    ensures
        0 <= first_index(names, key) <= names.len(),
        names.contains(key) ==> first_index(names, key) < names.len() && names[first_index(names, key)] == key,
        !names.contains(key) ==> first_index(names, key) == names.len(),
    decreases names.len(),
{
    if names.len() > 0 {
        lemma_first_index(names.drop_first(), key);
        if names[0] != key {
            if names.contains(key) {
                let w = choose|w: int| 0 <= w < names.len() && names[w] == key;
                assert(names.drop_first()[w - 1] == key);
            }
            if names.drop_first().contains(key) {
                let w = choose|w: int| 0 <= w < names.drop_first().len() && names.drop_first()[w] == key;
                assert(names[w + 1] == key);
            }
        }
    }
}

pub proof fn lemma_first_unknown(names: Seq<Seq<char>>, params: Seq<Seq<char>>)
    ensures
        0 <= first_unknown(names, params) <= names.len(),
        first_unknown(names, params) < names.len() ==> !params.contains(names[first_unknown(names, params)]),
        forall|j: int| 0 <= j < first_unknown(names, params) ==> params.contains(#[trigger] names[j]),
    decreases names.len(),
{
    if names.len() > 0 && params.contains(names[0]) {
        lemma_first_unknown(names.drop_first(), params);
        assert forall|j: int| 0 <= j < first_unknown(names, params) implies params.contains(#[trigger] names[j]) by {
            if j > 0 {
                assert(names[j] == names.drop_first()[j - 1]);
            }
        }
    }
}

/// `name` is among `names`.
fn contains_name(names: &[String], name: &String) -> (r: Option<usize>)
    ensures
        match r {
            Some(j) => j as int == first_index(arg_names(names@), name@) && j < names@.len()
                && arg_names(names@)[j as int] == name@ && arg_names(names@).contains(name@),
            None => !arg_names(names@).contains(name@),
        },
{
    let ghost ns = arg_names(names@);
    let mut j: usize = 0;
    while j < names.len()
        invariant
            j <= names@.len(),
            ns == arg_names(names@),
            forall|k: int| 0 <= k < j ==> ns[k] != name@,
        decreases names.len() - j,
    {
        if names[j] == *name {
            proof {
                lemma_first_index_at(ns, name@, j as int);
            }
            return Some(j);
        }
        j = j + 1;
    }
    None
}

proof fn lemma_first_index_at(names: Seq<Seq<char>>, key: Seq<char>, j: int)
    requires
        0 <= j < names.len(),
        names[j] == key,
        forall|k: int| 0 <= k < j ==> names[k] != key,
    ensures
        first_index(names, key) == j,
    decreases j,
{
    if j > 0 {
        lemma_first_index_at(names.drop_first(), key, j - 1);
    }
}

/// `name` is the name of one of `params`.
fn is_param(params: &[FnParam], name: &String) -> (r: bool)
    ensures
        r == param_names(params@).contains(name@),
{
    let ghost ps = param_names(params@);
    let mut j: usize = 0;
    while j < params.len()
        invariant
            j <= params@.len(),
            ps == param_names(params@),
            forall|k: int| 0 <= k < j ==> ps[k] != name@,
        decreases params.len() - j,
    {
        if params[j].name == *name {
            assert(ps[j as int] == name@);
            return true;
        }
        j = j + 1;
    }
    false
}

fn quoted_message(prefix: &str, name: &str, suffix: &str) -> (r: String)
    ensures
        r@ == prefix@ + name@ + suffix@,
{
    let mut m = chars_of(prefix);
    push_str(&mut m, name);
    push_str(&mut m, suffix);
    string_of(&m)
}

/// How the arguments of a call bind to `params`: `positional` arguments
/// given in order, and arguments named `named` (each name once).
pub fn plan_arguments(params: &[FnParam], positional: usize, named: &[String]) -> (r: Result<BindPlan, NativeError>)
    ensures
        ({
            let ps = params@;
            let ns = arg_names(named@);
            let u = first_unknown(ns, param_names(ps));
            let k = first_stop(ps, positional as int, ns, 0);
            if positional > ps.len() {
                r matches Err(e) && e.kind@ == "argument error"@ && e.message@
                    == "too many positional arguments: expected at most "@ + decimal(ps.len())
                    + ", got "@ + decimal(positional as nat)
            } else if u < ns.len() {
                r matches Err(e) && e.kind@ == "argument error"@ && e.message@
                    == "unknown named argument '"@ + ns[u] + "'"@
            } else {
                r matches Ok(plan) && plan.sources@.len() == k && (forall|i: int|
                    0 <= i < k ==> #[trigger] plan.sources@[i] == source_of(ps, positional as int, ns, i))
                    && (k == ps.len() ==> plan.error is None)
                    && (k < ps.len() ==> (plan.error matches Some(e) && e.kind@ == "argument error"@
                    && e.message@ == stop_message(ps, positional as int, k)))
            }
        }),
{
    let ghost ns = arg_names(named@);
    let ghost pn = param_names(params@);
    if positional > params.len() {
        let mut m = chars_of("too many positional arguments: expected at most ");
        let a = decimal_chars(params.len());
        append_chars(&mut m, &a);
        push_str(&mut m, ", got ");
        let b = decimal_chars(positional);
        append_chars(&mut m, &b);
        return Err(NativeError::new("argument error", string_of(&m)));
    }
    let mut j: usize = 0;
    while j < named.len()
        invariant
            j <= named@.len(),
            positional <= params@.len(),
            ns == arg_names(named@),
            pn == param_names(params@),
            forall|k: int| 0 <= k < j ==> pn.contains(#[trigger] ns[k]),
        decreases named.len() - j,
    {
        if !is_param(params, &named[j]) {
            proof {
                assert(ns[j as int] == named@[j as int]@);
                lemma_first_unknown_at(ns, pn, j as int);
            }
            return Err(
                NativeError::new("argument error", quoted_message("unknown named argument '", named[j].as_str(), "'")),
            );
        }
        j = j + 1;
    }
    proof {
        lemma_first_unknown(ns, pn);
        if first_unknown(ns, pn) < ns.len() {
            assert(pn.contains(ns[first_unknown(ns, pn)]));
        }
    }
    let mut sources: Vec<ArgSource> = Vec::new();
    let mut i: usize = 0;
    while i < params.len()
        invariant
            i <= params@.len(),
            positional <= params@.len(),
            ns == arg_names(named@),
            sources@.len() == i,
            forall|q: int| 0 <= q < i ==> #[trigger] sources@[q] == source_of(params@, positional as int, ns, q),
            forall|q: int| 0 <= q < i ==> !stops_at(params@, positional as int, ns, q),
            first_unknown(ns, param_names(params@)) == ns.len(),
            first_stop(params@, positional as int, ns, 0) == first_stop(params@, positional as int, ns, i as int),
        decreases params.len() - i,
    {
        let p = &params[i];
        let found = contains_name(named, &p.name);
        if i < positional {
            if found.is_some() {
                let e = NativeError::new(
                    "argument error",
                    quoted_message("argument '", p.name.as_str(), "' supplied both positionally and by name"),
                );
                return Ok(BindPlan { sources, error: Some(e) });
            }
            sources.push(ArgSource::Positional(i));
        } else {
            match found {
                Some(n) => {
                    sources.push(ArgSource::Named(n));
                },
                None => {
                    match p.default {
                        Some(d) => {
                            sources.push(ArgSource::Default(d));
                        },
                        None => {
                            let e = NativeError::new(
                                "argument error",
                                quoted_message("missing required argument '", p.name.as_str(), "'"),
                            );
                            return Ok(BindPlan { sources, error: Some(e) });
                        },
                    }
                },
            }
        }
        proof {
            lemma_first_index(ns, params@[i as int].name@);
        }
        i = i + 1;
    }
    Ok(BindPlan { sources, error: None })
}

proof fn lemma_first_unknown_at(names: Seq<Seq<char>>, params: Seq<Seq<char>>, j: int)
    requires
        0 <= j < names.len(),
        !params.contains(names[j]),
        forall|k: int| 0 <= k < j ==> params.contains(#[trigger] names[k]),
    ensures
        first_unknown(names, params) == j,
    decreases j,
{
    if j > 0 {
        assert(params.contains(names[0]));
        assert forall|k: int| 0 <= k < j - 1 implies params.contains(#[trigger] names.drop_first()[k]) by {
            assert(names.drop_first()[k] == names[k + 1]);
        }
        lemma_first_unknown_at(names.drop_first(), params, j - 1);
    }
}

/// Where an argument comes from: a parameter within the positional count
/// takes the positional argument at its place; any other parameter whose
/// name is among the named arguments takes the first argument of that
/// name, whether or not it has a default; its default is used only when it
/// is given neither way.
pub proof fn law_argument_sources(params: Seq<FnParam>, positional: int, named: Seq<Seq<char>>, i: int)
    requires
        0 <= positional,
        0 <= i < params.len(),
        i < usize::MAX,
        named.len() <= usize::MAX,
    ensures
        i < positional ==> source_of(params, positional, named, i) == ArgSource::Positional(i as usize),
        i >= positional && named.contains(params[i].name@) ==> (source_of(params, positional, named, i) matches ArgSource::Named(k)
            && k < named.len() && named[k as int] == params[i].name@ && forall|j: int| 0 <= j < k ==> named[j] != params[i].name@),
        source_of(params, positional, named, i) is Default ==> i >= positional && !named.contains(params[i].name@)
            && source_of(params, positional, named, i) == ArgSource::Default(params[i].default->0),
{
    lemma_first_index(named, params[i].name@);
    lemma_first_index_first(named, params[i].name@);
}

/// No name before `first_index(names, key)` is `key`.
proof fn lemma_first_index_first(names: Seq<Seq<char>>, key: Seq<char>)
    ensures
        forall|j: int| 0 <= j < first_index(names, key) && j < names.len() ==> names[j] != key,
    decreases names.len(),
{
    if names.len() > 0 && names[0] != key {
        lemma_first_index_first(names.drop_first(), key);
        assert forall|j: int| 0 <= j < first_index(names, key) && j < names.len() implies names[j] != key by {
            if j > 0 {
                assert(names[j] == names.drop_first()[j - 1]);
            }
        }
    }
}

/// Binding stops at the first parameter that is given twice (by place and
/// by name) or not at all (neither by place nor by name, and without a
/// default); every parameter before it is given exactly one way or has a
/// default.
pub proof fn law_binding_stops(params: Seq<FnParam>, positional: int, named: Seq<Seq<char>>, i: int)
    requires
        0 <= i <= params.len(),
    ensures
        i <= first_stop(params, positional, named, i) <= params.len(),
        forall|j: int| i <= j < first_stop(params, positional, named, i) ==> (if j < positional {
            !named.contains(#[trigger] params[j].name@)
        } else {
            named.contains(params[j].name@) || params[j].default is Some
        }),
        first_stop(params, positional, named, i) < params.len() ==> ({
            let k = first_stop(params, positional, named, i);
            if k < positional {
                named.contains(params[k].name@)
            } else {
                !named.contains(params[k].name@) && params[k].default is None
            }
        }),
    decreases params.len() - i,
{
    if i < params.len() && !stops_at(params, positional, named, i) {
        law_binding_stops(params, positional, named, i + 1);
    }
}

/// A named argument is refused exactly when no parameter has its name: the
/// first refused one is named by no parameter, and every one before it is.
pub proof fn law_unknown_named(names: Seq<Seq<char>>, params: Seq<Seq<char>>)
    ensures
        0 <= first_unknown(names, params) <= names.len(),
        forall|j: int| 0 <= j < first_unknown(names, params) ==> params.contains(#[trigger] names[j]),
        first_unknown(names, params) < names.len() ==> !params.contains(names[first_unknown(names, params)]),
    decreases names.len(),
{
    if names.len() > 0 && params.contains(names[0]) {
        law_unknown_named(names.drop_first(), params);
        assert forall|j: int| 0 <= j < first_unknown(names, params) implies params.contains(#[trigger] names[j]) by {
            if j > 0 {
                assert(names[j] == names.drop_first()[j - 1]);
            }
        }
        let u = first_unknown(names.drop_first(), params);
        if u < names.drop_first().len() {
            assert(names[u + 1] == names.drop_first()[u]);
        }
    }
}

} // verus!
