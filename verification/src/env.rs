//! Lexical scopes. All the scopes of a run live in one `Env`; a scope is
//! named by its `EnvRef` and may have a parent scope, made before it. A name
//! is bound at most once per scope: `define` refuses to bind it again (the
//! REPL uses `upsert`, which rebinds). `get` and `set` look a name up from a
//! scope outwards through its parents.

use vstd::prelude::*;

use crate::error::NativeError;
use crate::text::{chars_of, lit, push_str, string_of};

verus! {

/// A scope of an `Env`.
#[derive(Debug, Clone, Copy, PartialEq, Eq, Structural)]
pub struct EnvRef(pub usize);

struct Frame<V> {
    parent: Option<usize>,
    names: Vec<String>,
    values: Vec<V>,
}

/// The scopes of a run.
pub struct Env<V> {
    frames: Vec<Frame<V>>,
}

/// The position of `key` among `names`, or -1.
pub open spec fn slot(names: Seq<Seq<char>>, key: Seq<char>) -> int
    decreases names.len(),
{
    if names.len() == 0 {
        -1
    } else if names.last() == key {
        names.len() - 1
    } else {
        slot(names.drop_last(), key)
    }
}

pub proof fn lemma_slot(names: Seq<Seq<char>>, key: Seq<char>)
    ensures
        -1 <= slot(names, key) < names.len(),
        slot(names, key) >= 0 ==> names[slot(names, key)] == key,
        slot(names, key) == -1 <==> !names.contains(key),
    decreases names.len(),
{
    if names.len() > 0 {
        lemma_slot(names.drop_last(), key);
        if names.last() != key {
            if slot(names, key) == -1 {
                assert forall|i: int| 0 <= i < names.len() implies names[i] != key by {
                    if i < names.len() - 1 {
                        assert(names.drop_last()[i] == names[i]);
                    }
                }
            } else {
                assert(names.drop_last().contains(key));
            }
        } else {
            assert(names[names.len() - 1] == key);
        }
    }
}

/// `names` holds no name twice.
pub open spec fn distinct(names: Seq<Seq<char>>) -> bool {
    forall|i: int, j: int| 0 <= i < j < names.len() ==> names[i] != names[j]
}

impl<V> Frame<V> {
    spec fn keys(&self) -> Seq<Seq<char>> {
        self.names@.map_values(|s: String| s@)
    }
}

impl<V> Env<V> {
    /// Number of scopes.
    pub closed spec fn len(&self) -> nat {
        self.frames@.len()
    }

    /// The parent of scope `f`.
    pub closed spec fn parent(&self, f: int) -> Option<int> {
        match self.frames@[f].parent {
            Some(p) => Some(p as int),
            None => None,
        }
    }

    /// The names bound in scope `f`, in the order they were bound.
    pub closed spec fn names(&self, f: int) -> Seq<Seq<char>> {
        self.frames@[f].keys()
    }

    /// The value bound to `key` in scope `f` itself.
    pub closed spec fn local(&self, f: int, key: Seq<char>) -> Option<V> {
        let k = slot(self.frames@[f].keys(), key);
        if k >= 0 {
            Some(self.frames@[f].values@[k])
        } else {
            None
        }
    }

    pub closed spec fn wf(&self) -> bool {
        forall|f: int|
            0 <= f < self.frames@.len() ==> {
                &&& (#[trigger] self.frames@[f]).names@.len() == self.frames@[f].values@.len()
                &&& distinct(self.frames@[f].keys())
                &&& match self.frames@[f].parent {
                    Some(p) => p < f,
                    None => true,
                }
            }
    }

    /// The scope that binds `key` as seen from scope `f`: `f` itself or the
    /// nearest parent that does.
    pub open spec fn owner(&self, f: int, key: Seq<char>) -> Option<int>
        decreases f,
    {
        if f < 0 {
            None
        } else if self.local(f, key) is Some {
            Some(f)
        } else {
            match self.parent(f) {
                Some(p) => if 0 <= p < f {
                    self.owner(p, key)
                } else {
                    None
                },
                None => None,
            }
        }
    }

    /// The value of `key` as seen from scope `f`.
    pub open spec fn lookup(&self, f: int, key: Seq<char>) -> Option<V> {
        match self.owner(f, key) {
            Some(o) => self.local(o, key),
            None => None,
        }
    }

    /// `self` is `old` with scope `f` holding `m` and every other scope as before.
    pub open spec fn updated(&self, old: &Env<V>, f: int) -> bool {
        &&& self.len() == old.len()
        &&& forall|g: int| 0 <= g < old.len() ==> #[trigger] self.parent(g) == old.parent(g)
        &&& forall|g: int, k: Seq<char>| 0 <= g < old.len() && g != f ==> #[trigger] self.local(g, k) == old.local(g, k)
    }

    /// No scopes yet.
    pub fn new() -> (e: Env<V>)
        ensures
            e.wf(),
            e.len() == 0,
    {
        Env { frames: Vec::new() }
    }

    /// A new scope without a parent.
    /// The number of scopes; the valid `EnvRef`s are those below it.
    pub fn frame_count(&self) -> (n: usize)
        ensures
            n == self.len(),
    {
        self.frames.len()
    }

    pub fn root(&mut self) -> (r: EnvRef)
        requires
            old(self).wf(),
        ensures
            final(self).wf(),
            r.0 == old(self).len(),
            final(self).len() == old(self).len() + 1,
            final(self).parent(r.0 as int) is None,
            forall|k: Seq<char>| #[trigger] final(self).local(r.0 as int, k) is None,
            forall|g: int| 0 <= g < old(self).len() ==> #[trigger] final(self).parent(g) == old(self).parent(g),
            forall|g: int, k: Seq<char>| 0 <= g < old(self).len() ==> #[trigger] final(self).local(g, k) == old(self).local(g, k),
    {
        self.push_frame(None)
    }

    /// A new scope inside `env`.
    pub fn inner(&mut self, env: EnvRef) -> (r: EnvRef)
        requires
            old(self).wf(),
            env.0 < old(self).len(),
        ensures
            final(self).wf(),
            r.0 == old(self).len(),
            final(self).len() == old(self).len() + 1,
            final(self).parent(r.0 as int) == Some(env.0 as int),
            forall|k: Seq<char>| #[trigger] final(self).local(r.0 as int, k) is None,
            forall|g: int| 0 <= g < old(self).len() ==> #[trigger] final(self).parent(g) == old(self).parent(g),
            forall|g: int, k: Seq<char>| 0 <= g < old(self).len() ==> #[trigger] final(self).local(g, k) == old(self).local(g, k),
    {
        self.push_frame(Some(env.0))
    }

    fn push_frame(&mut self, parent: Option<usize>) -> (r: EnvRef)
        requires
            old(self).wf(),
            parent matches Some(p) ==> p < old(self).len(),
        ensures
            final(self).wf(),
            r.0 == old(self).len(),
            final(self).len() == old(self).len() + 1,
            final(self).parent(r.0 as int) == match parent {
                Some(p) => Some(p as int),
                None => None,
            },
            forall|k: Seq<char>| #[trigger] final(self).local(r.0 as int, k) is None,
            forall|g: int| 0 <= g < old(self).len() ==> #[trigger] final(self).parent(g) == old(self).parent(g),
            forall|g: int, k: Seq<char>| 0 <= g < old(self).len() ==> #[trigger] final(self).local(g, k) == old(self).local(g, k),
    {
        let r = EnvRef(self.frames.len());
        let ghost before = self.frames@;
        self.frames.push(Frame { parent, names: Vec::new(), values: Vec::new() });
        proof {
            let fr = self.frames@[r.0 as int];
            assert(fr.keys() =~= Seq::<Seq<char>>::empty());
            assert forall|g: int| 0 <= g < before.len() implies #[trigger] self.frames@[g] == before[g] by {}
        }
        r
    }

    /// The position of `key` in scope `f`, if it is bound there.
    fn find(&self, f: usize, key: &String) -> (k: Option<usize>)
        requires
            self.wf(),
            f < self.len(),
        ensures
            match k {
                Some(k) => k as int == slot(self.names(f as int), key@),
                None => slot(self.names(f as int), key@) == -1,
            },
    {
        let names = &self.frames[f].names;
        let ghost ks = self.frames@[f as int].keys();
        let mut j: usize = names.len();
        proof {
            assert(ks.take(j as int) =~= ks);
        }
        while j > 0
            invariant
                j <= names@.len(),
                ks == names@.map_values(|s: String| s@),
                slot(ks, key@) == slot(ks.take(j as int), key@),
                ks == self.frames@[f as int].keys(),
            decreases j,
        {
            let ghost t = ks.take(j as int);
            assert(t.drop_last() =~= ks.take(j - 1));
            assert(t.last() == names@[j - 1]@);
            if names[j - 1] == *key {
                return Some(j - 1);
            }
            j = j - 1;
        }
        proof {
            assert(ks.take(0) =~= Seq::<Seq<char>>::empty());
        }
        None
    }

    /// Binds `key` in scope `env`; a name already bound there is an error.
    pub fn define(&mut self, env: EnvRef, key: &str, value: V) -> (r: Result<(), NativeError>)
        requires
            old(self).wf(),
            env.0 < old(self).len(),
        ensures
            final(self).wf(),
            final(self).updated(old(self), env.0 as int),
            match r {
                Ok(_) => old(self).local(env.0 as int, key@) is None && forall|k: Seq<char>|
                    #[trigger] final(self).local(env.0 as int, k) == if k == key@ {
                        Some(value)
                    } else {
                        old(self).local(env.0 as int, k)
                    },
                Err(e) => old(self).local(env.0 as int, key@) is Some && *final(self) == *old(self)
                    && e.kind@ == "definition error"@ && e.message@ == "redefinition of key '"@ + key@
                    + "' in this scope"@,
            },
    {
        let k = lit(key);
        match self.find(env.0, &k) {
            Some(_) => {
                let mut m = chars_of("redefinition of key '");
                push_str(&mut m, key);
                push_str(&mut m, "' in this scope");
                Err(NativeError::new("definition error", string_of(&m)))
            },
            None => {
                self.bind_new(env.0, k, value);
                Ok(())
            },
        }
    }

    /// Binds `key` in scope `env`, replacing a value bound there before.
    pub fn upsert(&mut self, env: EnvRef, key: &str, value: V)
        requires
            old(self).wf(),
            env.0 < old(self).len(),
        ensures
            final(self).wf(),
            final(self).updated(old(self), env.0 as int),
            forall|k: Seq<char>|
                #[trigger] final(self).local(env.0 as int, k) == if k == key@ {
                    Some(value)
                } else {
                    old(self).local(env.0 as int, k)
                },
    {
        let k = lit(key);
        match self.find(env.0, &k) {
            Some(i) => {
                proof {
                    lemma_slot(self.names(env.0 as int), key@);
                    assert(self.frames@[env.0 as int].names@.len() == self.frames@[env.0 as int].values@.len());
                }
                self.replace(env.0, i, value, Ghost(key@))
            },
            None => self.bind_new(env.0, k, value),
        }
    }

    /// The value of `key` as seen from scope `env`.
    pub fn get(&self, env: EnvRef, key: &str) -> (r: Result<&V, NativeError>)
        requires
            self.wf(),
            env.0 < self.len(),
        ensures
            match r {
                Ok(v) => self.lookup(env.0 as int, key@) == Some(*v),
                Err(e) => self.lookup(env.0 as int, key@) is None && e.kind@ == "definition error"@
                    && e.message@ == "get of undefined key '"@ + key@ + "' in this scope"@,
            },
    {
        let k = lit(key);
        match self.find_owner(env.0, &k) {
            Some((f, i)) => {
                proof {
                    lemma_slot(self.names(f as int), key@);
                }
                Ok(&self.frames[f].values[i])
            },
            None => {
                let mut m = chars_of("get of undefined key '");
                push_str(&mut m, key);
                push_str(&mut m, "' in this scope");
                Err(NativeError::new("definition error", string_of(&m)))
            },
        }
    }

    /// Rebinds `key` in the scope that binds it as seen from `env`.
    pub fn set(&mut self, env: EnvRef, key: &str, value: V) -> (r: Result<(), NativeError>)
        requires
            old(self).wf(),
            env.0 < old(self).len(),
        ensures
            final(self).wf(),
            match r {
                Ok(_) => old(self).owner(env.0 as int, key@) matches Some(o) && final(self).updated(
                    old(self),
                    o,
                ) && forall|k: Seq<char>|
                    #[trigger] final(self).local(o, k) == if k == key@ {
                        Some(value)
                    } else {
                        old(self).local(o, k)
                    },
                Err(e) => old(self).owner(env.0 as int, key@) is None && *final(self) == *old(self)
                    && e.kind@ == "definition error"@ && e.message@ == "set of undefined key '"@
                    + key@ + "' in this scope"@,
            },
    {
        let k = lit(key);
        match self.find_owner(env.0, &k) {
            Some((f, i)) => {
                self.replace(f, i, value, Ghost(key@));
                Ok(())
            },
            None => {
                let mut m = chars_of("set of undefined key '");
                push_str(&mut m, key);
                push_str(&mut m, "' in this scope");
                Err(NativeError::new("definition error", string_of(&m)))
            },
        }
    }

    /// The scope that binds `key` as seen from `f`, and its position there.
    fn find_owner(&self, f: usize, key: &String) -> (r: Option<(usize, usize)>)
        requires
            self.wf(),
            f < self.len(),
        ensures
            match r {
                Some((o, i)) => self.owner(f as int, key@) == Some(o as int) && o < self.len()
                    && i as int == slot(self.names(o as int), key@) && i < self.frames@[o as int].values@.len(),
                None => self.owner(f as int, key@) is None,
            },
        decreases f,
    {
        match self.find(f, key) {
            Some(i) => {
                proof {
                    lemma_slot(self.names(f as int), key@);
                    assert(self.frames@[f as int].names@.len() == self.frames@[f as int].values@.len());
                }
                Some((f, i))
            },
            None => {
                match self.frames[f].parent {
                    Some(p) => {
                        proof {
                            assert(self.frames@[f as int].parent == Some(p));
                        }
                        self.find_owner(p, key)
                    },
                    None => None,
                }
            },
        }
    }

    /// Replaces the value at position `i` of scope `f`, where `key` is bound.
    fn replace(&mut self, f: usize, i: usize, value: V, Ghost(key): Ghost<Seq<char>>)
        requires
            old(self).wf(),
            f < old(self).len(),
            i as int == slot(old(self).names(f as int), key),
            i < old(self).frames@[f as int].values@.len(),
        ensures
            final(self).wf(),
            final(self).updated(old(self), f as int),
            forall|k: Seq<char>|
                #[trigger] final(self).local(f as int, k) == if k == key {
                    Some(value)
                } else {
                    old(self).local(f as int, k)
                },
    {
        let ghost before = self.frames@;
        let ghost fr0 = self.frames@[f as int];
        proof {
            lemma_slot(fr0.keys(), key);
        }
        self.frames[f].values.set(i, value);
        proof {
            let fr = self.frames@[f as int];
            assert(fr.keys() =~= fr0.keys());
            assert forall|g: int| 0 <= g < before.len() && g != f implies #[trigger] self.frames@[g] == before[g] by {}
            assert forall|k: Seq<char>| #[trigger] self.local(f as int, k) == (if k == key {
                Some(value)
            } else {
                old(self).local(f as int, k)
            }) by {
                lemma_slot(fr0.keys(), k);
                if k != key && slot(fr0.keys(), k) >= 0 {
                    assert(slot(fr0.keys(), k) != i);
                }
            }
        }
    }

    /// Adds the binding `key` to scope `f`, where it is not bound.
    fn bind_new(&mut self, f: usize, key: String, value: V)
        requires
            old(self).wf(),
            f < old(self).len(),
            slot(old(self).names(f as int), key@) == -1,
        ensures
            final(self).wf(),
            final(self).updated(old(self), f as int),
            forall|k: Seq<char>|
                #[trigger] final(self).local(f as int, k) == if k == key@ {
                    Some(value)
                } else {
                    old(self).local(f as int, k)
                },
    {
        let ghost before = self.frames@;
        let ghost fr0 = self.frames@[f as int];
        let ghost kv = key@;
        proof {
            lemma_slot(fr0.keys(), kv);
        }
        self.frames[f].names.push(key);
        self.frames[f].values.push(value);
        proof {
            let fr = self.frames@[f as int];
            assert(fr.keys() =~= fr0.keys().push(kv));
            assert forall|g: int| 0 <= g < before.len() && g != f implies #[trigger] self.frames@[g] == before[g] by {}
            assert(distinct(fr.keys())) by {
                assert forall|i: int, j: int| 0 <= i < j < fr.keys().len() implies fr.keys()[i] != fr.keys()[j] by {
                    if j == fr.keys().len() - 1 {
                        assert(fr0.keys()[i] == fr.keys()[i]);
                        assert(fr0.keys().contains(fr0.keys()[i]));
                    } else {
                        assert(fr0.keys()[i] == fr.keys()[i]);
                        assert(fr0.keys()[j] == fr.keys()[j]);
                    }
                }
            }
            assert forall|k: Seq<char>| #[trigger] self.local(f as int, k) == (if k == kv {
                Some(value)
            } else {
                old(self).local(f as int, k)
            }) by {
                assert(fr.keys().drop_last() =~= fr0.keys());
                lemma_slot(fr0.keys(), k);
                assert(fr.keys().last() == kv);
            }
        }
    }
}

/// A scope sees the names it binds itself with their own values.
pub proof fn law_lookup_local<V>(e: Env<V>, f: int, k: Seq<char>)
    requires
        0 <= f < e.len(),
        e.local(f, k) is Some,
    ensures
        e.lookup(f, k) == e.local(f, k),
{
}

/// A scope that does not bind a name sees it as its parent does.
pub proof fn law_lookup_inherits<V>(e: Env<V>, f: int, k: Seq<char>)
    requires
        e.wf(),
        0 <= f < e.len(),
        e.local(f, k) is None,
    ensures
        match e.parent(f) {
            Some(p) => e.lookup(f, k) == e.lookup(p, k),
            None => e.lookup(f, k) is None,
        },
{
    assert(e.frames@[f].names@.len() == e.frames@[f].values@.len());
}

/// Binding `k` to `v` in scope `f` (what `define` and `upsert` do) makes
/// `f` see `v` for `k`.
pub proof fn law_get_after_define<V>(before: Env<V>, after: Env<V>, f: int, k: Seq<char>, v: V)
    requires
        0 <= f < before.len(),
        after.updated(&before, f),
        forall|k2: Seq<char>| #[trigger] after.local(f, k2) == if k2 == k {
            Some(v)
        } else {
            before.local(f, k2)
        },
    ensures
        after.lookup(f, k) == Some(v),
{
    assert(after.local(f, k) == Some(v));
}

/// Changing a scope leaves what the scopes made before it see unchanged:
/// a binding made in an inner scope is not seen from outside.
pub proof fn law_outer_unchanged<V>(before: Env<V>, after: Env<V>, f: int, g: int, k: Seq<char>)
    requires
        before.wf(),
        0 <= g < f < before.len(),
        after.updated(&before, f),
    ensures
        after.lookup(g, k) == before.lookup(g, k),
    decreases g,
{
    lemma_owner_unchanged(before, after, f, g, k);
}

proof fn lemma_owner_unchanged<V>(before: Env<V>, after: Env<V>, f: int, g: int, k: Seq<char>)
    requires
        before.wf(),
        0 <= g < f < before.len(),
        after.updated(&before, f),
    ensures
        after.owner(g, k) == before.owner(g, k),
        after.lookup(g, k) == before.lookup(g, k),
    decreases g,
{
    assert(after.local(g, k) == before.local(g, k));
    assert(after.parent(g) == before.parent(g));
    if before.local(g, k) is None {
        match before.parent(g) {
            Some(p) => {
                assert(before.frames@[g].names@.len() == before.frames@[g].values@.len());
                if 0 <= p < g {
                    lemma_owner_unchanged(before, after, f, p, k);
                }
            },
            None => {},
        }
    } else {
    }
    match after.owner(g, k) {
        Some(o) => {
            lemma_owner_below(before, g, k);
            assert(o <= g);
            assert(after.local(o, k) == before.local(o, k));
        },
        None => {},
    }
}

proof fn lemma_owner_below<V>(e: Env<V>, g: int, k: Seq<char>)
    requires
        0 <= g < e.len(),
    ensures
        e.owner(g, k) matches Some(o) ==> 0 <= o <= g && e.local(o, k) is Some,
    decreases g,
{
    if e.local(g, k) is None {
        match e.parent(g) {
            Some(p) => {
                if 0 <= p < g {
                    lemma_owner_below(e, p, k);
                }
            },
            None => {},
        }
    }
}

/// Rebinding `k` in the scope that binds it as seen from `f` (what `set`
/// does) makes `f` see the new value.
pub proof fn law_get_after_set<V>(before: Env<V>, after: Env<V>, f: int, o: int, k: Seq<char>, v: V)
    requires
        before.wf(),
        0 <= f < before.len(),
        before.owner(f, k) == Some(o),
        after.updated(&before, o),
        forall|k2: Seq<char>| #[trigger] after.local(o, k2) == if k2 == k {
            Some(v)
        } else {
            before.local(o, k2)
        },
    ensures
        after.lookup(f, k) == Some(v),
    decreases f,
{
    assert(after.local(o, k) == Some(v));
    if f != o {
        assert(before.local(f, k) is None);
        assert(after.local(f, k) == before.local(f, k));
        assert(after.parent(f) == before.parent(f));
        match before.parent(f) {
            Some(p) => {
                assert(before.frames@[f].names@.len() == before.frames@[f].values@.len());
                law_get_after_set(before, after, p, o, k, v);
            },
            None => {},
        }
    }
}

} // verus!
