//! Modules and projects. A module path names a core module (`@core/name`), a
//! module of the standard library (`@std/name`) or a file; a file path may
//! begin with the prefix of an include of the project, which stands for the
//! include's directory. A project knows its entry point and its includes;
//! `@/` stands for the directory of the entry point.

use vstd::prelude::*;

use crate::error::{ErrorKindView, LangError, LangErrorKind, NativeError};
use crate::strings::starts_with;
use crate::text::{chars_of, copy_range, lit, push_str, string_of};

verus! {

/// What a module path names.
#[derive(Debug, Clone, PartialEq, Eq, Hash)]
pub enum ModuleKind {
    Core(String),
    Std(String),
    UserPath(String),
}

/// The mathematical value of a `ModuleKind`.
pub enum ModuleView {
    Core(Seq<char>),
    Std(Seq<char>),
    UserPath(Seq<char>),
}

impl View for ModuleKind {
    type V = ModuleView;

    open spec fn view(&self) -> ModuleView {
        match self {
            ModuleKind::Core(s) => ModuleView::Core(s@),
            ModuleKind::Std(s) => ModuleView::Std(s@),
            ModuleKind::UserPath(s) => ModuleView::UserPath(s@),
        }
    }
}

/// `p` is a prefix of `s`.
pub open spec fn has_prefix(s: Seq<char>, p: Seq<char>) -> bool {
    p.len() <= s.len() && s.take(p.len() as int) == p
}

/// What `raw` names, before a file path is resolved.
pub open spec fn classify(raw: Seq<char>) -> ModuleView {
    if has_prefix(raw, "@core/"@) {
        ModuleView::Core(raw.skip(6))
    } else if has_prefix(raw, "@std/"@) {
        ModuleView::Std(raw.skip(5))
    } else {
        ModuleView::UserPath(raw)
    }
}

/// The first include, in order, whose prefix begins `raw`, if any.
pub open spec fn first_include(includes: Seq<(Seq<char>, Seq<char>)>, raw: Seq<char>, i: int) -> int
    decreases includes.len() - i,
{
    if i < 0 || i >= includes.len() {
        -1
    } else if has_prefix(raw, includes[i].0) {
        i
    } else {
        first_include(includes, raw, i + 1)
    }
}

/// `s` without its first `n` characters.
fn drop_chars(s: &str, n: usize) -> (r: String)
    requires
        n <= s@.len(),
    ensures
        r@ == s@.skip(n as int),
{
    let a = chars_of(s);
    let r = copy_range(&a, n, a.len());
    assert(r@ =~= s@.skip(n as int));
    string_of(&r)
}

/// The path `std::path::Path::join` makes of `base` and `rest`: `rest`
/// appended after a separator, or `rest` alone when it is absolute. It
/// depends on the two paths alone (the separator is the target's).
pub uninterp spec fn joined_path(base: Seq<char>, rest: Seq<char>) -> Seq<char>;

/// The path `std::path::Path::parent` gives for `path`: `path` without its
/// last component, or nothing for a root or an empty path.
pub uninterp spec fn parent_path(path: Seq<char>) -> Option<Seq<char>>;

/// Calls `std::path::Path::join`. Claimed: the result (in string form,
/// exact since both inputs are UTF-8) is `joined_path` of the two paths.
#[verifier::external_body]
fn path_join(base: &str, rest: &str) -> (r: String)
    ensures
        r@ == joined_path(base@, rest@),
{
    std::path::Path::new(base).join(rest).to_string_lossy().into_owned()
}

/// Calls `std::path::Path::parent`. Claimed: the result is `parent_path`
/// of the path.
#[verifier::external_body]
fn path_parent(path: &str) -> (r: Option<String>)
    ensures
        match r {
            Some(d) => parent_path(path@) == Some(d@),
            None => parent_path(path@) is None,
        },
{
    std::path::Path::new(path).parent().map(|p| p.to_string_lossy().into_owned())
}

/// Whether `std::path::Path::is_absolute` holds of `path` (on the target,
/// whether it starts at a root).
pub uninterp spec fn path_is_absolute(path: Seq<char>) -> bool;

/// What `std::path::Path::extension` gives for `path`: the part of its file
/// name after the last dot, if there is one.
pub uninterp spec fn path_extension(path: Seq<char>) -> Option<Seq<char>>;

/// What `std::path::Path::with_extension` gives: `path` with its extension
/// set to `ext`.
pub uninterp spec fn path_with_extension(path: Seq<char>, ext: Seq<char>) -> Seq<char>;

/// Calls `std::path::Path::is_absolute`. Claimed: the answer is
/// `path_is_absolute` of the path.
#[verifier::external_body]
fn is_absolute_call(path: &str) -> (r: bool)
    ensures
        r == path_is_absolute(path@),
{
    std::path::Path::new(path).is_absolute()
}

/// Calls `std::path::Path::extension`. Claimed: the result is
/// `path_extension` of the path (a part of a string, so itself a string).
#[verifier::external_body]
fn extension_call(path: &str) -> (r: Option<String>)
    ensures
        match r {
            Some(e) => path_extension(path@) == Some(e@),
            None => path_extension(path@) is None,
        },
{
    std::path::Path::new(path).extension().map(|e| e.to_string_lossy().into_owned())
}

/// Calls `std::path::Path::with_extension`, for an extension without a path
/// separator (with one, the standard library panics). Claimed: the result
/// is `path_with_extension` of the path and the extension.
#[verifier::external_body]
fn with_extension_call(path: &str, ext: &str) -> (r: String)
    requires
        forall|k: int| 0 <= k < ext@.len() ==> ext@[k] != '/' && ext@[k] != '\\',
    ensures
        r@ == path_with_extension(path@, ext@),
{
    std::path::Path::new(path).with_extension(ext).to_string_lossy().into_owned()
}

/// Whether `path` is absolute.
pub fn is_absolute(path: &str) -> (r: bool)
    ensures
        r == path_is_absolute(path@),
{
    is_absolute_call(path)
}

/// `base` joined with each of `rest` in turn.
pub open spec fn joined_all(base: Seq<char>, rest: Seq<Seq<char>>) -> Seq<char>
    decreases rest.len(),
{
    if rest.len() == 0 {
        base
    } else {
        joined_path(joined_all(base, rest.drop_last()), rest.last())
    }
}

/// `base` joined with each path of `rest` in turn, as `PathBuf::push` joins
/// them (an absolute path replaces what came before it).
pub fn join_all(base: &str, rest: &[String]) -> (r: String)
    ensures
        r@ == joined_all(base@, rest@.map_values(|s: String| s@)),
{
    let ghost rv = rest@.map_values(|s: String| s@);
    let mut acc = lit(base);
    let mut i: usize = 0;
    while i < rest.len()
        invariant
            i <= rest@.len(),
            rv == rest@.map_values(|s: String| s@),
            acc@ == joined_all(base@, rv.take(i as int)),
        decreases rest.len() - i,
    {
        proof {
            assert(rv.take(i + 1).drop_last() =~= rv.take(i as int));
            assert(rv.take(i + 1).last() == rest@[i as int]@);
        }
        acc = path_join(acc.as_str(), rest[i].as_str());
        i = i + 1;
    }
    proof {
        assert(rv.take(rest@.len() as int) =~= rv);
    }
    acc
}

/// `path` as seen from the directory `root`: itself when absolute, else
/// joined to `root`.
pub fn anchor_path(root: &str, path: &str) -> (r: String)
    ensures
        r@ == if path_is_absolute(path@) {
            path@
        } else {
            joined_path(root@, path@)
        },
{
    if is_absolute_call(path) {
        lit(path)
    } else {
        path_join(root, path)
    }
}

/// The file the module path `path` names, seen from the directory `cwd`:
/// made absolute, with the `.ri` extension when it has none.
pub open spec fn module_file_of(path: Seq<char>, cwd: Seq<char>) -> Seq<char> {
    let base = if path_is_absolute(path) {
        path
    } else {
        joined_path(cwd, path)
    };
    if path_extension(base) is None {
        path_with_extension(base, "ri"@)
    } else {
        base
    }
}

/// The path a user module path stands for in `includes`: the rest of it
/// joined to the directory of the first include whose prefix it starts
/// with, or itself when none does.
pub open spec fn included_path(includes: Seq<(Seq<char>, Seq<char>)>, raw: Seq<char>) -> Seq<char> {
    let i = first_include(includes, raw, 0);
    if i >= 0 {
        joined_path(includes[i].1, raw.skip(includes[i].0.len() as int))
    } else {
        raw
    }
}

/// The file a module path names, seen from the directory `cwd`, with the
/// `.ri` extension when it has none (before links are resolved).
pub fn module_file(path: &str, cwd: &str) -> (r: String)
    ensures
        r@ == module_file_of(path@, cwd@),
{
    let base = anchor_path(cwd, path);
    proof {
        reveal_strlit("ri");
    }
    match extension_call(base.as_str()) {
        None => with_extension_call(base.as_str(), "ri"),
        Some(_) => base,
    }
}

impl ModuleKind {
    /// What `raw` names; a file path is kept as written.
    pub fn from(raw: &str) -> (k: ModuleKind)
        ensures
            k@ == classify(raw@),
    {
        proof {
            reveal_strlit("@core/");
            reveal_strlit("@std/");
        }
        if starts_with(raw, "@core/") {
            ModuleKind::Core(drop_chars(raw, 6))
        } else if starts_with(raw, "@std/") {
            ModuleKind::Std(drop_chars(raw, 5))
        } else {
            ModuleKind::UserPath(lit(raw))
        }
    }

    /// What `raw` names in `project`, with `cwd` the working directory: a
    /// core or std module by its name, or the file of a user module path
    /// (`resolve_user_path`).
    pub fn resolve(raw: &str, project: &Project, cwd: &str) -> (k: ModuleKind)
        ensures
            !(classify(raw@) is UserPath) ==> k@ == classify(raw@),
            classify(raw@) is UserPath ==> k@ == ModuleView::UserPath(
                module_file_of(included_path(project.includes_view(), raw@), cwd@),
            ),
    {
        let k = Self::from(raw);
        match k {
            ModuleKind::UserPath(_) => ModuleKind::UserPath(Self::resolve_user_path(raw, project, cwd)),
            other => other,
        }
    }

    /// The file a user module path names: the rest of it joined to the
    /// directory of the first include whose prefix it starts with, made
    /// absolute from `cwd`, with the `.ri` extension when it has none
    /// (before the file system resolves links).
    pub fn resolve_user_path(raw: &str, project: &Project, cwd: &str) -> (r: String)
        ensures
            r@ == module_file_of(included_path(project.includes_view(), raw@), cwd@),
    {
        let path = match project.match_include(raw) {
            Some((i, rest)) => path_join(project.includes[i].1.as_str(), rest.as_str()),
            None => lit(raw),
        };
        module_file(path.as_str(), cwd)
    }
}

/// A project: its entry point and its includes, each a prefix of module
/// paths and the directory it stands for.
#[derive(Debug, Clone)]
pub struct Project {
    includes: Vec<(String, String)>,
    entrypoint: String,
}

impl Project {
    pub closed spec fn includes_view(&self) -> Seq<(Seq<char>, Seq<char>)> {
        self.includes@.map_values(|p: (String, String)| (p.0@, p.1@))
    }

    pub closed spec fn entrypoint_view(&self) -> Seq<char> {
        self.entrypoint@
    }

    /// The project of the script `entrypoint`, with `@/` standing for its
    /// directory (the script itself when it has none).
    pub fn new(entrypoint: String) -> (p: Project)
        ensures
            p.entrypoint_view() == entrypoint@,
            p.includes_view().len() == 1,
            p.includes_view()[0].0 == "@/"@,
            p.includes_view()[0].1 == match parent_path(entrypoint@) {
                Some(d) => d,
                None => entrypoint@,
            },
    {
        let base = match path_parent(entrypoint.as_str()) {
            Some(d) => d,
            None => entrypoint.clone(),
        };
        Self::with_includes(vec![(lit("@/"), base)], entrypoint)
    }

    /// A project with the given includes and entry point.
    pub fn with_includes(includes: Vec<(String, String)>, entrypoint: String) -> (p: Project)
        ensures
            p.entrypoint_view() == entrypoint@,
            p.includes_view() == includes@.map_values(|q: (String, String)| (q.0@, q.1@)),
    {
        Project { includes, entrypoint }
    }

    pub fn entrypoint(&self) -> (r: &String)
        ensures
            r@ == self.entrypoint_view(),
    {
        &self.entrypoint
    }

    pub fn includes(&self) -> (r: &Vec<(String, String)>)
        ensures
            r@.map_values(|q: (String, String)| (q.0@, q.1@)) == self.includes_view(),
    {
        &self.includes
    }

    /// The first include whose prefix begins `raw`, and the rest of `raw`.
    pub fn match_include(&self, raw: &str) -> (r: Option<(usize, String)>)
        ensures
            match r {
                Some((i, rest)) => i as int == first_include(self.includes_view(), raw@, 0)
                    && i < self.includes_view().len() && rest@ == raw@.skip(self.includes_view()[i as int].0.len() as int),
                None => first_include(self.includes_view(), raw@, 0) < 0,
            },
    {
        let ghost iv = self.includes_view();
        let mut i: usize = 0;
        while i < self.includes.len()
            invariant
                i <= self.includes@.len(),
                iv == self.includes_view(),
                first_include(iv, raw@, 0) == first_include(iv, raw@, i as int),
            decreases self.includes.len() - i,
        {
            let prefix = self.includes[i].0.as_str();
            if starts_with(raw, prefix) {
                proof {
                    assert(iv[i as int].0 == prefix@);
                }
                let n = chars_of(prefix).len();
                return Some((i, drop_chars(raw, n)));
            }
            proof {
                assert(iv[i as int].0 == prefix@);
            }
            i = i + 1;
        }
        None
    }
}

/// The error for a module that does not exist: a core module or a module
/// of the standard library.
pub fn module_not_found(kind: &ModuleKind) -> (r: Option<NativeError>)
    ensures
        match kind@ {
            ModuleView::Core(n) => r matches Some(e) && e.kind@ == "module error"@ && e.message@
                == "core library module not found: "@ + n,
            ModuleView::Std(n) => r matches Some(e) && e.kind@ == "module error"@ && e.message@
                == "standard library module not found: "@ + n,
            ModuleView::UserPath(_) => r is None,
        },
{
    match kind {
        ModuleKind::Core(n) => {
            let mut m = chars_of("core library module not found: ");
            push_str(&mut m, n.as_str());
            Some(NativeError::new("module error", string_of(&m)))
        },
        ModuleKind::Std(n) => {
            let mut m = chars_of("standard library module not found: ");
            push_str(&mut m, n.as_str());
            Some(NativeError::new("module error", string_of(&m)))
        },
        ModuleKind::UserPath(_) => None,
    }
}

/// The error for a module file that could not be read.
pub fn module_unreadable(display: &str, reason: &str) -> (e: NativeError)
    ensures
        e.kind@ == "module error"@,
        e.message@ == "cannot read module '"@ + display@ + "': "@ + reason@,
{
    let mut m = chars_of("cannot read module '");
    push_str(&mut m, display);
    push_str(&mut m, "': ");
    push_str(&mut m, reason);
    NativeError::new("module error", string_of(&m))
}

/// The name a module's source is registered under: `@std/name` for a module
/// of the standard library, the path for a file.
pub fn module_source_name(kind: &ModuleKind) -> (r: Option<String>)
    ensures
        match kind@ {
            ModuleView::Std(n) => r matches Some(s) && s@ == "@std/"@ + n,
            ModuleView::UserPath(p) => r matches Some(s) && s@ == p,
            ModuleView::Core(_) => r is None,
        },
{
    match kind {
        ModuleKind::Std(n) => {
            let mut m = chars_of("@std/");
            push_str(&mut m, n.as_str());
            Some(string_of(&m))
        },
        ModuleKind::UserPath(p) => Some(p.clone()),
        ModuleKind::Core(_) => None,
    }
}

/// The error kind and message that a failure while loading a module raises
/// in the program that required it: a runtime error keeps its subkind and
/// message; any other error is a `parse error` with the error's summary.
pub fn module_failure(e: &LangError) -> (r: (String, String))
    ensures
        match e.kind@ {
            ErrorKindView::Runtime(sub) => r.0@ == sub && r.1@ == e.message@,
            _ => r.0@ == "parse error"@ && r.1@ == e.summary(),
        },
{
    match &e.kind {
        LangErrorKind::RuntimeError { subkind } => (subkind.clone(), e.message.clone()),
        _ => (lit("parse error"), e.extract()),
    }
}

/// The error for `break` or `continue` used outside of a loop.
pub fn loop_control_error(is_break: bool) -> (e: NativeError)
    ensures
        e.kind@ == "loop control used outside of a loop"@,
        e.message@ == "control is a "@ + if is_break { "break"@ } else { "continue"@ },
{
    let mut m = chars_of("control is a ");
    push_str(&mut m, if is_break { "break" } else { "continue" });
    NativeError::new("loop control used outside of a loop", string_of(&m))
}

} // verus!
