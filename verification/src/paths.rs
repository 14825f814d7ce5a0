//! File-path questions that the analysis asks of `std::path`, and the
//! import-naming and module-name rules built on them. Paths are held as text.

use vstd::prelude::*;

use crate::text::looks_path_like_text;

verus! {

/// Whether `std::path::Path` orders the first path before the second.
pub uninterp spec fn path_precedes(a: Seq<char>, b: Seq<char>) -> bool;

/// Whether `std::path::Path` takes the text as an absolute path.
pub uninterp spec fn path_is_absolute(p: Seq<char>) -> bool;

/// Whether `std::path::Path::starts_with` holds of the two paths: `base` is a
/// leading run of whole components of `p`.
pub uninterp spec fn path_starts_with(p: Seq<char>, base: Seq<char>) -> bool;

/// The extension that `std::path::Path::extension` finds in the path.
pub uninterp spec fn path_extension(p: Seq<char>) -> Option<Seq<char>>;

/// The path that `std::path::Path::with_extension` makes with the empty
/// extension: the path without its extension.
pub uninterp spec fn path_without_extension(p: Seq<char>) -> Seq<char>;

/// The parent that `std::path::Path::parent` finds, if any.
pub uninterp spec fn path_parent(p: Seq<char>) -> Option<Seq<char>>;

/// The rest of the path that `std::path::Path::strip_prefix` leaves, if
/// `base` is a prefix of it.
pub uninterp spec fn path_strip_prefix(p: Seq<char>, base: Seq<char>) -> Option<Seq<char>>;

/// The order of `std::path::Path` on two path texts: whether the first
/// comes before the second. The result depends on the two texts alone;
/// nothing more is stated of it.
#[verifier::external_body]
pub(crate) fn path_less(a: &str, b: &str) -> (r: bool)
    ensures
        r == path_precedes(a@, b@),
{
    std::path::Path::new(a) < std::path::Path::new(b)
}

/// `Path::is_absolute` on the path text. The result depends on the path text
/// alone, under the path syntax of the platform the library is built for;
/// nothing more is stated of it.
#[verifier::external_body]
fn is_absolute_path(p: &str) -> (r: bool)
    ensures
        r == path_is_absolute(p@),
{
    std::path::Path::new(p).is_absolute()
}

/// `Path::starts_with` on two path texts, comparing whole components. The
/// result depends on the two texts alone, under the platform's path syntax;
/// nothing more is stated of it.
#[verifier::external_body]
fn path_text_starts_with(p: &str, base: &str) -> (r: bool)
    ensures
        r == path_starts_with(p@, base@),
{
    std::path::Path::new(p).starts_with(base)
}

/// `Path::extension` on a path text, as text. The result depends on the text
/// alone; nothing more is stated of it.
#[verifier::external_body]
fn extension_of(p: &str) -> (r: Option<String>)
    ensures
        r is Some == path_extension(p@) is Some,
        r matches Some(e) ==> e@ == path_extension(p@)->0,
{
    std::path::Path::new(p).extension().map(|e| e.to_string_lossy().into_owned())
}

/// `Path::with_extension` with the empty extension on a path text, as text:
/// the path without its extension. The extension is fixed to the empty one,
/// which holds no path separator, so the call does not panic. The result
/// depends on the text alone; nothing more is stated of it.
#[verifier::external_body]
fn without_extension(p: &str) -> (r: String)
    ensures
        r@ == path_without_extension(p@),
{
    std::path::Path::new(p).with_extension("").to_string_lossy().into_owned()
}

/// `Path::parent` on a path text, as text. The result depends on the text
/// alone; nothing more is stated of it.
#[verifier::external_body]
fn parent_of(p: &str) -> (r: Option<String>)
    ensures
        r is Some == path_parent(p@) is Some,
        r matches Some(q) ==> q@ == path_parent(p@)->0,
{
    std::path::Path::new(p).parent().map(|q| q.to_string_lossy().into_owned())
}

/// `Path::strip_prefix` on two path texts, as text. The result depends on the
/// two texts alone; nothing more is stated of it.
#[verifier::external_body]
fn strip_path_prefix(p: &str, base: &str) -> (r: Option<String>)
    ensures
        r is Some == path_strip_prefix(p@, base@) is Some,
        r matches Some(q) ==> q@ == path_strip_prefix(p@, base@)->0,
{
    std::path::Path::new(p).strip_prefix(base).ok().map(|q| q.to_string_lossy().into_owned())
}

/// A character with `\` mapped to `/`.
pub open spec fn forward_slash(c: char) -> char {
    if c == '\\' {
        '/'
    } else {
        c
    }
}

/// The text with every `\\` replaced by `/`, as `str::replace` does it.
pub fn replace_backslashes(s: &str) -> (r: String)
    ensures
        r@ == s@.map_values(|c: char| forward_slash(c)),
{
    let t = crate::text::chars_of(s);
    let mut out = String::new();
    let mut i: usize = 0;
    proof {
        reveal_strlit("/");
    }
    while i < t.len()
        invariant
            0 <= i <= t.len(),
            t@ == s@,
            out@ == s@.take(i as int).map_values(|c: char| forward_slash(c)),
        decreases t.len() - i,
    {
        let ghost before = out@;
        if t[i] == '\\' {
            proof {
                reveal_strlit("/");
            }
            out.append("/");
            assert(out@ =~= before.push('/'));
        } else {
            let piece = s.substring_char(i, i + 1);
            out.append(piece);
            assert(piece@ =~= seq![s@[i as int]]);
            assert(out@ =~= before.push(s@[i as int]));
        }
        proof {
            assert(s@.take(i + 1).map_values(|c: char| forward_slash(c)) =~= s@.take(i as int).map_values(
                |c: char| forward_slash(c),
            ).push(forward_slash(s@[i as int])));
        }
        i += 1;
    }
    proof {
        assert(s@.take(i as int) =~= s@);
    }
    out
}

/// Whether a module name of an import reads like a file path rather than a
/// module name.
pub fn module_name_looks_path_like(module_name: &str) -> (r: bool)
    ensures
        r == (looks_path_like_text(module_name@) || path_is_absolute(module_name@)),
{
    let t = crate::text::chars_of(module_name);
    let slash: Vec<char> = vec!['/'];
    let backslash: Vec<char> = vec!['\\'];
    let ext: Vec<char> = vec!['.', 'r', 'h', 'a', 'i'];
    let dot_slash: Vec<char> = vec!['.', '/'];
    let dots_slash: Vec<char> = vec!['.', '.', '/'];
    let dot_back: Vec<char> = vec!['.', '\\'];
    let dots_back: Vec<char> = vec!['.', '.', '\\'];
    let has_slash = crate::text::chars_contain(&t, &slash);
    let has_backslash = crate::text::chars_contain(&t, &backslash);
    proof {
        assert(slash@ =~= seq!['/']);
        assert(backslash@ =~= seq!['\\']);
        if has_slash {
            let i = choose|i: int| 0 <= i && i + 1 <= t@.len() && #[trigger] t@.subrange(i, i + 1) == seq!['/'];
            assert(t@[i] == t@.subrange(i, i + 1)[0]);
        }
        if t@.contains('/') {
            let i = choose|i: int| 0 <= i < t@.len() && t@[i] == '/';
            assert(t@.subrange(i, i + 1) =~= seq!['/']);
        }
        if has_backslash {
            let i = choose|i: int| 0 <= i && i + 1 <= t@.len() && #[trigger] t@.subrange(i, i + 1) == seq!['\\'];
            assert(t@[i] == t@.subrange(i, i + 1)[0]);
        }
        if t@.contains('\\') {
            let i = choose|i: int| 0 <= i < t@.len() && t@[i] == '\\';
            assert(t@.subrange(i, i + 1) =~= seq!['\\']);
        }
        assert(ext@ =~= seq!['.', 'r', 'h', 'a', 'i']);
        assert(dot_slash@ =~= seq!['.', '/']);
        assert(dots_slash@ =~= seq!['.', '.', '/']);
        assert(dot_back@ =~= seq!['.', '\\']);
        assert(dots_back@ =~= seq!['.', '.', '\\']);
    }
    let absolute = is_absolute_path(module_name);
    path_like_from_parts(has_slash || has_backslash || crate::text::chars_end(&t, &ext) || crate::text::chars_start(
        &t,
        &dot_slash,
    ) || crate::text::chars_start(&t, &dots_slash) || crate::text::chars_start(&t, &dot_back)
        || crate::text::chars_start(&t, &dots_back), absolute)
}

/// Whether a module name reads like a file path, given whether its text
/// reads like one and whether the platform takes it as an absolute path.
pub fn path_like_from_parts(looks_path_like: bool, absolute: bool) -> (r: bool)
    ensures
        r == (looks_path_like || absolute),
{
    looks_path_like || absolute
}

/// The index of the first source root that contains `path`.
pub fn source_root_index_for_path(path: &str, source_roots: &[String]) -> (r: Option<usize>)
    ensures
        match r {
            Some(i) => i < source_roots@.len() && path_starts_with(path@, source_roots@[i as int]@)
                && forall|j: int|
                0 <= j < i ==> !path_starts_with(path@, #[trigger] source_roots@[j]@),
            None => forall|j: int|
                0 <= j < source_roots@.len() ==> !path_starts_with(path@, #[trigger] source_roots@[j]@),
        },
{
    let mut i: usize = 0;
    while i < source_roots.len()
        invariant
            0 <= i <= source_roots.len(),
            forall|j: int| 0 <= j < i ==> !path_starts_with(path@, #[trigger] source_roots@[j]@),
        decreases source_roots.len() - i,
    {
        if path_text_starts_with(path, source_roots[i].as_str()) {
            return Some(i);
        }
        i += 1;
    }
    None
}

/// A provider path without its `.rhai` extension.
pub open spec fn rhai_stripped(p: Seq<char>) -> Seq<char> {
    if path_extension(p) == Some("rhai"@) {
        path_without_extension(p)
    } else {
        p
    }
}

/// Drops a `.rhai` extension from a path.
pub fn strip_rhai_extension(path: &str) -> (r: String)
    ensures
        r@ == rhai_stripped(path@),
{
    let extension = extension_of(path);
    if is_rhai_extension(&extension) {
        without_extension(path)
    } else {
        path.to_owned()
    }
}

/// Whether the extension that `Path::extension` found is `rhai`.
pub fn is_rhai_extension(extension: &Option<String>) -> (r: bool)
    ensures
        r == (match extension {
            Some(e) => e@ == "rhai"@,
            None => false,
        }),
{
    match extension {
        Some(e) => crate::generics::str_eq(e.as_str(), "rhai"),
        None => false,
    }
}

/// The module name under which `importer_path` would import
/// `provider_path`: the provider's path without `.rhai`, made relative to the
/// importer's directory when it lies inside it, with `/` separators.
pub open spec fn auto_import_module(importer: Seq<char>, provider: Seq<char>) -> Option<Seq<char>> {
    let relative = rhai_stripped(provider);
    let dir = match path_parent(importer) {
        Some(d) => d,
        None => Seq::empty(),
    };
    module_name_from(relative, path_strip_prefix(relative, dir))
}

/// The module name made of the provider's path without `.rhai` and, when
/// it lies inside the importer's directory, its path relative to that
/// directory: the relative path where it is non-empty, else the whole one,
/// with `/` separators; none when that is empty.
pub open spec fn module_name_from(relative: Seq<char>, within_dir: Option<Seq<char>>) -> Option<Seq<char>> {
    let candidate = match within_dir {
        Some(c) => if c.len() > 0 {
            c
        } else {
            relative
        },
        None => relative,
    };
    let name = candidate.map_values(|c: char| forward_slash(c));
    if name.len() > 0 {
        Some(name)
    } else {
        None
    }
}

/// The module name, as `module_name_from` states, given the provider's path
/// without `.rhai` and what `Path::strip_prefix` left of it against the
/// importer's directory.
pub fn auto_import_module_from_parts(relative: String, within_dir: Option<String>) -> (r: Option<String>)
    ensures
        r is Some == module_name_from(relative@, crate::module_completions::opt_text(within_dir)) is Some,
        r matches Some(s) ==> s@ == module_name_from(relative@, crate::module_completions::opt_text(within_dir))->0,
{
    let candidate = match within_dir {
        Some(c) => {
            if c.as_str().is_empty() {
                relative
            } else {
                c
            }
        },
        None => relative,
    };
    let module_name = replace_backslashes(candidate.as_str());
    if module_name.as_str().is_empty() {
        None
    } else {
        Some(module_name)
    }
}

/// The module name under which one workspace file would import another.
pub fn auto_import_module_name(importer_path: &str, provider_path: &str) -> (r: Option<String>)
    ensures
        r is Some == auto_import_module(importer_path@, provider_path@) is Some,
        r matches Some(s) ==> s@ == auto_import_module(importer_path@, provider_path@)->0,
{
    let relative = strip_rhai_extension(provider_path);
    let importer_dir = match parent_of(importer_path) {
        Some(d) => d,
        None => String::new(),
    };
    let within_dir = strip_path_prefix(relative.as_str(), importer_dir.as_str());
    auto_import_module_from_parts(relative, within_dir)
}

} // verus!
