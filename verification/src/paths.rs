//! Paths as sequences of components, and the rules that decide which files
//! of a working tree the repository tracks.
use vstd::prelude::*;
use vstd::utf8::*;
use crate::utils::push_char;

verus! {

/// The components of a path, each by its text.
pub open spec fn components(path: Seq<String>) -> Seq<Seq<char>> {
    path.map_values(|c: String| c@)
}

/// The name of the directory that holds a repository's data.
pub open spec fn repository_dir_name() -> Seq<char> {
    seq!['.', 'm', 'i', 'n', 'i', '-', 'g', 'i', 't']
}

/// Components joined by the path separator `sep`, as a relative path's text
/// reads (`to_string_lossy` of a path made of these components).
pub open spec fn join_components(c: Seq<Seq<char>>, sep: char) -> Seq<char>
    decreases c.len(),
{
    if c.len() == 0 {
        Seq::empty()
    } else if c.len() == 1 {
        c[0]
    } else {
        join_components(c.drop_last(), sep) + seq![sep] + c.last()
    }
}

/// The text `.mini-git`.
pub fn repository_dir() -> (s: String)
    ensures
        s@ == repository_dir_name(),
{
    let mut s = String::new();
    push_char(&mut s, '.');
    push_char(&mut s, 'm');
    push_char(&mut s, 'i');
    push_char(&mut s, 'n');
    push_char(&mut s, 'i');
    push_char(&mut s, '-');
    push_char(&mut s, 'g');
    push_char(&mut s, 'i');
    push_char(&mut s, 't');
    assert(s@ =~= repository_dir_name());
    s
}

/// `path` starts with all components of `base`, component by component.
pub fn path_starts_with(path: &[String], base: &[String]) -> (r: bool)
    ensures
        r == components(base@).is_prefix_of(components(path@)),
{
    let ghost p = components(path@);
    let ghost b = components(base@);
    if base.len() > path.len() {
        return false;
    }
    let n = base.len();
    let mut i: usize = 0;
    while i < n
        invariant
            p == components(path@),
            b == components(base@),
            n == base@.len(),
            n <= path@.len(),
            i <= n,
            forall|j: int| 0 <= j < i ==> b[j] == p[j],
        decreases n - i,
    {
        if path[i] != base[i] {
            assert(!b.is_prefix_of(p)) by {
                if b.is_prefix_of(p) {
                    assert(b[i as int] == p.subrange(0, n as int)[i as int]);
                }
            }
            return false;
        }
        i = i + 1;
    }
    assert(b =~= p.subrange(0, n as int));
    true
}

/// The components `parts[start..]` joined by `separator`.
fn join_from(parts: &[String], start: usize, separator: char) -> (s: String)
    requires
        start <= parts@.len(),
    ensures
        s@ == join_components(components(parts@).skip(start as int), separator),
{
    let ghost c = components(parts@);
    let mut s = String::new();
    let n = parts.len();
    let mut i: usize = start;
    assert(c.skip(start as int).take(0) =~= Seq::<Seq<char>>::empty());
    while i < n
        invariant
            c == components(parts@),
            n == parts@.len(),
            start <= i <= n,
            s@ == join_components(c.skip(start as int).take(i - start), separator),
        decreases n - i,
    {
        let ghost before = c.skip(start as int).take(i - start);
        let ghost after = c.skip(start as int).take(i + 1 - start);
        assert(after.drop_last() =~= before);
        assert(after.last() == parts@[i as int]@);
        if i > start {
            push_char(&mut s, separator);
        } else {
            assert(before.len() == 0);
        }
        s.append(parts[i].as_str());
        assert(s@ =~= join_components(after, separator));
        i = i + 1;
    }
    assert(c.skip(start as int).take(n - start) =~= c.skip(start as int));
    s
}

/// The text of `path` relative to `base`, as `strip_prefix` followed by
/// `to_string_lossy` gives it where `separator` is the platform's path
/// separator (`std::path::MAIN_SEPARATOR`): `None` where `path` does not lie
/// under `base`, else the remaining components joined by `separator`.
pub fn relative_path(path: &[String], base: &[String], separator: char) -> (r: Option<String>)
    ensures
        r is Some <==> components(base@).is_prefix_of(components(path@)),
        r matches Some(s) ==> s@ == join_components(components(path@).skip(base@.len() as int), separator),
{
    if path_starts_with(path, base) {
        Some(join_from(path, base.len(), separator))
    } else {
        None
    }
}

/// `path` lies in the repository directory `.mini-git` of `working_dir`.
pub fn is_in_repository_dir(path: &[String], working_dir: &[String]) -> (r: bool)
    ensures
        r == components(working_dir@).push(repository_dir_name()).is_prefix_of(components(path@)),
{
    let mut repo: Vec<String> = Vec::new();
    let n = working_dir.len();
    let mut i: usize = 0;
    while i < n
        invariant
            n == working_dir@.len(),
            i <= n,
            repo@.len() == i,
            forall|j: int| 0 <= j < i ==> #[trigger] repo@[j]@ == working_dir@[j]@,
        decreases n - i,
    {
        let c = working_dir[i].clone();
        repo.push(c);
        i = i + 1;
    }
    repo.push(repository_dir());
    assert(components(repo@) =~= components(working_dir@).push(repository_dir_name()));
    path_starts_with(path, repo.as_slice())
}

/// The last component of `path` is `.mini-git`.
pub fn is_repository_dir(path: &[String]) -> (r: bool)
    ensures
        r == (path@.len() > 0 && path@.last()@ == repository_dir_name()),
{
    if path.len() == 0 {
        return false;
    }
    let name = repository_dir();
    path[path.len() - 1] == name
}

/// The UTF-8 text holds a '/' directly followed by a '.', that is, some
/// component after the first one starts with a dot.
pub open spec fn has_hidden_component_text(text: Seq<char>) -> bool {
    let b = encode_utf8(text);
    exists|i: int| 0 <= i && i + 1 < b.len() && #[trigger] b[i] == 0x2f_u8 && b[i + 1] == 0x2e_u8
}

/// Whether `text` contains "/.".
pub fn has_hidden_component(text: &str) -> (r: bool)
    ensures
        r == has_hidden_component_text(text@),
{
    let b = text.as_bytes();
    let n = b.len();
    let mut i: usize = 0;
    while i < n
        invariant
            b@ == encode_utf8(text@),
            n == b@.len(),
            i <= n,
            forall|j: int| 0 <= j < i && j + 1 < n ==> !(#[trigger] b@[j] == 0x2f_u8 && b@[j + 1] == 0x2e_u8),
        decreases n - i,
    {
        if i + 1 < n && b[i] == 0x2f && b[i + 1] == 0x2e {
            return true;
        }
        i = i + 1;
    }
    false
}

/// Whether a file that a directory walk met is staged by `add`: never when
/// its text contains "/."; when the walk covers the whole working tree, also
/// not when it lies in the repository directory.
pub fn is_addable(path: &[String], text: &str, working_dir: &[String], whole_tree: bool) -> (r: bool)
    ensures
        r == (!has_hidden_component_text(text@) && (whole_tree ==> !components(
            working_dir@,
        ).push(repository_dir_name()).is_prefix_of(components(path@)))),
{
    if has_hidden_component(text) {
        return false;
    }
    if whole_tree && is_in_repository_dir(path, working_dir) {
        return false;
    }
    true
}

} // verus!
