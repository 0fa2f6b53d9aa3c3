//! Paths, as texts with slashes between their components.

use vstd::prelude::*;

use crate::text::{from_chars, same, slice, split_at_each, to_chars};

verus! {

/// The components of a path that name something: what stands between slashes,
/// without empty ones and those that stay where they are.
pub open spec fn components(path: Seq<char>) -> Seq<Seq<char>> {
    naming(crate::text::split(path, seq!['/']))
}

/// The parts that name something.
pub open spec fn naming(parts: Seq<Seq<char>>) -> Seq<Seq<char>>
    decreases parts.len(),
{
    if parts.len() == 0 {
        Seq::empty()
    } else if parts.last().len() == 0 || parts.last() == "."@ {
        naming(parts.drop_last())
    } else {
        naming(parts.drop_last()).push(parts.last())
    }
}

/// The name of the file that a path leads to; nothing where it leads up.
pub open spec fn file_name(path: Seq<char>) -> Option<Seq<char>> {
    let parts = components(path);
    if parts.len() == 0 || parts.last() == ".."@ {
        None
    } else {
        Some(parts.last())
    }
}

/// The place of the last dot before `n`.
pub open spec fn last_dot(name: Seq<char>, n: int) -> Option<int>
    decreases n,
{
    if n <= 0 {
        None
    } else if name[n - 1] == '.' {
        Some(n - 1)
    } else {
        last_dot(name, n - 1)
    }
}

/// A name without its extension: what stands before the last dot, unless that
/// is the first character.
pub open spec fn stem(name: Seq<char>) -> Seq<char> {
    match last_dot(name, name.len() as int) {
        Some(i) => if i > 0 {
            name.take(i)
        } else {
            name
        },
        None => name,
    }
}

/// The extension of a name: what stands behind the last dot, unless that is the
/// first character.
pub open spec fn extension(name: Seq<char>) -> Option<Seq<char>> {
    match last_dot(name, name.len() as int) {
        Some(i) => if i > 0 {
            Some(name.skip(i + 1))
        } else {
            None
        },
        None => None,
    }
}

/// The stem of the file that a path leads to.
pub open spec fn path_stem(path: Seq<char>) -> Option<Seq<char>> {
    match file_name(path) {
        Some(name) => Some(stem(name)),
        None => None,
    }
}

/// The extension of the file that a path leads to.
pub open spec fn path_extension(path: Seq<char>) -> Option<Seq<char>> {
    match file_name(path) {
        Some(name) => extension(name),
        None => None,
    }
}

/// Splits a path into its components.
pub fn path_components(path: &str) -> (r: Vec<Vec<char>>)
    ensures
        crate::text::char_views(r@) == components(path@),
{
    proof {
        reveal_strlit(".");
        reveal_strlit("/");
    }
    let slash: Vec<char> = to_chars("/");
    assert(slash@ == seq!['/']);
    let parts = split_at_each(&to_chars(path), &slash);
    let ghost all = crate::text::char_views(parts@);
    let mut out: Vec<Vec<char>> = Vec::new();
    let mut i: usize = 0;
    assert(crate::text::char_views(out@) == naming(all.take(0)));
    while i < parts.len()
        invariant
            i <= parts.len(),
            all == crate::text::char_views(parts@),
            crate::text::char_views(out@) == naming(all.take(i as int)),
            "."@ == seq!['.'],
        decreases parts.len() - i,
    {
        let part = &parts[i];
        proof {
            assert(all.take(i + 1).drop_last() == all.take(i as int));
            assert(all.take(i + 1).last() == part@);
        }
        if part.len() == 0 || (part.len() == 1 && part[0] == '.') {
            assert(part.len() == 1 ==> part@ == seq!['.']);
        } else {
            let copy = slice(part, 0, part.len());
            assert(copy@ == part@);
            assert(crate::text::char_views(out@.push(copy)) == crate::text::char_views(out@).push(
                copy@,
            ));
            out.push(copy);
        }
        i = i + 1;
    }
    assert(all.take(i as int) == all);
    out
}

/// The name of the file that a path leads to.
fn name_of(path: &str) -> (r: Option<Vec<char>>)
    ensures
        match r {
            Some(n) => file_name(path@) == Some(n@),
            None => file_name(path@) is None,
        },
{
    proof {
        reveal_strlit("..");
    }
    let parts = path_components(path);
    let ghost all = crate::text::char_views(parts@);
    if parts.len() == 0 {
        assert(all.len() == 0);
        return None;
    }
    let last = &parts[parts.len() - 1];
    assert(all.last() == last@);
    if last.len() == 2 && last[0] == '.' && last[1] == '.' {
        assert(last@ == ".."@);
        return None;
    }
    let copy = slice(last, 0, last.len());
    assert(copy@ == last@);
    Some(copy)
}

/// Finds the last dot of a name.
fn find_last_dot(name: &Vec<char>) -> (r: Option<usize>)
    ensures
        match r {
            Some(i) => last_dot(name@, name.len() as int) == Some(i as int) && i < name.len(),
            None => last_dot(name@, name.len() as int) is None,
        },
{
    let mut n: usize = name.len();
    while n > 0
        invariant
            n <= name.len(),
            last_dot(name@, name.len() as int) == last_dot(name@, n as int),
        decreases n,
    {
        if name[n - 1] == '.' {
            return Some(n - 1);
        }
        n = n - 1;
    }
    None
}

/// The stem of the file that a path leads to.
pub fn file_stem(path: &str) -> (r: Option<String>)
    ensures
        crate::fragment::text_view(r) == path_stem(path@),
{
    match name_of(path) {
        Some(name) => {
            if let Some(i) = find_last_dot(&name) {
                if i > 0 {
                    let s = slice(&name, 0, i);
                    assert(s@ == name@.take(i as int));
                    return Some(from_chars(&s));
                }
            }
            Some(from_chars(&name))
        },
        None => None,
    }
}

/// Tells whether a path leads to a file with an extension.
pub fn has_extension(path: &str, wanted: &str) -> (r: bool)
    ensures
        r == (path_extension(path@) == Some(wanted@)),
{
    if let Some(name) = name_of(path) {
        if let Some(i) = find_last_dot(&name) {
            if i > 0 {
                let s = slice(&name, i + 1, name.len());
                assert(s@ == name@.skip(i + 1));
                return same(from_chars(&s).as_str(), wanted);
            }
        }
    }
    false
}

/// Tells whether a path has a component.
pub fn has_component(path: &str, wanted: &str) -> (r: bool)
    ensures
        r == components(path@).contains(wanted@),
{
    let parts = path_components(path);
    let ghost all = crate::text::char_views(parts@);
    let mut i: usize = 0;
    while i < parts.len()
        invariant
            i <= parts.len(),
            all == crate::text::char_views(parts@),
            all == components(path@),
            forall|k: int| 0 <= k < i ==> #[trigger] all[k] != wanted@,
        decreases parts.len() - i,
    {
        assert(all[i as int] == parts@[i as int]@);
        if same(from_chars(&parts[i]).as_str(), wanted) {
            assert(all[i as int] == wanted@);
            return true;
        }
        i = i + 1;
    }
    false
}

/// A path that starts at the root.
pub open spec fn is_absolute(path: Seq<char>) -> bool {
    path.len() > 0 && path[0] == '/'
}

/// A path that leads to a directory, or to something below it.
pub open spec fn is_within(path: Seq<char>, dir: Seq<char>) -> bool {
    is_absolute(path) == is_absolute(dir) && components(dir).is_prefix_of(components(path))
}

/// Tells whether a path leads to a directory, or to something below it.
pub fn lies_within(path: &str, dir: &str) -> (r: bool)
    ensures
        r == is_within(path@, dir@),
{
    let path_chars: Vec<char> = to_chars(path);
    let dir_chars: Vec<char> = to_chars(dir);
    let from_root: bool = path_chars.len() > 0 && path_chars[0] == '/';
    let dir_from_root: bool = dir_chars.len() > 0 && dir_chars[0] == '/';
    if from_root != dir_from_root {
        return false;
    }
    let parts = path_components(path);
    let front = path_components(dir);
    let ghost all = components(path@);
    let ghost first = components(dir@);
    assert(all.len() == parts.len() && first.len() == front.len());
    if front.len() > parts.len() {
        return false;
    }
    let mut i: usize = 0;
    while i < front.len()
        invariant
            i <= front.len() <= parts.len(),
            all == crate::text::char_views(parts@),
            first == crate::text::char_views(front@),
            all == components(path@),
            first == components(dir@),
            first.take(i as int) == all.take(i as int),
        decreases front.len() - i,
    {
        assert(all[i as int] == parts@[i as int]@ && first[i as int] == front@[i as int]@);
        if !same(from_chars(&parts[i]).as_str(), from_chars(&front[i]).as_str()) {
            assert(first[i as int] != all.subrange(0, first.len() as int)[i as int]);
            return false;
        }
        assert(first.take(i + 1) == first.take(i as int).push(first[i as int]));
        assert(all.take(i + 1) == all.take(i as int).push(all[i as int]));
        i = i + 1;
    }
    assert(first.take(i as int) == first);
    true
}

/// A path with a component behind it.
pub open spec fn joined_path(base: Seq<char>, part: Seq<char>) -> Seq<char> {
    if base.len() == 0 || base.last() == '/' {
        base + part
    } else {
        base + seq!['/'] + part
    }
}

/// Puts a component behind a path.
pub fn join_path(base: &str, part: &str) -> (r: String)
    ensures
        r@ == joined_path(base@, part@),
{
    let chars: Vec<char> = to_chars(base);
    let mut s: String = base.to_owned();
    if chars.len() > 0 && chars[chars.len() - 1] != '/' {
        s.push('/');
        assert(s@ == base@ + seq!['/']);
    }
    s.append(part);
    s
}

/// A text with another one in the place of each `~`.
pub open spec fn expanded(s: Seq<char>, home: Seq<char>) -> Seq<char>
    decreases s.len(),
{
    if s.len() == 0 {
        Seq::empty()
    } else if s.last() == '~' {
        expanded(s.drop_last(), home) + home
    } else {
        expanded(s.drop_last(), home).push(s.last())
    }
}

/// Puts the home directory in the place of each `~`.
pub fn expand_home(path: &str, home: &str) -> (r: String)
    ensures
        r@ == expanded(path@, home@),
{
    let chars: Vec<char> = to_chars(path);
    let mut s: String = String::new();
    let mut i: usize = 0;
    while i < chars.len()
        invariant
            i <= chars.len(),
            s@ == expanded(chars@.take(i as int), home@),
        decreases chars.len() - i,
    {
        proof {
            assert(chars@.take(i + 1).drop_last() == chars@.take(i as int));
            assert(chars@.take(i + 1).last() == chars@[i as int]);
        }
        if chars[i] == '~' {
            s.append(home);
        } else {
            s.push(chars[i]);
        }
        i = i + 1;
    }
    assert(chars@.take(i as int) == chars@);
    s
}

/// The home directory, or the working directory where it is not known.
pub open spec fn home_or_here(home: Option<Seq<char>>) -> Seq<char> {
    match home {
        Some(h) => h,
        None => "."@,
    }
}

/// The directory of the memory below a home directory.
pub open spec fn lore_directory(home: Option<Seq<char>>) -> Seq<char> {
    joined_path(home_or_here(home), ".lore"@)
}

/// The directory of the memory.
pub fn lore_home(home: Option<&str>) -> (r: String)
    ensures
        r@ == lore_directory(crate::text::optional_text(home)),
{
    match home {
        Some(h) => join_path(h, ".lore"),
        None => join_path(".", ".lore"),
    }
}

/// A file in the directory of the memory.
pub open spec fn lore_file_path(home: Option<Seq<char>>, name: Seq<char>) -> Seq<char> {
    joined_path(lore_directory(home), name)
}

/// A file in the directory of the memory.
pub fn lore_file(home: Option<&str>, name: &str) -> (r: String)
    ensures
        r@ == lore_file_path(crate::text::optional_text(home), name@),
{
    join_path(lore_home(home).as_str(), name)
}

// ---- laws ----

/// The parts of a path that name something are its components, in their order: neither
/// empty ones nor single dots.
pub proof fn law_components(parts: Seq<Seq<char>>, part: Seq<char>)
    ensures
        naming(Seq::empty()).len() == 0,
        part.len() == 0 || part == "."@ ==> naming(parts.push(part)) == naming(parts),
        part.len() > 0 && part != "."@ ==> naming(parts.push(part)) == naming(parts).push(part),
{
    assert(parts.push(part).drop_last() == parts);
}

proof fn lemma_last_dot(name: Seq<char>, n: int)
    requires
        0 <= n <= name.len(),
    ensures
        match last_dot(name, n) {
            Some(i) => 0 <= i < n && name[i] == '.' && forall|j: int|
                i < j < n ==> #[trigger] name[j] != '.',
            None => forall|j: int| 0 <= j < n ==> #[trigger] name[j] != '.',
        },
    decreases n,
{
    if n > 0 && name[n - 1] != '.' {
        lemma_last_dot(name, n - 1);
    }
}

/// A name is its stem, a dot and its extension, which has no dot itself; without an
/// extension it is its stem. A dot in front makes no extension.
pub proof fn law_stem_and_extension(name: Seq<char>)
    ensures
        match extension(name) {
            Some(e) => name == stem(name) + seq!['.'] + e && !e.contains('.') && stem(name).len()
                > 0,
            None => stem(name) == name && forall|i: int|
                0 < i < name.len() ==> #[trigger] name[i] != '.',
        },
{
    lemma_last_dot(name, name.len() as int);
    if let Some(i) = last_dot(name, name.len() as int) {
        if i > 0 {
            assert(name == name.take(i) + seq!['.'] + name.skip(i + 1));
            let e = name.skip(i + 1);
            if e.contains('.') {
                let j = choose|j: int| 0 <= j < e.len() && e[j] == '.';
                assert(name[i + 1 + j] == '.');
            }
        }
    }
}

/// The file that a path leads to is its last component, unless that leads up; its stem and
/// extension are those of the path.
pub proof fn law_file_name(path: Seq<char>)
    ensures
        components(path).len() == 0 ==> file_name(path) is None && path_stem(path) is None
            && path_extension(path) is None,
        components(path).len() > 0 && components(path).last() == ".."@ ==> file_name(path) is None,
        components(path).len() > 0 && components(path).last() != ".."@ ==> file_name(path) == Some(
            components(path).last(),
        ) && path_stem(path) == Some(stem(components(path).last())) && path_extension(path)
            == extension(components(path).last()),
{
}

/// What lies within a directory: the directory itself and what its path is the beginning
/// of, component by component, both from the root or neither.
pub proof fn law_within(path: Seq<char>, dir: Seq<char>)
    ensures
        is_within(dir, dir),
        is_within(path, dir) ==> components(dir).len() <= components(path).len() && forall|i: int|
            0 <= i < components(dir).len() ==> #[trigger] components(dir)[i] == components(path)[i],
        is_within(path, dir) ==> (path.len() > 0 && path[0] == '/' <==> dir.len() > 0 && dir[0]
            == '/'),
{
    assert(components(dir).is_prefix_of(components(dir)));
}

/// A component is put behind a path with one slash between, and every `~` gives way to the
/// home directory.
pub proof fn law_joined_and_expanded(
    base: Seq<char>,
    part: Seq<char>,
    a: Seq<char>,
    b: Seq<char>,
    home: Seq<char>,
)
    ensures
        joined_path(Seq::empty(), part) == part,
        base.len() > 0 && base.last() != '/' ==> joined_path(base, part) == base + "/"@ + part,
        base.len() > 0 && base.last() == '/' ==> joined_path(base, part) == base + part,
        !a.contains('~') ==> expanded(a, home) == a,
        expanded(a + b, home) == expanded(a, home) + expanded(b, home),
        expanded("~"@, home) == home,
        lore_directory(None) == "./.lore"@,
    decreases b.len(),
{
    reveal_strlit("/");
    reveal_strlit("~");
    reveal_strlit(".");
    reveal_strlit(".lore");
    reveal_strlit("./.lore");
    assert("/"@ == seq!['/']);
    assert(Seq::<char>::empty() + part == part);
    lemma_nothing_to_expand(a, home);
    lemma_expanded_parts(a, b, home);
    let one = "~"@;
    assert(one.drop_last() == Seq::<char>::empty());
    assert(one.last() == '~');
    assert(expanded(one.drop_last(), home) == Seq::<char>::empty());
    assert(Seq::<char>::empty() + home == home);
    assert(lore_directory(None) == "./.lore"@);
}

proof fn lemma_nothing_to_expand(a: Seq<char>, home: Seq<char>)
    ensures
        !a.contains('~') ==> expanded(a, home) == a,
    decreases a.len(),
{
    if a.len() > 0 && !a.contains('~') {
        let front = a.drop_last();
        assert(a[a.len() - 1] != '~');
        assert forall|i: int| 0 <= i < front.len() implies front[i] != '~' by {
            assert(a[i] != '~');
        }
        lemma_nothing_to_expand(front, home);
        assert(front.push(a.last()) == a);
    }
}

proof fn lemma_expanded_parts(a: Seq<char>, b: Seq<char>, home: Seq<char>)
    ensures
        expanded(a + b, home) == expanded(a, home) + expanded(b, home),
    decreases b.len(),
{
    if b.len() == 0 {
        assert(a + b == a);
        assert(expanded(a, home) + expanded(b, home) == expanded(a, home));
    } else {
        lemma_expanded_parts(a, b.drop_last(), home);
        assert((a + b).drop_last() == a + b.drop_last());
        assert((a + b).last() == b.last());
        let front = expanded(b.drop_last(), home);
        if b.last() == '~' {
            assert(expanded(a, home) + front + home == expanded(a, home) + (front + home));
        } else {
            assert((expanded(a, home) + front).push(b.last()) == expanded(a, home) + front.push(
                b.last(),
            ));
        }
    }
}

/// The files of the memory lie in its directory below the home directory.
pub proof fn law_files_of_the_memory(home: Seq<char>, name: Seq<char>)
    ensures
        home.len() > 0 && home.last() != '/' ==> lore_file_path(Some(home), name) == home
            + "/.lore/"@ + name,
{
    reveal_strlit(".lore");
    reveal_strlit("/.lore/");
    if home.len() > 0 && home.last() != '/' {
        let dir = home + seq!['/'] + ".lore"@;
        assert(dir.last() == 'e');
        assert(dir + seq!['/'] + name == home + "/.lore/"@ + name);
    }
}

} // verus!
