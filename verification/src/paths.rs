//! The parts of file paths, with `/` between components.

use vstd::prelude::*;
use vstd::string::*;

verus! {

/// The first place of `c` at or behind `i`; the length where there is none.
pub open spec fn first_at(text: Seq<char>, c: char, i: int) -> int
    decreases text.len() - i,
{
    if i >= text.len() || text[i] == c {
        i
    } else {
        first_at(text, c, i + 1)
    }
}

/// What stands before and behind the first `c`; `None` where there is none.
pub open spec fn split_at_first(text: Seq<char>, c: char) -> Option<(Seq<char>, Seq<char>)> {
    let i = first_at(text, c, 0);
    if i < text.len() {
        Some((text.take(i), text.subrange(i + 1, text.len() as int)))
    } else {
        None
    }
}

/// What stands before and behind the first `c`; `None` where there is none.
pub fn split_once<'a>(text: &'a str, c: char) -> (parts: Option<(&'a str, &'a str)>)
    ensures
        match parts {
            Some((a, b)) => split_at_first(text@, c) == Some((a@, b@)),
            None => split_at_first(text@, c) is None,
        },
{
    let n: usize = text.unicode_len();
    let mut i: usize = 0;
    while i < n && text.get_char(i) != c
        invariant
            n == text@.len(),
            i <= n,
            first_at(text@, c, 0) == first_at(text@, c, i as int),
        decreases n - i,
    {
        i = i + 1;
    }
    if i < n {
        let before: &'a str = text.substring_char(0, i);
        let behind: &'a str = text.substring_char(i + 1, n);
        assert(before@ =~= text@.take(i as int));
        Some((before, behind))
    } else {
        None
    }
}

/// Where the component that ends at `end` begins.
pub open spec fn component_start(path: Seq<char>, end: int) -> int
    decreases end,
{
    if end <= 0 || path[end - 1] == '/' {
        end
    } else {
        component_start(path, end - 1)
    }
}

/// Where the last component among the first `end` characters begins and ends;
/// `None` where there is none that names a file. Separators at the end do not
/// count, nor do single dots behind a separator; two dots name no file.
pub open spec fn name_bounds(path: Seq<char>, end: int) -> Option<(int, int)>
    decreases end,
    via name_bounds_decreases
{
    if end <= 0 {
        None
    } else if path[end - 1] == '/' {
        name_bounds(path, end - 1)
    } else {
        let start = component_start(path, end);
        if end - start == 1 && path[start] == '.' {
            if start == 0 {
                None
            } else {
                name_bounds(path, start)
            }
        } else if end - start == 2 && path[start] == '.' && path[start + 1] == '.' {
            None
        } else {
            Some((start, end))
        }
    }
}

#[via_fn]
proof fn name_bounds_decreases(path: Seq<char>, end: int) {
    if end > 0 {
        lemma_component_start(path, end);
    }
}

proof fn lemma_component_start(path: Seq<char>, end: int)
    requires
        0 <= end,
    ensures
        0 <= component_start(path, end) <= end,
        end > 0 && path[end - 1] != '/' ==> component_start(path, end) < end,
    decreases end,
{
    if end > 0 && path[end - 1] != '/' {
        lemma_component_start(path, end - 1);
    }
}

/// The file name of a path.
pub open spec fn file_name(path: Seq<char>) -> Option<Seq<char>> {
    match name_bounds(path, path.len() as int) {
        Some((start, end)) => Some(path.subrange(start, end)),
        None => None,
    }
}

/// Where the last dot stands among the first `end` characters; -1 where there
/// is none.
pub open spec fn last_dot(name: Seq<char>, end: int) -> int
    decreases end,
{
    if end <= 0 {
        -1
    } else if name[end - 1] == '.' {
        end - 1
    } else {
        last_dot(name, end - 1)
    }
}

/// The file name without its extension: what stands before the last dot,
/// unless that is nothing.
pub open spec fn stem_of(name: Seq<char>) -> Seq<char> {
    let dot = last_dot(name, name.len() as int);
    if dot <= 0 {
        name
    } else {
        name.take(dot)
    }
}

/// The extension of a file name: what stands behind the last dot, unless
/// nothing stands before it.
pub open spec fn extension_of(name: Seq<char>) -> Option<Seq<char>> {
    let dot = last_dot(name, name.len() as int);
    if dot <= 0 {
        None
    } else {
        Some(name.subrange(dot + 1, name.len() as int))
    }
}

/// The file name of a path.
pub fn name_in<'a>(path: &'a str) -> (name: Option<&'a str>)
    ensures
        match name {
            Some(n) => file_name(path@) == Some(n@),
            None => file_name(path@) is None,
        },
{
    let mut end: usize = path.unicode_len();
    while end > 0
        invariant
            end <= path@.len(),
            name_bounds(path@, path@.len() as int) == name_bounds(path@, end as int),
        decreases end,
    {
        if path.get_char(end - 1) == '/' {
            end = end - 1;
        } else {
            let mut start: usize = end;
            while start > 0 && path.get_char(start - 1) != '/'
                invariant
                    start <= end <= path@.len(),
                    component_start(path@, end as int) == component_start(path@, start as int),
                decreases start,
            {
                start = start - 1;
            }
            proof {
                lemma_component_start(path@, end as int);
            }
            if end - start == 1 && path.get_char(start) == '.' {
                if start == 0 {
                    return None;
                }
                end = start;
            } else if end - start == 2 && path.get_char(start) == '.' && path.get_char(start + 1)
                == '.' {
                return None;
            } else {
                return Some(path.substring_char(start, end));
            }
        }
    }
    None
}

fn find_last_dot(name: &str) -> (dot: Option<usize>)
    ensures
        match dot {
            Some(i) => i < name@.len() && last_dot(name@, name@.len() as int) == i,
            None => last_dot(name@, name@.len() as int) == -1,
        },
{
    let mut end: usize = name.unicode_len();
    while end > 0
        invariant
            end <= name@.len(),
            last_dot(name@, name@.len() as int) == last_dot(name@, end as int),
        decreases end,
    {
        if name.get_char(end - 1) == '.' {
            return Some(end - 1);
        }
        end = end - 1;
    }
    None
}

/// The file name of a path without its extension.
pub open spec fn file_stem_spec(path: Seq<char>) -> Option<Seq<char>> {
    match file_name(path) {
        Some(name) => Some(stem_of(name)),
        None => None,
    }
}

/// The file name of a path without its extension.
pub fn file_stem<'a>(path: &'a str) -> (stem: Option<&'a str>)
    ensures
        match stem {
            Some(s) => file_stem_spec(path@) == Some(s@),
            None => file_stem_spec(path@) is None,
        },
{
    match name_in(path) {
        None => None,
        Some(name) => match find_last_dot(name) {
            Some(dot) => if dot == 0 {
                Some(name)
            } else {
                let stem: &'a str = name.substring_char(0, dot);
                assert(stem@ =~= name@.take(dot as int));
                Some(stem)
            },
            None => Some(name),
        },
    }
}

/// The extension of a path's file name.
pub open spec fn extension_spec(path: Seq<char>) -> Option<Seq<char>> {
    match file_name(path) {
        Some(name) => extension_of(name),
        None => None,
    }
}

/// The extension of a path's file name.
pub fn extension<'a>(path: &'a str) -> (ext: Option<&'a str>)
    ensures
        match ext {
            Some(s) => extension_spec(path@) == Some(s@),
            None => extension_spec(path@) is None,
        },
{
    match name_in(path) {
        None => None,
        Some(name) => match find_last_dot(name) {
            Some(dot) => if dot == 0 {
                None
            } else {
                let n: usize = name.unicode_len();
                Some(name.substring_char(dot + 1, n))
            },
            None => None,
        },
    }
}

proof fn lemma_first_at(text: Seq<char>, c: char, i: int, k: int)
    requires
        0 <= i <= k <= text.len(),
        forall|j: int| i <= j < k ==> text[j] != c,
        k < text.len() ==> text[k] == c,
    ensures
        first_at(text, c, i) == k,
    decreases k - i,
{
    if i < k {
        lemma_first_at(text, c, i + 1, k);
    }
}

proof fn lemma_first_at_bounds(text: Seq<char>, c: char, i: int)
    requires
        0 <= i <= text.len(),
    ensures
        i <= first_at(text, c, i) <= text.len(),
        first_at(text, c, i) < text.len() ==> text[first_at(text, c, i)] == c,
        forall|j: int| i <= j < first_at(text, c, i) ==> #[trigger] text[j] != c,
    decreases text.len() - i,
{
    if i < text.len() && text[i] != c {
        lemma_first_at_bounds(text, c, i + 1);
    }
}

/// Splitting undoes joining: a text that is put together of two with a separator
/// between them splits into the two, if the first has no separator. A text without
/// one does not split.
pub proof fn texts_split_where_they_were_joined(a: Seq<char>, c: char, b: Seq<char>)
    requires
        !a.contains(c),
    ensures
        split_at_first(a.push(c) + b, c) == Some((a, b)),
        split_at_first(a, c) is None,
{
    let text = a.push(c) + b;
    let n = a.len() as int;
    assert forall|j: int| 0 <= j < n implies text[j] != c && a[j] != c by {
        assert(a.contains(a[j]));
    }
    lemma_first_at(text, c, 0, n);
    lemma_first_at(a, c, 0, n);
    assert(text.take(n) =~= a);
    assert(text.subrange(n + 1, text.len() as int) =~= b);
}

/// The two that a text splits into make up the text, with the separator between
/// them, and the first has no separator.
pub proof fn split_texts_join_again(text: Seq<char>, c: char)
    ensures
        match split_at_first(text, c) {
            Some((a, b)) => !a.contains(c) && a.push(c) + b == text,
            None => !text.contains(c),
        },
{
    lemma_first_at_bounds(text, c, 0);
    if let Some((a, b)) = split_at_first(text, c) {
        assert(a.push(c) + b =~= text);
    }
}

/// A name that is no path: it has characters, none of them a separator, and is
/// neither one dot nor two.
pub open spec fn is_plain_name(name: Seq<char>) -> bool {
    &&& name.len() > 0
    &&& !name.contains('/')
    &&& name != seq!['.']
    &&& name != seq!['.', '.']
}

proof fn lemma_component_at(path: Seq<char>, start: int, end: int)
    requires
        0 <= start <= end <= path.len(),
        forall|j: int| start <= j < end ==> path[j] != '/',
        start > 0 ==> path[start - 1] == '/',
    ensures
        component_start(path, end) == start,
    decreases end - start,
{
    if start < end {
        lemma_component_at(path, start, end - 1);
    }
}

/// The file name of a path is what stands behind its last separator, whatever
/// stands before it.
pub proof fn paths_end_in_their_file_name(dir: Seq<char>, name: Seq<char>)
    requires
        is_plain_name(name),
    ensures
        file_name(name) == Some(name),
        file_name(dir.push('/') + name) == Some(name),
{
    let path = dir.push('/') + name;
    let start = dir.len() as int + 1;
    let end = path.len() as int;
    assert forall|j: int| 0 <= j < name.len() implies name[j] != '/' by {
        assert(name.contains(name[j]));
    }
    assert(path[end - 1] == name[name.len() - 1]);
    lemma_component_at(path, start, end);
    lemma_component_at(name, 0, name.len() as int);
    assert(path[start] == name[0]);
    if name.len() == 1 {
        assert(name[0] != '.') by {
            if name[0] == '.' {
                assert(name =~= seq!['.']);
            }
        }
    }
    if name.len() == 2 {
        assert(path[start + 1] == name[1]);
        assert(!(name[0] == '.' && name[1] == '.')) by {
            if name[0] == '.' && name[1] == '.' {
                assert(name =~= seq!['.', '.']);
            }
        }
    }
    assert(path.subrange(start, end) =~= name);
    assert(name.subrange(0, name.len() as int) =~= name);
}

proof fn lemma_bounds_of_prefix(a: Seq<char>, b: Seq<char>, end: int)
    requires
        0 <= end <= a.len(),
        end <= b.len(),
        forall|j: int| 0 <= j < end ==> a[j] == b[j],
    ensures
        name_bounds(a, end) == name_bounds(b, end),
        component_start(a, end) == component_start(b, end),
        name_bounds(a, end) matches Some((s, e)) ==> 0 <= s < e <= end,
    decreases end,
{
    if end > 0 {
        assert(a[end - 1] == b[end - 1]);
        lemma_bounds_of_prefix(a, b, end - 1);
        lemma_component_start(a, end);
        let start = component_start(a, end);
        assert(component_start(b, end) == start);
        if a[end - 1] != '/' {
            assert(a[start] == b[start]);
            if start + 1 < end {
                assert(a[start + 1] == b[start + 1]);
            }
            lemma_bounds_of_prefix(a, b, start);
        }
    }
}

/// A separator at the end of a path does not change its file name, nor does a
/// single dot behind one. A path that ends in two dots names no file.
pub proof fn ends_of_paths_do_not_count(path: Seq<char>)
    ensures
        file_name(path.push('/')) == file_name(path),
        file_name(path.push('/').push('.')) == file_name(path),
        file_name(path.push('/').push('.').push('.')) is None,
{
    let n = path.len() as int;
    let slash = path.push('/');
    let dot = slash.push('.');
    let dots = dot.push('.');
    lemma_bounds_of_prefix(slash, path, n);
    lemma_bounds_of_prefix(dot, path, n);
    lemma_component_at(dot, n + 1, n + 2);
    lemma_component_at(dots, n + 1, n + 3);
    assert(name_bounds(slash, n + 1) == name_bounds(slash, n));
    assert(dot[n] == '/');
    assert(name_bounds(dot, n + 1) == name_bounds(dot, n));
    assert(name_bounds(dot, n + 2) == name_bounds(dot, n + 1));
    if let Some((s, e)) = name_bounds(path, n) {
        assert(slash.subrange(s, e) =~= path.subrange(s, e));
        assert(dot.subrange(s, e) =~= path.subrange(s, e));
    }
}

proof fn lemma_last_dot(name: Seq<char>, end: int, k: int)
    requires
        -1 <= k < end <= name.len() || k == end == -1 || (k == -1 && end == 0),
        forall|j: int| k < j < end ==> name[j] != '.',
        k >= 0 ==> name[k] == '.',
    ensures
        last_dot(name, end) == k,
    decreases end - k,
{
    if end > 0 && k < end - 1 {
        lemma_last_dot(name, end - 1, k);
    }
}

/// A file name is its stem, a dot and its extension: what stands behind the last
/// dot is the extension. A name without a dot, or with one only at its start, is
/// all stem.
pub proof fn names_are_stem_and_extension(stem: Seq<char>, ext: Seq<char>)
    requires
        !ext.contains('.'),
    ensures
        stem.len() > 0 ==> stem_of(stem.push('.') + ext) == stem && extension_of(
            stem.push('.') + ext,
        ) == Some(ext),
        stem_of(ext) == ext,
        extension_of(ext) is None,
        stem_of(seq!['.'] + ext) == seq!['.'] + ext,
        extension_of(seq!['.'] + ext) is None,
{
    let name = stem.push('.') + ext;
    let n = stem.len() as int;
    let hidden = seq!['.'] + ext;
    assert forall|j: int| 0 <= j < ext.len() implies ext[j] != '.' by {
        assert(ext.contains(ext[j]));
    }
    assert forall|j: int| n < j < name.len() implies name[j] != '.' by {
        assert(name[j] == ext[j - n - 1]);
    }
    assert forall|j: int| 0 < j < hidden.len() implies hidden[j] != '.' by {
        assert(hidden[j] == ext[j - 1]);
    }
    lemma_last_dot(name, name.len() as int, n);
    lemma_last_dot(ext, ext.len() as int, -1);
    lemma_last_dot(hidden, hidden.len() as int, 0);
    assert(name.take(n) =~= stem);
    assert(name.subrange(n + 1, name.len() as int) =~= ext);
}

/// The stem and the extension of a path are those of its file name.
pub proof fn paths_have_the_ends_of_their_file_name(
    dir: Seq<char>,
    stem: Seq<char>,
    ext: Seq<char>,
)
    requires
        stem.len() > 0,
        !stem.contains('/'),
        !ext.contains('/'),
        !ext.contains('.'),
        stem != seq!['.'] || ext.len() > 0,
    ensures
        file_stem_spec(dir.push('/') + (stem.push('.') + ext)) == Some(stem),
        extension_spec(dir.push('/') + (stem.push('.') + ext)) == Some(ext),
        file_stem_spec(stem.push('.') + ext) == Some(stem),
        extension_spec(stem.push('.') + ext) == Some(ext),
{
    let name = stem.push('.') + ext;
    assert(!name.contains('/')) by {
        if name.contains('/') {
            let i = choose|i: int| 0 <= i < name.len() && name[i] == '/';
            if i < stem.len() {
                assert(stem.contains(stem[i]));
            } else {
                assert(i > stem.len());
                assert(ext.contains(ext[i - stem.len() - 1]));
            }
        }
    }
    assert(name != seq!['.', '.']) by {
        if name == seq!['.', '.'] {
            if stem.len() == 1 {
                assert(stem[0] == name[0]);
                assert(stem =~= seq!['.']);
            }
        }
    }
    names_are_stem_and_extension(stem, ext);
    paths_end_in_their_file_name(dir, name);
}

} // verus!
