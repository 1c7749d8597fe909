//! Paths as texts with `/` between their components: the last component, the
//! parent, and the full path of a path that may be relative.

use crate::text::{chars_of, free_of};
use vstd::prelude::*;
use vstd::string::{StrSliceExecFns, StringExecFns};

verus! {

/// Where the component that ends at `end` starts: behind the last `/` before
/// `end`, or at the start of the path.
pub open spec fn component_start(path: Seq<char>, end: int) -> int
    decreases end,
{
    if end <= 0 || end > path.len() {
        0
    } else if path[end - 1] == '/' {
        end
    } else {
        component_start(path, end - 1)
    }
}

/// A component `.` that follows another part of the path: it stands for the
/// directory before it and is passed over.
pub open spec fn is_skipped_dot(path: Seq<char>, start: int, end: int) -> bool {
    start > 0 && end - start == 1 && path[start] == '.'
}

/// Where the last component of the first `end` characters ends. Separators
/// at the end are passed over, and so is a `.` behind a separator. The result
/// is `0` where no component is left.
pub open spec fn last_component_end(path: Seq<char>, end: int) -> int
    decreases end,
{
    if end <= 0 || end > path.len() {
        0
    } else if path[end - 1] == '/' {
        last_component_end(path, end - 1)
    } else {
        let start = component_start(path, end);
        if is_skipped_dot(path, start, end) {
            last_component_end(path, start)
        } else {
            end
        }
    }
}

/// The first `end` characters without the separators and the `.` components
/// at their end; a `/` that is the root stays.
pub open spec fn trimmed_end(path: Seq<char>, end: int) -> int
    decreases end,
{
    if end <= 0 || end > path.len() {
        0
    } else if path[end - 1] == '/' {
        if end == 1 {
            1
        } else {
            trimmed_end(path, end - 1)
        }
    } else {
        let start = component_start(path, end);
        if is_skipped_dot(path, start, end) {
            trimmed_end(path, start)
        } else {
            end
        }
    }
}

/// The base name of a path: its last component, unless that is `.` or `..`,
/// or the path has no component at all.
pub open spec fn base_name(path: Seq<char>) -> Option<Seq<char>> {
    let end = last_component_end(path, path.len() as int);
    let start = component_start(path, end);
    let name = path.subrange(start, end);
    if end == 0 || name == seq!['.'] || name == seq!['.', '.'] {
        None
    } else {
        Some(name)
    }
}

/// The parent of a path: what stands before its last component, without the
/// separators at its end. A path without a component has no parent.
pub open spec fn parent_of(path: Seq<char>) -> Option<Seq<char>> {
    let end = last_component_end(path, path.len() as int);
    if end == 0 {
        None
    } else {
        Some(path.take(trimmed_end(path, component_start(path, end))))
    }
}

/// A path is absolute when it starts at the root.
pub open spec fn is_absolute(path: Seq<char>) -> bool {
    path.len() > 0 && path[0] == '/'
}

/// `path` without the `./` that it starts with, however many times.
pub open spec fn without_leading_dots(path: Seq<char>) -> Seq<char>
    decreases path.len(),
{
    if path.len() >= 2 && path[0] == '.' && path[1] == '/' {
        without_leading_dots(path.skip(2))
    } else {
        path
    }
}

proof fn lemma_component_is_whole(path: Seq<char>, end: int)
    requires
        0 <= end <= path.len(),
    ensures
        0 <= component_start(path, end) <= end,
        forall|k: int| component_start(path, end) <= k < end ==> #[trigger] path[k] != '/',
    decreases end,
{
    if end > 0 && path[end - 1] != '/' {
        lemma_component_is_whole(path, end - 1);
    }
}

proof fn lemma_last_component_is_real(path: Seq<char>, end: int)
    requires
        0 <= end <= path.len(),
    ensures
        0 <= last_component_end(path, end) <= end,
        last_component_end(path, end) > 0 ==> path[last_component_end(path, end) - 1] != '/',
    decreases end,
{
    if end > 0 {
        if path[end - 1] == '/' {
            lemma_last_component_is_real(path, end - 1);
        } else {
            lemma_component_is_whole(path, end);
            let start = component_start(path, end);
            if is_skipped_dot(path, start, end) {
                lemma_last_component_is_real(path, start);
            }
        }
    }
}

/// A base name is a component of the path: it is not empty, it holds no
/// separator, and it is neither `.` nor `..`.
pub proof fn lemma_base_name_is_a_name(path: Seq<char>)
    requires
        base_name(path) is Some,
    ensures
        base_name(path)->0.len() > 0,
        free_of(base_name(path)->0, '/'),
        base_name(path)->0 != seq!['.'],
        base_name(path)->0 != seq!['.', '.'],
{
    let end = last_component_end(path, path.len() as int);
    lemma_last_component_is_real(path, path.len() as int);
    lemma_component_is_whole(path, end);
    lemma_component_is_whole(path, end - 1);
    let start = component_start(path, end);
    let name = path.subrange(start, end);
    assert(start < end);
    assert forall|k: int| 0 <= k < name.len() implies #[trigger] name[k] != '/' by {
        assert(name[k] == path[start + k]);
    }
}

/// Where the component that ends at `end` starts.
fn start_of_component(chars: &Vec<char>, end: usize) -> (start: usize)
    requires
        end <= chars@.len(),
    ensures
        start == component_start(chars@, end as int),
        start <= end,
{
    let mut start: usize = end;
    while start > 0 && chars[start - 1] != '/'
        invariant
            start <= end <= chars@.len(),
            component_start(chars@, end as int) == component_start(chars@, start as int),
        decreases start,
    {
        start -= 1;
    }
    start
}

/// Where the last component of the first `end` characters ends.
fn end_of_last_component(chars: &Vec<char>, end: usize) -> (out: usize)
    requires
        end <= chars@.len(),
    ensures
        out == last_component_end(chars@, end as int),
        out <= end,
{
    let mut e: usize = end;
    loop
        invariant
            e <= end <= chars@.len(),
            last_component_end(chars@, end as int) == last_component_end(chars@, e as int),
        decreases e,
    {
        if e == 0 {
            return 0;
        }
        if chars[e - 1] == '/' {
            e -= 1;
        } else {
            let start: usize = start_of_component(chars, e);
            if start > 0 && e - start == 1 && chars[start] == '.' {
                e = start;
            } else {
                return e;
            }
        }
    }
}

/// The first `end` characters without the separators and `.` components at
/// their end.
fn end_without_trail(chars: &Vec<char>, end: usize) -> (out: usize)
    requires
        end <= chars@.len(),
    ensures
        out == trimmed_end(chars@, end as int),
        out <= end,
{
    let mut e: usize = end;
    loop
        invariant
            e <= end <= chars@.len(),
            trimmed_end(chars@, end as int) == trimmed_end(chars@, e as int),
        decreases e,
    {
        if e == 0 {
            return 0;
        }
        if chars[e - 1] == '/' {
            if e == 1 {
                return 1;
            }
            e -= 1;
        } else {
            let start: usize = start_of_component(chars, e);
            if start > 0 && e - start == 1 && chars[start] == '.' {
                e = start;
            } else {
                return e;
            }
        }
    }
}

/// The base name of `path`, if it has one.
pub fn file_name(path: &str) -> (name: Option<String>)
    ensures
        match base_name(path@) {
            Some(n) => name matches Some(s) && s@ == n,
            None => name is None,
        },
{
    let chars: Vec<char> = chars_of(path);
    let end: usize = end_of_last_component(&chars, chars.len());
    let start: usize = start_of_component(&chars, end);
    if end == 0 {
        return None;
    }
    let dot: bool = end - start == 1 && chars[start] == '.';
    let dots: bool = end - start == 2 && chars[start] == '.' && chars[start + 1] == '.';
    proof {
        let name = path@.subrange(start as int, end as int);
        if dot {
            assert(name =~= seq!['.']);
        }
        if dots {
            assert(name =~= seq!['.', '.']);
        }
        if name == seq!['.'] {
            assert(name.len() == 1 && name[0] == '.');
        }
        if name == seq!['.', '.'] {
            assert(name.len() == 2 && name[0] == '.' && name[1] == '.');
        }
    }
    if dot || dots {
        None
    } else {
        Some(String::from_str(path.substring_char(start, end)))
    }
}

/// The parent of `path`, if it has one.
pub fn parent_folder(path: &str) -> (parent: Option<String>)
    ensures
        match parent_of(path@) {
            Some(p) => parent matches Some(s) && s@ == p,
            None => parent is None,
        },
{
    let chars: Vec<char> = chars_of(path);
    let end: usize = end_of_last_component(&chars, chars.len());
    if end == 0 {
        return None;
    }
    let start: usize = start_of_component(&chars, end);
    let cut: usize = end_without_trail(&chars, start);
    Some(String::from_str(path.substring_char(0, cut)))
}

/// Whether `path` starts at the root.
pub fn starts_at_root(path: &str) -> (b: bool)
    ensures
        b == is_absolute(path@),
{
    let chars: Vec<char> = chars_of(path);
    chars.len() > 0 && chars[0] == '/'
}

/// `path` without the `./` that it starts with, however many times.
pub fn strip_leading_dots(path: &str) -> (out: String)
    ensures
        out@ == without_leading_dots(path@),
{
    let chars: Vec<char> = chars_of(path);
    let mut from: usize = 0;
    assert(path@.skip(0) =~= path@);
    while chars.len() - from >= 2 && chars[from] == '.' && chars[from + 1] == '/'
        invariant
            from <= chars@.len(),
            chars@ == path@,
            without_leading_dots(path@) == without_leading_dots(path@.skip(from as int)),
        decreases chars.len() - from,
    {
        proof {
            assert(path@.skip(from as int).skip(2) =~= path@.skip(from as int + 2));
        }
        from += 2;
    }
    assert(path@.skip(from as int) =~= path@.subrange(from as int, path@.len() as int));
    String::from_str(path.substring_char(from, chars.len()))
}

} // verus!
