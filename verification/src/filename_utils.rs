//! File names: stems, extensions and hidden entries.
//!
//! Paths are texts whose components are separated by `/`.

use crate::text::{
    chars_of, first_index, last_index, last_position, lemma_last_index, lemma_last_index_is,
    position_from,
};
use vstd::prelude::*;

verus! {

/// The stem of `path`: what stands before its first `.`, the whole of it
/// where it has none. The first `.` counts wherever it stands, in a
/// directory's name too.
pub open spec fn stem(path: Seq<char>) -> Seq<char> {
    path.take(first_index(path, '.'))
}

/// The last component of `path`, where that names a file or directory: a
/// separator at the end and components `.` are passed over, and a path that
/// ends in `..` or holds no other component has none.
pub open spec fn file_name(path: Seq<char>) -> Option<Seq<char>>
    decreases path.len(),
{
    if path.len() == 0 {
        None
    } else if path.last() == '/' {
        file_name(path.drop_last())
    } else if path.last() == '.' && (path.len() == 1 || path[path.len() - 2] == '/') {
        if path.len() == 1 {
            None
        } else {
            file_name(path.drop_last())
        }
    } else {
        let name = path.skip(last_index(path, '/') + 1);
        if name == seq!['.', '.'] {
            None
        } else {
            Some(name)
        }
    }
}

/// The extension of a file name: what follows its last `.`, unless it has
/// none or only the one it begins with.
pub open spec fn name_extension(name: Seq<char>) -> Option<Seq<char>> {
    let dot = last_index(name, '.');
    if dot <= 0 {
        None
    } else {
        Some(name.skip(dot + 1))
    }
}

/// The extension of the file that `path` names, if it has one.
pub open spec fn extension(path: Seq<char>) -> Option<Seq<char>> {
    match file_name(path) {
        None => None,
        Some(name) => name_extension(name),
    }
}

/// The last index of `c` in the part of `s` from `start` on, counted from
/// `start`, is the last index in `s` where that is not before `start`.
pub proof fn lemma_last_index_skip(s: Seq<char>, start: int, c: char)
    requires
        0 <= start <= s.len(),
    ensures
        last_index(s.skip(start), c) == if last_index(s, c) >= start {
            last_index(s, c) - start
        } else {
            -1
        },
{
    lemma_last_index(s, c);
    let k = last_index(s, c);
    if k >= start {
        lemma_last_index_is(s.skip(start), c, k - start);
    } else {
        lemma_last_index_is(s.skip(start), c, -1);
    }
}

/// `source` up to its first `.`.
pub fn strip_extension(source: &str) -> (r: &str)
    ensures
        r@ == stem(source@),
{
    let v = chars_of(source);
    let dot = position_from(&v, 0, '.');
    assert(v@.skip(0) =~= v@);
    source.substring_char(0, dot)
}

/// Whether the characters of `v` from `from` up to `to` are those of `e`.
fn range_equals(v: &Vec<char>, from: usize, to: usize, e: &Vec<char>) -> (r: bool)
    requires
        from <= to <= v.len(),
    ensures
        r == (v@.subrange(from as int, to as int) == e@),
{
    if e.len() != to - from {
        return false;
    }
    let mut k: usize = 0;
    while k < e.len()
        invariant
            from <= to <= v.len(),
            e.len() == to - from,
            k <= e.len(),
            forall|j: int| 0 <= j < k ==> e@[j] == v@[from + j],
        decreases e.len() - k,
    {
        if e[k] != v[from + k] {
            assert(v@.subrange(from as int, to as int)[k as int] == v@[from + k]);
            return false;
        }
        k += 1;
    }
    assert(v@.subrange(from as int, to as int) =~= e@);
    true
}

/// Whether the file that `path` names has the extension `ext`.
pub fn has_extension(path: &str, ext: &str) -> (r: bool)
    ensures
        r == (extension(path@) == Some(ext@)),
{
    let v = chars_of(path);
    let e = chars_of(ext);
    let mut end: usize = v.len();
    assert(v@.take(end as int) =~= v@);
    loop
        invariant
            v@ == path@,
            end <= v.len(),
            file_name(path@) == file_name(v@.take(end as int)),
        ensures
            end == 0 || !(v@[end - 1] == '/' || (v@[end - 1] == '.' && (end == 1 || v@[end - 2]
                == '/'))),
        decreases end,
    {
        let ghost head = v@.take(end as int);
        if end == 0 {
            break ;
        }
        assert(head.last() == v@[end - 1]);
        assert(head.drop_last() =~= v@.take(end - 1));
        if v[end - 1] == '/' {
            end -= 1;
        } else if v[end - 1] == '.' && (end == 1 || v[end - 2] == '/') {
            if end == 1 {
                return false;
            }
            assert(head[end - 2] == v@[end - 2]);
            end -= 1;
        } else {
            break ;
        }
    }
    if end == 0 {
        return false;
    }
    let ghost head = v@.take(end as int);
    assert(head.last() == v@[end - 1]);
    if end >= 2 {
        assert(head[end - 2] == v@[end - 2]);
    }
    let start: usize = match last_position(&v, end, '/') {
        Some(i) => i + 1,
        None => 0,
    };
    proof {
        lemma_last_index(head, '/');
    }
    let ghost name = head.skip(start as int);
    assert(name =~= v@.subrange(start as int, end as int));
    if end - start == 2 && v[start] == '.' && v[start + 1] == '.' {
        assert(name =~= seq!['.', '.']);
        return false;
    }
    assert(name != seq!['.', '.']) by {
        if name == seq!['.', '.'] {
            assert(name.len() == 2);
            assert(name[0] == '.' && name[1] == '.');
        }
    }
    assert(file_name(path@) == Some(name));
    proof {
        lemma_last_index_skip(head, start as int, '.');
    }
    match last_position(&v, end, '.') {
        None => false,
        Some(dot) => {
            if dot <= start {
                false
            } else {
                assert(name.skip(dot - start + 1) =~= v@.subrange(dot + 1, end as int));
                range_equals(&v, dot + 1, end, &e)
            }
        },
    }
}

/// Whether an entry with this file name is hidden: its name begins with `.`.
pub fn is_hidden(file_name: &str) -> (r: bool)
    ensures
        r == (file_name@.len() > 0 && file_name@[0] == '.'),
{
    !file_name.is_empty() && file_name.get_char(0) == '.'
}

} // verus!
