//! Character-level operations on text.
//!
//! A `str` or `String` is seen as its sequence of characters. The functions
//! here scan and build such sequences; every other module states its
//! contracts over the spec functions of this one.

use vstd::prelude::*;

verus! {

/// Equality of two string slices, `<str as PartialEq>::eq` of the standard
/// library: it holds exactly when both hold the same characters in the same
/// order. Assumed, not proved.
pub assume_specification[ <str as PartialEq>::eq ](a: &str, b: &str) -> (r: bool)
    ensures
        r == (a@ == b@),
;

/// `String::push` of the standard library: the character is appended at the
/// end and nothing else changes. Assumed, not proved.
pub assume_specification[ String::push ](s: &mut String, c: char)
    ensures
        final(s)@ == old(s)@.push(c),
;

/// The index of the first `c` in `s`, or the length of `s` where there is none.
pub open spec fn first_index(s: Seq<char>, c: char) -> int
    decreases s.len(),
{
    if s.len() == 0 || s[0] == c {
        0
    } else {
        1 + first_index(s.drop_first(), c)
    }
}

/// The index of the last `c` in `s`, or -1 where there is none.
pub open spec fn last_index(s: Seq<char>, c: char) -> int
    decreases s.len(),
{
    if s.len() == 0 {
        -1
    } else if s.last() == c {
        s.len() - 1
    } else {
        last_index(s.drop_last(), c)
    }
}

/// Whether `needle` stands in `s` at index `i`.
pub open spec fn occurs_at(s: Seq<char>, needle: Seq<char>, i: int) -> bool {
    0 <= i && i + needle.len() <= s.len() && s.subrange(i, i + needle.len()) == needle
}

/// Whether `needle` occurs in `s` as a run of consecutive characters.
pub open spec fn has_substring(s: Seq<char>, needle: Seq<char>) -> bool {
    exists|i: int| occurs_at(s, needle, i)
}

/// The characters that `char::is_whitespace` accepts: the code points with
/// the Unicode property `White_Space`.
pub open spec fn is_space(c: char) -> bool {
    let n = c as u32;
    (0x09 <= n <= 0x0d) || n == 0x20 || n == 0x85 || n == 0xa0 || n == 0x1680 || (0x2000 <= n
        <= 0x200a) || n == 0x2028 || n == 0x2029 || n == 0x202f || n == 0x205f || n == 0x3000
}

/// The number of whitespace characters at the start of `s`.
pub open spec fn leading_spaces(s: Seq<char>) -> int
    decreases s.len(),
{
    if s.len() == 0 || !is_space(s[0]) {
        0
    } else {
        1 + leading_spaces(s.drop_first())
    }
}

/// `s` without the whitespace at its start.
pub open spec fn trimmed_start(s: Seq<char>) -> Seq<char> {
    s.skip(leading_spaces(s))
}

/// The lines of `text`: the runs of characters between line feeds. A
/// carriage return before a line feed stays with its line, and a text that
/// ends in a line feed has an empty last line.
pub open spec fn lines(text: Seq<char>) -> Seq<Seq<char>>
    decreases text.len(),
{
    let k = first_index(text, '\n');
    if 0 <= k < text.len() {
        seq![text.take(k)] + lines(text.skip(k + 1))
    } else {
        seq![text]
    }
}

/// `parts` written one after the other.
pub open spec fn concat(parts: Seq<Seq<char>>) -> Seq<char>
    decreases parts.len(),
{
    if parts.len() == 0 {
        Seq::empty()
    } else {
        concat(parts.drop_last()) + parts.last()
    }
}

/// `items` written one after the other with `sep` between neighbours.
pub open spec fn joined(items: Seq<Seq<char>>, sep: Seq<char>) -> Seq<char>
    decreases items.len(),
{
    if items.len() == 0 {
        Seq::empty()
    } else if items.len() == 1 {
        items[0]
    } else {
        joined(items.drop_last(), sep) + sep + items.last()
    }
}

/// `first_index` is in range, no earlier character is `c`, and the
/// character at it is `c` unless it is the length.
pub proof fn lemma_first_index(s: Seq<char>, c: char)
    ensures
        0 <= first_index(s, c) <= s.len(),
        forall|j: int| 0 <= j < first_index(s, c) ==> s[j] != c,
        first_index(s, c) < s.len() ==> s[first_index(s, c)] == c,
    decreases s.len(),
{
    if s.len() == 0 || s[0] == c {
    } else {
        let t = s.drop_first();
        lemma_first_index(t, c);
        assert forall|j: int| 0 <= j < first_index(s, c) implies s[j] != c by {
            if j > 0 {
                assert(s[j] == t[j - 1]);
            }
        }
        assert(s[first_index(s, c)] == t[first_index(t, c)] || first_index(s, c) == s.len());
    }
}

/// An index with no `c` before it, which holds `c` or is the length, is
/// `first_index`.
pub proof fn lemma_first_index_is(s: Seq<char>, c: char, i: int)
    requires
        0 <= i <= s.len(),
        forall|j: int| 0 <= j < i ==> s[j] != c,
        i < s.len() ==> s[i] == c,
    ensures
        first_index(s, c) == i,
{
    lemma_first_index(s, c);
    let k = first_index(s, c);
    if k < i {
        assert(s[k] != c);
    } else if k > i {
        assert(s[i] != c);
    }
}

/// `last_index` is in range, no later character is `c`, and the character
/// at it is `c` unless it is -1.
pub proof fn lemma_last_index(s: Seq<char>, c: char)
    ensures
        -1 <= last_index(s, c) < s.len(),
        forall|j: int| last_index(s, c) < j < s.len() ==> s[j] != c,
        0 <= last_index(s, c) ==> s[last_index(s, c)] == c,
    decreases s.len(),
{
    if s.len() == 0 || s.last() == c {
    } else {
        let t = s.drop_last();
        lemma_last_index(t, c);
        assert forall|j: int| last_index(s, c) < j < s.len() implies s[j] != c by {
            if j < s.len() - 1 {
                assert(s[j] == t[j]);
            }
        }
        if 0 <= last_index(s, c) {
            assert(s[last_index(s, c)] == t[last_index(t, c)]);
        }
    }
}

/// An index with no `c` after it, which holds `c` or is -1, is `last_index`.
pub proof fn lemma_last_index_is(s: Seq<char>, c: char, i: int)
    requires
        -1 <= i < s.len(),
        forall|j: int| i < j < s.len() ==> s[j] != c,
        0 <= i ==> s[i] == c,
    ensures
        last_index(s, c) == i,
{
    lemma_last_index(s, c);
    let k = last_index(s, c);
    if k > i {
        assert(s[k] != c);
    } else if k < i {
        assert(s[i] != c);
    }
}

/// `leading_spaces` is in range, every character before it is whitespace,
/// and the character at it, if any, is not.
pub proof fn lemma_leading_spaces(s: Seq<char>)
    ensures
        0 <= leading_spaces(s) <= s.len(),
        forall|j: int| 0 <= j < leading_spaces(s) ==> is_space(s[j]),
        leading_spaces(s) < s.len() ==> !is_space(s[leading_spaces(s)]),
    decreases s.len(),
{
    if s.len() == 0 || !is_space(s[0]) {
    } else {
        let t = s.drop_first();
        lemma_leading_spaces(t);
        assert forall|j: int| 0 <= j < leading_spaces(s) implies is_space(s[j]) by {
            if j > 0 {
                assert(s[j] == t[j - 1]);
            }
        }
        if leading_spaces(s) < s.len() {
            assert(s[leading_spaces(s)] == t[leading_spaces(t)]);
        }
    }
}

/// An index with only whitespace before it, which holds another character
/// or is the length, is `leading_spaces`.
pub proof fn lemma_leading_spaces_is(s: Seq<char>, i: int)
    requires
        0 <= i <= s.len(),
        forall|j: int| 0 <= j < i ==> is_space(s[j]),
        i < s.len() ==> !is_space(s[i]),
    ensures
        leading_spaces(s) == i,
{
    lemma_leading_spaces(s);
    let k = leading_spaces(s);
    if k < i {
        assert(is_space(s[k]));
    } else if k > i {
        assert(is_space(s[i]));
    }
}

/// The characters of `s`, in order.
pub fn chars_of(s: &str) -> (v: Vec<char>)
    ensures
        v@ == s@,
{
    let mut v: Vec<char> = Vec::new();
    for c in it: s.chars()
        invariant
            v@ == it.seq().take(it.index() as int),
            it.seq() == s@,
    {
        v.push(c);
    }
    v
}

/// The string made of the characters of `v` from `from` up to, not
/// including, `to`.
pub fn string_of(v: &Vec<char>, from: usize, to: usize) -> (s: String)
    requires
        from <= to <= v.len(),
    ensures
        s@ == v@.subrange(from as int, to as int),
{
    let mut s = String::new();
    let mut i: usize = from;
    while i < to
        invariant
            from <= i <= to <= v.len(),
            s@ == v@.subrange(from as int, i as int),
        decreases to - i,
    {
        s.push(v[i]);
        i += 1;
        assert(v@.subrange(from as int, i as int) == v@.subrange(from as int, i - 1).push(
            v@[i - 1],
        ));
    }
    s
}

/// The index of the first `c` at or after `start`, or the length of `v`.
pub fn position_from(v: &Vec<char>, start: usize, c: char) -> (i: usize)
    requires
        start <= v.len(),
    ensures
        start <= i <= v.len(),
        i == start + first_index(v@.skip(start as int), c),
{
    let mut i: usize = start;
    while i < v.len() && v[i] != c
        invariant
            start <= i <= v.len(),
            forall|j: int| start <= j < i ==> v@[j] != c,
        decreases v.len() - i,
    {
        i += 1;
    }
    proof {
        lemma_first_index_is(v@.skip(start as int), c, i - start);
    }
    i
}

/// The index of the last `c` before `end`, or `None` where there is none.
pub fn last_position(v: &Vec<char>, end: usize, c: char) -> (r: Option<usize>)
    requires
        end <= v.len(),
    ensures
        match r {
            Some(i) => i < end && i == last_index(v@.take(end as int), c),
            None => last_index(v@.take(end as int), c) == -1,
        },
{
    let mut i: usize = end;
    while i > 0 && v[i - 1] != c
        invariant
            i <= end <= v.len(),
            forall|j: int| i <= j < end ==> v@[j] != c,
        decreases i,
    {
        i -= 1;
    }
    proof {
        lemma_last_index_is(v@.take(end as int), c, i - 1);
    }
    if i == 0 {
        None
    } else {
        Some(i - 1)
    }
}

/// Whether `c` is whitespace.
pub fn is_whitespace(c: char) -> (r: bool)
    ensures
        r == is_space(c),
{
    let n: u32 = c as u32;
    (0x09 <= n && n <= 0x0d) || n == 0x20 || n == 0x85 || n == 0xa0 || n == 0x1680 || (0x2000 <= n
        && n <= 0x200a) || n == 0x2028 || n == 0x2029 || n == 0x202f || n == 0x205f || n == 0x3000
}

/// The index of the first character of `v` that is not whitespace, or the
/// length of `v`.
pub fn skip_spaces(v: &Vec<char>) -> (i: usize)
    ensures
        i == leading_spaces(v@),
        i <= v.len(),
{
    let mut i: usize = 0;
    while i < v.len() && is_whitespace(v[i])
        invariant
            i <= v.len(),
            forall|j: int| 0 <= j < i ==> is_space(v@[j]),
        decreases v.len() - i,
    {
        i += 1;
    }
    proof {
        lemma_leading_spaces_is(v@, i as int);
    }
    i
}

/// Whether `prefix` stands in `v` at index `start`.
pub fn has_prefix_at(v: &Vec<char>, start: usize, prefix: &Vec<char>) -> (r: bool)
    requires
        start <= v.len(),
    ensures
        r == prefix@.is_prefix_of(v@.skip(start as int)),
{
    if prefix.len() > v.len() - start {
        return false;
    }
    let mut k: usize = 0;
    while k < prefix.len()
        invariant
            start <= v.len(),
            prefix.len() <= v.len() - start,
            k <= prefix.len(),
            forall|j: int| 0 <= j < k ==> prefix@[j] == v@[start + j],
        decreases prefix.len() - k,
    {
        if prefix[k] != v[start + k] {
            proof {
                let t = v@.skip(start as int).subrange(0, prefix@.len() as int);
                assert(t[k as int] == v@[start + k]);
            }
            return false;
        }
        k += 1;
    }
    assert(prefix@ =~= v@.skip(start as int).subrange(0, prefix@.len() as int));
    true
}

/// Whether `prefix` stands at the start of `s`.
pub fn starts_with(s: &str, prefix: &str) -> (r: bool)
    ensures
        r == prefix@.is_prefix_of(s@),
{
    let v = chars_of(s);
    let p = chars_of(prefix);
    assert(v@.skip(0) =~= v@);
    has_prefix_at(&v, 0, &p)
}

/// Whether `needle` occurs in `s`.
pub fn contains(s: &str, needle: &str) -> (r: bool)
    ensures
        r == has_substring(s@, needle@),
{
    let v = chars_of(s);
    let p = chars_of(needle);
    if p.len() > v.len() {
        return false;
    }
    let last: usize = v.len() - p.len();
    let mut i: usize = 0;
    while i <= last
        invariant
            v@ == s@,
            p@ == needle@,
            last == v.len() - p.len(),
            i <= last + 1,
            forall|j: int| 0 <= j < i ==> !occurs_at(s@, needle@, j),
        decreases last + 1 - i,
    {
        if has_prefix_at(&v, i, &p) {
            assert(v@.skip(i as int).subrange(0, p@.len() as int) =~= s@.subrange(
                i as int,
                i + needle@.len(),
            ));
            assert(occurs_at(s@, needle@, i as int));
            return true;
        }
        assert(v@.skip(i as int).subrange(0, p@.len() as int) =~= s@.subrange(
            i as int,
            i + needle@.len(),
        ));
        i += 1;
    }
    false
}

/// One more part is written after the others.
pub proof fn lemma_concat_push(parts: Seq<Seq<char>>, last: Seq<char>)
    ensures
        concat(parts.push(last)) == concat(parts) + last,
{
    assert(parts.push(last).drop_last() =~= parts);
}

/// One more item is written after the others and a separator, or alone
/// where it is the first.
pub proof fn lemma_joined_push(items: Seq<Seq<char>>, sep: Seq<char>, last: Seq<char>)
    ensures
        joined(items.push(last), sep) == if items.len() == 0 {
            last
        } else {
            joined(items, sep) + sep + last
        },
{
    assert(items.push(last).drop_last() =~= items);
}

/// `items` written one after the other with `sep` between neighbours.
pub fn join(items: &Vec<String>, sep: &str) -> (r: String)
    ensures
        r@ == joined(items.deep_view(), sep@),
{
    let ghost all = items.deep_view();
    let mut r = String::new();
    let mut i: usize = 0;
    assert(all.take(0) =~= Seq::<Seq<char>>::empty());
    while i < items.len()
        invariant
            i <= items.len(),
            all == items.deep_view(),
            r@ == joined(all.take(i as int), sep@),
        decreases items.len() - i,
    {
        proof {
            assert(all.take(i + 1) =~= all.take(i as int).push(all[i as int]));
            lemma_joined_push(all.take(i as int), sep@, all[i as int]);
            assert(Seq::<char>::empty() + all[i as int] =~= all[i as int]);
        }
        if i > 0 {
            r.append(sep);
        }
        r.append(items[i].as_str());
        i += 1;
    }
    assert(all.take(i as int) =~= all);
    r
}

/// The lines of `source`, each as its characters.
pub fn split_lines(source: &str) -> (r: Vec<Vec<char>>)
    ensures
        r.deep_view() == lines(source@),
{
    let text = chars_of(source);
    let mut r: Vec<Vec<char>> = Vec::new();
    let mut start: usize = 0;
    assert(text@.skip(0) =~= text@);
    assert(r.deep_view() + lines(text@) =~= lines(text@));
    loop
        invariant
            text@ == source@,
            start <= text.len(),
            lines(source@) == r.deep_view() + lines(text@.skip(start as int)),
        decreases text.len() - start,
    {
        let end = position_from(&text, start, '\n');
        let mut line: Vec<char> = Vec::new();
        let mut i: usize = start;
        while i < end
            invariant
                start <= i <= end <= text.len(),
                line@ == text@.subrange(start as int, i as int),
            decreases end - i,
        {
            line.push(text[i]);
            i += 1;
            assert(text@.subrange(start as int, i as int) == text@.subrange(
                start as int,
                i - 1,
            ).push(text@[i - 1]));
        }
        let ghost rest = text@.skip(start as int);
        let ghost before = r.deep_view();
        let ghost head = rest.take(end - start);
        assert(line.deep_view() =~= head);
        r.push(line);
        assert(r.deep_view() =~= before.push(head));
        if end == text.len() {
            assert(head =~= rest);
            assert(before + seq![rest] =~= before.push(rest));
            return r;
        }
        assert(rest.skip(end - start + 1) =~= text@.skip(end + 1));
        assert(before + (seq![head] + lines(text@.skip(end + 1))) =~= before.push(head) + lines(
            text@.skip(end + 1),
        ));
        start = end + 1;
    }
}

} // verus!
