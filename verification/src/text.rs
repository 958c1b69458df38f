//! Characters, scanning and line splitting on `Seq<char>`.

use vstd::prelude::*;

verus! {

/// `String::push` appends one character and leaves the rest of the string
/// as it was.
pub assume_specification[ String::push ](s: &mut String, ch: char)
    ensures
        final(s)@ == old(s)@.push(ch),
;

/// Whether `c` is white space: the characters with the Unicode property
/// `White_Space`.
pub open spec fn is_space(c: char) -> bool {
    ||| '\u{9}' <= c <= '\u{d}'
    ||| c == ' '
    ||| c == '\u{85}'
    ||| c == '\u{a0}'
    ||| c == '\u{1680}'
    ||| '\u{2000}' <= c <= '\u{200a}'
    ||| c == '\u{2028}'
    ||| c == '\u{2029}'
    ||| c == '\u{202f}'
    ||| c == '\u{205f}'
    ||| c == '\u{3000}'
}

/// Whether `c` is one of the sixteen lowercase hexadecimal digits.
pub open spec fn is_lower_hex(c: char) -> bool {
    '0' <= c <= '9' || 'a' <= c <= 'f'
}

/// The sets of characters that scanning stops at or runs over.
#[derive(Clone, Copy, Debug)]
pub enum CharClass {
    /// White space.
    Space,
    /// The line feed.
    Newline,
    /// The `@` between a repository and its locator.
    At,
    /// What ends a locator: white space or `#`.
    TokenEnd,
    /// What ends a repository: white space, `#` or `@`.
    NameEnd,
}

impl CharClass {
    /// Whether `c` belongs to the class.
    pub open spec fn has(self, c: char) -> bool {
        match self {
            CharClass::Space => is_space(c),
            CharClass::Newline => c == '\n',
            CharClass::At => c == '@',
            CharClass::TokenEnd => is_space(c) || c == '#',
            CharClass::NameEnd => is_space(c) || c == '#' || c == '@',
        }
    }

    /// Decides [`CharClass::has`].
    pub fn contains(self, c: char) -> (r: bool)
        ensures
            r == self.has(c),
    {
        match self {
            CharClass::Space => space(c),
            CharClass::Newline => c == '\n',
            CharClass::At => c == '@',
            CharClass::TokenEnd => space(c) || c == '#',
            CharClass::NameEnd => space(c) || c == '#' || c == '@',
        }
    }
}

/// Decides [`is_space`].
pub fn space(c: char) -> (r: bool)
    ensures
        r == is_space(c),
{
    ('\u{9}' <= c && c <= '\u{d}') || c == ' ' || c == '\u{85}' || c == '\u{a0}' || c == '\u{1680}'
        || ('\u{2000}' <= c && c <= '\u{200a}') || c == '\u{2028}' || c == '\u{2029}' || c
        == '\u{202f}' || c == '\u{205f}' || c == '\u{3000}'
}

/// Decides [`is_lower_hex`].
pub fn lower_hex(c: char) -> (r: bool)
    ensures
        r == is_lower_hex(c),
{
    ('0' <= c && c <= '9') || ('a' <= c && c <= 'f')
}

/// The first position in `from..to` whose character belongs to `class`,
/// or `to` if there is none.
pub open spec fn find(s: Seq<char>, class: CharClass, from: int, to: int) -> int
    decreases to - from,
{
    if from < to && !class.has(s[from]) {
        find(s, class, from + 1, to)
    } else {
        from
    }
}

/// The first position in `from..to` whose character does not belong to
/// `class`, or `to` if there is none.
pub open spec fn skip(s: Seq<char>, class: CharClass, from: int, to: int) -> int
    decreases to - from,
{
    if from < to && class.has(s[from]) {
        skip(s, class, from + 1, to)
    } else {
        from
    }
}

/// The end of `from..to` once the characters of `class` at its end are
/// dropped.
pub open spec fn skip_back(s: Seq<char>, class: CharClass, from: int, to: int) -> int
    decreases to - from,
{
    if from < to && class.has(s[to - 1]) {
        skip_back(s, class, from, to - 1)
    } else {
        to
    }
}

/// Whether no character of `s[from..to]` belongs to `class`.
pub open spec fn free_of(s: Seq<char>, class: CharClass, from: int, to: int) -> bool {
    forall|i: int| from <= i < to ==> !class.has(#[trigger] s[i])
}

/// Whether every character of `s[from..to]` belongs to `class`.
pub open spec fn all_of(s: Seq<char>, class: CharClass, from: int, to: int) -> bool {
    forall|i: int| from <= i < to ==> class.has(#[trigger] s[i])
}

/// `find` stops at the first character of the class and nowhere else.
pub proof fn lemma_find(s: Seq<char>, class: CharClass, from: int, to: int)
    requires
        from <= to,
    ensures
        from <= find(s, class, from, to) <= to,
        free_of(s, class, from, find(s, class, from, to)),
        find(s, class, from, to) < to ==> class.has(s[find(s, class, from, to)]),
    decreases to - from,
{
    if from < to && !class.has(s[from]) {
        lemma_find(s, class, from + 1, to);
    }
}

/// A position that no character of the class precedes, and that holds one or
/// is the end, is where `find` stops.
pub proof fn lemma_find_is(s: Seq<char>, class: CharClass, from: int, to: int, k: int)
    requires
        from <= k <= to,
        free_of(s, class, from, k),
        k < to ==> class.has(s[k]),
    ensures
        find(s, class, from, to) == k,
    decreases to - from,
{
    if from < k {
        assert(!class.has(s[from]));
        lemma_find_is(s, class, from + 1, to, k);
    }
}

/// A position that only characters of the class precede, and that holds
/// another one or is the end, is where `skip` stops.
pub proof fn lemma_skip_is(s: Seq<char>, class: CharClass, from: int, to: int, k: int)
    requires
        from <= k <= to,
        all_of(s, class, from, k),
        k < to ==> !class.has(s[k]),
    ensures
        skip(s, class, from, to) == k,
    decreases to - from,
{
    if from < k {
        assert(class.has(s[from]));
        lemma_skip_is(s, class, from + 1, to, k);
    }
}

/// A position that only characters of the class follow, and that another one
/// precedes unless it is the start, is where `skip_back` stops.
pub proof fn lemma_skip_back_is(s: Seq<char>, class: CharClass, from: int, to: int, k: int)
    requires
        from <= k <= to,
        all_of(s, class, k, to),
        from < k ==> !class.has(s[k - 1]),
    ensures
        skip_back(s, class, from, to) == k,
    decreases to - from,
{
    if k < to {
        assert(class.has(s[to - 1]));
        lemma_skip_back_is(s, class, from, to - 1, k);
    }
}

/// Whether `name` ends with `suffix`.
pub open spec fn ends_with(name: Seq<char>, suffix: Seq<char>) -> bool {
    suffix.len() <= name.len() && name.subrange(name.len() - suffix.len(), name.len() as int)
        == suffix
}

/// Decides [`ends_with`].
pub fn ends_in(name: &Vec<char>, suffix: &Vec<char>) -> (r: bool)
    ensures
        r == ends_with(name@, suffix@),
{
    let n = name.len();
    let m = suffix.len();
    if m > n {
        return false;
    }
    let ghost tail = name@.subrange(n - m, n as int);
    let mut i: usize = 0;
    while i < m
        invariant
            m <= n,
            n == name.len(),
            m == suffix.len(),
            i <= m,
            tail == name@.subrange(n - m, n as int),
            forall|j: int| 0 <= j < i ==> tail[j] == suffix@[j],
        decreases m - i,
    {
        if name[n - m + i] != suffix[i] {
            assert(tail[i as int] != suffix@[i as int]);
            return false;
        }
        i += 1;
    }
    assert(tail =~= suffix@);
    true
}

/// The characters of `s`, in order.
pub fn chars_of(s: &str) -> (v: Vec<char>)
    ensures
        v@ == s@,
{
    let mut v: Vec<char> = Vec::new();
    for c in it: s.chars()
        invariant
            v@ == it.seq().take(it.index()),
    {
        v.push(c);
    }
    v
}

/// The string made of `v[from..to]`.
pub fn string_of(v: &Vec<char>, from: usize, to: usize) -> (s: String)
    requires
        from <= to <= v.len(),
    ensures
        s@ == v@.subrange(from as int, to as int),
{
    let mut s = String::new();
    let mut i: usize = from;
    while i < to
        invariant
            from <= i <= to <= v.len(),
            s@ == v@.subrange(from as int, i as int),
        decreases to - i,
    {
        s.push(v[i]);
        i += 1;
    }
    s
}

/// Computes [`find`].
pub fn find_in(v: &Vec<char>, class: CharClass, from: usize, to: usize) -> (k: usize)
    requires
        from <= to <= v.len(),
    ensures
        k == find(v@, class, from as int, to as int),
        from <= k <= to,
{
    let mut i: usize = from;
    while i < to && !class.contains(v[i])
        invariant
            from <= i <= to <= v.len(),
            find(v@, class, from as int, to as int) == find(v@, class, i as int, to as int),
        decreases to - i,
    {
        i += 1;
    }
    i
}

/// Computes [`skip`].
pub fn skip_in(v: &Vec<char>, class: CharClass, from: usize, to: usize) -> (k: usize)
    requires
        from <= to <= v.len(),
    ensures
        k == skip(v@, class, from as int, to as int),
        from <= k <= to,
{
    let mut i: usize = from;
    while i < to && class.contains(v[i])
        invariant
            from <= i <= to <= v.len(),
            skip(v@, class, from as int, to as int) == skip(v@, class, i as int, to as int),
        decreases to - i,
    {
        i += 1;
    }
    i
}

/// Computes [`skip_back`].
pub fn skip_back_in(v: &Vec<char>, class: CharClass, from: usize, to: usize) -> (k: usize)
    requires
        from <= to <= v.len(),
    ensures
        k == skip_back(v@, class, from as int, to as int),
        from <= k <= to,
{
    let mut i: usize = to;
    while from < i && class.contains(v[i - 1])
        invariant
            from <= i <= to <= v.len(),
            skip_back(v@, class, from as int, to as int) == skip_back(
                v@,
                class,
                from as int,
                i as int,
            ),
        decreases i - from,
    {
        i -= 1;
    }
    i
}

} // verus!
