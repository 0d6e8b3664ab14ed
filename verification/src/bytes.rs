//! Byte classes of preprocessed source text, and searches and comparisons of byte strings.

use vstd::prelude::*;

verus! {

pub const TAB: u8 = 0x09;

pub const NEWLINE: u8 = 0x0A;

pub const FORM_FEED: u8 = 0x0C;

pub const CARRIAGE_RETURN: u8 = 0x0D;

pub const SPACE: u8 = 0x20;

pub const HASH: u8 = 0x23;

pub const SLASH: u8 = 0x2F;

pub const BACKSLASH: u8 = 0x5C;

pub const UNDERSCORE: u8 = 0x5F;

/// The classes of bytes that the scanner steps over.
#[derive(Clone, Copy, PartialEq, Eq, Structural, Debug)]
pub enum Class {
    /// White space within a line: space, tab and form feed.
    Blank,
    /// White space between lines: what is blank, and the two line ending bytes.
    Gap,
    /// ASCII letters, digits and the underscore.
    Word,
    /// Every byte but the newline.
    Inline,
}

impl Class {
    /// Whether the byte `c` is of this class.
    pub open spec fn has(self, c: u8) -> bool {
        match self {
            Class::Blank => c == SPACE || c == TAB || c == FORM_FEED,
            Class::Gap => c == SPACE || c == TAB || c == FORM_FEED || c == NEWLINE || c
                == CARRIAGE_RETURN,
            Class::Word => 0x61 <= c <= 0x7A || 0x41 <= c <= 0x5A || 0x30 <= c <= 0x39 || c
                == UNDERSCORE,
            Class::Inline => c != NEWLINE,
        }
    }

    /// Whether the byte `c` is of this class.
    pub fn holds(self, c: u8) -> (r: bool)
        ensures
            r == self.has(c),
    {
        match self {
            Class::Blank => c == SPACE || c == TAB || c == FORM_FEED,
            Class::Gap => c == SPACE || c == TAB || c == FORM_FEED || c == NEWLINE || c
                == CARRIAGE_RETURN,
            Class::Word => (0x61 <= c && c <= 0x7A) || (0x41 <= c && c <= 0x5A) || (0x30 <= c && c
                <= 0x39) || c == UNDERSCORE,
            Class::Inline => c != NEWLINE,
        }
    }
}

/// The first position at or after `i` whose byte is not of class `k`, or the end of `s`.
pub open spec fn skip(s: Seq<u8>, i: int, k: Class) -> int
    decreases s.len() - i,
{
    if 0 <= i < s.len() && k.has(s[i]) {
        skip(s, i + 1, k)
    } else {
        i
    }
}

/// `skip` moves forward, stays within `s`, passes only bytes of the class and stops at one that
/// is not of the class.
pub proof fn lemma_skip(s: Seq<u8>, i: int, k: Class)
    requires
        0 <= i <= s.len(),
    ensures
        i <= skip(s, i, k) <= s.len(),
        forall|j: int| i <= j < skip(s, i, k) ==> k.has(#[trigger] s[j]),
        skip(s, i, k) < s.len() ==> !k.has(s[skip(s, i, k)]),
    decreases s.len() - i,
{
    if i < s.len() && k.has(s[i]) {
        lemma_skip(s, i + 1, k);
    }
}

/// A run of bytes of the class can be stepped over first.
pub proof fn lemma_skip_run(s: Seq<u8>, i: int, m: int, k: Class)
    requires
        0 <= i <= m <= s.len(),
        forall|j: int| i <= j < m ==> k.has(#[trigger] s[j]),
    ensures
        skip(s, i, k) == skip(s, m, k),
    decreases m - i,
{
    if i < m {
        assert(k.has(s[i]));
        lemma_skip_run(s, i + 1, m, k);
    }
}

/// The end of the run of bytes of class `k` that starts at `from`.
pub fn skip_class(s: &[u8], from: usize, k: Class) -> (end: usize)
    requires
        from <= s@.len(),
    ensures
        end == skip(s@, from as int, k),
        from <= end <= s@.len(),
        forall|j: int| from <= j < end ==> k.has(#[trigger] s@[j]),
        end < s@.len() ==> !k.has(s@[end as int]),
{
    let mut i: usize = from;
    while i < s.len() && k.holds(s[i])
        invariant
            from <= i <= s@.len(),
            skip(s@, from as int, k) == skip(s@, i as int, k),
            forall|j: int| from <= j < i ==> k.has(#[trigger] s@[j]),
        decreases s@.len() - i,
    {
        i = i + 1;
    }
    i
}

/// The first position at or after `from` that holds the byte `c`.
pub fn memchr(s: &[u8], from: usize, c: u8) -> (found: Option<usize>)
    requires
        from <= s@.len(),
    ensures
        match found {
            Some(at) => from <= at < s@.len() && s@[at as int] == c && forall|j: int|
                from <= j < at ==> #[trigger] s@[j] != c,
            None => forall|j: int| from <= j < s@.len() ==> #[trigger] s@[j] != c,
        },
{
    let mut i: usize = from;
    while i < s.len()
        invariant
            from <= i <= s@.len(),
            forall|j: int| from <= j < i ==> #[trigger] s@[j] != c,
        decreases s@.len() - i,
    {
        if s[i] == c {
            return Some(i);
        }
        i = i + 1;
    }
    None
}

/// Whether two byte strings are the same.
pub fn same_bytes(a: &[u8], b: &[u8]) -> (r: bool)
    ensures
        r == (a@ == b@),
{
    if a.len() != b.len() {
        return false;
    }
    let mut i: usize = 0;
    while i < a.len()
        invariant
            i <= a@.len() == b@.len(),
            forall|j: int| 0 <= j < i ==> #[trigger] a@[j] == b@[j],
        decreases a@.len() - i,
    {
        if a[i] != b[i] {
            return false;
        }
        i = i + 1;
    }
    assert(a@ =~= b@);
    true
}

/// Appends `tail` to `text`.
pub fn append_bytes(text: &mut Vec<u8>, tail: &[u8])
    ensures
        final(text)@ == old(text)@ + tail@,
{
    let ghost before: Seq<u8> = text@;
    text.extend_from_slice(tail);
    assert(text@ =~= before + tail@);
}

/// The bytes of an ASCII text.
pub open spec fn ascii(text: Seq<char>) -> Seq<u8> {
    Seq::new(text.len(), |i: int| text[i] as u8)
}

/// The bytes of an ASCII text.
pub fn ascii_bytes(text: &str) -> (r: &[u8])
    requires
        vstd::string::is_ascii(text),
    ensures
        r@ == ascii(text@),
{
    proof {
        vstd::string::is_ascii_spec_bytes(text);
    }
    let r: &[u8] = text.as_bytes();
    assert(r@ =~= ascii(text@));
    r
}

/// The lower case form of an ASCII letter, and every other byte as it is.
pub open spec fn lower(c: u8) -> u8 {
    if 0x41 <= c <= 0x5A {
        (c + 0x20) as u8
    } else {
        c
    }
}

/// The lower case form of an ASCII letter, and every other byte as it is.
pub fn to_lower(c: u8) -> (r: u8)
    ensures
        r == lower(c),
{
    if 0x41 <= c && c <= 0x5A {
        c + 0x20
    } else {
        c
    }
}

/// Whether two byte strings differ at most in the case of ASCII letters.
pub open spec fn same_letters(a: Seq<u8>, b: Seq<u8>) -> bool {
    a.len() == b.len() && forall|i: int| 0 <= i < a.len() ==> lower(#[trigger] a[i]) == lower(b[i])
}

/// Whether the path `child` is the path `parent`, or what is left of it behind one of its
/// slashes; the case of ASCII letters does not matter.
pub open spec fn subpath(parent: Seq<u8>, child: Seq<u8>) -> bool {
    let from = parent.len() - child.len();
    &&& from >= 0
    &&& from == 0 || parent[from - 1] == SLASH
    &&& same_letters(parent.skip(from), child)
}

/// Whether the path `child` is the path `parent`, or what is left of it behind one of its
/// slashes; the case of ASCII letters does not matter.
pub fn is_subpath(parent: &[u8], child: &[u8]) -> (r: bool)
    ensures
        r == subpath(parent@, child@),
{
    if parent.len() < child.len() {
        return false;
    }
    let from: usize = parent.len() - child.len();
    if from != 0 && parent[from - 1] != SLASH {
        return false;
    }
    let ghost tail: Seq<u8> = parent@.skip(from as int);
    let mut i: usize = 0;
    while i < child.len()
        invariant
            i <= child@.len(),
            from + child.len() == parent.len(),
            tail == parent@.skip(from as int),
            forall|j: int| 0 <= j < i ==> lower(#[trigger] tail[j]) == lower(child@[j]),
        decreases child@.len() - i,
    {
        assert(tail[i as int] == parent@[from + i]);
        if to_lower(parent[from + i]) != to_lower(child[i]) {
            return false;
        }
        i = i + 1;
    }
    true
}

/// Letter case of either path makes no difference to `subpath`.
pub proof fn law_subpath_ignores_case(p1: Seq<u8>, p2: Seq<u8>, c1: Seq<u8>, c2: Seq<u8>)
    requires
        same_letters(p1, p2),
        same_letters(c1, c2),
    ensures
        subpath(p1, c1) == subpath(p2, c2),
{
    let from = p1.len() - c1.len();
    if from >= 0 {
        if from > 0 {
            assert(lower(p1[from - 1]) == lower(p2[from - 1]));
        }
        assert forall|i: int| 0 <= i < c1.len() implies (lower(#[trigger] p1.skip(from)[i]) == lower(
            c1[i],
        )) == (lower(p2.skip(from)[i]) == lower(c2[i])) by {
            assert(lower(p1[from + i]) == lower(p2[from + i]));
            assert(lower(c1[i]) == lower(c2[i]));
        }
        if subpath(p1, c1) {
            assert forall|i: int| 0 <= i < c2.len() implies lower(#[trigger] p2.skip(from)[i])
                == lower(c2[i]) by {
                assert(lower(p1.skip(from)[i]) == lower(c1[i]));
            }
        }
        if subpath(p2, c2) {
            assert forall|i: int| 0 <= i < c1.len() implies lower(#[trigger] p1.skip(from)[i])
                == lower(c1[i]) by {
                assert(lower(p2.skip(from)[i]) == lower(c2[i]));
            }
        }
    }
}

/// A path lies below any directory that is put in front of it: `child` is a subpath of itself,
/// and of `dir` with a slash and `child` behind it.
pub proof fn law_subpath_of_join(dir: Seq<u8>, child: Seq<u8>)
    ensures
        subpath(child, child),
        subpath(dir.push(SLASH) + child, child),
{
    assert(child.skip(0) =~= child);
    assert((dir.push(SLASH) + child).skip((dir.len() + 1) as int) =~= child);
}

} // verus!
