//! Byte-string helpers shared by the codec and the announcement format:
//! searching for a byte, slice equality, and UTF-8 validity.

use vstd::prelude::*;

verus! {

/// Position of the first occurrence of `target` in `s` at or after `from`.
pub open spec fn find_byte_from(s: Seq<u8>, target: u8, from: int) -> Option<int>
    decreases s.len() - from,
    when 0 <= from <= s.len()
{
    if from >= s.len() {
        None
    } else if s[from] == target {
        Some(from)
    } else {
        find_byte_from(s, target, from + 1)
    }
}

/// Whether `s` holds no occurrence of `target`.
pub open spec fn no_byte(s: Seq<u8>, target: u8) -> bool {
    forall|i: int| 0 <= i < s.len() ==> s[i] != target
}

/// A position that holds `target`, with none before it, is what
/// `find_byte_from` finds.
pub proof fn lemma_find_byte_from_exact(s: Seq<u8>, target: u8, from: int, pos: int)
    requires
        0 <= from <= pos < s.len(),
        s[pos] == target,
        forall|j: int| from <= j < pos ==> s[j] != target,
    ensures
        find_byte_from(s, target, from) == Some(pos),
    decreases pos - from,
{
    if from < pos {
        lemma_find_byte_from_exact(s, target, from + 1, pos);
    }
}

/// A string without `target` is one where `find_byte_from` finds nothing.
pub proof fn lemma_find_byte_from_none(s: Seq<u8>, target: u8, from: int)
    requires
        0 <= from <= s.len(),
        no_byte(s, target),
    ensures
        find_byte_from(s, target, from) is None,
    decreases s.len() - from,
{
    if from < s.len() {
        lemma_find_byte_from_none(s, target, from + 1);
    }
}

/// Finds the first occurrence of `target` in `s` at or after `from`.
pub fn find_byte(s: &[u8], target: u8, from: usize) -> (r: Option<usize>)
    requires
        from <= s@.len(),
    ensures
        match r {
            Some(i) => from <= i < s@.len() && find_byte_from(s@, target, from as int)
                == Some(i as int),
            None => find_byte_from(s@, target, from as int) is None,
        },
{
    let mut i: usize = from;
    while i < s.len()
        invariant
            from <= i <= s@.len(),
            find_byte_from(s@, target, from as int) == find_byte_from(s@, target, i as int),
        decreases s@.len() - i,
    {
        if s[i] == target {
            return Some(i);
        }
        i = i + 1;
    }
    None
}

/// Whether two byte strings hold the same bytes.
pub fn bytes_eq(a: &[u8], b: &[u8]) -> (r: bool)
    ensures
        r == (a@ == b@),
{
    if a.len() != b.len() {
        assert(a@ != b@);
        return false;
    }
    let mut i: usize = 0;
    while i < a.len()
        invariant
            i <= a@.len(),
            a@.len() == b@.len(),
            forall|j: int| 0 <= j < i ==> a@[j] == b@[j],
        decreases a@.len() - i,
    {
        if a[i] != b[i] {
            return false;
        }
        i = i + 1;
    }
    assert(a@ =~= b@);
    true
}

/// How many bytes a UTF-8 encoded character starting with `b` occupies,
/// or 0 when `b` cannot start a character.
pub open spec fn utf8_char_len(b: u8) -> int {
    if b < 0x80 {
        1
    } else if 0xC2 <= b && b <= 0xDF {
        2
    } else if 0xE0 <= b && b <= 0xEF {
        3
    } else if 0xF0 <= b && b <= 0xF4 {
        4
    } else {
        0
    }
}

/// Whether `b` is a UTF-8 continuation byte.
pub open spec fn is_utf8_cont(b: u8) -> bool {
    0x80 <= b && b <= 0xBF
}

/// Whether `s` starts with one well-formed UTF-8 character.
///
/// The range restrictions on the second byte after 0xE0, 0xED, 0xF0 and 0xF4
/// rule out overlong encodings, surrogates, and code points past 0x10FFFF.
pub open spec fn utf8_first_char_ok(s: Seq<u8>) -> bool {
    s.len() > 0 && {
        let b0 = s[0];
        let n = utf8_char_len(b0);
        if n == 1 {
            true
        } else if n == 2 {
            s.len() >= 2 && is_utf8_cont(s[1])
        } else if n == 3 {
            s.len() >= 3 && is_utf8_cont(s[1]) && is_utf8_cont(s[2]) && (b0 != 0xE0 || s[1]
                >= 0xA0) && (b0 != 0xED || s[1] <= 0x9F)
        } else if n == 4 {
            s.len() >= 4 && is_utf8_cont(s[1]) && is_utf8_cont(s[2]) && is_utf8_cont(s[3]) && (b0
                != 0xF0 || s[1] >= 0x90) && (b0 != 0xF4 || s[1] <= 0x8F)
        } else {
            false
        }
    }
}

/// Whether `s` is a well-formed UTF-8 byte string.
pub open spec fn is_utf8(s: Seq<u8>) -> bool
    decreases s.len(),
{
    if s.len() == 0 {
        true
    } else if !utf8_first_char_ok(s) {
        false
    } else {
        is_utf8(s.skip(utf8_char_len(s[0])))
    }
}

/// Every byte string of 7-bit bytes is UTF-8.
pub proof fn lemma_ascii_is_utf8(s: Seq<u8>)
    requires
        forall|i: int| 0 <= i < s.len() ==> s[i] < 0x80,
    ensures
        is_utf8(s),
    decreases s.len(),
{
    if s.len() > 0 {
        lemma_ascii_is_utf8(s.skip(1));
    }
}

/// UTF-8 strings stay UTF-8 under concatenation.
pub proof fn lemma_utf8_concat(a: Seq<u8>, b: Seq<u8>)
    requires
        is_utf8(a),
        is_utf8(b),
    ensures
        is_utf8(a + b),
    decreases a.len(),
{
    if a.len() == 0 {
        assert(a + b =~= b);
    } else {
        let n = utf8_char_len(a[0]);
        assert(utf8_first_char_ok(a + b));
        assert((a + b).skip(n) =~= a.skip(n) + b);
        lemma_utf8_concat(a.skip(n), b);
    }
}

/// Whether `s` is well-formed UTF-8, checked byte by byte.
pub fn check_utf8(s: &[u8]) -> (r: bool)
    ensures
        r == is_utf8(s@),
{
    let n = s.len();
    let mut i: usize = 0;
    assert(s@.skip(0) =~= s@);
    while i < n
        invariant
            i <= n,
            n == s@.len(),
            is_utf8(s@) == is_utf8(s@.skip(i as int)),
        decreases n - i,
    {
        let ghost rest = s@.skip(i as int);
        let b0 = s[i];
        let step: usize = if b0 < 0x80 {
            1
        } else if 0xC2 <= b0 && b0 <= 0xDF {
            if n - i >= 2 && is_cont_byte(s[i + 1]) {
                2
            } else {
                0
            }
        } else if 0xE0 <= b0 && b0 <= 0xEF {
            if n - i >= 3 && is_cont_byte(s[i + 1]) && is_cont_byte(s[i + 2]) && (b0 != 0xE0 || s[i
                + 1] >= 0xA0) && (b0 != 0xED || s[i + 1] <= 0x9F) {
                3
            } else {
                0
            }
        } else if 0xF0 <= b0 && b0 <= 0xF4 {
            if n - i >= 4 && is_cont_byte(s[i + 1]) && is_cont_byte(s[i + 2]) && is_cont_byte(
                s[i + 3],
            ) && (b0 != 0xF0 || s[i + 1] >= 0x90) && (b0 != 0xF4 || s[i + 1] <= 0x8F) {
                4
            } else {
                0
            }
        } else {
            0
        };
        if step == 0 {
            assert(!utf8_first_char_ok(rest));
            return false;
        }
        assert(utf8_first_char_ok(rest));
        assert(step == utf8_char_len(rest[0]));
        assert(s@.skip(i + step) =~= rest.skip(step as int));
        i = i + step;
    }
    assert(s@.skip(n as int) =~= Seq::<u8>::empty());
    true
}

/// Whether `b` is a UTF-8 continuation byte.
fn is_cont_byte(b: u8) -> (r: bool)
    ensures
        r == is_utf8_cont(b),
{
    0x80 <= b && b <= 0xBF
}

} // verus!
