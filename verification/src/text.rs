//! A model of UTF-8 text: strings are seen as sequences of chars, and every
//! position that the library hands out is a byte offset into their encoding.
use vstd::prelude::*;

verus! {

/// Number of bytes in the UTF-8 encoding of `c`.
pub open spec fn char_width(c: char) -> nat {
    let v = c as u32;
    if v <= 0x7F {
        1
    } else if v <= 0x7FF {
        2
    } else if v <= 0xFFFF {
        3
    } else {
        4
    }
}

/// Number of bytes in the UTF-8 encoding of `cs`.
pub open spec fn byte_len(cs: Seq<char>) -> nat
    decreases cs.len(),
{
    if cs.len() == 0 {
        0
    } else {
        char_width(cs[0]) + byte_len(cs.drop_first())
    }
}

/// Byte offset at which the char with index `i` starts (or the end, for `i == cs.len()`).
pub open spec fn byte_offset(cs: Seq<char>, i: int) -> nat {
    byte_len(cs.take(i))
}

/// `b` is a byte offset that falls between two chars of `cs` (or at either end).
pub open spec fn is_boundary(cs: Seq<char>, b: int) -> bool {
    exists|i: int| 0 <= i <= cs.len() && byte_offset(cs, i) == b
}

/// The index of the char that starts at byte offset `b`.
pub open spec fn char_at_byte(cs: Seq<char>, b: int) -> int {
    choose|i: int| 0 <= i <= cs.len() && byte_offset(cs, i) == b
}

/// The chars of `cs` between byte offsets `from` and `to`.
pub open spec fn text_between(cs: Seq<char>, from: int, to: int) -> Seq<char> {
    cs.subrange(char_at_byte(cs, from), char_at_byte(cs, to))
}

/// Every char of `cs[i..j]` is whitespace.
pub open spec fn is_blank(cs: Seq<char>, i: int, j: int) -> bool {
    forall|k: int| i <= k < j ==> is_whitespace(#[trigger] cs[k])
}

/// `cs[s..e]` is what remains of `cs[i..j]` once whitespace is trimmed from
/// both ends, and it is not empty.
pub open spec fn is_trimmed(cs: Seq<char>, i: int, j: int, s: int, e: int) -> bool {
    &&& 0 <= i <= s < e <= j <= cs.len()
    &&& !is_whitespace(cs[s])
    &&& !is_whitespace(cs[e - 1])
    &&& is_blank(cs, i, s)
    &&& is_blank(cs, e, j)
}

pub proof fn lemma_trimmed_unique(cs: Seq<char>, i: int, j: int, s: int, e: int, s2: int, e2: int)
    requires
        is_trimmed(cs, i, j, s, e),
        is_trimmed(cs, i, j, s2, e2),
    ensures
        s == s2,
        e == e2,
{
    if s < s2 {
        assert(is_whitespace(cs[s]));
    } else if s2 < s {
        assert(is_whitespace(cs[s2]));
    }
    if e < e2 {
        assert(is_whitespace(cs[e2 - 1]));
    } else if e2 < e {
        assert(is_whitespace(cs[e - 1]));
    }
}

/// The char index of a byte offset that is known to fall between chars.
pub fn char_index_of(cs: &Vec<char>, offs: &Vec<usize>, b: usize) -> (i: usize)
    requires
        offs.len() == cs.len() + 1,
        forall|k: int| 0 <= k <= cs.len() ==> #[trigger] offs[k] == byte_offset(cs@, k),
        is_boundary(cs@, b as int),
    ensures
        i <= cs.len(),
        offs[i as int] == b,
        i == char_at_byte(cs@, b as int),
{
    let ghost w = choose|w: int| 0 <= w <= cs.len() && byte_offset(cs@, w) == b;
    let mut i: usize = 0;
    while offs[i] < b
        invariant
            offs.len() == cs.len() + 1,
            forall|k: int| 0 <= k <= cs.len() ==> #[trigger] offs[k] == byte_offset(cs@, k),
            0 <= w <= cs.len(),
            byte_offset(cs@, w) == b,
            i <= w,
        decreases w - i,
    {
        proof {
            if i == w {
                assert(offs[i as int] == b);
            }
        }
        i = i + 1;
    }
    proof {
        if i < w {
            lemma_byte_offset_strict(cs@, i as int, w);
        }
        let c = char_at_byte(cs@, b as int);
        lemma_byte_offset_injective(cs@, c, i as int);
    }
    i
}

pub proof fn lemma_byte_len_concat(a: Seq<char>, b: Seq<char>)
    ensures
        byte_len(a + b) == byte_len(a) + byte_len(b),
    decreases a.len(),
{
    if a.len() == 0 {
        assert(a + b =~= b);
    } else {
        assert((a + b).drop_first() =~= a.drop_first() + b);
        lemma_byte_len_concat(a.drop_first(), b);
    }
}

pub proof fn lemma_byte_len_single(c: char)
    ensures
        byte_len(seq![c]) == char_width(c),
{
    assert(seq![c].drop_first() =~= Seq::<char>::empty());
    assert(byte_len(Seq::<char>::empty()) == 0);
}

/// Moving one char forward adds that char's width to the byte offset.
pub proof fn lemma_byte_offset_step(cs: Seq<char>, i: int)
    requires
        0 <= i < cs.len(),
    ensures
        byte_offset(cs, i + 1) == byte_offset(cs, i) + char_width(cs[i]),
{
    assert(cs.take(i + 1) =~= cs.take(i) + seq![cs[i]]);
    lemma_byte_len_concat(cs.take(i), seq![cs[i]]);
    lemma_byte_len_single(cs[i]);
}

/// The bytes of a subrange are the difference of the offsets of its ends.
pub proof fn lemma_byte_len_subrange(cs: Seq<char>, i: int, j: int)
    requires
        0 <= i <= j <= cs.len(),
    ensures
        byte_len(cs.subrange(i, j)) == byte_offset(cs, j) - byte_offset(cs, i),
        byte_offset(cs, i) <= byte_offset(cs, j),
{
    assert(cs.take(j) =~= cs.take(i) + cs.subrange(i, j));
    lemma_byte_len_concat(cs.take(i), cs.subrange(i, j));
}

/// Byte offsets grow strictly with the char index.
pub proof fn lemma_byte_offset_strict(cs: Seq<char>, i: int, j: int)
    requires
        0 <= i < j <= cs.len(),
    ensures
        byte_offset(cs, i) < byte_offset(cs, j),
    decreases j - i,
{
    lemma_byte_offset_step(cs, j - 1);
    if i < j - 1 {
        lemma_byte_offset_strict(cs, i, j - 1);
    }
}

/// Byte offsets determine char indices.
pub proof fn lemma_byte_offset_injective(cs: Seq<char>, i: int, j: int)
    requires
        0 <= i <= cs.len(),
        0 <= j <= cs.len(),
        byte_offset(cs, i) == byte_offset(cs, j),
    ensures
        i == j,
{
    if i < j {
        lemma_byte_offset_strict(cs, i, j);
    } else if j < i {
        lemma_byte_offset_strict(cs, j, i);
    }
}

pub proof fn lemma_byte_offset_full(cs: Seq<char>)
    ensures
        byte_offset(cs, cs.len() as int) == byte_len(cs),
        byte_offset(cs, 0) == 0,
{
    assert(cs.take(cs.len() as int) =~= cs);
    assert(cs.take(0) =~= Seq::<char>::empty());
}

/// The char at a char's own byte offset is that char.
pub proof fn lemma_char_at_byte_offset(cs: Seq<char>, i: int)
    requires
        0 <= i <= cs.len(),
    ensures
        char_at_byte(cs, byte_offset(cs, i) as int) == i,
        is_boundary(cs, byte_offset(cs, i) as int),
{
    let c = char_at_byte(cs, byte_offset(cs, i) as int);
    lemma_byte_offset_injective(cs, c, i);
}

/// Offsets in the second part of a concatenation are shifted by the first part's length.
pub proof fn lemma_byte_offset_concat(a: Seq<char>, b: Seq<char>, k: int)
    requires
        0 <= k <= b.len(),
    ensures
        byte_offset(a + b, a.len() + k) == byte_len(a) + byte_offset(b, k),
        byte_offset(a + b, k) == byte_offset(a, k) || k > a.len(),
{
    assert((a + b).take(a.len() + k) =~= a + b.take(k));
    lemma_byte_len_concat(a, b.take(k));
    if k <= a.len() {
        assert((a + b).take(k) =~= a.take(k));
    }
}

/// A boundary of a text stays the same char index once more text is appended.
pub proof fn lemma_char_at_byte_append(a: Seq<char>, b: Seq<char>, x: int)
    requires
        is_boundary(a, x),
    ensures
        char_at_byte(a + b, x) == char_at_byte(a, x),
        0 <= char_at_byte(a, x) <= a.len(),
        byte_offset(a, char_at_byte(a, x)) == x,
{
    let i = char_at_byte(a, x);
    assert((a + b).take(i) =~= a.take(i));
    lemma_char_at_byte_offset(a + b, i);
}

/// The byte length used by this library is the length of vstd's UTF-8 encoding.
pub proof fn lemma_byte_len_is_encoded_len(cs: Seq<char>)
    ensures
        vstd::utf8::encode_utf8(cs).len() == byte_len(cs),
    decreases cs.len(),
{
    if cs.len() > 0 {
        vstd::utf8::char_is_scalar(cs[0]);
        lemma_byte_len_is_encoded_len(cs.drop_first());
    }
}

/// The UTF-8 width of `c`.
pub fn utf8_width(c: char) -> (w: usize)
    ensures
        w == char_width(c),
{
    let v = c as u32;
    if v <= 0x7F {
        1
    } else if v <= 0x7FF {
        2
    } else if v <= 0xFFFF {
        3
    } else {
        4
    }
}

/// The chars of `s`, in order.
pub fn chars_of(s: &str) -> (v: Vec<char>)
    ensures
        v@ == s@,
{
    let mut v: Vec<char> = Vec::new();
    for c in it: s.chars()
        invariant
            v@ == it.seq().take(it.index() as int),
    {
        v.push(c);
    }
    v
}

/// `needle` stands in `hay` starting at char index `k`.
pub open spec fn occurs_at(hay: Seq<char>, needle: Seq<char>, k: int) -> bool {
    0 <= k && k + needle.len() <= hay.len() && hay.subrange(k, k + needle.len() as int) == needle
}

/// The char index of the first place where `needle` stands in `hay`.
pub open spec fn first_occurrence(hay: Seq<char>, needle: Seq<char>) -> Option<int> {
    if exists|k: int| occurs_at(hay, needle, k) {
        Some(
            choose|k: int|
                occurs_at(hay, needle, k) && forall|j: int| 0 <= j < k ==> !occurs_at(hay, needle, j),
        )
    } else {
        None
    }
}

proof fn lemma_minimal_occurrence(hay: Seq<char>, needle: Seq<char>, k0: int)
    requires
        occurs_at(hay, needle, k0),
    ensures
        exists|k: int|
            occurs_at(hay, needle, k) && forall|j: int| 0 <= j < k ==> !occurs_at(hay, needle, j),
    decreases k0,
{
    if exists|j: int| 0 <= j < k0 && occurs_at(hay, needle, j) {
        let j = choose|j: int| 0 <= j < k0 && occurs_at(hay, needle, j);
        lemma_minimal_occurrence(hay, needle, j);
    } else {
        assert(occurs_at(hay, needle, k0) && forall|j: int|
            0 <= j < k0 ==> !occurs_at(hay, needle, j));
    }
}

/// The first occurrence is an occurrence, and there is none before it.
pub proof fn lemma_first_occurrence(hay: Seq<char>, needle: Seq<char>)
    ensures
        match first_occurrence(hay, needle) {
            Some(k) => occurs_at(hay, needle, k) && forall|j: int|
                0 <= j < k ==> !occurs_at(hay, needle, j),
            None => forall|k: int| !occurs_at(hay, needle, k),
        },
{
    if exists|k: int| occurs_at(hay, needle, k) {
        let k0 = choose|k: int| occurs_at(hay, needle, k);
        lemma_minimal_occurrence(hay, needle, k0);
    }
}

/// The first char index at which `needle` occurs in `hay`; as `str::find`, but
/// counted in chars (a match of whole chars starts at the same place either way).
pub fn find_chars(hay: &Vec<char>, needle: &Vec<char>) -> (r: Option<usize>)
    ensures
        match r {
            Some(k) => {
                &&& first_occurrence(hay@, needle@) == Some(k as int)
                &&& occurs_at(hay@, needle@, k as int)
                &&& forall|j: int| 0 <= j < k ==> !occurs_at(hay@, needle@, j)
            },
            None => {
                &&& first_occurrence(hay@, needle@) is None
                &&& forall|j: int| !occurs_at(hay@, needle@, j)
            },
        },
{
    if needle.len() > hay.len() {
        assert(forall|k: int| !occurs_at(hay@, needle@, k));
        return None;
    }
    let last = hay.len() - needle.len();
    let mut k: usize = 0;
    while k <= last
        invariant
            last + needle.len() == hay.len(),
            k <= last + 1,
            forall|j: int| 0 <= j < k ==> !occurs_at(hay@, needle@, j),
        decreases last + 1 - k,
    {
        let mut i: usize = 0;
        let mut same = true;
        while i < needle.len()
            invariant
                k <= last,
                last + needle.len() == hay.len(),
                i <= needle.len(),
                same == forall|t: int| 0 <= t < i ==> hay@[k + t] == needle@[t],
            decreases needle.len() - i,
        {
            if hay[k + i] != needle[i] {
                same = false;
            }
            i = i + 1;
        }
        if same {
            assert(hay@.subrange(k as int, k + needle.len()) =~= needle@);
            assert(occurs_at(hay@, needle@, k as int));
            let ghost c = choose|c: int|
                occurs_at(hay@, needle@, c) && forall|j: int| 0 <= j < c ==> !occurs_at(hay@, needle@, j);
            assert(c == k) by {
                if c < k {
                } else if c > k {
                }
            }
            return Some(k);
        } else {
            assert(!occurs_at(hay@, needle@, k as int)) by {
                let t = choose|t: int| 0 <= t < needle.len() && hay@[k + t] != needle@[t];
                if occurs_at(hay@, needle@, k as int) {
                    assert(hay@.subrange(k as int, k + needle.len())[t] == hay@[k + t]);
                }
            }
        }
        k = k + 1;
    }
    assert forall|j: int| !occurs_at(hay@, needle@, j) by {
        if 0 <= j && j + needle.len() <= hay.len() {
            assert(j < k);
        }
    }
    None
}

/// Unicode `White_Space`, the property that `char::is_whitespace` and the
/// `trim` family of `str` go by.
pub open spec fn is_whitespace(c: char) -> bool {
    let v = c as u32;
    ||| 0x09 <= v <= 0x0D
    ||| v == 0x20
    ||| v == 0x85
    ||| v == 0xA0
    ||| v == 0x1680
    ||| 0x2000 <= v <= 0x200A
    ||| v == 0x2028
    ||| v == 0x2029
    ||| v == 0x202F
    ||| v == 0x205F
    ||| v == 0x3000
}

/// Whether `c` is Unicode whitespace.
pub fn is_whitespace_char(c: char) -> (b: bool)
    ensures
        b == is_whitespace(c),
{
    let v = c as u32;
    (0x09 <= v && v <= 0x0D) || v == 0x20 || v == 0x85 || v == 0xA0 || v == 0x1680 || (0x2000
        <= v && v <= 0x200A) || v == 0x2028 || v == 0x2029 || v == 0x202F || v == 0x205F || v
        == 0x3000
}

/// `Clone` for `core::ops::Range`: derived, so std clones the start and the end.
pub assume_specification<Idx: Clone>[ <core::ops::Range<Idx> as Clone>::clone ](
    r: &core::ops::Range<Idx>,
) -> (res: core::ops::Range<Idx>)
    ensures
        cloned(r.start, res.start),
        cloned(r.end, res.end),
;

/// `String::push`: std documents that it appends the char to the end of the string.
#[verifier::external_body]
pub(crate) fn push_char(s: &mut String, c: char)
    ensures
        final(s)@ == old(s)@.push(c),
{
    s.push(c);
}

/// A new string holding the chars `cs[from..to]`.
pub fn string_from_chars(cs: &Vec<char>, from: usize, to: usize) -> (s: String)
    requires
        from <= to <= cs.len(),
    ensures
        s@ == cs@.subrange(from as int, to as int),
{
    let mut s = String::new();
    let mut i = from;
    while i < to
        invariant
            from <= i <= to <= cs.len(),
            s@ == cs@.subrange(from as int, i as int),
        decreases to - i,
    {
        push_char(&mut s, cs[i]);
        i = i + 1;
        assert(s@ =~= cs@.subrange(from as int, i as int));
    }
    s
}

/// The byte offset of every char of `cs`, and of its end.
pub fn byte_offsets(cs: &Vec<char>) -> (offs: Vec<usize>)
    requires
        byte_len(cs@) <= usize::MAX,
    ensures
        offs.len() == cs.len() + 1,
        forall|i: int| 0 <= i <= cs.len() ==> #[trigger] offs[i] == byte_offset(cs@, i),
{
    let mut offs: Vec<usize> = Vec::new();
    let mut acc: usize = 0;
    let mut i: usize = 0;
    proof {
        lemma_byte_offset_full(cs@);
    }
    while i < cs.len()
        invariant
            i <= cs.len(),
            offs.len() == i,
            acc == byte_offset(cs@, i as int),
            byte_len(cs@) <= usize::MAX,
            forall|k: int| 0 <= k < i ==> #[trigger] offs[k] == byte_offset(cs@, k),
        decreases cs.len() - i,
    {
        offs.push(acc);
        proof {
            lemma_byte_offset_step(cs@, i as int);
            lemma_byte_len_subrange(cs@, i + 1, cs.len() as int);
            lemma_byte_offset_full(cs@);
        }
        let w = utf8_width(cs[i]);
        acc = acc + w;
        i = i + 1;
    }
    offs.push(acc);
    offs
}

/// The byte length of `s`, counted from its chars.
pub fn byte_length(cs: &Vec<char>) -> (n: usize)
    requires
        byte_len(cs@) <= usize::MAX,
    ensures
        n == byte_len(cs@),
{
    let offs = byte_offsets(cs);
    proof {
        lemma_byte_offset_full(cs@);
    }
    offs[cs.len()]
}

} // verus!
