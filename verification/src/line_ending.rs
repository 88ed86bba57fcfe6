//! Normalising line endings: every `"\r\n"` and every lone `'\r'` becomes `'\n'`.
use crate::text::{chars_of, push_char};
use vstd::prelude::*;

verus! {

/// `cs` with each `"\r\n"` and each remaining `'\r'` replaced by `'\n'`, scanning left to right.
pub open spec fn normalize(cs: Seq<char>) -> Seq<char>
    decreases cs.len(),
{
    if cs.len() == 0 {
        Seq::<char>::empty()
    } else if cs[0] == '\r' {
        if cs.len() >= 2 && cs[1] == '\n' {
            seq!['\n'] + normalize(cs.subrange(2, cs.len() as int))
        } else {
            seq!['\n'] + normalize(cs.drop_first())
        }
    } else {
        seq![cs[0]] + normalize(cs.drop_first())
    }
}

/// Rewrites `text` in place so that every line ends with a single `'\n'`.
pub fn normalize_line_endings(text: &mut String)
    ensures
        final(text)@ == normalize(old(text)@),
{
    let cs = chars_of(text.as_str());
    let n = cs.len();
    let mut out = String::new();
    let mut i: usize = 0;
    assert(cs@.subrange(0, n as int) =~= cs@);
    assert(out@ + normalize(cs@) =~= normalize(cs@));
    while i < n
        invariant
            n == cs.len(),
            i <= n,
            cs@ == old(text)@,
            out@ + normalize(cs@.subrange(i as int, n as int)) == normalize(cs@),
        decreases n - i,
    {
        let ghost rest = cs@.subrange(i as int, n as int);
        assert(rest.drop_first() =~= cs@.subrange(i + 1, n as int));
        let c = cs[i];
        if c == '\r' {
            push_char(&mut out, '\n');
            if i + 1 < n && cs[i + 1] == '\n' {
                assert(rest.subrange(2, rest.len() as int) =~= cs@.subrange(i + 2, n as int));
                i = i + 2;
            } else {
                i = i + 1;
            }
        } else {
            push_char(&mut out, c);
            i = i + 1;
        }
        assert(out@ + normalize(cs@.subrange(i as int, n as int)) =~= normalize(cs@));
    }
    assert(cs@.subrange(n as int, n as int) =~= Seq::<char>::empty());
    assert(out@ =~= out@ + normalize(cs@.subrange(n as int, n as int)));
    *text = out;
}

/// Normalised text holds no carriage return.
pub proof fn lemma_normalize_has_no_carriage_return(cs: Seq<char>)
    ensures
        !normalize(cs).contains('\r'),
    decreases cs.len(),
{
    if cs.len() > 0 {
        if cs[0] == '\r' && cs.len() >= 2 && cs[1] == '\n' {
            lemma_normalize_has_no_carriage_return(cs.subrange(2, cs.len() as int));
            assert(normalize(cs) =~= seq!['\n'] + normalize(cs.subrange(2, cs.len() as int)));
            assert(!normalize(cs).contains('\r')) by {
                if normalize(cs).contains('\r') {
                    let k = choose|k: int| 0 <= k < normalize(cs).len() && normalize(cs)[k] == '\r';
                    assert(normalize(cs.subrange(2, cs.len() as int))[k - 1] == '\r');
                }
            }
        } else {
            lemma_normalize_has_no_carriage_return(cs.drop_first());
            assert(!normalize(cs).contains('\r')) by {
                if normalize(cs).contains('\r') {
                    let k = choose|k: int| 0 <= k < normalize(cs).len() && normalize(cs)[k] == '\r';
                    assert(k > 0);
                    assert(normalize(cs.drop_first())[k - 1] == '\r');
                }
            }
        }
    }
}

/// Text with no carriage return is left as it is.
pub proof fn lemma_normalize_keeps_text_without_carriage_return(cs: Seq<char>)
    requires
        !cs.contains('\r'),
    ensures
        normalize(cs) == cs,
    decreases cs.len(),
{
    if cs.len() > 0 {
        assert(cs[0] != '\r');
        assert(!cs.drop_first().contains('\r')) by {
            if cs.drop_first().contains('\r') {
                let k = choose|k: int| 0 <= k < cs.drop_first().len() && cs.drop_first()[k] == '\r';
                assert(cs[k + 1] == '\r');
            }
        }
        lemma_normalize_keeps_text_without_carriage_return(cs.drop_first());
        assert(normalize(cs) =~= cs);
    }
}

/// Normalising twice is normalising once.
pub proof fn lemma_normalize_idempotent(cs: Seq<char>)
    ensures
        normalize(normalize(cs)) == normalize(cs),
{
    lemma_normalize_has_no_carriage_return(cs);
    lemma_normalize_keeps_text_without_carriage_return(normalize(cs));
}

} // verus!
