//! Character-level helpers shared by the parsers and printers.
use vstd::prelude::*;
use vstd::std_specs::iter::IteratorSpec;

verus! {

broadcast use vstd::string::axiom_spec_iter;

/// The Unicode `White_Space` set: the characters for which
/// `char::is_whitespace` holds.
pub open spec fn is_space(c: char) -> bool {
    let u = c as u32;
    ||| u == 0x20
    ||| 0x09 <= u <= 0x0D
    ||| u == 0x85
    ||| u == 0xA0
    ||| u == 0x1680
    ||| 0x2000 <= u <= 0x200A
    ||| u == 0x2028
    ||| u == 0x2029
    ||| u == 0x202F
    ||| u == 0x205F
    ||| u == 0x3000
}

/// Whether `c` is a Unicode white-space character.
pub fn is_space_char(c: char) -> (r: bool)
    ensures
        r == is_space(c),
{
    let u = c as u32;
    u == 0x20 || (0x09 <= u && u <= 0x0D) || u == 0x85 || u == 0xA0 || u == 0x1680 || (0x2000
        <= u && u <= 0x200A) || u == 0x2028 || u == 0x2029 || u == 0x202F || u == 0x205F || u
        == 0x3000
}

/// The characters of `s`, in order.
pub fn chars_of(s: &str) -> (v: Vec<char>)
    ensures
        v@ == s@,
{
    let mut v: Vec<char> = Vec::new();
    let mut it = s.chars();
    loop
        invariant
            v@ + it.remaining() == s@,
            it.decrease() is Some,
        ensures
            v@ == s@,
        decreases it.decrease()->0,
    {
        match it.next() {
            Some(c) => {
                v.push(c);
            },
            None => {
                break;
            },
        }
    }
    v
}

/// Relies on `String::push`: appends one character at the end.
#[verifier::external_body]
pub(crate) fn push_char(s: &mut String, c: char)
    ensures
        final(s)@ == old(s)@.push(c),
{
    s.push(c);
}

/// `s` without one `'\r'` at its end, if it has one.
pub open spec fn strip_cr(s: Seq<char>) -> Seq<char> {
    if s.len() > 0 && s.last() == '\r' {
        s.drop_last()
    } else {
        s
    }
}

/// Reading `s` one character at a time into lines: the lines completed so
/// far and the line under way. A `'\n'` completes a line and is dropped, as
/// is one `'\r'` just before it.
pub open spec fn line_fold(st: (Seq<Seq<char>>, Seq<char>), s: Seq<char>) -> (
    Seq<Seq<char>>,
    Seq<char>,
)
    decreases s.len(),
{
    if s.len() == 0 {
        st
    } else {
        let (done, cur) = line_fold(st, s.drop_last());
        if s.last() == '\n' {
            (done.push(strip_cr(cur)), Seq::empty())
        } else {
            (done, cur.push(s.last()))
        }
    }
}

/// The lines of `s`: the pieces between line feeds, less one `'\r'` before
/// each line feed; a last piece counts only when it is not empty.
pub open spec fn lines(s: Seq<char>) -> Seq<Seq<char>> {
    let (done, cur) = line_fold((Seq::empty(), Seq::empty()), s);
    if cur.len() > 0 {
        done.push(cur)
    } else {
        done
    }
}

/// Reading `s` one character at a time into white-space separated words:
/// the words completed so far and the word under way.
pub open spec fn word_fold(st: (Seq<Seq<char>>, Seq<char>), s: Seq<char>) -> (
    Seq<Seq<char>>,
    Seq<char>,
)
    decreases s.len(),
{
    if s.len() == 0 {
        st
    } else {
        let (done, cur) = word_fold(st, s.drop_last());
        if !is_space(s.last()) {
            (done, cur.push(s.last()))
        } else if cur.len() > 0 {
            (done.push(cur), Seq::empty())
        } else {
            (done, cur)
        }
    }
}

/// The maximal runs of non-white-space characters of `s`, in order.
pub open spec fn words(s: Seq<char>) -> Seq<Seq<char>> {
    let (done, cur) = word_fold((Seq::empty(), Seq::empty()), s);
    if cur.len() > 0 {
        done.push(cur)
    } else {
        done
    }
}

/// The contents of a list of character vectors.
pub open spec fn seqs_of(v: Seq<Vec<char>>) -> Seq<Seq<char>> {
    v.map_values(|x: Vec<char>| x@)
}

/// Splits `s` into lines.
pub fn split_lines(s: &Vec<char>) -> (r: Vec<Vec<char>>)
    ensures
        seqs_of(r@) == lines(s@),
{
    let mut done: Vec<Vec<char>> = Vec::new();
    let mut cur: Vec<char> = Vec::new();
    let mut i: usize = 0;
    while i < s.len()
        invariant
            i <= s@.len(),
            (seqs_of(done@), cur@) == line_fold((Seq::empty(), Seq::empty()), s@.take(i as int)),
        decreases s@.len() - i,
    {
        let c = s[i];
        proof {
            assert(s@.take(i + 1).drop_last() == s@.take(i as int));
            assert(s@.take(i + 1).last() == c);
        }
        if c == '\n' {
            if cur.len() > 0 && cur[cur.len() - 1] == '\r' {
                cur.pop();
            }
            let ghost before = seqs_of(done@);
            done.push(cur);
            assert(seqs_of(done@) == before.push(done@.last()@));
            cur = Vec::new();
        } else {
            cur.push(c);
        }
        i = i + 1;
    }
    assert(s@.take(s@.len() as int) == s@);
    if cur.len() > 0 {
        let ghost before = seqs_of(done@);
        done.push(cur);
        assert(seqs_of(done@) == before.push(done@.last()@));
    }
    done
}

/// Splits `s` into its white-space separated words.
pub fn split_words(s: &Vec<char>) -> (r: Vec<Vec<char>>)
    ensures
        seqs_of(r@) == words(s@),
{
    let mut done: Vec<Vec<char>> = Vec::new();
    let mut cur: Vec<char> = Vec::new();
    let mut i: usize = 0;
    while i < s.len()
        invariant
            i <= s@.len(),
            (seqs_of(done@), cur@) == word_fold((Seq::empty(), Seq::empty()), s@.take(i as int)),
        decreases s@.len() - i,
    {
        let c = s[i];
        proof {
            assert(s@.take(i + 1).drop_last() == s@.take(i as int));
            assert(s@.take(i + 1).last() == c);
        }
        if !is_space_char(c) {
            cur.push(c);
        } else if cur.len() > 0 {
            let ghost before = seqs_of(done@);
            done.push(cur);
            assert(seqs_of(done@) == before.push(done@.last()@));
            cur = Vec::new();
        }
        i = i + 1;
    }
    assert(s@.take(s@.len() as int) == s@);
    if cur.len() > 0 {
        let ghost before = seqs_of(done@);
        done.push(cur);
        assert(seqs_of(done@) == before.push(done@.last()@));
    }
    done
}

pub proof fn lemma_line_fold_concat(st: (Seq<Seq<char>>, Seq<char>), a: Seq<char>, b: Seq<char>)
    ensures
        line_fold(st, a + b) == line_fold(line_fold(st, a), b),
    decreases b.len(),
{
    if b.len() == 0 {
        assert(a + b == a);
    } else {
        assert((a + b).drop_last() == a + b.drop_last());
        assert((a + b).last() == b.last());
        lemma_line_fold_concat(st, a, b.drop_last());
    }
}

pub proof fn lemma_line_fold_plain(done: Seq<Seq<char>>, cur: Seq<char>, x: Seq<char>)
    requires
        forall|i: int| 0 <= i < x.len() ==> #[trigger] x[i] != '\n',
    ensures
        line_fold((done, cur), x) == (done, cur + x),
    decreases x.len(),
{
    if x.len() == 0 {
        assert(cur + x == cur);
    } else {
        lemma_line_fold_plain(done, cur, x.drop_last());
        assert(cur + x == (cur + x.drop_last()).push(x.last()));
    }
}

pub proof fn lemma_word_fold_concat(st: (Seq<Seq<char>>, Seq<char>), a: Seq<char>, b: Seq<char>)
    ensures
        word_fold(st, a + b) == word_fold(word_fold(st, a), b),
    decreases b.len(),
{
    if b.len() == 0 {
        assert(a + b == a);
    } else {
        assert((a + b).drop_last() == a + b.drop_last());
        assert((a + b).last() == b.last());
        lemma_word_fold_concat(st, a, b.drop_last());
    }
}

pub proof fn lemma_word_fold_plain(done: Seq<Seq<char>>, cur: Seq<char>, x: Seq<char>)
    requires
        forall|i: int| 0 <= i < x.len() ==> !is_space(#[trigger] x[i]),
    ensures
        word_fold((done, cur), x) == (done, cur + x),
    decreases x.len(),
{
    if x.len() == 0 {
        assert(cur + x == cur);
    } else {
        lemma_word_fold_plain(done, cur, x.drop_last());
        assert(cur + x == (cur + x.drop_last()).push(x.last()));
    }
}

pub proof fn lemma_line_fold_one(st: (Seq<Seq<char>>, Seq<char>), c: char)
    ensures
        line_fold(st, seq![c]) == (if c == '\n' {
            (st.0.push(strip_cr(st.1)), Seq::<char>::empty())
        } else {
            (st.0, st.1.push(c))
        }),
{
    assert(seq![c].drop_last() =~= Seq::<char>::empty());
    assert(line_fold(st, Seq::<char>::empty()) == st);
}

pub proof fn lemma_word_fold_one(st: (Seq<Seq<char>>, Seq<char>), c: char)
    ensures
        word_fold(st, seq![c]) == (if !is_space(c) {
            (st.0, st.1.push(c))
        } else if st.1.len() > 0 {
            (st.0.push(st.1), Seq::<char>::empty())
        } else {
            st
        }),
{
    assert(seq![c].drop_last() =~= Seq::<char>::empty());
    assert(word_fold(st, Seq::<char>::empty()) == st);
}

} // verus!
