//! Character and text primitives shared by the parsers.

use vstd::prelude::*;
use vstd::string::StrSliceExecFns;
use vstd::string::StringExecFns;

verus! {

/// The characters that separate fields: the Unicode `White_Space` set.
pub open spec fn is_whitespace(c: char) -> bool {
    let n = c as u32;
    ||| 0x09 <= n <= 0x0D
    ||| n == 0x20
    ||| n == 0x85
    ||| n == 0xA0
    ||| n == 0x1680
    ||| 0x2000 <= n <= 0x200A
    ||| n == 0x2028
    ||| n == 0x2029
    ||| n == 0x202F
    ||| n == 0x205F
    ||| n == 0x3000
}

/// Tells whether `c` separates fields.
pub fn is_space(c: char) -> (b: bool)
    ensures
        b == is_whitespace(c),
{
    let n: u32 = c as u32;
    (0x09 <= n && n <= 0x0D) || n == 0x20 || n == 0x85 || n == 0xA0 || n == 0x1680 || (0x2000 <= n
        && n <= 0x200A) || n == 0x2028 || n == 0x2029 || n == 0x202F || n == 0x205F || n == 0x3000
}

/// The characters of `s`, in order.
pub fn chars_of(s: &str) -> (v: Vec<char>)
    ensures
        v@ == s@,
{
    broadcast use vstd::string::axiom_spec_iter;

    let mut v: Vec<char> = Vec::new();
    let chars = s.chars();
    for c in it: chars
        invariant
            it.seq() == s@,
            v@ == s@.take(it.index()),
    {
        v.push(c);
    }
    v
}

/// The views of a sequence of strings.
pub open spec fn texts(v: Seq<String>) -> Seq<Seq<char>> {
    v.map_values(|t: String| t@)
}

/// Length of the run of non-whitespace characters at the start of `s`.
pub open spec fn word_len(s: Seq<char>) -> nat
    decreases s.len(),
{
    if s.len() == 0 || is_whitespace(s[0]) {
        0
    } else {
        1 + word_len(s.skip(1))
    }
}

/// A run of `n` non-whitespace characters that ends at whitespace or at the
/// end of the text is exactly the leading word.
pub proof fn lemma_word_len(s: Seq<char>, n: nat)
    requires
        n <= s.len(),
        forall|k: int| 0 <= k < n ==> !is_whitespace(#[trigger] s[k]),
        n == s.len() || is_whitespace(s[n as int]),
    ensures
        word_len(s) == n,
    decreases n,
{
    if n > 0 {
        let t = s.skip(1);
        assert forall|k: int| 0 <= k < n - 1 implies !is_whitespace(#[trigger] t[k]) by {
            assert(t[k] == s[k + 1]);
        }
        lemma_word_len(t, (n - 1) as nat);
    }
}

/// The leading word never runs past the end of the text.
pub proof fn lemma_word_len_bound(s: Seq<char>)
    ensures
        word_len(s) <= s.len(),
        s.len() > 0 && !is_whitespace(s[0]) ==> word_len(s) >= 1,
    decreases s.len(),
{
    if s.len() > 0 && !is_whitespace(s[0]) {
        lemma_word_len_bound(s.skip(1));
    }
}

/// The whitespace-separated words of `s`: leading whitespace is skipped,
/// then the longest run without whitespace is a word, and so on.
pub open spec fn words(s: Seq<char>) -> Seq<Seq<char>>
    decreases s.len(),
{
    if s.len() == 0 {
        Seq::empty()
    } else if is_whitespace(s[0]) {
        words(s.skip(1))
    } else {
        proof {
            lemma_word_len_bound(s);
        }
        seq![s.take(word_len(s) as int)] + words(s.skip(word_len(s) as int))
    }
}

/// Splits `s` into its whitespace-separated words.
pub fn split_words(s: &str) -> (out: Vec<String>)
    ensures
        texts(out@) == words(s@),
{
    let cs = chars_of(s);
    let n = cs.len();
    let mut out: Vec<String> = Vec::new();
    let mut i: usize = 0;
    assert(s@.skip(0) == s@);
    assert(texts(out@) + words(s@) == words(s@));
    while i < n
        invariant
            i <= n,
            n == cs.len(),
            cs@ == s@,
            words(s@) == texts(out@) + words(s@.skip(i as int)),
        decreases n - i,
    {
        if is_space(cs[i]) {
            assert(s@.skip(i as int).skip(1) == s@.skip(i + 1));
            i = i + 1;
        } else {
            let mut j: usize = i + 1;
            while j < n && !is_space(cs[j])
                invariant
                    i < j <= n,
                    n == cs.len(),
                    forall|k: int| i <= k < j ==> !is_whitespace(#[trigger] cs@[k]),
                decreases n - j,
            {
                j = j + 1;
            }
            let w = s.substring_char(i, j);
            let ghost before = out@;
            out.push(w.to_owned());
            proof {
                let rest = s@.skip(i as int);
                assert forall|k: int| 0 <= k < j - i implies !is_whitespace(#[trigger] rest[k]) by {
                    assert(rest[k] == cs@[i + k]);
                }
                lemma_word_len(rest, (j - i) as nat);
                assert(rest.take(j - i) == s@.subrange(i as int, j as int));
                assert(rest.skip(j - i) == s@.skip(j as int));
                assert(texts(out@) == texts(before).push(w@));
                assert(texts(before) + (seq![w@] + words(s@.skip(j as int))) == texts(out@) + words(
                    s@.skip(j as int),
                ));
            }
            i = j;
        }
    }
    assert(texts(out@) + Seq::<Seq<char>>::empty() == texts(out@));
    out
}

/// Length of the text before the first line feed of `s`.
pub open spec fn line_len(s: Seq<char>) -> nat
    decreases s.len(),
{
    if s.len() == 0 || s[0] == '\n' {
        0
    } else {
        1 + line_len(s.skip(1))
    }
}

/// A run of `n` characters without a line feed that ends at a line feed or
/// at the end of the text is exactly the first line.
pub proof fn lemma_line_len(s: Seq<char>, n: nat)
    requires
        n <= s.len(),
        forall|k: int| 0 <= k < n ==> #[trigger] s[k] != '\n',
        n == s.len() || s[n as int] == '\n',
    ensures
        line_len(s) == n,
    decreases n,
{
    if n > 0 {
        let t = s.skip(1);
        assert forall|k: int| 0 <= k < n - 1 implies #[trigger] t[k] != '\n' by {
            assert(t[k] == s[k + 1]);
        }
        lemma_line_len(t, (n - 1) as nat);
    }
}

/// The lines of `s`: the pieces between line feeds. A text without a line
/// feed is one line; a text that ends in a line feed has an empty last line.
pub open spec fn lines(s: Seq<char>) -> Seq<Seq<char>>
    decreases s.len(),
{
    if line_len(s) >= s.len() {
        seq![s]
    } else {
        seq![s.take(line_len(s) as int)] + lines(s.skip(line_len(s) as int + 1))
    }
}

/// Splits `s` at its line feeds.
pub fn split_lines(s: &str) -> (out: Vec<String>)
    ensures
        texts(out@) == lines(s@),
{
    let cs = chars_of(s);
    let n = cs.len();
    let mut out: Vec<String> = Vec::new();
    let mut i: usize = 0;
    let mut done = false;
    assert(s@.skip(0) == s@);
    assert(texts(out@) + lines(s@) == lines(s@));
    while !done
        invariant
            i <= n,
            n == cs.len(),
            cs@ == s@,
            !done ==> lines(s@) == texts(out@) + lines(s@.skip(i as int)),
            done ==> lines(s@) == texts(out@),
        decreases (n - i) + (if done { 0int } else { 1int }),
    {
        let mut j: usize = i;
        while j < n && cs[j] != '\n'
            invariant
                i <= j <= n,
                n == cs.len(),
                forall|k: int| i <= k < j ==> #[trigger] cs@[k] != '\n',
            decreases n - j,
        {
            j = j + 1;
        }
        let w = s.substring_char(i, j);
        let ghost before = out@;
        out.push(w.to_owned());
        proof {
            let rest = s@.skip(i as int);
            assert forall|k: int| 0 <= k < j - i implies #[trigger] rest[k] != '\n' by {
                assert(rest[k] == cs@[i + k]);
            }
            lemma_line_len(rest, (j - i) as nat);
            assert(rest.take(j - i) == s@.subrange(i as int, j as int));
            assert(texts(out@) == texts(before).push(w@));
            if j == n {
                assert(rest == s@.subrange(i as int, j as int));
                assert(texts(before) + seq![rest] == texts(out@));
            } else {
                assert(rest.skip(j - i + 1) == s@.skip(j + 1));
                assert(texts(before) + (seq![w@] + lines(s@.skip(j + 1))) == texts(out@) + lines(
                    s@.skip(j + 1),
                ));
            }
        }
        if j == n {
            done = true;
        } else {
            i = j + 1;
        }
    }
    out
}

/// The part of `s` after its last colon; all of `s` where it has none.
pub open spec fn after_last_colon(s: Seq<char>) -> Seq<char>
    decreases s.len(),
{
    if s.len() == 0 || s.last() == ':' {
        Seq::empty()
    } else {
        after_last_colon(s.drop_last()).push(s.last())
    }
}

/// Where no colon stands at or after `k`, and one stands just before `k` or
/// `k` is the start, the part after the last colon starts at `k`.
pub proof fn lemma_after_last_colon(s: Seq<char>, k: int)
    requires
        0 <= k <= s.len(),
        forall|j: int| k <= j < s.len() ==> #[trigger] s[j] != ':',
        k == 0 || s[k - 1] == ':',
    ensures
        after_last_colon(s) == s.skip(k),
    decreases s.len() - k,
{
    if k < s.len() {
        let init = s.drop_last();
        assert forall|j: int| k <= j < init.len() implies #[trigger] init[j] != ':' by {
            assert(init[j] == s[j]);
        }
        lemma_after_last_colon(init, k);
        assert(init.skip(k).push(s.last()) == s.skip(k));
    } else {
        assert(s.skip(k) == Seq::<char>::empty());
    }
}

/// The part of `s` after its last colon.
pub fn tail_after_colon(s: &str) -> (t: String)
    ensures
        t@ == after_last_colon(s@),
{
    let cs = chars_of(s);
    let n = cs.len();
    let mut k: usize = n;
    while k > 0 && cs[k - 1] != ':'
        invariant
            k <= n,
            n == cs.len(),
            forall|j: int| k <= j < n ==> #[trigger] cs@[j] != ':',
        decreases k,
    {
        k = k - 1;
    }
    proof {
        lemma_after_last_colon(s@, k as int);
    }
    s.substring_char(k, n).to_owned()
}

/// Whether `c` belongs to one of Unicode's general categories for numbers.
pub uninterp spec fn numeric_char(c: char) -> bool;

/// Calls `char::is_numeric` of the standard library. Not proved: that its
/// answer is the one that `numeric_char` names for the same character.
#[verifier::external_body]
fn unicode_numeric(c: char) -> (b: bool)
    ensures
        b == numeric_char(c),
{
    c.is_numeric()
}

/// Every character of `s` is numeric. This holds of the empty text.
pub open spec fn all_numeric(s: Seq<char>) -> bool {
    forall|i: int| 0 <= i < s.len() ==> numeric_char(#[trigger] s[i])
}

/// Tells whether every character of `s` is numeric.
pub fn is_all_numeric(s: &str) -> (b: bool)
    ensures
        b == all_numeric(s@),
{
    let cs = chars_of(s);
    let mut i: usize = 0;
    while i < cs.len()
        invariant
            i <= cs.len(),
            cs@ == s@,
            forall|k: int| 0 <= k < i ==> numeric_char(#[trigger] s@[k]),
        decreases cs.len() - i,
    {
        if !unicode_numeric(cs[i]) {
            return false;
        }
        i = i + 1;
    }
    true
}

/// The lower-case form of a text under Unicode's case mapping.
pub uninterp spec fn lowercase_of(s: Seq<char>) -> Seq<char>;

/// Calls `str::to_lowercase` of the standard library. Not proved: that its
/// result is the text that `lowercase_of` names for the same input.
#[verifier::external_body]
pub(crate) fn lowercase(s: &str) -> (t: String)
    ensures
        t@ == lowercase_of(s@),
{
    s.to_lowercase()
}

/// The texts of `parts` in a row, with `sep` between neighbours.
pub open spec fn join(parts: Seq<Seq<char>>, sep: Seq<char>) -> Seq<char>
    decreases parts.len(),
{
    if parts.len() == 0 {
        Seq::empty()
    } else if parts.len() == 1 {
        parts[0]
    } else {
        join(parts.drop_last(), sep) + sep + parts.last()
    }
}

/// Joins `parts` with `sep` between neighbours.
pub fn join_texts(parts: &Vec<String>, sep: &str) -> (t: String)
    ensures
        t@ == join(texts(parts@), sep@),
{
    let mut t = String::new();
    let mut i: usize = 0;
    let ghost all = texts(parts@);
    assert(all.take(0).len() == 0);
    while i < parts.len()
        invariant
            i <= parts.len(),
            all == texts(parts@),
            t@ == join(all.take(i as int), sep@),
        decreases parts.len() - i,
    {
        if i > 0 {
            t.append(sep);
        }
        t.append(parts[i].as_str());
        proof {
            let upto = all.take(i + 1);
            assert(upto.drop_last() == all.take(i as int));
            assert(upto.last() == parts@[i as int]@);
            if i == 0 {
                assert(Seq::<char>::empty() + upto[0] == upto[0]);
            }
        }
        i = i + 1;
    }
    assert(all.take(parts.len() as int) == all);
    t
}

} // verus!
