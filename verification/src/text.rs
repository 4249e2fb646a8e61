use vstd::prelude::*;

verus! {

/// The position of the first `c` in `s`, if any.
pub open spec fn first_index_of(s: Seq<char>, c: char) -> Option<int> {
    s.index_of_first(c)
}

/// `s` begins with the character `c`.
pub open spec fn begins_with(s: Seq<char>, c: char) -> bool {
    s.len() > 0 && s[0] == c
}

/// `s` begins with two dashes.
pub open spec fn begins_with_two_dashes(s: Seq<char>) -> bool {
    s.len() >= 2 && s[0] == '-' && s[1] == '-'
}

/// Character-wise equality of two string slices.
pub fn str_eq(a: &str, b: &str) -> (r: bool)
    ensures
        r == (a@ == b@),
{
    let n = a.unicode_len();
    if n != b.unicode_len() {
        return false;
    }
    let mut i: usize = 0;
    while i < n
        invariant
            n == a@.len(),
            n == b@.len(),
            i <= n,
            forall|j: int| 0 <= j < i ==> a@[j] == b@[j],
        decreases n - i,
    {
        if a.get_char(i) != b.get_char(i) {
            return false;
        }
        i += 1;
    }
    assert(a@ =~= b@);
    true
}

/// Whether `s` begins with `c`.
pub fn starts_with_char(s: &str, c: char) -> (r: bool)
    ensures
        r == begins_with(s@, c),
{
    s.unicode_len() > 0 && s.get_char(0) == c
}

/// Whether `s` begins with `--`.
pub fn starts_with_two_dashes(s: &str) -> (r: bool)
    ensures
        r == begins_with_two_dashes(s@),
{
    s.unicode_len() >= 2 && s.get_char(0) == '-' && s.get_char(1) == '-'
}

/// The position of the first `c` in `s`; the length bound lets a caller step
/// past a found position without overflow.
pub fn find_char(s: &str, c: char) -> (r: Option<usize>)
    ensures
        match r {
            Some(i) => first_index_of(s@, c) == Some(i as int),
            None => first_index_of(s@, c) is None,
        },
        s@.len() <= usize::MAX,
{
    proof {
        s@.index_of_first_ensures(c);
    }
    let n = s.unicode_len();
    let mut i: usize = 0;
    while i < n
        invariant
            n == s@.len(),
            i <= n,
            forall|j: int| 0 <= j < i ==> s@[j] != c,
            match s@.index_of_first(c) {
                Some(index) => {
                    &&& s@.contains(c)
                    &&& 0 <= index < s@.len()
                    &&& s@[index] == c
                    &&& forall|j: int| 0 <= j < index < s@.len() ==> s@[j] != c
                },
                None => !s@.contains(c),
            },
        decreases n - i,
    {
        if s.get_char(i) == c {
            assert(s@.contains(c));
            return Some(i);
        }
        i += 1;
    }
    None
}

/// The characters of `s` from position `from` on.
pub fn suffix<'a>(s: &'a str, from: usize) -> (r: &'a str)
    requires
        from <= s@.len(),
    ensures
        r@ == s@.skip(from as int),
{
    let n = s.unicode_len();
    s.substring_char(from, n)
}

/// A character of the Unicode `White_Space` property, as `char::is_whitespace`
/// decides it.
pub open spec fn is_space(c: char) -> bool {
    ||| '\u{9}' <= c <= '\u{d}'
    ||| c == ' '
    ||| c == '\u{85}'
    ||| c == '\u{a0}'
    ||| c == '\u{1680}'
    ||| '\u{2000}' <= c <= '\u{200a}'
    ||| c == '\u{2028}'
    ||| c == '\u{2029}'
    ||| c == '\u{202f}'
    ||| c == '\u{205f}'
    ||| c == '\u{3000}'
}

/// Whether `c` is white space.
pub fn char_is_space(c: char) -> (r: bool)
    ensures
        r == is_space(c),
{
    ('\u{9}' <= c && c <= '\u{d}') || c == ' ' || c == '\u{85}' || c == '\u{a0}' || c
        == '\u{1680}' || ('\u{2000}' <= c && c <= '\u{200a}') || c == '\u{2028}' || c
        == '\u{2029}' || c == '\u{202f}' || c == '\u{205f}' || c == '\u{3000}'
}

/// The word being read, if it is not empty.
pub open spec fn word_if_any(cur: Seq<char>) -> Seq<Seq<char>> {
    if cur.len() > 0 {
        seq![cur]
    } else {
        Seq::empty()
    }
}

/// The words of `s`, the word `cur` being read before it: maximal runs of
/// characters that are not white space.
pub open spec fn words_from(s: Seq<char>, cur: Seq<char>) -> Seq<Seq<char>>
    decreases s.len(),
{
    if s.len() == 0 {
        word_if_any(cur)
    } else if is_space(s[0]) {
        word_if_any(cur) + words_from(s.drop_first(), Seq::empty())
    } else {
        words_from(s.drop_first(), cur.push(s[0]))
    }
}

/// The words of `s`.
pub open spec fn words(s: Seq<char>) -> Seq<Seq<char>> {
    words_from(s, Seq::empty())
}

/// `w` holds no white space.
pub open spec fn spaceless(w: Seq<char>) -> bool {
    forall|j: int| 0 <= j < w.len() ==> !is_space(#[trigger] w[j])
}

/// Every word of `ws` is non-empty and holds no white space.
pub open spec fn all_solid(ws: Seq<Seq<char>>) -> bool {
    forall|i: int| 0 <= i < ws.len() ==> (#[trigger] ws[i]).len() > 0 && spaceless(ws[i])
}

/// Every word is non-empty and holds no white space.
pub proof fn lemma_words_from_solid(s: Seq<char>, cur: Seq<char>)
    requires
        spaceless(cur),
    ensures
        all_solid(words_from(s, cur)),
    decreases s.len(),
{
    if s.len() == 0 {
        assert(all_solid(word_if_any(cur)));
    } else if is_space(s[0]) {
        lemma_words_from_solid(s.drop_first(), Seq::empty());
        let w = word_if_any(cur);
        let rest = words_from(s.drop_first(), Seq::empty());
        assert forall|i: int| 0 <= i < (w + rest).len() implies (#[trigger] (w + rest)[i]).len() > 0
            && spaceless((w + rest)[i]) by {
            if i >= w.len() {
                assert((w + rest)[i] == rest[i - w.len()]);
            }
        }
    } else {
        let next = cur.push(s[0]);
        assert forall|j: int| 0 <= j < next.len() implies !is_space(#[trigger] next[j]) by {
            if j < cur.len() {
                assert(next[j] == cur[j]);
            }
        }
        lemma_words_from_solid(s.drop_first(), next);
    }
}

/// The words of a string are non-empty and hold no white space.
pub proof fn lemma_words_solid(s: Seq<char>)
    ensures
        all_solid(words(s)),
{
    lemma_words_from_solid(s, Seq::empty());
}

/// The characters of Unicode's `White_Space` property, by code point: what
/// `char::is_whitespace` accepts.
pub open spec fn unicode_white_space(c: char) -> bool {
    let u = c as u32;
    ||| 0x09 <= u && u <= 0x0d
    ||| u == 0x20
    ||| u == 0x85
    ||| u == 0xa0
    ||| u == 0x1680
    ||| 0x2000 <= u && u <= 0x200a
    ||| u == 0x2028
    ||| u == 0x2029
    ||| u == 0x202f
    ||| u == 0x205f
    ||| u == 0x3000
}

/// The characters of `s` that are not white space, in order.
pub open spec fn non_space_chars(s: Seq<char>) -> Seq<char>
    decreases s.len(),
{
    if s.len() == 0 {
        Seq::empty()
    } else if unicode_white_space(s[0]) {
        non_space_chars(s.drop_first())
    } else {
        seq![s[0]] + non_space_chars(s.drop_first())
    }
}

/// The two statements of white space agree.
pub proof fn lemma_white_space_by_code_point(c: char)
    ensures
        is_space(c) == unicode_white_space(c),
{
}

proof fn lemma_flatten_front(x: Seq<char>, w: Seq<Seq<char>>)
    ensures
        (seq![x] + w).flatten() == x + w.flatten(),
{
    assert((seq![x] + w).first() == x);
    assert((seq![x] + w).drop_first() =~= w);
}

proof fn lemma_word_if_any_flatten(cur: Seq<char>, w: Seq<Seq<char>>)
    ensures
        (word_if_any(cur) + w).flatten() == cur + w.flatten(),
{
    if cur.len() > 0 {
        lemma_flatten_front(cur, w);
    } else {
        assert(word_if_any(cur) + w =~= w);
        assert(cur + w.flatten() =~= w.flatten());
    }
}

proof fn lemma_words_from_keep_chars(s: Seq<char>, cur: Seq<char>)
    ensures
        words_from(s, cur).flatten() == cur + non_space_chars(s),
    decreases s.len(),
{
    if s.len() == 0 {
        lemma_word_if_any_flatten(cur, Seq::empty());
        assert(cur + Seq::<char>::empty() =~= cur);
    } else if is_space(s[0]) {
        lemma_white_space_by_code_point(s[0]);
        lemma_words_from_keep_chars(s.drop_first(), Seq::empty());
        lemma_word_if_any_flatten(cur, words_from(s.drop_first(), Seq::empty()));
        assert(Seq::<char>::empty() + non_space_chars(s.drop_first()) =~= non_space_chars(
            s.drop_first(),
        ));
    } else {
        lemma_white_space_by_code_point(s[0]);
        lemma_words_from_keep_chars(s.drop_first(), cur.push(s[0]));
        assert(cur.push(s[0]) + non_space_chars(s.drop_first()) =~= cur + (seq![s[0]]
            + non_space_chars(s.drop_first())));
    }
}

/// Splitting at white space keeps every character that is not white space, in
/// order, and no word holds a white space character: the words, put together,
/// are the string without its white space.
pub proof fn lemma_words_are_the_non_space_chars(s: Seq<char>)
    ensures
        words(s).flatten() == non_space_chars(s),
        forall|i: int, j: int|
            0 <= i < words(s).len() && 0 <= j < words(s)[i].len() ==> !unicode_white_space(
                #[trigger] words(s)[i][j],
            ),
{
    lemma_words_from_keep_chars(s, Seq::empty());
    assert(Seq::<char>::empty() + non_space_chars(s) =~= non_space_chars(s));
    lemma_words_solid(s);
    assert forall|i: int, j: int|
        0 <= i < words(s).len() && 0 <= j < words(s)[i].len() implies !unicode_white_space(
        #[trigger] words(s)[i][j],
    ) by {
        assert(spaceless(words(s)[i]));
        assert(!is_space(words(s)[i][j]));
        lemma_white_space_by_code_point(words(s)[i][j]);
    }
}

/// Splits `s` at white space, as `str::split_whitespace` does.
pub fn split_whitespace<'a>(s: &'a str) -> (r: Vec<&'a str>)
    ensures
        r@.map_values(|w: &'a str| w@) == words(s@),
{
    let n = s.unicode_len();
    let mut out: Vec<&'a str> = Vec::new();
    let mut start: usize = 0;
    let mut i: usize = 0;
    assert(s@.skip(0) =~= s@);
    assert(s@.subrange(0, 0) =~= Seq::<char>::empty());
    while i < n
        invariant
            n == s@.len(),
            start <= i <= n,
            words(s@) == out@.map_values(|w: &'a str| w@) + words_from(
                s@.skip(i as int),
                s@.subrange(start as int, i as int),
            ),
        decreases n - i,
    {
        let c = s.get_char(i);
        let ghost before = out@;
        let ghost cur = s@.subrange(start as int, i as int);
        assert(s@.skip(i as int)[0] == c);
        assert(s@.skip(i as int).drop_first() =~= s@.skip(i + 1));
        if char_is_space(c) {
            if start < i {
                let w = s.substring_char(start, i);
                out.push(w);
                assert(out@.map_values(|w: &'a str| w@) =~= before.map_values(|w: &'a str| w@)
                    + word_if_any(cur));
            } else {
                assert(out@.map_values(|w: &'a str| w@) =~= before.map_values(|w: &'a str| w@)
                    + word_if_any(cur));
            }
            start = i + 1;
            assert(s@.subrange(start as int, i + 1) =~= Seq::<char>::empty());
            assert(words(s@) =~= out@.map_values(|w: &'a str| w@) + words_from(
                s@.skip(i + 1),
                s@.subrange(start as int, i + 1),
            ));
        } else {
            assert(s@.subrange(start as int, i + 1) =~= cur.push(c));
        }
        i += 1;
    }
    let ghost before = out@;
    let ghost cur = s@.subrange(start as int, n as int);
    assert(s@.skip(n as int) =~= Seq::<char>::empty());
    if start < n {
        out.push(s.substring_char(start, n));
    }
    assert(out@.map_values(|w: &'a str| w@) =~= before.map_values(|w: &'a str| w@) + word_if_any(
        cur,
    ));
    out
}

} // verus!
