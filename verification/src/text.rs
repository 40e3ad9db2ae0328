use vstd::prelude::*;
use vstd::string::StrSliceExecFns;
use vstd::string::StringExecFns;

verus! {

/// The whitespace characters that delimit words and that `str_trim`
/// removes: the Unicode `White_Space` code points, the set behind
/// `char::is_whitespace`.
pub open spec fn is_ws(c: char) -> bool {
    ||| c == ' '
    ||| c == '\t'
    ||| c == '\n'
    ||| c == '\u{0B}'
    ||| c == '\u{0C}'
    ||| c == '\r'
    ||| c == '\u{85}'
    ||| c == '\u{A0}'
    ||| c == '\u{1680}'
    ||| (0x2000 <= c as u32 && c as u32 <= 0x200A)
    ||| c == '\u{2028}'
    ||| c == '\u{2029}'
    ||| c == '\u{202F}'
    ||| c == '\u{205F}'
    ||| c == '\u{3000}'
}

/// Exec test for `is_ws`.
pub fn is_ws_char(c: char) -> (r: bool)
    ensures
        r == is_ws(c),
{
    c == ' ' || c == '\t' || c == '\n' || c == '\u{0B}' || c == '\u{0C}' || c == '\r'
        || c == '\u{85}' || c == '\u{A0}' || c == '\u{1680}'
        || (0x2000 <= c as u32 && c as u32 <= 0x200A) || c == '\u{2028}' || c == '\u{2029}'
        || c == '\u{202F}' || c == '\u{205F}' || c == '\u{3000}'
}

/// Index of the first whitespace character of `s`, or `s.len()` if none:
/// the end of the word that starts at index 0.
pub open spec fn word_end(s: Seq<char>) -> int
    decreases s.len(),
{
    if s.len() == 0 || is_ws(s[0]) {
        0
    } else {
        1 + word_end(s.drop_first())
    }
}

pub proof fn lemma_word_end_bounds(s: Seq<char>)
    ensures
        0 <= word_end(s) <= s.len(),
    decreases s.len(),
{
    if !(s.len() == 0 || is_ws(s[0])) {
        lemma_word_end_bounds(s.drop_first());
    }
}

/// `word_end` is the unique boundary: all characters before it are
/// non-whitespace and it is either the end of the text or whitespace.
pub proof fn lemma_word_end_is(s: Seq<char>, m: int)
    requires
        0 <= m <= s.len(),
        forall|k: int| 0 <= k < m ==> !is_ws(s[k]),
        m == s.len() || is_ws(s[m]),
    ensures
        word_end(s) == m,
    decreases m,
{
    if m == 0 {
    } else {
        assert(!is_ws(s[0]));
        assert forall|k: int| 0 <= k < m - 1 implies !is_ws(s.drop_first()[k]) by {
            assert(s.drop_first()[k] == s[k + 1]);
        }
        if m < s.len() {
            assert(s.drop_first()[m - 1] == s[m]);
        }
        lemma_word_end_is(s.drop_first(), m - 1);
    }
}

pub proof fn lemma_word_end_chars(s: Seq<char>)
    ensures
        forall|k: int| 0 <= k < word_end(s) ==> !is_ws(s[k]),
        word_end(s) < s.len() ==> is_ws(s[word_end(s)]),
    decreases s.len(),
{
    lemma_word_end_bounds(s);
    if !(s.len() == 0 || is_ws(s[0])) {
        lemma_word_end_chars(s.drop_first());
        lemma_word_end_bounds(s.drop_first());
        assert forall|k: int| 0 <= k < word_end(s) implies !is_ws(s[k]) by {
            if k > 0 {
                assert(s.drop_first()[k - 1] == s[k]);
            }
        }
        if word_end(s) < s.len() {
            assert(s.drop_first()[word_end(s) - 1] == s[word_end(s)]);
        }
    }
}

/// The whitespace-delimited words of `s`, in order, with all whitespace
/// dropped.
pub open spec fn words_of(s: Seq<char>) -> Seq<Seq<char>>
    decreases s.len(),
        via words_of_dec
{
    if s.len() == 0 {
        Seq::empty()
    } else if is_ws(s[0]) {
        words_of(s.drop_first())
    } else {
        seq![s.take(word_end(s))] + words_of(s.skip(word_end(s)))
    }
}

#[via_fn]
proof fn words_of_dec(s: Seq<char>) {
    lemma_word_end_bounds(s);
    if s.len() > 0 && !is_ws(s[0]) {
        lemma_word_end_bounds(s.drop_first());
    }
}

/// Every word produced by `words_of` is non-empty and free of whitespace.
pub proof fn lemma_words_wf(s: Seq<char>)
    ensures
        forall|i: int| 0 <= i < words_of(s).len() ==> (#[trigger] words_of(s)[i]).len() > 0,
        forall|i: int, k: int|
            0 <= i < words_of(s).len() && 0 <= k < words_of(s)[i].len()
                ==> !is_ws(#[trigger] words_of(s)[i][k]),
    decreases s.len(),
{
    if s.len() == 0 {
    } else if is_ws(s[0]) {
        lemma_words_wf(s.drop_first());
        assert(words_of(s) == words_of(s.drop_first()));
    } else {
        lemma_word_end_bounds(s);
        lemma_word_end_chars(s);
        let k = word_end(s);
        lemma_words_wf(s.skip(k));
        assert(words_of(s) == seq![s.take(k)] + words_of(s.skip(k)));
        assert(words_of(s)[0] == s.take(k));
        assert(k >= 1);
        assert forall|i: int| 0 <= i < words_of(s).len() implies
            (#[trigger] words_of(s)[i]).len() > 0 by {
            if i > 0 {
                assert(words_of(s)[i] == words_of(s.skip(k))[i - 1]);
            }
        }
        assert forall|i: int, j: int|
            0 <= i < words_of(s).len() && 0 <= j < words_of(s)[i].len() implies
            !is_ws(#[trigger] words_of(s)[i][j]) by {
            if i == 0 {
                assert(words_of(s)[0][j] == s[j]);
            } else {
                assert(words_of(s)[i] == words_of(s.skip(k))[i - 1]);
            }
        }
    }
}

/// Scan forward from `start` to the end of the current word: the first
/// whitespace character at or after `start`, or the end of the text.
fn word_scan(s: &str, start: usize) -> (j: usize)
    requires
        start <= s@.len(),
    ensures
        start <= j <= s@.len(),
        forall|k: int| start <= k < j ==> !is_ws(s@[k]),
        j < s@.len() ==> is_ws(s@[j as int]),
{
    let n = s.unicode_len();
    let mut j: usize = start;
    while j < n
        invariant
            start <= j <= n,
            n == s@.len(),
            forall|k: int| start <= k < j ==> !is_ws(s@[k]),
        decreases n - j,
    {
        let c = s.get_char(j);
        if is_ws_char(c) {
            return j;
        }
        j = j + 1;
    }
    j
}

/// Split `s` into its whitespace-delimited words.
pub fn split_words(s: &str) -> (r: Vec<String>)
    ensures
        r.deep_view() == words_of(s@),
{
    let n = s.unicode_len();
    let mut r: Vec<String> = Vec::new();
    let mut i: usize = 0;
    proof {
        assert(s@.skip(0) =~= s@);
        assert(r.deep_view() =~= Seq::<Seq<char>>::empty());
        assert(r.deep_view() + words_of(s@.skip(0)) =~= words_of(s@));
    }
    while i < n
        invariant
            i <= n,
            n == s@.len(),
            r.deep_view() + words_of(s@.skip(i as int)) == words_of(s@),
        decreases n - i,
    {
        let c = s.get_char(i);
        if is_ws_char(c) {
            proof {
                assert(s@.skip(i as int)[0] == s@[i as int]);
                assert(s@.skip(i as int).drop_first() =~= s@.skip(i as int + 1));
            }
            i = i + 1;
        } else {
            let j = word_scan(s, i);
            assert(j > i);
            let w = s.substring_char(i, j).to_owned();
            let ghost old_dv = r.deep_view();
            r.push(w);
            proof {
                let tail = s@.skip(i as int);
                assert(tail[0] == s@[i as int]);
                assert forall|k: int| 0 <= k < j - i implies !is_ws(tail[k]) by {
                    assert(tail[k] == s@[i + k]);
                }
                if j < n {
                    assert(tail[j - i] == s@[j as int]);
                }
                lemma_word_end_is(tail, j - i);
                assert(tail.take(j - i) =~= s@.subrange(i as int, j as int));
                assert(tail.skip(j - i) =~= s@.skip(j as int));
                assert(words_of(tail) == seq![s@.subrange(i as int, j as int)]
                    + words_of(s@.skip(j as int)));
                assert(r.deep_view() =~= old_dv.push(s@.subrange(i as int, j as int)));
                assert(r.deep_view() + words_of(s@.skip(j as int)) =~= old_dv + words_of(tail));
            }
            i = j;
        }
    }
    proof {
        assert(s@.skip(n as int) =~= Seq::<char>::empty());
        assert(r.deep_view() + words_of(s@.skip(n as int)) =~= r.deep_view());
    }
    r
}

/// Index of the first `'\n'` of `s`, or `s.len()` if none.
pub open spec fn line_break(s: Seq<char>) -> int
    decreases s.len(),
{
    if s.len() == 0 || s[0] == '\n' {
        0
    } else {
        1 + line_break(s.drop_first())
    }
}

pub proof fn lemma_line_break_bounds(s: Seq<char>)
    ensures
        0 <= line_break(s) <= s.len(),
    decreases s.len(),
{
    if !(s.len() == 0 || s[0] == '\n') {
        lemma_line_break_bounds(s.drop_first());
    }
}

pub proof fn lemma_line_break_is(s: Seq<char>, m: int)
    requires
        0 <= m <= s.len(),
        forall|k: int| 0 <= k < m ==> s[k] != '\n',
        m == s.len() || s[m] == '\n',
    ensures
        line_break(s) == m,
    decreases m,
{
    if m == 0 {
    } else {
        assert(s[0] != '\n');
        assert forall|k: int| 0 <= k < m - 1 implies s.drop_first()[k] != '\n' by {
            assert(s.drop_first()[k] == s[k + 1]);
        }
        if m < s.len() {
            assert(s.drop_first()[m - 1] == s[m]);
        }
        lemma_line_break_is(s.drop_first(), m - 1);
    }
}

/// A text with one trailing carriage return removed, as `str::lines` does
/// to each line it yields.
pub open spec fn strip_cr(t: Seq<char>) -> Seq<char> {
    if t.len() > 0 && t[t.len() - 1] == '\r' {
        t.drop_last()
    } else {
        t
    }
}

/// The lines of `s`, in the sense of `str::lines`: split at `'\n'`, each
/// line stripped of one trailing `'\r'`, with no final empty line after a
/// trailing newline.
pub open spec fn lines_of(s: Seq<char>) -> Seq<Seq<char>>
    decreases s.len(),
        via lines_of_dec
{
    if s.len() == 0 {
        Seq::empty()
    } else {
        let k = line_break(s);
        if k >= s.len() {
            seq![strip_cr(s)]
        } else {
            seq![strip_cr(s.take(k))] + lines_of(s.skip(k + 1))
        }
    }
}

#[via_fn]
proof fn lines_of_dec(s: Seq<char>) {
    lemma_line_break_bounds(s);
}

/// Scan forward from `start` to the next `'\n'`, or the end of the text.
fn newline_scan(s: &str, start: usize) -> (j: usize)
    requires
        start <= s@.len(),
    ensures
        start <= j <= s@.len(),
        forall|k: int| start <= k < j ==> s@[k] != '\n',
        j < s@.len() ==> s@[j as int] == '\n',
{
    let n = s.unicode_len();
    let mut j: usize = start;
    while j < n
        invariant
            start <= j <= n,
            n == s@.len(),
            forall|k: int| start <= k < j ==> s@[k] != '\n',
        decreases n - j,
    {
        let c = s.get_char(j);
        if c == '\n' {
            return j;
        }
        j = j + 1;
    }
    j
}

/// One line of `s` delimited by `from` and `to`, with a trailing `'\r'`
/// stripped.
fn take_line(s: &str, from: usize, to: usize) -> (r: String)
    requires
        from <= to <= s@.len(),
    ensures
        r@ == strip_cr(s@.subrange(from as int, to as int)),
{
    let ghost piece = s@.subrange(from as int, to as int);
    if to > from && s.get_char(to - 1) == '\r' {
        let r = s.substring_char(from, to - 1).to_owned();
        proof {
            assert(piece[piece.len() - 1] == s@[to - 1]);
            assert(s@.subrange(from as int, to - 1) =~= piece.drop_last());
        }
        r
    } else {
        let r = s.substring_char(from, to).to_owned();
        proof {
            if piece.len() > 0 {
                assert(piece[piece.len() - 1] == s@[to - 1]);
            }
        }
        r
    }
}

/// Split `s` into lines as `str::lines` does.
pub fn str_lines(s: &str) -> (r: Vec<String>)
    ensures
        r.deep_view() == lines_of(s@),
{
    let n = s.unicode_len();
    let mut r: Vec<String> = Vec::new();
    let mut i: usize = 0;
    proof {
        assert(s@.skip(0) =~= s@);
        assert(r.deep_view() =~= Seq::<Seq<char>>::empty());
        assert(r.deep_view() + lines_of(s@.skip(0)) =~= lines_of(s@));
    }
    while i < n
        invariant
            i <= n,
            n == s@.len(),
            r.deep_view() + lines_of(s@.skip(i as int)) == lines_of(s@),
        decreases n - i,
    {
        let j = newline_scan(s, i);
        let line = take_line(s, i, j);
        let ghost old_dv = r.deep_view();
        r.push(line);
        proof {
            let tail = s@.skip(i as int);
            assert forall|k: int| 0 <= k < j - i implies tail[k] != '\n' by {
                assert(tail[k] == s@[i + k]);
            }
            if j < n {
                assert(tail[j - i] == s@[j as int]);
            }
            lemma_line_break_is(tail, j - i);
            assert(tail.take(j - i) =~= s@.subrange(i as int, j as int));
            assert(r.deep_view() =~= old_dv.push(strip_cr(s@.subrange(i as int, j as int))));
            if j < n {
                assert(tail.skip(j - i + 1) =~= s@.skip(j + 1));
                assert(lines_of(tail) == seq![strip_cr(tail.take(j - i))]
                    + lines_of(s@.skip(j + 1)));
                assert(r.deep_view() + lines_of(s@.skip(j + 1)) =~= old_dv + lines_of(tail));
            } else {
                assert(tail.take(j - i) =~= tail);
                assert(lines_of(tail) == seq![strip_cr(tail)]);
                assert(s@.skip(j as int) =~= Seq::<char>::empty());
                assert(r.deep_view() + lines_of(s@.skip(j as int)) =~= old_dv + lines_of(tail));
            }
        }
        if j < n {
            i = j + 1;
        } else {
            i = j;
            proof {
                assert(s@.skip(i as int) =~= Seq::<char>::empty());
            }
        }
    }
    proof {
        assert(s@.skip(n as int) =~= Seq::<char>::empty());
        assert(r.deep_view() + lines_of(s@.skip(n as int)) =~= r.deep_view());
    }
    r
}

/// `t` repeated `n` times.
pub open spec fn repeat_text(t: Seq<char>, n: nat) -> Seq<char>
    decreases n,
{
    if n == 0 {
        Seq::empty()
    } else {
        repeat_text(t, (n - 1) as nat) + t
    }
}

/// Build the repetition of `s`, `n` times.
pub fn str_repeat(s: &str, n: usize) -> (r: String)
    ensures
        r@ == repeat_text(s@, n as nat),
{
    let mut r = String::new();
    let mut i: usize = 0;
    proof {
        assert(r@ =~= repeat_text(s@, 0));
    }
    while i < n
        invariant
            i <= n,
            r@ == repeat_text(s@, i as nat),
        decreases n - i,
    {
        r.append(s);
        i = i + 1;
    }
    r
}

/// The character for one decimal digit.
pub open spec fn digit_char(d: nat) -> char {
    if d == 0 {
        '0'
    } else if d == 1 {
        '1'
    } else if d == 2 {
        '2'
    } else if d == 3 {
        '3'
    } else if d == 4 {
        '4'
    } else if d == 5 {
        '5'
    } else if d == 6 {
        '6'
    } else if d == 7 {
        '7'
    } else if d == 8 {
        '8'
    } else {
        '9'
    }
}

/// The decimal notation of `n`, without padding.
pub open spec fn dec_str(n: nat) -> Seq<char>
    decreases n,
{
    if n < 10 {
        seq![digit_char(n)]
    } else {
        dec_str(n / 10) + seq![digit_char(n % 10)]
    }
}

fn digit_str(d: u64) -> (r: &'static str)
    requires
        d < 10,
    ensures
        r@ == seq![digit_char(d as nat)],
{
    proof {
        reveal_strlit("0");
        reveal_strlit("1");
        reveal_strlit("2");
        reveal_strlit("3");
        reveal_strlit("4");
        reveal_strlit("5");
        reveal_strlit("6");
        reveal_strlit("7");
        reveal_strlit("8");
        reveal_strlit("9");
    }
    match d {
        0 => "0",
        1 => "1",
        2 => "2",
        3 => "3",
        4 => "4",
        5 => "5",
        6 => "6",
        7 => "7",
        8 => "8",
        _ => "9",
    }
}

/// The decimal notation of `n` as a string.
pub fn u64_to_string(n: u64) -> (r: String)
    ensures
        r@ == dec_str(n as nat),
    decreases n,
{
    if n < 10 {
        digit_str(n).to_owned()
    } else {
        let mut s = u64_to_string(n / 10);
        s.append(digit_str(n % 10));
        s
    }
}

/// `needle` occurs contiguously somewhere in `hay`.
pub open spec fn spec_contains(hay: Seq<char>, needle: Seq<char>) -> bool {
    exists|i: int|
        0 <= i <= hay.len() - needle.len()
            && #[trigger] hay.subrange(i, i + needle.len()) == needle
}

/// Whether the characters of `hay` starting at `i` are exactly `needle`.
fn match_at(hay: &str, i: usize, needle: &str) -> (r: bool)
    requires
        i + needle@.len() <= hay@.len(),
        hay@.len() <= usize::MAX,
    ensures
        r == (hay@.subrange(i as int, i + needle@.len()) == needle@),
{
    let m = needle.unicode_len();
    let mut k: usize = 0;
    while k < m
        invariant
            k <= m,
            m == needle@.len(),
            i + m <= hay@.len(),
            hay@.len() <= usize::MAX,
            forall|t: int| 0 <= t < k ==> hay@[i + t] == needle@[t],
        decreases m - k,
    {
        if hay.get_char(i + k) != needle.get_char(k) {
            proof {
                assert(hay@.subrange(i as int, i + needle@.len())[k as int] == hay@[i + k]);
            }
            return false;
        }
        k = k + 1;
    }
    proof {
        assert(hay@.subrange(i as int, i + needle@.len()) =~= needle@);
    }
    true
}

/// Substring search: whether `needle` occurs in `hay`.
pub fn contains_sub(hay: &str, needle: &str) -> (r: bool)
    ensures
        r == spec_contains(hay@, needle@),
{
    let n = hay.unicode_len();
    let m = needle.unicode_len();
    if m > n {
        proof {
            assert(!spec_contains(hay@, needle@));
        }
        return false;
    }
    if m == 0 {
        proof {
            assert(hay@.subrange(0, 0 + needle@.len() as int) =~= needle@);
            assert(spec_contains(hay@, needle@));
        }
        return true;
    }
    let mut i: usize = 0;
    while i <= n - m
        invariant
            1 <= m <= n,
            n == hay@.len(),
            m == needle@.len(),
            i <= n - m + 1,
            forall|t: int|
                0 <= t < i ==> #[trigger] hay@.subrange(t, t + needle@.len()) != needle@,
        decreases n - m - i + 1,
    {
        if match_at(hay, i, needle) {
            return true;
        }
        i = i + 1;
    }
    false
}

/// Character-for-character equality of two string slices.
pub fn str_eq(a: &str, b: &str) -> (r: bool)
    ensures
        r == (a@ == b@),
{
    let n = a.unicode_len();
    if n != b.unicode_len() {
        return false;
    }
    let mut i: usize = 0;
    while i < n
        invariant
            i <= n,
            n == a@.len(),
            n == b@.len(),
            forall|k: int| 0 <= k < i ==> a@[k] == b@[k],
        decreases n - i,
    {
        if a.get_char(i) != b.get_char(i) {
            return false;
        }
        i = i + 1;
    }
    proof {
        assert(a@ =~= b@);
    }
    true
}

/// Lexicographic order on texts, by code point, with a prefix ordered
/// before its extensions.
pub open spec fn lex_le(a: Seq<char>, b: Seq<char>) -> bool
    decreases a.len(),
{
    if a.len() == 0 {
        true
    } else if b.len() == 0 {
        false
    } else if (a[0] as u32) < (b[0] as u32) {
        true
    } else if (a[0] as u32) > (b[0] as u32) {
        false
    } else {
        lex_le(a.drop_first(), b.drop_first())
    }
}

/// Decide `lex_le` on two string slices.
pub fn str_lex_le(a: &str, b: &str) -> (r: bool)
    ensures
        r == lex_le(a@, b@),
{
    let na = a.unicode_len();
    let nb = b.unicode_len();
    let mut i: usize = 0;
    proof {
        assert(a@.skip(0) =~= a@);
        assert(b@.skip(0) =~= b@);
    }
    while i < na && i < nb
        invariant
            i <= na,
            i <= nb,
            na == a@.len(),
            nb == b@.len(),
            lex_le(a@, b@) == lex_le(a@.skip(i as int), b@.skip(i as int)),
        decreases na - i,
    {
        let ca = a.get_char(i);
        let cb = b.get_char(i);
        proof {
            assert(a@.skip(i as int)[0] == a@[i as int]);
            assert(b@.skip(i as int)[0] == b@[i as int]);
        }
        if (ca as u32) < (cb as u32) {
            return true;
        }
        if (ca as u32) > (cb as u32) {
            return false;
        }
        proof {
            assert(a@.skip(i as int).drop_first() =~= a@.skip(i as int + 1));
            assert(b@.skip(i as int).drop_first() =~= b@.skip(i as int + 1));
        }
        i = i + 1;
    }
    proof {
        if i == na {
            assert(a@.skip(i as int) =~= Seq::<char>::empty());
        } else {
            assert(b@.skip(i as int) =~= Seq::<char>::empty());
            assert(a@.skip(i as int).len() > 0);
        }
    }
    na <= nb
}

/// Relies on String::push: it appends exactly the given character.
#[verifier::external_body]
pub fn push_char(s: &mut String, c: char)
    ensures
        final(s)@ == old(s)@.push(c),
{
    s.push(c);
}

/// The lowercase form of a text, as `str::to_lowercase` computes it.
pub uninterp spec fn lower_of(s: Seq<char>) -> Seq<char>;

/// Relies on str::to_lowercase: the Unicode lowercase mapping of the
/// characters alone determines the result, and an empty string stays empty.
#[verifier::external_body]
pub fn to_lower(s: &str) -> (r: String)
    ensures
        r@ == lower_of(s@),
        s@.len() == 0 ==> r@.len() == 0,
{
    s.to_lowercase()
}

} // verus!
