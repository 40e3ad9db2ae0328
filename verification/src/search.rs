use vstd::prelude::*;
use vstd::string::StrSliceExecFns;
use vstd::string::StringExecFns;
use crate::text::{
    contains_sub, dec_str, is_ws, is_ws_char, lines_of, lower_of, spec_contains, str_lines,
    to_lower, u64_to_string,
};

verus! {

/// Leading whitespace removed.
pub open spec fn trim_start(s: Seq<char>) -> Seq<char>
    decreases s.len(),
{
    if s.len() > 0 && is_ws(s[0]) {
        trim_start(s.drop_first())
    } else {
        s
    }
}

/// Trailing whitespace removed.
pub open spec fn trim_end(s: Seq<char>) -> Seq<char>
    decreases s.len(),
{
    if s.len() > 0 && is_ws(s.last()) {
        trim_end(s.drop_last())
    } else {
        s
    }
}

/// Whitespace removed from both ends.
pub open spec fn trim_of(s: Seq<char>) -> Seq<char> {
    trim_end(trim_start(s))
}

proof fn lemma_trim_start_is(s: Seq<char>, a: int)
    requires
        0 <= a <= s.len(),
        forall|k: int| 0 <= k < a ==> is_ws(s[k]),
        a == s.len() || !is_ws(s[a]),
    ensures
        trim_start(s) == s.skip(a),
    decreases a,
{
    if a == 0 {
        assert(s.skip(0) =~= s);
    } else {
        assert(is_ws(s[0]));
        assert forall|k: int| 0 <= k < a - 1 implies is_ws(s.drop_first()[k]) by {
            assert(s.drop_first()[k] == s[k + 1]);
        }
        if a < s.len() {
            assert(s.drop_first()[a - 1] == s[a]);
        }
        lemma_trim_start_is(s.drop_first(), a - 1);
        assert(s.drop_first().skip(a - 1) =~= s.skip(a));
    }
}

proof fn lemma_trim_end_is(s: Seq<char>, b: int)
    requires
        0 <= b <= s.len(),
        forall|k: int| b <= k < s.len() ==> is_ws(s[k]),
        b == 0 || !is_ws(s[b - 1]),
    ensures
        trim_end(s) == s.take(b),
    decreases s.len(),
{
    if b == s.len() {
        if s.len() > 0 {
            assert(!is_ws(s.last()));
        }
        assert(s.take(b) =~= s);
    } else {
        assert(is_ws(s.last()));
        assert forall|k: int| b <= k < s.drop_last().len() implies is_ws(s.drop_last()[k]) by {
            assert(s.drop_last()[k] == s[k]);
        }
        if b > 0 {
            assert(s.drop_last()[b - 1] == s[b - 1]);
        }
        lemma_trim_end_is(s.drop_last(), b);
        assert(s.drop_last().take(b) =~= s.take(b));
    }
}

/// The first non-whitespace position at or after `start`.
fn non_ws_scan(s: &str, start: usize) -> (j: usize)
    requires
        start <= s@.len(),
    ensures
        start <= j <= s@.len(),
        forall|k: int| start <= k < j ==> is_ws(s@[k]),
        j < s@.len() ==> !is_ws(s@[j as int]),
{
    let n = s.unicode_len();
    let mut j: usize = start;
    while j < n
        invariant
            start <= j <= n,
            n == s@.len(),
            forall|k: int| start <= k < j ==> is_ws(s@[k]),
        decreases n - j,
    {
        let c = s.get_char(j);
        if !is_ws_char(c) {
            return j;
        }
        j = j + 1;
    }
    j
}

/// The position just past the last non-whitespace character, scanning back
/// from `n`; the character at `a` is known not to be whitespace.
fn last_non_ws(s: &str, a: usize, n: usize) -> (b: usize)
    requires
        a < n <= s@.len(),
        !is_ws(s@[a as int]),
    ensures
        a < b <= n,
        !is_ws(s@[b - 1]),
        forall|k: int| b <= k < n ==> is_ws(s@[k]),
{
    let mut b: usize = n;
    while b > a + 1
        invariant
            a + 1 <= b <= n,
            n <= s@.len(),
            forall|k: int| b <= k < n ==> is_ws(s@[k]),
        decreases b,
    {
        let c = s.get_char(b - 1);
        if !is_ws_char(c) {
            return b;
        }
        b = b - 1;
    }
    b
}

/// Remove whitespace from both ends of a string slice.
pub fn str_trim(s: &str) -> (r: String)
    ensures
        r@ == trim_of(s@),
{
    let n = s.unicode_len();
    let a = non_ws_scan(s, 0);
    if a == n {
        proof {
            lemma_trim_start_is(s@, n as int);
            assert(s@.skip(n as int) =~= Seq::<char>::empty());
            assert(trim_end(Seq::<char>::empty()) =~= Seq::<char>::empty());
        }
        return String::new();
    }
    let b = last_non_ws(s, a, n);
    proof {
        lemma_trim_start_is(s@, a as int);
        let t = s@.skip(a as int);
        assert(b > a);
        assert(!is_ws(s@[b - 1]));
        assert forall|k: int| b - a <= k < t.len() implies is_ws(t[k]) by {
            assert(t[k] == s@[a + k]);
        }
        assert(t[b - a - 1] == s@[b - 1]);
        lemma_trim_end_is(t, b - a);
        assert(t.take(b - a) =~= s@.subrange(a as int, b as int));
    }
    let r = s.substring_char(a, b).to_owned();
    r
}

/// The first `n` characters of a string.
pub fn str_take(s: &str, n: usize) -> (r: String)
    ensures
        r@ == if s@.len() <= n as nat {
            s@
        } else {
            s@.take(n as int)
        },
{
    let l = s.unicode_len();
    if l <= n {
        proof {
            assert(s@.take(l as int) =~= s@);
        }
        s.to_owned()
    } else {
        s.substring_char(0, n).to_owned()
    }
}

/// Whether a line matches a query: its lowercase form contains the query.
pub open spec fn line_matches(l: Seq<char>, q: Seq<char>) -> bool {
    spec_contains(lower_of(l), q)
}

/// How many lines of a text match the query.
pub open spec fn count_matches(lines: Seq<Seq<char>>, q: Seq<char>) -> nat
    decreases lines.len(),
{
    if lines.len() == 0 {
        0
    } else {
        count_matches(lines.drop_last(), q) + if line_matches(lines.last(), q) {
            1nat
        } else {
            0nat
        }
    }
}

/// The first matching line of a text, if any.
pub open spec fn first_match(lines: Seq<Seq<char>>, q: Seq<char>) -> Option<Seq<char>>
    decreases lines.len(),
{
    if lines.len() == 0 {
        None
    } else if line_matches(lines[0], q) {
        Some(lines[0])
    } else {
        first_match(lines.drop_first(), q)
    }
}

/// The preview a matching file shows: its first matching line, trimmed and
/// cut to 60 characters.
pub open spec fn preview_of(lines: Seq<Seq<char>>, q: Seq<char>) -> Seq<char> {
    match first_match(lines, q) {
        Some(l) => {
            let t = trim_of(l);
            if t.len() <= 60 {
                t
            } else {
                t.take(60)
            }
        },
        None => Seq::empty(),
    }
}

/// Scan a file's text for a (lowercased) query: the preview of the first
/// matching line and the number of matching lines, or `None` when no line
/// matches.
pub fn search_file(content: &str, query_lower: &str) -> (r: Option<(String, usize)>)
    ensures
        match r {
            Some((preview, count)) => {
                &&& count_matches(lines_of(content@), query_lower@) == count as nat
                &&& count as nat >= 1
                &&& preview@ == preview_of(lines_of(content@), query_lower@)
            },
            None => count_matches(lines_of(content@), query_lower@) == 0,
        },
{
    let ls = str_lines(content);
    let ghost lv = lines_of(content@);
    let mut count: usize = 0;
    let mut preview = String::new();
    let mut found = false;
    let mut i: usize = 0;
    proof {
        assert(lv.take(0) =~= Seq::<Seq<char>>::empty());
        assert(lv.take(0).map_values(|l: Seq<char>| l) =~= lv.take(0));
    }
    while i < ls.len()
        invariant
            i <= ls@.len(),
            ls.deep_view() == lv,
            ls@.len() == lv.len(),
            count as nat == count_matches(lv.take(i as int), query_lower@),
            count <= i,
            found ==> count >= 1,
            found == (first_match(lv.take(i as int), query_lower@) is Some),
            found ==> preview@ == preview_of(lv.take(i as int), query_lower@),
        decreases ls@.len() - i,
    {
        let ghost pre = lv.take(i as int);
        let lowered = to_lower(ls[i].as_str());
        let hit = contains_sub(lowered.as_str(), query_lower);
        proof {
            assert(ls.deep_view()[i as int] == ls@[i as int]@);
            assert(lv.take(i + 1).drop_last() =~= pre);
            assert(lv.take(i + 1).last() == lv[i as int]);
        }
        if hit {
            if !found {
                found = true;
                let trimmed = str_trim(ls[i].as_str());
                preview = str_take(trimmed.as_str(), 60);
                proof {
                    lemma_first_match_extend_hit(lv, query_lower@, i as int);
                }
            } else {
                proof {
                    lemma_first_match_extend(lv, query_lower@, i as int);
                }
            }
            count = count + 1;
        } else {
            proof {
                lemma_first_match_extend(lv, query_lower@, i as int);
            }
        }
        i = i + 1;
    }
    proof {
        assert(lv.take(ls@.len() as int) =~= lv);
    }
    if found {
        Some((preview, count))
    } else {
        proof {
            lemma_no_first_match_no_count(lv, query_lower@);
        }
        None
    }
}

/// Extending the scanned prefix by one line keeps an already-found first
/// match, and a miss keeps the absence.
proof fn lemma_first_match_extend(lines: Seq<Seq<char>>, q: Seq<char>, i: int)
    requires
        0 <= i < lines.len(),
    ensures
        first_match(lines.take(i), q) is Some ==> first_match(lines.take(i + 1), q)
            == first_match(lines.take(i), q),
        first_match(lines.take(i), q) is None && !line_matches(lines[i], q)
            ==> first_match(lines.take(i + 1), q) is None,
        first_match(lines.take(i), q) is None && line_matches(lines[i], q)
            ==> first_match(lines.take(i + 1), q) == Some(lines[i]),
{
    lemma_first_match_prefix(lines.take(i + 1), lines.take(i), q);
}

proof fn lemma_first_match_extend_hit(lines: Seq<Seq<char>>, q: Seq<char>, i: int)
    requires
        0 <= i < lines.len(),
        first_match(lines.take(i), q) is None,
        line_matches(lines[i], q),
    ensures
        first_match(lines.take(i + 1), q) == Some(lines[i]),
{
    lemma_first_match_prefix(lines.take(i + 1), lines.take(i), q);
}

/// The first match of a sequence that extends a prefix by one element.
proof fn lemma_first_match_prefix(full: Seq<Seq<char>>, pre: Seq<Seq<char>>, q: Seq<char>)
    requires
        full.len() == pre.len() + 1,
        forall|k: int| 0 <= k < pre.len() ==> full[k] == pre[k],
    ensures
        first_match(pre, q) is Some ==> first_match(full, q) == first_match(pre, q),
        first_match(pre, q) is None && line_matches(full[full.len() - 1], q)
            ==> first_match(full, q) == Some(full[full.len() - 1]),
        first_match(pre, q) is None && !line_matches(full[full.len() - 1], q)
            ==> first_match(full, q) is None,
    decreases pre.len(),
{
    if pre.len() == 0 {
    } else {
        assert(full[0] == pre[0]);
        if line_matches(pre[0], q) {
        } else {
            assert forall|k: int| 0 <= k < pre.drop_first().len() implies
                full.drop_first()[k] == pre.drop_first()[k] by {
                assert(full.drop_first()[k] == full[k + 1]);
                assert(pre.drop_first()[k] == pre[k + 1]);
            }
            assert(full.drop_first().len() == pre.drop_first().len() + 1);
            lemma_first_match_prefix(full.drop_first(), pre.drop_first(), q);
            assert(full.drop_first()[full.drop_first().len() - 1] == full[full.len() - 1]);
        }
    }
}

proof fn lemma_no_first_match_no_count(lines: Seq<Seq<char>>, q: Seq<char>)
    requires
        first_match(lines, q) is None,
    ensures
        count_matches(lines, q) == 0,
    decreases lines.len(),
{
    if lines.len() > 0 {
        assert(!line_matches(lines[0], q));
        lemma_no_first_match_none_matches(lines, q);
        lemma_all_miss_no_count(lines, q);
    }
}

proof fn lemma_no_first_match_none_matches(lines: Seq<Seq<char>>, q: Seq<char>)
    requires
        first_match(lines, q) is None,
    ensures
        forall|k: int| 0 <= k < lines.len() ==> !line_matches(#[trigger] lines[k], q),
    decreases lines.len(),
{
    if lines.len() > 0 {
        lemma_no_first_match_none_matches(lines.drop_first(), q);
        assert forall|k: int| 0 <= k < lines.len() implies !line_matches(
            #[trigger] lines[k],
            q,
        ) by {
            if k > 0 {
                assert(lines.drop_first()[k - 1] == lines[k]);
            }
        }
    }
}

proof fn lemma_all_miss_no_count(lines: Seq<Seq<char>>, q: Seq<char>)
    requires
        forall|k: int| 0 <= k < lines.len() ==> !line_matches(#[trigger] lines[k], q),
    ensures
        count_matches(lines, q) == 0,
    decreases lines.len(),
{
    if lines.len() > 0 {
        assert(lines.last() == lines[lines.len() - 1]);
        lemma_all_miss_no_count(lines.drop_last(), q);
    }
}

/// The full preview text a matching file shows in the results list: the
/// preview line, with the match count appended when it is more than one.
pub open spec fn preview_string(lines: Seq<Seq<char>>, q: Seq<char>) -> Seq<char> {
    let p = preview_of(lines, q);
    let n = count_matches(lines, q);
    if n > 1 {
        p + " ("@ + dec_str(n) + " matches)"@
    } else {
        p
    }
}

/// One hit of the all-files search.
#[derive(Debug, Clone)]
pub struct SearchResult {
    pub path: String,
    pub name: String,
    pub match_preview: String,
}

/// The mathematical value of a `SearchResult`.
#[verifier::ext_equal]
pub struct SearchResultView {
    pub path: Seq<char>,
    pub name: Seq<char>,
    pub match_preview: Seq<char>,
}

impl View for SearchResult {
    type V = SearchResultView;

    open spec fn view(&self) -> SearchResultView {
        SearchResultView {
            path: self.path@,
            name: self.name@,
            match_preview: self.match_preview@,
        }
    }
}

/// One file handed to the all-files search: its path, display name, and
/// full text.
#[derive(Debug, Clone)]
pub struct FileText {
    pub path: String,
    pub name: String,
    pub content: String,
}

/// The mathematical value of a `FileText`.
#[verifier::ext_equal]
pub struct FileTextView {
    pub path: Seq<char>,
    pub name: Seq<char>,
    pub content: Seq<char>,
}

impl View for FileText {
    type V = FileTextView;

    open spec fn view(&self) -> FileTextView {
        FileTextView { path: self.path@, name: self.name@, content: self.content@ }
    }
}

/// The result a matching file contributes.
pub open spec fn result_of(f: FileTextView, q: Seq<char>) -> SearchResultView {
    SearchResultView {
        path: f.path,
        name: f.name,
        match_preview: preview_string(lines_of(f.content), q),
    }
}

/// Whether a file has any line matching the query.
pub open spec fn file_matches(f: FileTextView, q: Seq<char>) -> bool {
    count_matches(lines_of(f.content), q) > 0
}

/// The results of searching a list of files, in file order, uncapped.
pub open spec fn results_spec(files: Seq<FileTextView>, q: Seq<char>) -> Seq<SearchResultView>
    decreases files.len(),
{
    if files.len() == 0 {
        Seq::empty()
    } else {
        results_spec(files.drop_last(), q) + if file_matches(files.last(), q) {
            seq![result_of(files.last(), q)]
        } else {
            Seq::empty()
        }
    }
}

/// The view of a result vector.
pub open spec fn results_view(s: Seq<SearchResult>) -> Seq<SearchResultView> {
    s.map_values(|r: SearchResult| r@)
}

/// The view of a file vector.
pub open spec fn files_view(s: Seq<FileText>) -> Seq<FileTextView> {
    s.map_values(|f: FileText| f@)
}

/// Search every file for a (lowercased) query: each file with a matching
/// line contributes one result, in file order, capped at the first 50.
pub fn search_files(files: &Vec<FileText>, query_lower: &str) -> (r: Vec<SearchResult>)
    ensures
        results_view(r@) == if results_spec(files_view(files@), query_lower@).len() <= 50 {
            results_spec(files_view(files@), query_lower@)
        } else {
            results_spec(files_view(files@), query_lower@).take(50)
        },
{
    let ghost fv = files_view(files@);
    let mut r: Vec<SearchResult> = Vec::new();
    let mut i: usize = 0;
    proof {
        assert(fv.take(0) =~= Seq::<FileTextView>::empty());
        assert(results_view(r@) =~= results_spec(fv.take(0), query_lower@));
    }
    while i < files.len()
        invariant
            i <= files@.len(),
            fv == files_view(files@),
            fv.len() == files@.len(),
            r@.len() <= 50,
            results_view(r@) == if results_spec(fv.take(i as int), query_lower@).len() <= 50 {
                results_spec(fv.take(i as int), query_lower@)
            } else {
                results_spec(fv.take(i as int), query_lower@).take(50)
            },
            r@.len() < 50 ==> results_view(r@) == results_spec(fv.take(i as int), query_lower@),
        decreases files@.len() - i,
    {
        let ghost pre = results_spec(fv.take(i as int), query_lower@);
        proof {
            assert(fv.take(i + 1).drop_last() =~= fv.take(i as int));
            assert(fv.take(i + 1).last() == fv[i as int]);
            assert(fv[i as int] == files@[i as int]@);
        }
        match search_file(files[i].content.as_str(), query_lower) {
            Some((preview, count)) => {
                let mut full = preview;
                if count > 1 {
                    full.append(" (");
                    let num = u64_to_string(count as u64);
                    full.append(num.as_str());
                    full.append(" matches)");
                }
                let res = SearchResult {
                    path: files[i].path.clone(),
                    name: files[i].name.clone(),
                    match_preview: full,
                };
                if r.len() < 50 {
                    let ghost before = r@;
                    r.push(res);
                    proof {
                        assert(res@ =~= result_of(fv[i as int], query_lower@));
                        assert(results_view(r@) =~= results_view(before).push(res@));
                        assert(results_spec(fv.take(i + 1), query_lower@) =~= pre.push(
                            res@,
                        ));
                        if r@.len() == 50 {
                            assert(results_view(r@) =~= results_spec(
                                fv.take(i + 1),
                                query_lower@,
                            ).take(50));
                        }
                    }
                } else {
                    proof {
                        assert(results_spec(fv.take(i + 1), query_lower@) =~= pre.push(
                            result_of(fv[i as int], query_lower@),
                        ));
                        assert(results_spec(fv.take(i + 1), query_lower@).take(50)
                            =~= if pre.len() <= 50 {
                            pre
                        } else {
                            pre.take(50)
                        });
                    }
                }
            }
            None => {
                proof {
                    assert(results_spec(fv.take(i + 1), query_lower@) =~= pre);
                }
            }
        }
        i = i + 1;
    }
    proof {
        assert(fv.take(files@.len() as int) =~= fv);
    }
    r
}

/// Collect the indices of the texts that contain the query, in ascending
/// order.
pub fn collect_matches(texts: &Vec<String>, query: &str) -> (r: Vec<usize>)
    ensures
        forall|t: int|
            0 <= t < r@.len() ==> #[trigger] r@[t] < texts@.len() && spec_contains(
                texts.deep_view()[r@[t] as int],
                query@,
            ),
        forall|j: int|
            0 <= j < texts@.len() && spec_contains(#[trigger] texts.deep_view()[j], query@)
                ==> r@.contains(j as usize),
        forall|t1: int, t2: int| 0 <= t1 < t2 < r@.len() ==> r@[t1] < r@[t2],
{
    let mut r: Vec<usize> = Vec::new();
    let mut i: usize = 0;
    while i < texts.len()
        invariant
            i <= texts@.len(),
            forall|t: int|
                0 <= t < r@.len() ==> #[trigger] r@[t] < i && spec_contains(
                    texts.deep_view()[r@[t] as int],
                    query@,
                ),
            forall|j: int|
                0 <= j < i && spec_contains(#[trigger] texts.deep_view()[j], query@)
                    ==> r@.contains(j as usize),
            forall|t1: int, t2: int| 0 <= t1 < t2 < r@.len() ==> r@[t1] < r@[t2],
        decreases texts@.len() - i,
    {
        if contains_sub(texts[i].as_str(), query) {
            let ghost before = r@;
            r.push(i);
            proof {
                assert(texts@[i as int]@ == texts.deep_view()[i as int]);
                assert forall|j: int|
                    0 <= j < i + 1 && spec_contains(#[trigger] texts.deep_view()[j], query@)
                        implies r@.contains(j as usize) by {
                    if j < i {
                        assert(before.contains(j as usize));
                        let t = choose|t: int| 0 <= t < before.len() && before[t] == j as usize;
                        assert(r@[t] == j as usize);
                    } else {
                        assert(r@[r@.len() - 1] == i);
                    }
                }
            }
        } else {
            proof {
                assert(texts@[i as int]@ == texts.deep_view()[i as int]);
            }
        }
        i = i + 1;
    }
    r
}

} // verus!
