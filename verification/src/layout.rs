use vstd::prelude::*;
use vstd::string::StrSliceExecFns;
use vstd::string::StringExecFns;
use crate::markdown::{LineView, RenderedLine, flat_wrap, lines_view};
use crate::text::{is_ws, lemma_word_end_is, lemma_words_wf, split_words, words_of};

verus! {

/// How many further words fit into a fragment already `cur` characters
/// long, greedily, at width `w`: each word costs its length plus one
/// separating space.
pub open spec fn fit_count(ws: Seq<Seq<char>>, w: nat, cur: nat) -> nat
    decreases ws.len(),
{
    if ws.len() == 0 {
        0
    } else if cur + 1 + ws[0].len() <= w {
        1 + fit_count(ws.drop_first(), w, cur + 1 + ws[0].len())
    } else {
        0
    }
}

pub proof fn lemma_fit_bounds(ws: Seq<Seq<char>>, w: nat, cur: nat)
    ensures
        fit_count(ws, w, cur) <= ws.len(),
    decreases ws.len(),
{
    if ws.len() > 0 && cur + 1 + ws[0].len() <= w {
        lemma_fit_bounds(ws.drop_first(), w, cur + 1 + ws[0].len());
    }
}

/// A fragment that has used fewer characters has room for at least as many
/// further words.
pub proof fn lemma_fit_cur_mono(ws: Seq<Seq<char>>, w: nat, c1: nat, c2: nat)
    requires
        c1 <= c2,
    ensures
        fit_count(ws, w, c1) >= fit_count(ws, w, c2),
    decreases ws.len(),
{
    if ws.len() > 0 && c2 + 1 + ws[0].len() <= w {
        lemma_fit_cur_mono(ws.drop_first(), w, c1 + 1 + ws[0].len(), c2 + 1 + ws[0].len());
    }
}

/// A wider fragment has room for at least as many further words.
pub proof fn lemma_fit_w_mono(ws: Seq<Seq<char>>, w1: nat, w2: nat, cur: nat)
    requires
        w1 <= w2,
    ensures
        fit_count(ws, w1, cur) <= fit_count(ws, w2, cur),
    decreases ws.len(),
{
    if ws.len() > 0 && cur + 1 + ws[0].len() <= w1 {
        lemma_fit_w_mono(ws.drop_first(), w1, w2, cur + 1 + ws[0].len());
    }
}

/// The number of words in the first greedy fragment of `ws` at width `w`:
/// always at least one — a word longer than the width still goes out, as
/// its own over-width fragment.
pub open spec fn group_len(ws: Seq<Seq<char>>, w: nat) -> nat {
    if ws.len() == 0 {
        0
    } else {
        1 + fit_count(ws.drop_first(), w, ws[0].len())
    }
}

pub proof fn lemma_group_len_bounds(ws: Seq<Seq<char>>, w: nat)
    ensures
        ws.len() > 0 ==> 1 <= group_len(ws, w) <= ws.len(),
        ws.len() == 0 ==> group_len(ws, w) == 0,
{
    if ws.len() > 0 {
        lemma_fit_bounds(ws.drop_first(), w, ws[0].len());
    }
}

/// Greedy word-wrap: the words of a line split into fragments of width at
/// most `w` (except for single over-width words).
pub open spec fn wrap_groups(ws: Seq<Seq<char>>, w: nat) -> Seq<Seq<Seq<char>>>
    decreases ws.len(),
        via wrap_groups_dec
{
    if ws.len() == 0 {
        Seq::empty()
    } else {
        let k = group_len(ws, w);
        seq![ws.take(k as int)] + wrap_groups(ws.skip(k as int), w)
    }
}

#[via_fn]
proof fn wrap_groups_dec(ws: Seq<Seq<char>>, w: nat) {
    lemma_group_len_bounds(ws, w);
}

/// Grouping loses no word and invents none: the groups flatten back to the
/// word sequence.
pub proof fn lemma_wrap_groups_flatten(ws: Seq<Seq<char>>, w: nat)
    ensures
        wrap_groups(ws, w).flatten() == ws,
    decreases ws.len(),
{
    broadcast use vstd::seq_lib::group_seq_properties;

    if ws.len() == 0 {
        assert(wrap_groups(ws, w).flatten() =~= ws);
    } else {
        let k = group_len(ws, w) as int;
        lemma_group_len_bounds(ws, w);
        lemma_wrap_groups_flatten(ws.skip(k), w);
        let gs = wrap_groups(ws, w);
        assert(gs == seq![ws.take(k)] + wrap_groups(ws.skip(k), w));
        assert(gs.drop_first() =~= wrap_groups(ws.skip(k), w));
        assert(gs.first() == ws.take(k));
        assert(gs.flatten() == gs.first() + gs.drop_first().flatten());
        assert(gs.flatten() =~= ws);
    }
}

/// The words of a fragment joined back into its display text, separated by
/// single spaces.
pub open spec fn join_words(g: Seq<Seq<char>>) -> Seq<char>
    decreases g.len(),
{
    if g.len() == 0 {
        Seq::empty()
    } else if g.len() == 1 {
        g[0]
    } else {
        g[0] + seq![' '] + join_words(g.drop_first())
    }
}

pub proof fn lemma_join_words_push(g: Seq<Seq<char>>, x: Seq<char>)
    requires
        g.len() >= 1,
    ensures
        join_words(g.push(x)) == join_words(g) + seq![' '] + x,
    decreases g.len(),
{
    if g.len() == 1 {
        assert(g.push(x)[0] == g[0]);
        assert(g.push(x).drop_first() =~= seq![x]);
        assert(join_words(seq![x]) == x);
        assert(join_words(g.push(x)) =~= join_words(g) + seq![' '] + x);
    } else {
        assert(g.push(x)[0] == g[0]);
        assert(g.push(x).drop_first() =~= g.drop_first().push(x));
        lemma_join_words_push(g.drop_first(), x);
        assert(join_words(g.push(x)) =~= join_words(g) + seq![' '] + x);
    }
}

/// A single word, free of whitespace and non-empty, splits back to itself.
proof fn lemma_words_of_single(s: Seq<char>)
    requires
        s.len() > 0,
        forall|k: int| 0 <= k < s.len() ==> !is_ws(s[k]),
    ensures
        words_of(s) == seq![s],
{
    lemma_word_end_is(s, s.len() as int);
    assert(s.take(s.len() as int) =~= s);
    assert(s.skip(s.len() as int) =~= Seq::<char>::empty());
    assert(words_of(Seq::<char>::empty()) =~= Seq::<Seq<char>>::empty());
    assert(words_of(s) == seq![s.take(s.len() as int)] + words_of(s.skip(s.len() as int)));
    assert(words_of(s) =~= seq![s]);
}

/// Splitting the joined fragment recovers exactly its words, provided each
/// word is non-empty and free of whitespace.
pub proof fn lemma_join_words_inverse(g: Seq<Seq<char>>)
    requires
        forall|i: int| 0 <= i < g.len() ==> (#[trigger] g[i]).len() > 0,
        forall|i: int, k: int|
            0 <= i < g.len() && 0 <= k < g[i].len() ==> !is_ws(#[trigger] g[i][k]),
    ensures
        words_of(join_words(g)) == g,
    decreases g.len(),
{
    if g.len() == 0 {
        assert(words_of(join_words(g)) =~= g);
    } else if g.len() == 1 {
        lemma_words_of_single(g[0]);
        assert(words_of(join_words(g)) =~= g);
    } else {
        let s = join_words(g);
        let head = g[0];
        let rest = seq![' '] + join_words(g.drop_first());
        assert(s == head + seq![' '] + join_words(g.drop_first()));
        assert(s =~= head + rest);
        let hl = head.len() as int;
        assert forall|k: int| 0 <= k < hl implies !is_ws(s[k]) by {
            assert(s[k] == head[k]);
        }
        assert(s[hl] == ' ');
        lemma_word_end_is(s, hl);
        assert(s.take(hl) =~= head);
        assert(words_of(s) == seq![head] + words_of(s.skip(hl)));
        let t = s.skip(hl);
        assert(t =~= rest);
        assert(t[0] == ' ');
        assert(t.drop_first() =~= join_words(g.drop_first()));
        assert(words_of(t) == words_of(join_words(g.drop_first())));
        assert forall|i: int| 0 <= i < g.drop_first().len() implies (#[trigger] g.drop_first()[
            i
        ]).len() > 0 by {
            assert(g.drop_first()[i] == g[i + 1]);
        }
        assert forall|i: int, k: int|
            0 <= i < g.drop_first().len() && 0 <= k < g.drop_first()[i].len() implies !is_ws(
            #[trigger] g.drop_first()[i][k],
        ) by {
            assert(g.drop_first()[i] == g[i + 1]);
        }
        lemma_join_words_inverse(g.drop_first());
        assert(words_of(s) =~= g);
    }
}

/// The text of each display fragment a line wraps to, at the given width
/// (`None`: no wrapping). Lines with no segments and table lines always
/// yield a single fragment; so does a line whose flattened text fits.
pub open spec fn line_fragments(l: LineView, width: Option<usize>) -> Seq<Seq<char>> {
    if l.segments.len() == 0 {
        seq![Seq::<char>::empty()]
    } else if l.is_table_row || l.is_table_separator {
        seq![flat_wrap(l)]
    } else {
        match width {
            None => seq![flat_wrap(l)],
            Some(w) => {
                if flat_wrap(l).len() <= w {
                    seq![flat_wrap(l)]
                } else {
                    let gs = wrap_groups(words_of(flat_wrap(l)), w as nat);
                    if gs.len() == 0 {
                        seq![Seq::<char>::empty()]
                    } else {
                        gs.map_values(|g: Seq<Seq<char>>| join_words(g))
                    }
                }
            }
        }
    }
}

/// How many display rows a line occupies at the given width.
pub open spec fn line_wrap_count(l: LineView, width: Option<usize>) -> nat {
    line_fragments(l, width).len()
}

/// Every line yields at least one fragment.
pub proof fn lemma_line_count_at_least_one(l: LineView, width: Option<usize>)
    ensures
        line_wrap_count(l, width) >= 1,
{
    if l.segments.len() > 0 && !l.is_table_row && !l.is_table_separator {
        if let Some(w) = width {
            if flat_wrap(l).len() > w {
                let ws = words_of(flat_wrap(l));
                if wrap_groups(ws, w as nat).len() == 0 {
                } else {
                }
            }
        }
    }
}

/// The total number of display rows of a document at a width.
pub open spec fn total_wrapped(doc: Seq<LineView>, width: Option<usize>) -> nat
    decreases doc.len(),
{
    if doc.len() == 0 {
        0
    } else {
        total_wrapped(doc.drop_last(), width) + line_wrap_count(doc.last(), width)
    }
}

/// The display row at which source line `idx` starts: the rows of all the
/// lines before it.
pub open spec fn wrapped_offset(doc: Seq<LineView>, width: Option<usize>, idx: int) -> nat {
    total_wrapped(doc.take(idx), width)
}

/// Wrap coverage: however a line is wrapped, the words of its fragments,
/// in order, are exactly the words of its flattened text — none dropped,
/// none duplicated.
pub proof fn lemma_wrap_coverage(l: LineView, width: Option<usize>)
    ensures
        line_fragments(l, width).map_values(|f: Seq<char>| words_of(f)).flatten()
            == words_of(flat_wrap(l)),
{
    broadcast use vstd::seq_lib::group_seq_properties;

    let frs = line_fragments(l, width);
    if l.segments.len() == 0 {
        assert(flat_wrap(l) =~= Seq::<char>::empty());
        assert(frs == seq![Seq::<char>::empty()]);
        lemma_flatten_single(words_of(Seq::<char>::empty()));
        assert(frs.map_values(|f: Seq<char>| words_of(f)) =~= seq![
            words_of(Seq::<char>::empty()),
        ]);
    } else if l.is_table_row || l.is_table_separator || width is None
        || flat_wrap(l).len() <= width->0 {
        assert(frs == seq![flat_wrap(l)]);
        assert(frs.map_values(|f: Seq<char>| words_of(f)) =~= seq![words_of(flat_wrap(l))]);
        lemma_flatten_single(words_of(flat_wrap(l)));
    } else {
        let w = width->0;
        let ws = words_of(flat_wrap(l));
        let gs = wrap_groups(ws, w as nat);
        if gs.len() == 0 {
            lemma_wrap_groups_flatten(ws, w as nat);
            assert(gs.flatten() =~= Seq::<Seq<char>>::empty());
            assert(ws =~= Seq::<Seq<char>>::empty());
            assert(frs == seq![Seq::<char>::empty()]);
            lemma_flatten_single(words_of(Seq::<char>::empty()));
            assert(frs.map_values(|f: Seq<char>| words_of(f)) =~= seq![
                words_of(Seq::<char>::empty()),
            ]);
        } else {
            lemma_words_wf(flat_wrap(l));
            lemma_wrap_groups_flatten(ws, w as nat);
            assert(frs == gs.map_values(|g: Seq<Seq<char>>| join_words(g)));
            let mapped = frs.map_values(|f: Seq<char>| words_of(f));
            assert forall|i: int| 0 <= i < gs.len() implies #[trigger] mapped[i] == gs[i] by {
                assert(frs[i] == join_words(gs[i]));
                assert forall|t: int| 0 <= t < gs[i].len() implies
                    (#[trigger] gs[i][t]).len() > 0 && (forall|k: int|
                        0 <= k < gs[i][t].len() ==> !is_ws(#[trigger] gs[i][t][k])) by {
                    lemma_group_member_is_word(ws, w as nat, i, t);
                }
                lemma_join_words_inverse(gs[i]);
            }
            assert(mapped =~= gs);
            assert(mapped.flatten() == ws);
        }
    }
}

/// Flattening a single-element sequence of sequences yields that element.
proof fn lemma_flatten_single<A>(x: Seq<A>)
    ensures
        seq![x].flatten() == x,
{
    let s = seq![x];
    assert(s.first() == x);
    assert(s.drop_first() =~= Seq::<Seq<A>>::empty());
    assert(Seq::<Seq<A>>::empty().flatten() =~= Seq::<A>::empty());
    assert(s.flatten() == s.first() + s.drop_first().flatten());
    assert(s.flatten() =~= x);
}

/// Every word inside a wrap group is one of the original words.
proof fn lemma_group_member_is_word(ws: Seq<Seq<char>>, w: nat, i: int, t: int)
    requires
        0 <= i < wrap_groups(ws, w).len(),
        0 <= t < wrap_groups(ws, w)[i].len(),
    ensures
        exists|j: int| 0 <= j < ws.len() && wrap_groups(ws, w)[i][t] == ws[j],
    decreases ws.len(),
{
    lemma_group_len_bounds(ws, w);
    let k = group_len(ws, w) as int;
    if i == 0 {
        assert(wrap_groups(ws, w)[0] == ws.take(k));
        assert(ws.take(k)[t] == ws[t]);
    } else {
        assert(wrap_groups(ws, w)[i] == wrap_groups(ws.skip(k), w)[i - 1]);
        lemma_group_member_is_word(ws.skip(k), w, i - 1, t);
        let j0 = choose|j: int|
            0 <= j < ws.skip(k).len() && wrap_groups(ws.skip(k), w)[i - 1][t] == ws.skip(k)[j];
        assert(ws.skip(k)[j0] == ws[k + j0]);
    }
}

/// Dropping a prefix of the words cannot increase the number of greedy
/// fragments.
proof fn lemma_groups_suffix(ws: Seq<Seq<char>>, w: nat, i: int, j: int)
    requires
        0 <= i <= j <= ws.len(),
    ensures
        wrap_groups(ws.skip(j), w).len() <= wrap_groups(ws.skip(i), w).len(),
    decreases ws.len() - i, j - i,
{
    if i == j {
    } else {
        let t = ws.skip(i);
        let t1 = ws.skip(i + 1);
        assert(t.len() == ws.len() - i);
        assert(t.len() >= 1);
        let k = group_len(t, w) as int;
        lemma_group_len_bounds(t, w);
        assert(t.skip(k) =~= ws.skip(i + k));
        // First, one step: groups(skip(i+1)) <= groups(skip(i)).
        if t.len() == 1 {
            assert(t1 =~= Seq::<Seq<char>>::empty());
            assert(wrap_groups(t1, w).len() == 0);
            assert(ws.skip(j) =~= Seq::<Seq<char>>::empty());
        } else {
            assert(t1 =~= t.drop_first());
            let k1 = group_len(t1, w) as int;
            lemma_group_len_bounds(t1, w);
            // k1 >= k - 1: a fragment started at the second word reaches at
            // least as far as the first fragment did.
            let f = fit_count(t.drop_first(), w, t[0].len());
            assert(k == 1 + f);
            if f >= 1 {
                assert(t.drop_first()[0] == t[1]);
                assert(t[0].len() + 1 + t[1].len() <= w);
                assert(f == 1 + fit_count(
                    t.drop_first().drop_first(),
                    w,
                    t[0].len() + 1 + t[1].len(),
                ));
                assert(t1.drop_first() =~= t.drop_first().drop_first());
                lemma_fit_cur_mono(
                    t1.drop_first(),
                    w,
                    t1[0].len(),
                    t[0].len() + 1 + t[1].len(),
                );
                assert(k1 - 1 >= f - 1);
            }
            assert(k1 >= k - 1);
            assert(t1.skip(k1) =~= ws.skip(i + 1 + k1));
            lemma_groups_suffix(ws, w, i + k, i + 1 + k1);
            assert(wrap_groups(ws.skip(i + 1 + k1), w).len() <= wrap_groups(
                ws.skip(i + k),
                w,
            ).len());
            assert(wrap_groups(t1, w).len() == 1 + wrap_groups(ws.skip(i + 1 + k1), w).len());
            assert(wrap_groups(t, w).len() == 1 + wrap_groups(ws.skip(i + k), w).len());
            assert(wrap_groups(t1, w).len() <= wrap_groups(t, w).len());
            // Then the remaining steps from i+1 to j.
            lemma_groups_suffix(ws, w, i + 1, j);
        }
    }
}

/// A narrower width never needs fewer fragments.
pub proof fn lemma_groups_w_mono(ws: Seq<Seq<char>>, w1: nat, w2: nat)
    requires
        w1 <= w2,
    ensures
        wrap_groups(ws, w1).len() >= wrap_groups(ws, w2).len(),
    decreases ws.len(),
{
    if ws.len() > 0 {
        let k1 = group_len(ws, w1) as int;
        let k2 = group_len(ws, w2) as int;
        lemma_group_len_bounds(ws, w1);
        lemma_group_len_bounds(ws, w2);
        lemma_fit_w_mono(ws.drop_first(), w1, w2, ws[0].len());
        assert(k1 <= k2);
        // groups(skip(k1), w1) >= groups(skip(k1), w2) by induction,
        // and groups(skip(k1), w2) >= groups(skip(k2), w2) by the suffix lemma.
        lemma_groups_w_mono(ws.skip(k1), w1, w2);
        lemma_groups_suffix(ws, w2, k1, k2);
        assert(wrap_groups(ws, w1).len() == 1 + wrap_groups(ws.skip(k1), w1).len());
        assert(wrap_groups(ws, w2).len() == 1 + wrap_groups(ws.skip(k2), w2).len());
    }
}

/// A narrower width never shrinks a line's row count, and no wrapping at
/// all means exactly one row.
pub proof fn lemma_line_count_mono(l: LineView, w1: usize, w2: usize)
    requires
        w1 <= w2,
    ensures
        line_wrap_count(l, Some(w1)) >= line_wrap_count(l, Some(w2)),
        line_wrap_count(l, None) == 1,
{
    lemma_line_count_at_least_one(l, Some(w1));
    lemma_line_count_at_least_one(l, Some(w2));
    if l.segments.len() > 0 && !l.is_table_row && !l.is_table_separator {
        let fl = flat_wrap(l);
        if fl.len() > w2 {
            if fl.len() > w1 {
                let ws = words_of(fl);
                lemma_groups_w_mono(ws, w1 as nat, w2 as nat);
            }
        }
    }
}

/// Wrap monotonicity over a whole document: narrower wraps to at least as
/// many rows, and no wrapping yields exactly one row per source line.
pub proof fn lemma_total_mono(doc: Seq<LineView>, w1: usize, w2: usize)
    requires
        w1 <= w2,
    ensures
        total_wrapped(doc, Some(w1)) >= total_wrapped(doc, Some(w2)),
        total_wrapped(doc, None) == doc.len(),
    decreases doc.len(),
{
    if doc.len() > 0 {
        lemma_total_mono(doc.drop_last(), w1, w2);
        lemma_line_count_mono(doc.last(), w1, w2);
    }
}

/// Wrap monotonicity for the configured widths: an 80-column viewport
/// needs at least as many rows as a 120-column one, which needs at least
/// one row per source line, which is exactly what no wrapping yields.
pub proof fn lemma_wrap_monotonicity(doc: Seq<LineView>)
    ensures
        total_wrapped(doc, Some(80)) >= total_wrapped(doc, Some(120)),
        total_wrapped(doc, Some(120)) >= total_wrapped(doc, None),
        total_wrapped(doc, None) == doc.len(),
{
    lemma_total_mono(doc, 80, 120);
    lemma_total_mono(doc, 120, usize::MAX);
    lemma_total_ge_len(doc, Some(120));
}

proof fn lemma_total_ge_len(doc: Seq<LineView>, width: Option<usize>)
    ensures
        total_wrapped(doc, width) >= doc.len(),
    decreases doc.len(),
{
    if doc.len() > 0 {
        lemma_total_ge_len(doc.drop_last(), width);
        lemma_line_count_at_least_one(doc.last(), width);
    }
}

/// Coordinate consistency: each source line starts exactly its own row
/// count after the previous one, and always at least one row later.
pub proof fn lemma_coordinate_consistency(doc: Seq<LineView>, width: Option<usize>, i: int)
    requires
        0 <= i < doc.len(),
    ensures
        wrapped_offset(doc, width, i + 1) == wrapped_offset(doc, width, i)
            + line_wrap_count(doc[i], width),
        wrapped_offset(doc, width, i + 1) >= wrapped_offset(doc, width, i) + 1,
{
    assert(doc.take(i + 1).drop_last() =~= doc.take(i));
    assert(doc.take(i + 1).last() == doc[i]);
    lemma_line_count_at_least_one(doc[i], width);
}

/// Coordinate consistency at the executable level: the clamped offsets
/// `source_to_wrapped_offset` returns step by exactly the line's row
/// count, wherever the next offset still fits a `usize` — the one machine
/// limit separating the clamped values from `lemma_coordinate_consistency`.
pub proof fn lemma_coordinate_consistency_clamped(doc: Seq<LineView>, width: Option<usize>, i: int)
    requires
        0 <= i < doc.len(),
        wrapped_offset(doc, width, i + 1) <= usize::MAX as nat,
    ensures
        sat_usize(wrapped_offset(doc, width, i + 1)) == sat_usize(wrapped_offset(doc, width, i))
            + line_wrap_count(doc[i], width),
        sat_usize(wrapped_offset(doc, width, i + 1)) >= sat_usize(wrapped_offset(doc, width, i))
            + 1,
{
    lemma_coordinate_consistency(doc, width, i);
}

/// A count clamped to what fits a `usize`.
pub open spec fn sat_usize(n: nat) -> nat {
    if n > usize::MAX as nat {
        usize::MAX as nat
    } else {
        n
    }
}

/// Scan forward from word `j`: how many further words fit a fragment
/// already `cur` characters wide.
fn fit_scan(ws: &Vec<String>, j: usize, w: usize, cur: usize) -> (k: usize)
    requires
        j <= ws@.len(),
    ensures
        k as nat == fit_count(ws.deep_view().skip(j as int), w as nat, cur as nat),
        k <= ws@.len() - j,
    decreases ws@.len() - j,
{
    let ghost tail = ws.deep_view().skip(j as int);
    if j == ws.len() {
        proof {
            assert(tail =~= Seq::<Seq<char>>::empty());
        }
        0
    } else {
        let wl = ws[j].as_str().unicode_len();
        proof {
            assert(tail[0] == ws@[j as int]@);
        }
        if (cur as u128) + 1 + (wl as u128) <= (w as u128) {
            let rest = fit_scan(ws, j + 1, w, cur + 1 + wl);
            proof {
                assert(tail.drop_first() =~= ws.deep_view().skip(j as int + 1));
            }
            1 + rest
        } else {
            proof {
                assert(!(cur + 1 + tail[0].len() <= w));
            }
            0
        }
    }
}

/// Join words `i..j` with single spaces.
fn join_range(ws: &Vec<String>, i: usize, j: usize) -> (r: String)
    requires
        i < j <= ws@.len(),
    ensures
        r@ == join_words(ws.deep_view().subrange(i as int, j as int)),
{
    let mut r = ws[i].clone();
    let mut t = i + 1;
    proof {
        assert(ws.deep_view().subrange(i as int, i as int + 1) =~= seq![
            ws.deep_view()[i as int],
        ]);
        assert(r@ == ws@[i as int]@);
        assert(join_words(seq![ws.deep_view()[i as int]]) == ws.deep_view()[i as int]);
    }
    while t < j
        invariant
            i < t <= j,
            j <= ws@.len(),
            r@ == join_words(ws.deep_view().subrange(i as int, t as int)),
        decreases j - t,
    {
        r.append(" ");
        r.append(ws[t].as_str());
        proof {
            reveal_strlit(" ");
            assert(" "@ =~= seq![' ']);
            let g = ws.deep_view().subrange(i as int, t as int);
            assert(ws.deep_view().subrange(i as int, t as int + 1) =~= g.push(
                ws.deep_view()[t as int],
            ));
            lemma_join_words_push(g, ws.deep_view()[t as int]);
        }
        t = t + 1;
    }
    r
}

/// The display fragments a line wraps to at the given width, as plain
/// texts in order: the verified wrapping algorithm itself.
pub fn wrap_line_fragments(line: &RenderedLine, max_width: Option<usize>) -> (r: Vec<String>)
    ensures
        r.deep_view() == line_fragments(line@, max_width),
{
    if line.segments.len() == 0 {
        let mut r: Vec<String> = Vec::new();
        r.push(String::new());
        proof {
            assert(r.deep_view() =~= line_fragments(line@, max_width));
        }
        return r;
    }
    if line.is_table_row || line.is_table_separator {
        let mut r: Vec<String> = Vec::new();
        r.push(line.to_plain_string());
        proof {
            assert(r.deep_view() =~= line_fragments(line@, max_width));
        }
        return r;
    }
    let w = match max_width {
        Some(w) => w,
        None => {
            let mut r: Vec<String> = Vec::new();
            r.push(line.to_plain_string());
            proof {
                assert(r.deep_view() =~= line_fragments(line@, max_width));
            }
            return r;
        }
    };
    let flat = line.to_plain_string();
    if flat.as_str().unicode_len() <= w {
        let mut r: Vec<String> = Vec::new();
        r.push(flat);
        proof {
            assert(r.deep_view() =~= line_fragments(line@, max_width));
        }
        return r;
    }
    let ws = split_words(flat.as_str());
    let ghost wsv = ws.deep_view();
    let mut r: Vec<String> = Vec::new();
    let mut i: usize = 0;
    proof {
        assert(wsv.skip(0) =~= wsv);
        assert(r.deep_view() =~= Seq::<Seq<char>>::empty());
        assert(r.deep_view() + wrap_groups(wsv, w as nat).map_values(
            |g: Seq<Seq<char>>| join_words(g),
        ) =~= wrap_groups(wsv, w as nat).map_values(|g: Seq<Seq<char>>| join_words(g)));
    }
    while i < ws.len()
        invariant
            i <= ws@.len(),
            wsv == ws.deep_view(),
            wsv.len() == ws@.len(),
            r.deep_view() + wrap_groups(wsv.skip(i as int), w as nat).map_values(
                |g: Seq<Seq<char>>| join_words(g),
            ) == wrap_groups(wsv, w as nat).map_values(|g: Seq<Seq<char>>| join_words(g)),
        decreases ws@.len() - i,
    {
        let wl = ws[i].as_str().unicode_len();
        let f = fit_scan(&ws, i + 1, w, wl);
        let glen = 1 + f;
        let frag = join_range(&ws, i, i + glen);
        let ghost old_dv = r.deep_view();
        r.push(frag);
        proof {
            let ghost tail = wsv.skip(i as int);
            assert(tail[0] == wsv[i as int]);
            assert(tail[0] == ws@[i as int]@);
            assert(tail.drop_first() =~= wsv.skip(i as int + 1));
            assert(group_len(tail, w as nat) == glen as nat);
            lemma_group_len_bounds(tail, w as nat);
            assert(tail.take(glen as int) =~= wsv.subrange(i as int, i + glen));
            assert(tail.skip(glen as int) =~= wsv.skip(i + glen));
            assert(wrap_groups(tail, w as nat) == seq![wsv.subrange(i as int, i + glen)]
                + wrap_groups(wsv.skip(i + glen), w as nat));
            assert(r.deep_view() =~= old_dv.push(join_words(wsv.subrange(i as int, i + glen))));
            assert(wrap_groups(tail, w as nat).map_values(|g: Seq<Seq<char>>| join_words(g))
                =~= seq![join_words(wsv.subrange(i as int, i + glen))] + wrap_groups(
                wsv.skip(i + glen),
                w as nat,
            ).map_values(|g: Seq<Seq<char>>| join_words(g)));
            assert(r.deep_view() + wrap_groups(wsv.skip(i + glen), w as nat).map_values(
                |g: Seq<Seq<char>>| join_words(g),
            ) =~= old_dv + wrap_groups(tail, w as nat).map_values(
                |g: Seq<Seq<char>>| join_words(g),
            ));
        }
        i = i + glen;
    }
    proof {
        assert(wsv.skip(wsv.len() as int) =~= Seq::<Seq<char>>::empty());
        assert(wrap_groups(Seq::<Seq<char>>::empty(), w as nat).map_values(
            |g: Seq<Seq<char>>| join_words(g),
        ) =~= Seq::<Seq<char>>::empty());
        assert(r.deep_view() =~= wrap_groups(wsv, w as nat).map_values(
            |g: Seq<Seq<char>>| join_words(g),
        ));
    }
    if r.len() == 0 {
        r.push(String::new());
        proof {
            assert(wrap_groups(wsv, w as nat).len() == 0);
            assert(r.deep_view() =~= line_fragments(line@, max_width));
        }
    } else {
        proof {
            assert(wrap_groups(wsv, w as nat).len() > 0);
            assert(r.deep_view() =~= line_fragments(line@, max_width));
        }
    }
    r
}

/// How many display rows one line occupies at the given width.
pub fn count_wrapped_lines(line: &RenderedLine, max_width: Option<usize>) -> (r: usize)
    ensures
        r as nat == line_wrap_count(line@, max_width),
{
    let frags = wrap_line_fragments(line, max_width);
    frags.len()
}

/// The total number of display rows of a document, clamped to `usize`.
pub fn wrapped_count(doc: &Vec<RenderedLine>, max_width: Option<usize>) -> (r: usize)
    ensures
        r as nat == sat_usize(total_wrapped(lines_view(doc@), max_width)),
{
    let ghost dv = lines_view(doc@);
    let mut r: usize = 0;
    let mut i: usize = 0;
    proof {
        assert(dv.take(0) =~= Seq::<LineView>::empty());
    }
    while i < doc.len()
        invariant
            i <= doc@.len(),
            dv == lines_view(doc@),
            dv.len() == doc@.len(),
            r as nat == sat_usize(total_wrapped(dv.take(i as int), max_width)),
        decreases doc@.len() - i,
    {
        let c = count_wrapped_lines(&doc[i], max_width);
        r = r.saturating_add(c);
        proof {
            assert(dv.take(i + 1).drop_last() =~= dv.take(i as int));
            assert(dv.take(i + 1).last() == dv[i as int]);
            assert(dv[i as int] == doc@[i as int]@);
        }
        i = i + 1;
    }
    proof {
        assert(dv.take(doc@.len() as int) =~= dv);
    }
    r
}

/// The display row at which a source line starts, clamped to `usize`; an
/// index at or past the end gives the total row count.
pub fn source_to_wrapped_offset(
    doc: &Vec<RenderedLine>,
    max_width: Option<usize>,
    source_idx: usize,
) -> (r: usize)
    ensures
        r as nat == sat_usize(
            wrapped_offset(
                lines_view(doc@),
                max_width,
                if source_idx <= doc@.len() {
                    source_idx as int
                } else {
                    doc@.len() as int
                },
            ),
        ),
{
    let ghost dv = lines_view(doc@);
    let stop = if source_idx <= doc.len() {
        source_idx
    } else {
        doc.len()
    };
    let mut r: usize = 0;
    let mut i: usize = 0;
    proof {
        assert(dv.take(0) =~= Seq::<LineView>::empty());
    }
    while i < stop
        invariant
            i <= stop,
            stop <= doc@.len(),
            dv == lines_view(doc@),
            dv.len() == doc@.len(),
            r as nat == sat_usize(total_wrapped(dv.take(i as int), max_width)),
        decreases stop - i,
    {
        let c = count_wrapped_lines(&doc[i], max_width);
        r = r.saturating_add(c);
        proof {
            assert(dv.take(i + 1).drop_last() =~= dv.take(i as int));
            assert(dv.take(i + 1).last() == dv[i as int]);
            assert(dv[i as int] == doc@[i as int]@);
        }
        i = i + 1;
    }
    r
}

/// One display row of the wrapped view: its text, the source line it came
/// from, and whether it is that line's first row.
pub struct WrappedFragment {
    pub text: String,
    pub source_index: usize,
    pub first: bool,
}

/// The mathematical value of a `WrappedFragment`.
#[verifier::ext_equal]
pub struct FragView {
    pub text: Seq<char>,
    pub source_index: usize,
    pub first: bool,
}

impl View for WrappedFragment {
    type V = FragView;

    open spec fn view(&self) -> FragView {
        FragView { text: self.text@, source_index: self.source_index, first: self.first }
    }
}

/// The view of a sequence of fragments.
pub open spec fn frags_view(s: Seq<WrappedFragment>) -> Seq<FragView> {
    s.map_values(|f: WrappedFragment| f@)
}

/// The fragments of source line `i`.
pub open spec fn line_frag_views(i: usize, l: LineView, width: Option<usize>) -> Seq<FragView> {
    Seq::new(
        line_fragments(l, width).len(),
        |j: int| FragView { text: line_fragments(l, width)[j], source_index: i, first: j == 0 },
    )
}

/// Every display row of a document, in order.
pub open spec fn doc_fragments(doc: Seq<LineView>, width: Option<usize>) -> Seq<FragView>
    decreases doc.len(),
{
    if doc.len() == 0 {
        Seq::empty()
    } else {
        doc_fragments(doc.drop_last(), width) + line_frag_views(
            (doc.len() - 1) as usize,
            doc.last(),
            width,
        )
    }
}

/// The window of display rows [scroll_offset, scroll_offset + height),
/// clamped to the document.
pub open spec fn window_spec(
    doc: Seq<LineView>,
    width: Option<usize>,
    scroll_offset: usize,
    height: usize,
) -> Seq<FragView> {
    let n = doc_fragments(doc, width).len();
    let start = if scroll_offset as nat <= n {
        scroll_offset as nat
    } else {
        n
    };
    let end = if scroll_offset as nat + height as nat <= n {
        scroll_offset as nat + height as nat
    } else {
        n
    };
    doc_fragments(doc, width).subrange(start as int, end as int)
}

/// The concrete display rows of the viewport window: the document wrapped
/// at the given width, clamped to `[scroll_offset, scroll_offset+height)`.
pub fn wrap_window(
    doc: &Vec<RenderedLine>,
    max_width: Option<usize>,
    scroll_offset: usize,
    height: usize,
) -> (r: Vec<WrappedFragment>)
    ensures
        frags_view(r@) == window_spec(lines_view(doc@), max_width, scroll_offset, height),
{
    let ghost dv = lines_view(doc@);
    let mut all: Vec<WrappedFragment> = Vec::new();
    let mut i: usize = 0;
    proof {
        assert(dv.take(0) =~= Seq::<LineView>::empty());
        assert(frags_view(all@) =~= doc_fragments(dv.take(0), max_width));
    }
    while i < doc.len()
        invariant
            i <= doc@.len(),
            dv == lines_view(doc@),
            dv.len() == doc@.len(),
            frags_view(all@) == doc_fragments(dv.take(i as int), max_width),
        decreases doc@.len() - i,
    {
        let frags = wrap_line_fragments(&doc[i], max_width);
        let ghost lfv = line_frag_views(i, dv[i as int], max_width);
        let mut j: usize = 0;
        proof {
            assert(dv[i as int] == doc@[i as int]@);
            assert(frags.deep_view().len() == frags@.len());
            assert(frags_view(all@) + lfv.take(0) =~= frags_view(all@));
        }
        while j < frags.len()
            invariant
                j <= frags@.len(),
                dv == lines_view(doc@),
                dv.len() == doc@.len(),
                i < doc@.len(),
                frags.deep_view() == line_fragments(dv[i as int], max_width),
                frags@.len() == line_fragments(dv[i as int], max_width).len(),
                lfv == line_frag_views(i, dv[i as int], max_width),
                frags_view(all@) == doc_fragments(dv.take(i as int), max_width) + lfv.take(
                    j as int,
                ),
            decreases frags@.len() - j,
        {
            let fr = WrappedFragment {
                text: frags[j].clone(),
                source_index: i,
                first: j == 0,
            };
            let ghost before = all@;
            all.push(fr);
            proof {
                assert(fr@ == lfv[j as int]);
                assert(frags_view(all@) =~= frags_view(before).push(fr@));
                assert(lfv.take(j + 1) =~= lfv.take(j as int).push(lfv[j as int]));
                assert(frags_view(all@) =~= doc_fragments(dv.take(i as int), max_width)
                    + lfv.take(j + 1));
            }
            j = j + 1;
        }
        proof {
            assert(lfv.take(frags@.len() as int) =~= lfv);
            assert(dv.take(i + 1).drop_last() =~= dv.take(i as int));
            assert(dv.take(i + 1).last() == dv[i as int]);
            assert(dv.take(i + 1).len() - 1 == i);
            assert(doc_fragments(dv.take(i + 1), max_width) == doc_fragments(
                dv.take(i as int),
                max_width,
            ) + line_frag_views(i, dv[i as int], max_width));
        }
        i = i + 1;
    }
    proof {
        assert(dv.take(doc@.len() as int) =~= dv);
    }
    let start = if scroll_offset <= all.len() {
        scroll_offset
    } else {
        all.len()
    };
    let ghost all0 = all@;
    let mut window = all.split_off(start);
    let ghost w0 = window@;
    window.truncate(height);
    proof {
        let n = doc_fragments(dv, max_width).len();
        assert(frags_view(all0).len() == n);
        assert(all0.len() == n);
        assert(w0 =~= all0.subrange(start as int, all0.len() as int));
        if height <= w0.len() {
            assert(window@ =~= w0.subrange(0, height as int));
        }
        assert(frags_view(window@) =~= window_spec(dv, max_width, scroll_offset, height));
    }
    window
}

} // verus!
