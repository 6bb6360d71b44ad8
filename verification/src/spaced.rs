//! Visual rows of a recognized page and their rendering with the horizontal
//! spacing of the image.

use vstd::prelude::*;

use crate::interval::{
    bands, bands_of, contains_point, find_interval, first_containing, lemma_point_of_extent_finds_band,
    lemma_sort_by_key_sorted_permutation, sort_by_key, stable_sort_by_key, Interval,
};
use crate::layout::{Extent, LineLayout, PageLayout, WordLayout};
use crate::text::{append_repeated, join, join_strings, repeat, views};

verus! {

/// A word that has a box, with the extent of that box.
pub struct PositionedWord {
    pub text: String,
    pub extent: Extent,
}

/// Text and extent of each positioned word.
pub open spec fn word_views(ws: Seq<PositionedWord>) -> Seq<(Seq<char>, Extent)> {
    ws.map_values(|w: PositionedWord| (w.text@, w.extent))
}

/// The words of one line that have a box, in order.
pub open spec fn boxed_words(words: Seq<WordLayout>) -> Seq<(Seq<char>, Extent)>
    decreases words.len(),
{
    if words.len() == 0 {
        Seq::empty()
    } else {
        let prev = boxed_words(words.drop_last());
        match words.last().extent {
            Some(e) => prev.push((words.last().text@, e)),
            None => prev,
        }
    }
}

/// The words of all lines that have a box, line after line.
pub open spec fn placed_words(lines: Seq<LineLayout>) -> Seq<(Seq<char>, Extent)>
    decreases lines.len(),
{
    if lines.len() == 0 {
        Seq::empty()
    } else {
        placed_words(lines.drop_last()) + boxed_words(lines.last().words@)
    }
}

/// Every word that has a box, in reading order.
pub fn collect_words(page: &PageLayout) -> (r: Vec<PositionedWord>)
    ensures
        word_views(r@) == placed_words(page.lines@),
{
    let lines = &page.lines;
    let n = lines.len();
    let mut out: Vec<PositionedWord> = Vec::new();
    let mut i: usize = 0;
    while i < n
        invariant
            n == lines@.len(),
            i <= n,
            word_views(out@) == placed_words(lines@.take(i as int)),
        decreases n - i,
    {
        let words = &lines[i].words;
        let m = words.len();
        let ghost before = word_views(out@);
        let mut j: usize = 0;
        while j < m
            invariant
                m == words@.len(),
                j <= m,
                word_views(out@) == before + boxed_words(words@.take(j as int)),
            decreases m - j,
        {
            proof {
                assert(words@.take(j + 1).drop_last() =~= words@.take(j as int));
            }
            match &words[j].extent {
                Some(e) => {
                    let ghost prev = out@;
                    out.push(PositionedWord { text: words[j].text.clone(), extent: *e });
                    assert(word_views(out@) =~= word_views(prev).push((words@[j as int].text@, *e)));
                },
                None => {},
            }
            j = j + 1;
        }
        proof {
            assert(words@.take(m as int) =~= words@);
            assert(lines@.take(i + 1).drop_last() =~= lines@.take(i as int));
        }
        i = i + 1;
    }
    proof {
        assert(lines@.take(n as int) =~= lines@);
    }
    out
}

/// Vertical extents `[top, bottom]` of the words.
pub open spec fn word_extents(ws: Seq<(Seq<char>, Extent)>) -> Seq<Interval> {
    Seq::new(ws.len(), |i: int| (ws[i].1.top, ws[i].1.bottom))
}

/// Left key and position of the first `n` words whose vertical centre falls
/// in band `r`.
pub open spec fn band_members(ws: Seq<(Seq<char>, Extent)>, bands: Seq<Interval>, r: int, n: int) -> Seq<(u32, usize)>
    decreases n,
{
    if n <= 0 {
        Seq::empty()
    } else {
        let prev = band_members(ws, bands, r, n - 1);
        if first_containing(bands, ws[n - 1].1.y_mid) == Some(r) {
            prev.push((ws[n - 1].1.left, (n - 1) as usize))
        } else {
            prev
        }
    }
}

/// The positions that a list of keyed items carries.
pub open spec fn positions(s: Seq<(u32, usize)>) -> Seq<usize> {
    s.map_values(|p: (u32, usize)| p.1)
}

/// The rows that are not empty, in order.
pub open spec fn nonempty_rows(rows: Seq<Seq<usize>>) -> Seq<Seq<usize>>
    decreases rows.len(),
{
    if rows.len() == 0 {
        rows
    } else {
        let prev = nonempty_rows(rows.drop_last());
        if rows.last().len() > 0 {
            prev.push(rows.last())
        } else {
            prev
        }
    }
}

/// The visual rows of the words: bands of their vertical extents, each word
/// in the band holding its vertical centre, the words of a band ordered by
/// their left side (ties kept in reading order), and empty bands dropped.
/// Each word is given by its position in `ws`.
pub open spec fn visual_rows(ws: Seq<(Seq<char>, Extent)>) -> Seq<Seq<usize>> {
    let bands = bands_of(word_extents(ws));
    nonempty_rows(
        Seq::new(bands.len(), |r: int| positions(sort_by_key(band_members(ws, bands, r, ws.len() as int)))),
    )
}

/// Group words into visual rows by vertical overlap; each row lists the
/// positions of its words in `words`, left to right.
pub fn group_into_visual_rows(words: &Vec<PositionedWord>) -> (r: Vec<Vec<usize>>)
    ensures
        r@.map_values(|row: Vec<usize>| row@) == visual_rows(word_views(words@)),
{
    let ghost ws = word_views(words@);
    let n = words.len();
    if n == 0 {
        proof {
            assert(word_extents(ws) =~= Seq::<Interval>::empty());
            assert(crate::interval::merge_all(Seq::<Interval>::empty()) =~= Seq::<Interval>::empty());
            assert(sort_by_key(Seq::<Interval>::empty()) =~= Seq::<Interval>::empty());
            assert(crate::interval::coalesce(Seq::<Interval>::empty()) =~= Seq::<Interval>::empty());
            assert(visual_rows(ws) =~= Seq::<Seq<usize>>::empty());
        }
        let empty: Vec<Vec<usize>> = Vec::new();
        assert(empty@.map_values(|row: Vec<usize>| row@) =~= visual_rows(ws));
        return empty;
    }
    // Row bands, as in table detection.
    let mut extents: Vec<Interval> = Vec::new();
    let mut i: usize = 0;
    while i < n
        invariant
            n == words@.len(),
            ws == word_views(words@),
            i <= n,
            extents@ == word_extents(ws).take(i as int),
        decreases n - i,
    {
        let e = words[i].extent;
        extents.push((e.top, e.bottom));
        assert(extents@ =~= word_extents(ws).take(i + 1));
        i = i + 1;
    }
    assert(extents@ =~= word_extents(ws));
    let row_bands = bands(&extents);
    let nb = row_bands.len();

    // Assign words to rows.
    let mut members: Vec<Vec<(u32, usize)>> = Vec::new();
    let mut r: usize = 0;
    while r < nb
        invariant
            r <= nb,
            members@.len() == r,
            forall|a: int| 0 <= a < r ==> (#[trigger] members@[a])@.len() == 0,
        decreases nb - r,
    {
        members.push(Vec::new());
        r = r + 1;
    }
    let mut i: usize = 0;
    while i < n
        invariant
            n == words@.len(),
            ws == word_views(words@),
            nb == row_bands@.len(),
            i <= n,
            members@.len() == nb,
            forall|a: int|
                0 <= a < nb ==> (#[trigger] members@[a])@ == band_members(ws, row_bands@, a, i as int),
        decreases n - i,
    {
        let e = words[i].extent;
        let ghost before = members@;
        assert(ws[i as int].1 == e);
        match find_interval(row_bands.as_slice(), e.y_mid) {
            Some(a) => {
                members[a].push((e.left, i));
                assert forall|x: int| 0 <= x < nb implies (#[trigger] members@[x])@
                    == band_members(ws, row_bands@, x, i + 1) by {
                    if x != a {
                        assert(members@[x] == before[x]);
                    }
                }
            },
            None => {},
        }
        i = i + 1;
    }

    // Sort words within each row by x position; drop empty rows.
    let ghost all = Seq::new(
        nb as nat,
        |a: int| positions(sort_by_key(band_members(ws, row_bands@, a, n as int))),
    );
    let mut rows: Vec<Vec<usize>> = Vec::new();
    let mut r: usize = 0;
    while r < nb
        invariant
            n == words@.len(),
            ws == word_views(words@),
            nb == row_bands@.len(),
            r <= nb,
            members@.len() == nb,
            forall|a: int|
                0 <= a < nb ==> (#[trigger] members@[a])@ == band_members(ws, row_bands@, a, n as int),
            all == Seq::new(
                nb as nat,
                |a: int| positions(sort_by_key(band_members(ws, row_bands@, a, n as int))),
            ),
            rows@.map_values(|row: Vec<usize>| row@) == nonempty_rows(all.take(r as int)),
        decreases nb - r,
    {
        let src = &members[r];
        let k = src.len();
        let mut keyed: Vec<(u32, usize)> = Vec::new();
        let mut j: usize = 0;
        while j < k
            invariant
                k == src@.len(),
                j <= k,
                keyed@ == src@.take(j as int),
            decreases k - j,
        {
            keyed.push(src[j]);
            assert(keyed@ =~= src@.take(j + 1));
            j = j + 1;
        }
        assert(keyed@ =~= band_members(ws, row_bands@, r as int, n as int));
        stable_sort_by_key(&mut keyed);
        let m = keyed.len();
        let mut row: Vec<usize> = Vec::new();
        let mut j: usize = 0;
        while j < m
            invariant
                m == keyed@.len(),
                j <= m,
                row@ == positions(keyed@).take(j as int),
            decreases m - j,
        {
            row.push(keyed[j].1);
            assert(row@ =~= positions(keyed@).take(j + 1));
            j = j + 1;
        }
        assert(row@ =~= all[r as int]);
        proof {
            assert(all.take(r + 1).drop_last() =~= all.take(r as int));
        }
        if m > 0 {
            let ghost prev = rows@;
            rows.push(row);
            assert(rows@.map_values(|row: Vec<usize>| row@) =~= prev.map_values(|row: Vec<usize>| row@).push(
                all[r as int],
            ));
        }
        r = r + 1;
    }
    assert(all.take(nb as int) =~= all);
    assert(visual_rows(ws) == nonempty_rows(all));
    rows
}

/// A word placed on an output line: `spaces` blanks before it, then its text.
pub struct SpacedWord {
    pub spaces: usize,
    pub text: String,
}

/// The first `n` words of a row, each after its blanks.
pub open spec fn spaced_row(row: Seq<SpacedWord>, n: int) -> Seq<char>
    decreases n,
{
    if n <= 0 {
        Seq::empty()
    } else {
        spaced_row(row, n - 1) + repeat(' ', row[n - 1].spaces as nat) + row[n - 1].text@
    }
}

/// A word as a line shows it: its blanks, then its text.
pub open spec fn blanks_then_text(w: SpacedWord) -> Seq<char> {
    repeat(' ', w.spaces as nat) + w.text@
}

proof fn lemma_spaced_row_flatten(row: Seq<SpacedWord>, n: int)
    requires
        0 <= n <= row.len(),
    ensures
        spaced_row(row, n) == row.take(n).map_values(|w: SpacedWord| blanks_then_text(w)).flatten(),
    decreases n,
{
    if n > 0 {
        lemma_spaced_row_flatten(row, n - 1);
        let f = |w: SpacedWord| blanks_then_text(w);
        assert(row.take(n).map_values(f) =~= row.take(n - 1).map_values(f).push(blanks_then_text(row[n - 1])));
        row.take(n - 1).map_values(f).lemma_flatten_push(blanks_then_text(row[n - 1]));
        assert(spaced_row(row, n) =~= spaced_row(row, n - 1) + blanks_then_text(row[n - 1]));
    } else {
        assert(row.take(0).map_values(|w: SpacedWord| blanks_then_text(w)) =~= Seq::<Seq<char>>::empty());
    }
}

/// Every output line, whichever row it is, is that row's words in order,
/// each after its own blanks: the first word's blanks are the line's indent.
pub proof fn lemma_spaced_line_is_words_after_blanks(rows: Seq<Vec<SpacedWord>>, i: int)
    requires
        0 <= i < rows.len(),
    ensures
        spaced_lines(rows)[i] == rows[i]@.map_values(|w: SpacedWord| repeat(' ', w.spaces as nat) + w.text@).flatten(),
        rows[i]@.len() > 0 ==> spaced_lines(rows)[i].take(rows[i]@[0].spaces as int) == repeat(
            ' ',
            rows[i]@[0].spaces as nat,
        ),
{
    let row = rows[i]@;
    lemma_spaced_row_flatten(row, row.len() as int);
    assert(row.take(row.len() as int) =~= row);
    let parts = row.map_values(|w: SpacedWord| repeat(' ', w.spaces as nat) + w.text@);
    assert(parts =~= row.map_values(|w: SpacedWord| blanks_then_text(w)));
    if row.len() > 0 {
        let line = spaced_lines(rows)[i];
        assert(parts.flatten() == parts[0] + parts.drop_first().flatten());
        let sp = row[0].spaces as int;
        assert(parts[0] == repeat(' ', sp as nat) + row[0].text@);
        assert(line.take(sp) =~= repeat(' ', sp as nat));
    }
}

/// The output line of every row.
pub open spec fn spaced_lines(rows: Seq<Vec<SpacedWord>>) -> Seq<Seq<char>> {
    rows.map_values(|row: Vec<SpacedWord>| spaced_row(row@, row@.len() as int))
}

/// Lay out rows of words: each row on its own line, each word after its
/// blanks.
pub fn render_spaced(rows: &Vec<Vec<SpacedWord>>) -> (s: String)
    ensures
        s@ == join(spaced_lines(rows@), seq!['\n']),
        spaced_lines(rows@).len() == rows@.len(),
        forall|i: int|
            0 <= i < rows@.len() ==> #[trigger] spaced_lines(rows@)[i] == rows@[i]@.map_values(
                |w: SpacedWord| repeat(' ', w.spaces as nat) + w.text@,
            ).flatten(),
{
    proof {
        assert forall|i: int| 0 <= i < rows@.len() implies #[trigger] spaced_lines(rows@)[i]
            == rows@[i]@.map_values(|w: SpacedWord| repeat(' ', w.spaces as nat) + w.text@).flatten() by {
            lemma_spaced_line_is_words_after_blanks(rows@, i);
        }
        reveal_strlit(" ");
        reveal_strlit("\n");
    }
    let n = rows.len();
    let mut lines: Vec<String> = Vec::new();
    let mut i: usize = 0;
    while i < n
        invariant
            n == rows@.len(),
            i <= n,
            views(lines@) == spaced_lines(rows@).take(i as int),
            " "@ == seq![' '],
        decreases n - i,
    {
        let row = &rows[i];
        let m = row.len();
        let mut line = String::new();
        let mut j: usize = 0;
        while j < m
            invariant
                m == row@.len(),
                j <= m,
                line@ == spaced_row(row@, j as int),
                " "@ == seq![' '],
            decreases m - j,
        {
            append_repeated(&mut line, " ", row[j].spaces);
            line.append(row[j].text.as_str());
            assert(line@ =~= spaced_row(row@, j + 1));
            j = j + 1;
        }
        assert(line@ == spaced_lines(rows@)[i as int]);
        let ghost prev = lines@;
        lines.push(line);
        assert(views(lines@) =~= views(prev).push(lines@[i as int]@));
        assert(views(lines@) =~= spaced_lines(rows@).take(i + 1));
        i = i + 1;
    }
    assert(spaced_lines(rows@).take(n as int) =~= spaced_lines(rows@));
    assert("\n"@ =~= seq!['\n']);
    join_strings(&lines, "\n")
}

proof fn lemma_band_members_hold(ws: Seq<(Seq<char>, Extent)>, bands: Seq<Interval>, r: int, n: int, k: int)
    requires
        0 <= k < n <= ws.len(),
        first_containing(bands, ws[k].1.y_mid) == Some(r),
    ensures
        band_members(ws, bands, r, n).contains((ws[k].1.left, k as usize)),
    decreases n,
{
    let m = band_members(ws, bands, r, n);
    if k == n - 1 {
        assert(m[m.len() - 1] == (ws[k].1.left, k as usize));
    } else {
        lemma_band_members_hold(ws, bands, r, n - 1, k);
        let p = band_members(ws, bands, r, n - 1);
        let j = choose|j: int| 0 <= j < p.len() && p[j] == (ws[k].1.left, k as usize);
        assert(m[j] == p[j]);
    }
}

proof fn lemma_nonempty_rows_hold(rows: Seq<Seq<usize>>, r: int)
    requires
        0 <= r < rows.len(),
        rows[r].len() > 0,
    ensures
        nonempty_rows(rows).contains(rows[r]),
    decreases rows.len(),
{
    let out = nonempty_rows(rows);
    if r == rows.len() - 1 {
        assert(out[out.len() - 1] == rows[r]);
    } else {
        let prev = rows.drop_last();
        assert(prev[r] == rows[r]);
        lemma_nonempty_rows_hold(prev, r);
        let p = nonempty_rows(prev);
        let j = choose|j: int| 0 <= j < p.len() && p[j] == rows[r];
        assert(out[j] == p[j]);
    }
}

/// No word is lost: a word whose box holds its own vertical centre is listed
/// in some visual row.
pub proof fn lemma_centred_word_in_some_row(ws: Seq<(Seq<char>, Extent)>, k: int)
    requires
        0 <= k < ws.len(),
        ws[k].1.top <= ws[k].1.y_mid <= ws[k].1.bottom,
    ensures
        exists|row: Seq<usize>| #[trigger] visual_rows(ws).contains(row) && row.contains(k as usize),
{
    broadcast use vstd::seq_lib::group_to_multiset_ensures;

    let ext = word_extents(ws);
    let b = bands_of(ext);
    assert(contains_point(ext[k], ws[k].1.y_mid));
    lemma_point_of_extent_finds_band(ext, k, ws[k].1.y_mid);
    let r = first_containing(b, ws[k].1.y_mid)->Some_0;
    assert(0 <= r < b.len()) by {
        let i = choose|i: int| crate::interval::is_first_containing(b, ws[k].1.y_mid, i);
    }
    lemma_band_members_hold(ws, b, r, ws.len() as int, k);
    let m = band_members(ws, b, r, ws.len() as int);
    let sorted = sort_by_key(m);
    lemma_sort_by_key_sorted_permutation(m);
    let item = (ws[k].1.left, k as usize);
    assert(m.to_multiset().count(item) > 0);
    assert(sorted.contains(item));
    let j = choose|j: int| 0 <= j < sorted.len() && sorted[j] == item;
    let row = positions(sorted);
    assert(row[j] == k as usize);
    let all = Seq::new(b.len(), |a: int| positions(sort_by_key(band_members(ws, b, a, ws.len() as int))));
    assert(all[r] == row);
    lemma_nonempty_rows_hold(all, r);
    assert(visual_rows(ws) == nonempty_rows(all));
    assert(visual_rows(ws).contains(row) && row.contains(k as usize));
}

/// No position is listed twice, in one row or in two.
pub open spec fn rows_disjoint(rows: Seq<Seq<usize>>) -> bool {
    forall|r1: int, i1: int, r2: int, i2: int|
        0 <= r1 < rows.len() && 0 <= i1 < rows[r1].len() && 0 <= r2 < rows.len() && 0 <= i2
            < rows[r2].len() && (r1 != r2 || i1 != i2) ==> #[trigger] rows[r1][i1] != #[trigger] rows[r2][i2]
}

/// A row lists positions of `ws`, left to right by the left key of each box.
pub open spec fn row_left_to_right(ws: Seq<(Seq<char>, Extent)>, row: Seq<usize>) -> bool {
    &&& forall|i: int| 0 <= i < row.len() ==> (#[trigger] row[i]) < ws.len()
    &&& forall|i: int, j: int|
        0 <= i < j < row.len() ==> ws[#[trigger] row[i] as int].1.left <= ws[#[trigger] row[j] as int].1.left
}

proof fn lemma_band_members_facts(ws: Seq<(Seq<char>, Extent)>, bands: Seq<Interval>, r: int, n: int)
    requires
        0 <= n <= ws.len() <= usize::MAX,
    ensures
        ({
            let m = band_members(ws, bands, r, n);
            &&& forall|k: int|
                0 <= k < m.len() ==> (#[trigger] m[k]).1 < n && m[k].0 == ws[m[k].1 as int].1.left
                    && first_containing(bands, ws[m[k].1 as int].1.y_mid) == Some(r)
            &&& forall|a: int, b: int| 0 <= a < b < m.len() ==> (#[trigger] m[a]).1 < (#[trigger] m[b]).1
        }),
    decreases n,
{
    if n > 0 {
        lemma_band_members_facts(ws, bands, r, n - 1);
        let prev = band_members(ws, bands, r, n - 1);
        let m = band_members(ws, bands, r, n);
        assert forall|k: int| 0 <= k < prev.len() implies #[trigger] m[k] == prev[k] by {}
        if m.len() > prev.len() {
            assert(m[prev.len() as int] == (ws[n - 1].1.left, (n - 1) as usize));
        }
        assert forall|a: int, b: int| 0 <= a < b < m.len() implies (#[trigger] m[a]).1 < (#[trigger] m[b]).1 by {
            assert(m[a] == prev[a]);
            if b < prev.len() {
                assert(m[b] == prev[b]);
            }
        }
    }
}

/// Row `r` of the bands, before empty rows are dropped, lists positions left
/// to right, each of a word whose centre lies first in band `r`, none twice.
proof fn lemma_band_row_facts(ws: Seq<(Seq<char>, Extent)>, bands: Seq<Interval>, r: int)
    requires
        ws.len() <= usize::MAX,
    ensures
        ({
            let row = positions(sort_by_key(band_members(ws, bands, r, ws.len() as int)));
            &&& row_left_to_right(ws, row)
            &&& forall|i: int| 0 <= i < row.len() ==> first_containing(bands, ws[#[trigger] row[i] as int].1.y_mid) == Some(r)
            &&& forall|i: int, j: int| 0 <= i < j < row.len() ==> #[trigger] row[i] != #[trigger] row[j]
        }),
{
    broadcast use vstd::seq_lib::group_to_multiset_ensures;

    let m = band_members(ws, bands, r, ws.len() as int);
    let sorted = sort_by_key(m);
    let row = positions(sorted);
    lemma_band_members_facts(ws, bands, r, ws.len() as int);
    lemma_sort_by_key_sorted_permutation(m);
    assert(m.no_duplicates()) by {
        assert forall|a: int, b: int| 0 <= a < m.len() && 0 <= b < m.len() && a != b implies m[a] != m[b] by {
            if a < b {
                assert(m[a].1 < m[b].1);
            } else {
                assert(m[b].1 < m[a].1);
            }
        }
    }
    m.lemma_multiset_has_no_duplicates();
    sorted.lemma_multiset_has_no_duplicates_conv();
    // Every item of the sorted list is an item of the band's members.
    assert forall|i: int| 0 <= i < sorted.len() implies #[trigger] m.contains(sorted[i]) by {
        assert(sorted.contains(sorted[i]));
        assert(sorted.to_multiset().count(sorted[i]) > 0);
    }
    assert forall|i: int| 0 <= i < row.len() implies (#[trigger] row[i]) < ws.len()
        && sorted[i].0 == ws[row[i] as int].1.left
        && first_containing(bands, ws[row[i] as int].1.y_mid) == Some(r) by {
        assert(m.contains(sorted[i]));
        let k = choose|k: int| 0 <= k < m.len() && m[k] == sorted[i];
        assert(m[k].1 < ws.len());
    }
    assert forall|i: int, j: int| 0 <= i < j < row.len() implies ws[#[trigger] row[i] as int].1.left
        <= ws[#[trigger] row[j] as int].1.left by {
        assert(sorted[i].0 == ws[row[i] as int].1.left);
        assert(sorted[j].0 == ws[row[j] as int].1.left);
    }
    assert forall|i: int, j: int| 0 <= i < j < row.len() implies #[trigger] row[i] != #[trigger] row[j] by {
        assert(sorted[i].0 == ws[row[i] as int].1.left);
        assert(sorted[j].0 == ws[row[j] as int].1.left);
        if row[i] == row[j] {
            assert(sorted[i] == sorted[j]);
        }
    }
}

/// Dropping empty rows keeps every other row as it was, and keeps rows
/// disjoint.
proof fn lemma_nonempty_rows_keep(rows: Seq<Seq<usize>>)
    ensures
        forall|o: int|
            0 <= o < nonempty_rows(rows).len() ==> (#[trigger] nonempty_rows(rows)[o]).len() > 0 && exists|a: int|
                0 <= a < rows.len() && nonempty_rows(rows)[o] == #[trigger] rows[a],
        rows_disjoint(rows) ==> rows_disjoint(nonempty_rows(rows)),
    decreases rows.len(),
{
    if rows.len() > 0 {
        let prev = rows.drop_last();
        lemma_nonempty_rows_keep(prev);
        let p = nonempty_rows(prev);
        let out = nonempty_rows(rows);
        assert forall|o: int| 0 <= o < out.len() implies (#[trigger] out[o]).len() > 0 && exists|a: int|
            0 <= a < rows.len() && out[o] == #[trigger] rows[a] by {
            if o < p.len() {
                assert(out[o] == p[o]);
                let a = choose|a: int| 0 <= a < prev.len() && p[o] == #[trigger] prev[a];
                assert(rows[a] == prev[a]);
            } else {
                assert(out[o] == rows[rows.len() - 1]);
            }
        }
        if rows_disjoint(rows) {
            assert(rows_disjoint(prev)) by {
                assert forall|r1: int, i1: int, r2: int, i2: int|
                    0 <= r1 < prev.len() && 0 <= i1 < prev[r1].len() && 0 <= r2 < prev.len() && 0 <= i2
                        < prev[r2].len() && (r1 != r2 || i1 != i2) implies #[trigger] prev[r1][i1]
                    != #[trigger] prev[r2][i2] by {
                    assert(prev[r1] == rows[r1] && prev[r2] == rows[r2]);
                    assert(rows[r1][i1] != rows[r2][i2]);
                }
            }
            let last = rows.len() - 1;
            assert forall|o1: int, i1: int, o2: int, i2: int|
                0 <= o1 < out.len() && 0 <= i1 < out[o1].len() && 0 <= o2 < out.len() && 0 <= i2
                    < out[o2].len() && (o1 != o2 || i1 != i2) implies #[trigger] out[o1][i1]
                != #[trigger] out[o2][i2] by {
                if o1 < p.len() && o2 < p.len() {
                    assert(out[o1] == p[o1] && out[o2] == p[o2]);
                    assert(p[o1][i1] != p[o2][i2]);
                } else if o1 < p.len() {
                    assert(out[o1] == p[o1] && out[o2] == rows[last]);
                    let a = choose|a: int| 0 <= a < prev.len() && p[o1] == #[trigger] prev[a];
                    assert(prev[a] == rows[a]);
                    assert(rows[a][i1] != rows[last][i2]);
                } else if o2 < p.len() {
                    assert(out[o2] == p[o2] && out[o1] == rows[last]);
                    let a = choose|a: int| 0 <= a < prev.len() && p[o2] == #[trigger] prev[a];
                    assert(prev[a] == rows[a]);
                    assert(rows[last][i1] != rows[a][i2]);
                } else {
                    assert(out[o1] == rows[last] && out[o2] == rows[last]);
                    assert(rows[last][i1] != rows[last][i2]);
                }
            }
        }
    }
}

/// The visual rows split the words: no row is empty, each row lists words
/// left to right by the left side of their boxes, and no word is listed
/// twice. (Positions are `usize`, so there are at most `usize::MAX` words.)
pub proof fn lemma_visual_rows_partition(ws: Seq<(Seq<char>, Extent)>)
    requires
        ws.len() <= usize::MAX,
    ensures
        forall|o: int| 0 <= o < visual_rows(ws).len() ==> (#[trigger] visual_rows(ws)[o]).len() > 0
            && row_left_to_right(ws, visual_rows(ws)[o]),
        rows_disjoint(visual_rows(ws)),
{
    let b = bands_of(word_extents(ws));
    let all = Seq::new(b.len(), |a: int| positions(sort_by_key(band_members(ws, b, a, ws.len() as int))));
    assert(visual_rows(ws) == nonempty_rows(all));
    assert forall|a: int| 0 <= a < all.len() implies row_left_to_right(ws, #[trigger] all[a])
        && forall|i: int| 0 <= i < all[a].len() ==> first_containing(b, ws[#[trigger] all[a][i] as int].1.y_mid) == Some(a) by {
        lemma_band_row_facts(ws, b, a);
    }
    assert(rows_disjoint(all)) by {
        assert forall|r1: int, i1: int, r2: int, i2: int|
            0 <= r1 < all.len() && 0 <= i1 < all[r1].len() && 0 <= r2 < all.len() && 0 <= i2 < all[r2].len()
                && (r1 != r2 || i1 != i2) implies #[trigger] all[r1][i1] != #[trigger] all[r2][i2] by {
            lemma_band_row_facts(ws, b, r1);
            if r1 == r2 {
                if i1 < i2 {
                    assert(all[r1][i1] != all[r1][i2]);
                } else {
                    assert(all[r1][i2] != all[r1][i1]);
                }
            } else {
                assert(first_containing(b, ws[all[r1][i1] as int].1.y_mid) == Some(r1));
                assert(first_containing(b, ws[all[r2][i2] as int].1.y_mid) == Some(r2));
            }
        }
    }
    lemma_nonempty_rows_keep(all);
    let out = nonempty_rows(all);
    assert forall|o: int| 0 <= o < out.len() implies (#[trigger] out[o]).len() > 0 && row_left_to_right(ws, out[o]) by {
        let a = choose|a: int| 0 <= a < all.len() && out[o] == #[trigger] all[a];
        assert(row_left_to_right(ws, all[a]));
    }
}

/// Dropping empty rows keeps the order of the rows it keeps.
proof fn lemma_nonempty_rows_order(rows: Seq<Seq<usize>>)
    ensures
        forall|o1: int, o2: int|
            0 <= o1 < o2 < nonempty_rows(rows).len() ==> exists|a1: int, a2: int|
                0 <= a1 < a2 < rows.len() && #[trigger] nonempty_rows(rows)[o1] == rows[a1]
                    && #[trigger] nonempty_rows(rows)[o2] == rows[a2],
    decreases rows.len(),
{
    if rows.len() > 0 {
        let prev = rows.drop_last();
        lemma_nonempty_rows_order(prev);
        lemma_nonempty_rows_keep(prev);
        let p = nonempty_rows(prev);
        let out = nonempty_rows(rows);
        assert forall|o1: int, o2: int| 0 <= o1 < o2 < out.len() implies exists|a1: int, a2: int|
            0 <= a1 < a2 < rows.len() && #[trigger] out[o1] == rows[a1] && #[trigger] out[o2] == rows[a2] by {
            assert(out[o1] == p[o1]);
            if o2 < p.len() {
                assert(out[o2] == p[o2]);
                let (a1, a2) = choose|a1: int, a2: int|
                    0 <= a1 < a2 < prev.len() && #[trigger] p[o1] == prev[a1] && #[trigger] p[o2] == prev[a2];
                assert(rows[a1] == prev[a1] && rows[a2] == prev[a2]);
            } else {
                assert(out[o2] == rows[rows.len() - 1]);
                let a1 = choose|a: int| 0 <= a < prev.len() && p[o1] == #[trigger] prev[a];
                assert(rows[a1] == prev[a1]);
                assert(out[o1] == rows[a1] && out[o2] == rows[rows.len() - 1]);
            }
        }
    }
}

proof fn lemma_first_containing_some(s: Seq<Interval>, p: u32, a: int)
    requires
        first_containing(s, p) == Some(a),
    ensures
        crate::interval::is_first_containing(s, p, a),
{
}

/// Visual rows run top to bottom: every word of an earlier row has its
/// vertical centre first in an upper band than every word of a later row,
/// and when every word's box has positive height, its centre is strictly
/// higher on the page.
pub proof fn lemma_visual_rows_top_to_bottom(ws: Seq<(Seq<char>, Extent)>)
    requires
        ws.len() <= usize::MAX,
    ensures
        forall|o1: int, o2: int, i: int, j: int|
            0 <= o1 < o2 < visual_rows(ws).len() && 0 <= i < visual_rows(ws)[o1].len() && 0 <= j
                < visual_rows(ws)[o2].len() ==> first_containing(
                bands_of(word_extents(ws)),
                ws[#[trigger] visual_rows(ws)[o1][i] as int].1.y_mid,
            )->Some_0 < first_containing(
                bands_of(word_extents(ws)),
                ws[#[trigger] visual_rows(ws)[o2][j] as int].1.y_mid,
            )->Some_0,
        crate::interval::nondegenerate(word_extents(ws)) ==> forall|o1: int, o2: int, i: int, j: int|
            0 <= o1 < o2 < visual_rows(ws).len() && 0 <= i < visual_rows(ws)[o1].len() && 0 <= j
                < visual_rows(ws)[o2].len() ==> ws[#[trigger] visual_rows(ws)[o1][i] as int].1.y_mid
                < ws[#[trigger] visual_rows(ws)[o2][j] as int].1.y_mid,
{
    let b = bands_of(word_extents(ws));
    let all = Seq::new(b.len(), |a: int| positions(sort_by_key(band_members(ws, b, a, ws.len() as int))));
    let vr = visual_rows(ws);
    assert(vr == nonempty_rows(all));
    lemma_nonempty_rows_order(all);
    if crate::interval::nondegenerate(word_extents(ws)) {
        crate::interval::lemma_bands_ordered(word_extents(ws));
    }
    assert forall|o1: int, o2: int, i: int, j: int|
        0 <= o1 < o2 < vr.len() && 0 <= i < vr[o1].len() && 0 <= j < vr[o2].len() implies {
        &&& first_containing(b, ws[#[trigger] vr[o1][i] as int].1.y_mid)->Some_0 < first_containing(
            b,
            ws[#[trigger] vr[o2][j] as int].1.y_mid,
        )->Some_0
        &&& crate::interval::nondegenerate(word_extents(ws)) ==> ws[vr[o1][i] as int].1.y_mid
            < ws[vr[o2][j] as int].1.y_mid
    } by {
        let (a1, a2) = choose|a1: int, a2: int|
            0 <= a1 < a2 < all.len() && #[trigger] vr[o1] == all[a1] && #[trigger] vr[o2] == all[a2];
        lemma_band_row_facts(ws, b, a1);
        lemma_band_row_facts(ws, b, a2);
        let k1 = vr[o1][i] as int;
        let k2 = vr[o2][j] as int;
        assert(all[a1][i] == vr[o1][i]);
        assert(all[a2][j] == vr[o2][j]);
        assert(first_containing(b, ws[k1].1.y_mid) == Some(a1));
        assert(first_containing(b, ws[k2].1.y_mid) == Some(a2));
        if crate::interval::nondegenerate(word_extents(ws)) {
            lemma_first_containing_some(b, ws[k1].1.y_mid, a1);
            lemma_first_containing_some(b, ws[k2].1.y_mid, a2);
            assert(b[a1].1 <= b[a2].0);
            if ws[k1].1.y_mid >= ws[k2].1.y_mid {
                assert(contains_point(b[a1], ws[k2].1.y_mid));
            }
        }
    }
}

} // verus!
