//! The pattern matcher and the presence rules: a hybrid bad-character /
//! lookahead skip search over a flat buffer, the boundary-overlap filter,
//! and the per-word query runner.

use crate::grid::Grid;
use vstd::prelude::*;

verus! {

/// `p` occurs in `h` starting at index `i`.
pub open spec fn match_at(h: Seq<u8>, p: Seq<u8>, i: int) -> bool {
    &&& 0 <= i
    &&& i + p.len() <= h.len()
    &&& forall|k: int| 0 <= k < p.len() ==> h[i + k] == #[trigger] p[k]
}

/// Index of the rightmost occurrence of byte value `b` among the first
/// `upto` positions of `p`, or -1 when there is none.
pub open spec fn rightmost_before(p: Seq<u8>, b: int, upto: int) -> int
    decreases upto,
{
    if upto <= 0 {
        -1
    } else if p[upto - 1] as int == b {
        upto - 1
    } else {
        rightmost_before(p, b, upto - 1)
    }
}

/// The table entry for byte value `b` when the rightmost occurrences among
/// the first `upto` pattern positions have been recorded: the distance
/// from that occurrence to the pattern's end, or the pattern length when
/// `b` has not been seen.
pub open spec fn bad_char_entry(p: Seq<u8>, b: int, upto: int) -> int {
    if rightmost_before(p, b, upto) < 0 {
        p.len() as int
    } else {
        p.len() - 1 - rightmost_before(p, b, upto)
    }
}

/// The skip distance the finished table assigns to byte value `b`: every
/// pattern position except the last is recorded.
pub open spec fn skip_distance(p: Seq<u8>, b: int) -> int {
    bad_char_entry(p, b, p.len() - 1)
}

proof fn lemma_rightmost_before(p: Seq<u8>, b: int, upto: int)
    requires
        0 <= upto <= p.len(),
    ensures
        -1 <= rightmost_before(p, b, upto) < upto,
        rightmost_before(p, b, upto) >= 0 ==> p[rightmost_before(p, b, upto)] as int == b,
        forall|k: int| rightmost_before(p, b, upto) < k < upto ==> #[trigger] p[k] as int != b,
    decreases upto,
{
    if upto > 0 {
        if p[upto - 1] as int == b {
        } else {
            lemma_rightmost_before(p, b, upto - 1);
        }
    }
}

/// The two facts the search needs of a skip distance: it advances the
/// window by at least one and at most the pattern length, and every
/// window position it jumps over would place a differing byte under the
/// pattern's last position.
proof fn lemma_skip_distance(p: Seq<u8>, b: int)
    requires
        p.len() >= 1,
    ensures
        1 <= skip_distance(p, b) <= p.len(),
        forall|d: int|
            1 <= d < skip_distance(p, b) ==> #[trigger] p[p.len() - 1 - d] as int != b,
{
    lemma_rightmost_before(p, b, p.len() - 1);
    let r = rightmost_before(p, b, p.len() - 1);
    assert forall|d: int| 1 <= d < skip_distance(p, b) implies #[trigger] p[p.len() - 1 - d]
        as int != b by {
        assert(r < p.len() - 1 - d < p.len() - 1);
    }
}

/// Bad-character table: for every byte value, how far the search window
/// may advance when that byte sits under the pattern's last position and
/// the window does not match.
pub fn delta1(pattern: &[u8]) -> (table: [usize; 256])
    requires
        pattern@.len() >= 1,
    ensures
        forall|b: int| 0 <= b < 256 ==> #[trigger] table@[b] == skip_distance(pattern@, b),
{
    let m: usize = pattern.len();
    let mut table: [usize; 256] = [0; 256];
    let mut j: usize = 0;
    while j < 256
        invariant
            j <= 256,
            m == pattern@.len(),
            forall|b: int| 0 <= b < j ==> #[trigger] table@[b] == m,
        decreases 256 - j,
    {
        table[j] = m;
        j = j + 1;
    }
    proof {
        assert forall|b: int| 0 <= b < 256 implies #[trigger] table@[b] == bad_char_entry(
            pattern@,
            b,
            0,
        ) by {
            assert(rightmost_before(pattern@, b, 0) == -1);
        }
    }
    let mut i: usize = 0;
    while i + 1 < m
        invariant
            m == pattern@.len(),
            i <= m - 1,
            forall|b: int|
                0 <= b < 256 ==> #[trigger] table@[b] == bad_char_entry(pattern@, b, i as int),
        decreases m - i,
    {
        let c: usize = pattern[i] as usize;
        let v: usize = m - 1 - i;
        let ghost old_table = table@;
        table[c] = v;
        proof {
            assert forall|b: int| 0 <= b < 256 implies #[trigger] table@[b] == bad_char_entry(
                pattern@,
                b,
                i as int + 1,
            ) by {
                assert(rightmost_before(pattern@, b, i as int + 1) == if pattern@[i as int]
                    as int == b {
                    i as int
                } else {
                    rightmost_before(pattern@, b, i as int)
                });
                if b == c {
                    assert(table@[b] == v);
                } else {
                    assert(table@[b] == old_table[b]);
                }
            }
        }
        i = i + 1;
    }
    table
}

/// Whether byte `b` occurs anywhere in `p`.
fn contains_byte(p: &[u8], b: u8) -> (r: bool)
    ensures
        r == p@.contains(b),
{
    let mut i: usize = 0;
    while i < p.len()
        invariant
            i <= p@.len(),
            forall|j: int| 0 <= j < i ==> #[trigger] p@[j] != b,
        decreases p@.len() - i,
    {
        if p[i] == b {
            assert(p@.contains(b)) by {
                assert(p@[i as int] == b);
            }
            return true;
        }
        i = i + 1;
    }
    false
}

/// Whether the window of pattern length starting at `i` matches the
/// pattern byte for byte.
fn match_here(haystack: &[u8], needle: &[u8], i: usize) -> (r: bool)
    requires
        i + needle@.len() <= haystack@.len(),
    ensures
        r == match_at(haystack@, needle@, i as int),
{
    let m: usize = needle.len();
    let hl: usize = haystack.len();
    let mut k: usize = 0;
    while k < m
        invariant
            k <= m,
            m == needle@.len(),
            hl == haystack@.len(),
            i + m <= hl,
            forall|t: int| 0 <= t < k ==> haystack@[i + t] == #[trigger] needle@[t],
        decreases m - k,
    {
        if haystack[i + k] != needle[k] {
            assert(!match_at(haystack@, needle@, i as int)) by {
                if match_at(haystack@, needle@, i as int) {
                    assert(haystack@[i + k] == needle@[k as int]);
                }
            }
            return false;
        }
        k = k + 1;
    }
    true
}

/// Every window position the lookahead rule jumps over is impossible: a
/// match there would put the byte just past the current window, which
/// occurs nowhere in the pattern, under some pattern position.
proof fn lemma_sunday(h: Seq<u8>, p: Seq<u8>, i: int)
    requires
        0 <= i,
        i + p.len() < h.len(),
        !p.contains(h[i + p.len()]),
    ensures
        forall|j: int| i < j <= i + p.len() ==> !match_at(h, p, j),
{
    assert forall|j: int| i < j <= i + p.len() implies !match_at(h, p, j) by {
        if match_at(h, p, j) {
            let k = i + p.len() - j;
            assert(h[j + k] == p[k]);
            assert(p.contains(h[i + p.len()]));
        }
    }
}

/// Every window position the bad-character rule jumps over is impossible:
/// a match there would place under the current window's last byte, which
/// equals the pattern's last byte, a pattern position the table shows to
/// hold a different byte.
proof fn lemma_horspool(h: Seq<u8>, p: Seq<u8>, i: int, skip: int)
    requires
        0 <= i,
        p.len() >= 1,
        i + p.len() <= h.len(),
        h[i + p.len() - 1] == p[p.len() - 1],
        1 <= skip <= p.len(),
        forall|d: int| 1 <= d < skip ==> #[trigger] p[p.len() - 1 - d] != p[p.len() - 1],
    ensures
        forall|j: int| i < j < i + skip ==> !match_at(h, p, j),
{
    assert forall|j: int| i < j < i + skip implies !match_at(h, p, j) by {
        if match_at(h, p, j) {
            let d = j - i;
            let k = p.len() - 1 - d;
            assert(h[j + k] == p[k]);
            assert(p[p.len() - 1 - d] != p[p.len() - 1]);
        }
    }
}

/// Locate the first occurrence of `needle` inside `haystack`, or report
/// that there is none. The scan advances by the lookahead rule when the
/// byte just past the window occurs nowhere in the pattern, and otherwise
/// by the bad-character rule when the window's last byte matches, or by a
/// single position when it does not.
pub fn find(haystack: &[u8], needle: &[u8]) -> (r: Option<usize>)
    requires
        1 <= needle@.len() <= haystack@.len(),
    ensures
        match r {
            Some(i) => {
                &&& match_at(haystack@, needle@, i as int)
                &&& forall|j: int| 0 <= j < i ==> !match_at(haystack@, needle@, j)
            },
            None => forall|j: int| !match_at(haystack@, needle@, j),
        },
{
    let n: usize = haystack.len();
    let m: usize = needle.len();
    let table: [usize; 256] = delta1(needle);
    let last: u8 = needle[m - 1];
    let skip: usize = table[last as usize];
    proof {
        lemma_skip_distance(needle@, last as int);
    }
    let mut i: usize = 0;
    while i <= n - m
        invariant
            n == haystack@.len(),
            m == needle@.len(),
            1 <= m <= n,
            i <= n,
            last == needle@[m - 1],
            1 <= skip <= m,
            forall|d: int| 1 <= d < skip ==> #[trigger] needle@[m - 1 - d] != last,
            forall|j: int| 0 <= j < i ==> !match_at(haystack@, needle@, j),
        decreases n - i,
    {
        if haystack[i + m - 1] == last {
            if match_here(haystack, needle, i) {
                return Some(i);
            }
            if i + m < n && !contains_byte(needle, haystack[i + m]) {
                proof {
                    lemma_sunday(haystack@, needle@, i as int);
                }
                i = i + m + 1;
            } else {
                proof {
                    lemma_horspool(haystack@, needle@, i as int, skip as int);
                }
                i = i + skip;
            }
        } else {
            proof {
                assert(!match_at(haystack@, needle@, i as int)) by {
                    if match_at(haystack@, needle@, i as int) {
                        assert(haystack@[i + (m - 1)] == needle@[m - 1]);
                    }
                }
            }
            if i + m < n && !contains_byte(needle, haystack[i + m]) {
                proof {
                    lemma_sunday(haystack@, needle@, i as int);
                }
                i = i + m + 1;
            } else {
                i = i + 1;
            }
        }
    }
    proof {
        assert forall|j: int| !match_at(haystack@, needle@, j) by {
            if 0 <= j < i {
                assert(!match_at(haystack@, needle@, j));
            }
        }
    }
    None
}

/// A match at `position` straddles a line seam: the tail of one grid line
/// and the head of the next are adjacent in the flat buffer, and the
/// matched span uses bytes of both.
pub open spec fn overlaps(position: int, word_len: int, grid_size: int) -> bool {
    position % grid_size + word_len > grid_size
}

/// Whether a match found at `position` in a flat buffer of lines of
/// length `grid_size` crosses from one line into the next.
pub fn is_overlapping_line(position: usize, word: &[u8], grid_size: usize) -> (r: bool)
    requires
        grid_size >= 1,
        grid_size + word@.len() <= usize::MAX,
    ensures
        r == overlaps(position as int, word@.len() as int, grid_size as int),
{
    position % grid_size + word.len() > grid_size
}

/// The first occurrence of `p` in `h` exists and lies within a single
/// line of length `size`.
pub open spec fn first_hit_in_line(h: Seq<u8>, p: Seq<u8>, size: int) -> bool {
    exists|i: int|
        {
            &&& #[trigger] match_at(h, p, i)
            &&& forall|j: int| 0 <= j < i ==> !match_at(h, p, j)
            &&& !overlaps(i, p.len() as int, size)
        }
}

/// The presence rule: the word fits within a line, and the first
/// occurrence the skip search finds in the row-major buffer, or failing
/// that in the column-major buffer, does not straddle a line seam.
pub open spec fn present_in_grid(g: Grid, word: Seq<u8>) -> bool {
    &&& word.len() <= g.size
    &&& (first_hit_in_line(g.rows@, word, g.size as int) || first_hit_in_line(
        g.columns@,
        word,
        g.size as int,
    ))
}

/// The first skip-search hit of `p` in `h`, if any, straddles a line
/// seam, so searching `h` does not establish presence.
proof fn lemma_no_hit_in_line(h: Seq<u8>, p: Seq<u8>, size: int, found: Option<usize>)
    requires
        match found {
            Some(pos) => {
                &&& match_at(h, p, pos as int)
                &&& forall|j: int| 0 <= j < pos ==> !match_at(h, p, j)
                &&& overlaps(pos as int, p.len() as int, size)
            },
            None => forall|j: int| !match_at(h, p, j),
        },
    ensures
        !first_hit_in_line(h, p, size),
{
    if first_hit_in_line(h, p, size) {
        let i = choose|i: int|
            {
                &&& #[trigger] match_at(h, p, i)
                &&& forall|j: int| 0 <= j < i ==> !match_at(h, p, j)
                &&& !overlaps(i, p.len() as int, size)
            };
        match found {
            Some(pos) => {
                if i < pos {
                    assert(!match_at(h, p, i));
                } else if i > pos {
                    assert(!match_at(h, p, pos as int));
                }
            },
            None => {
                assert(!match_at(h, p, i));
            },
        }
    }
}

/// Whether `word` is present in the grid: readable left-to-right within
/// one row or top-to-bottom within one column. Words longer than the
/// grid's side are absent without any search; for the rest, the first
/// skip-search hit in the row-major buffer and then in the column-major
/// buffer is kept when it does not straddle a line seam.
pub fn is_present(grid: &Grid, word: &[u8]) -> (r: bool)
    requires
        grid.wf(),
        word@.len() >= 1,
    ensures
        r == present_in_grid(*grid, word@),
        word@.len() > grid.size ==> !r,
{
    if word.len() > grid.size {
        return false;
    }
    let buffer_len: usize = grid.rows.len();
    proof {
        assert(grid.size * grid.size == buffer_len);
        assert(grid.size <= grid.size * grid.size && grid.size + word@.len() <= usize::MAX)
            by (nonlinear_arith)
            requires
                1 <= grid.size,
                word@.len() <= grid.size,
                grid.size * grid.size <= usize::MAX,
        ;
    }
    let horizontal: Option<usize> = find(grid.rows.as_slice(), word);
    match horizontal {
        Some(position) => {
            if !is_overlapping_line(position, word, grid.size) {
                return true;
            }
            proof {
                lemma_no_hit_in_line(grid.rows@, word@, grid.size as int, horizontal);
            }
        },
        None => {
            proof {
                lemma_no_hit_in_line(grid.rows@, word@, grid.size as int, horizontal);
            }
        },
    }
    let vertical: Option<usize> = find(grid.columns.as_slice(), word);
    match vertical {
        Some(position) => {
            if !is_overlapping_line(position, word, grid.size) {
                return true;
            }
            proof {
                lemma_no_hit_in_line(grid.columns@, word@, grid.size as int, vertical);
            }
        },
        None => {
            proof {
                lemma_no_hit_in_line(grid.columns@, word@, grid.size as int, vertical);
            }
        },
    }
    false
}

/// The words among `words`, in the order given, that are present in the
/// grid. Duplicates are looked up independently.
pub fn found_words(grid: &Grid, words: &Vec<Vec<u8>>) -> (found: Vec<Vec<u8>>)
    requires
        grid.wf(),
        forall|t: int| 0 <= t < words@.len() ==> (#[trigger] words@[t])@.len() >= 1,
    ensures
        found.deep_view() == words.deep_view().filter(
            |w: Seq<u8>| present_in_grid(*grid, w),
        ),
{
    let mut found: Vec<Vec<u8>> = Vec::new();
    let n: usize = words.len();
    let mut i: usize = 0;
    proof {
        reveal(Seq::filter);
        assert(words.deep_view().subrange(0, 0) =~= Seq::<Seq<u8>>::empty());
        assert(found.deep_view() =~= Seq::<Seq<u8>>::empty());
    }
    while i < n
        invariant
            grid.wf(),
            n == words@.len(),
            i <= n,
            forall|t: int| 0 <= t < words@.len() ==> (#[trigger] words@[t])@.len() >= 1,
            found.deep_view() == words.deep_view().subrange(0, i as int).filter(
                |w: Seq<u8>| present_in_grid(*grid, w),
            ),
        decreases n - i,
    {
        let w: &Vec<u8> = &words[i];
        let ghost prefix = words.deep_view().subrange(0, i as int);
        let ghost extended = words.deep_view().subrange(0, i as int + 1);
        proof {
            assert(words.deep_view()[i as int] =~= w@);
            assert(extended.drop_last() =~= prefix);
            assert(extended.last() == words.deep_view()[i as int]);
            reveal(Seq::filter);
        }
        if is_present(grid, w.as_slice()) {
            let copy = copy_word(w);
            found.push(copy);
            proof {
                assert(found.deep_view() =~= prefix.filter(
                    |w: Seq<u8>| present_in_grid(*grid, w),
                ).push(w@));
            }
        }
        i = i + 1;
    }
    proof {
        assert(words.deep_view().subrange(0, n as int) =~= words.deep_view());
    }
    found
}

/// A fresh buffer with the same bytes as `w`.
fn copy_word(w: &Vec<u8>) -> (c: Vec<u8>)
    ensures
        c@ == w@,
{
    let mut c: Vec<u8> = Vec::new();
    let mut j: usize = 0;
    while j < w.len()
        invariant
            j <= w@.len(),
            c@ == w@.subrange(0, j as int),
        decreases w@.len() - j,
    {
        c.push(w[j]);
        proof {
            assert(c@ =~= w@.subrange(0, j as int + 1));
        }
        j = j + 1;
    }
    proof {
        assert(w@.subrange(0, w@.len() as int) =~= w@);
    }
    c
}

} // verus!
