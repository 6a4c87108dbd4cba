//! The word list: entries, the line format, and the loader.
//!
//! A word-list text holds one entry per non-empty line. A line has the shape
//! `<index-token> <word> <translation...>`: columns are separated by single
//! spaces, the word is the second token, and the translation is everything
//! that follows the word token (including the separating space). A non-empty
//! line without any space is malformed and the whole text is rejected.

use vstd::prelude::*;

verus! {

/// One entry of the word list: the word itself and its translation.
#[derive(Debug, PartialEq, Eq)]
pub struct Word {
    pub word: String,
    pub translated: String,
}

impl View for Word {
    type V = (Seq<char>, Seq<char>);

    open spec fn view(&self) -> (Seq<char>, Seq<char>) {
        (self.word@, self.translated@)
    }
}

impl Clone for Word {
    fn clone(&self) -> (r: Self)
        ensures
            r@ == self@,
    {
        Word { word: self.word.clone(), translated: self.translated.clone() }
    }
}

/// The views of a sequence of entries.
pub open spec fn word_views(ws: Seq<Word>) -> Seq<(Seq<char>, Seq<char>)> {
    ws.map_values(|w: Word| w@)
}

/// The first position of `c` in `s` at or after `i`; `s.len()` when absent.
pub open spec fn index_of_from(s: Seq<char>, c: char, i: int) -> int
    decreases s.len() - i when 0 <= i <= s.len()
{
    if i >= s.len() {
        s.len() as int
    } else if s[i] == c {
        i
    } else {
        index_of_from(s, c, i + 1)
    }
}

pub proof fn lemma_index_of_from(s: Seq<char>, c: char, i: int)
    requires
        0 <= i <= s.len(),
    ensures
        i <= index_of_from(s, c, i) <= s.len(),
        index_of_from(s, c, i) < s.len() ==> s[index_of_from(s, c, i)] == c,
        forall|j: int| i <= j < index_of_from(s, c, i) ==> s[j] != c,
    decreases s.len() - i,
{
    if i < s.len() && s[i] != c {
        lemma_index_of_from(s, c, i + 1);
    }
}

/// A line can be split into at least two tokens: it holds a space.
pub open spec fn line_well_formed(line: Seq<char>) -> bool {
    index_of_from(line, ' ', 0) < line.len()
}

/// The second space-separated token of the line.
pub open spec fn word_of(line: Seq<char>) -> Seq<char> {
    let i = index_of_from(line, ' ', 0);
    let j = index_of_from(line, ' ', i + 1);
    line.subrange(i + 1, j)
}

/// Everything after the word token, the separating space included.
pub open spec fn trans_of(line: Seq<char>) -> Seq<char> {
    let i = index_of_from(line, ' ', 0);
    let j = index_of_from(line, ' ', i + 1);
    line.subrange(j, line.len() as int)
}

/// The entry a well-formed line denotes.
pub open spec fn entry_of(line: Seq<char>) -> (Seq<char>, Seq<char>) {
    (word_of(line), trans_of(line))
}

/// The lines of a text, split on `'\n'`. An empty text has one empty line.
pub open spec fn split_lines(s: Seq<char>) -> Seq<Seq<char>>
    decreases s.len(),
{
    let j = index_of_from(s, '\n', 0);
    if 0 <= j < s.len() {
        seq![s.subrange(0, j)] + split_lines(s.subrange(j + 1, s.len() as int))
    } else {
        seq![s]
    }
}

/// The entries of a whole text: one per non-empty line, in file order;
/// `None` as soon as one non-empty line is malformed.
pub open spec fn parse_entries(s: Seq<char>) -> Option<Seq<(Seq<char>, Seq<char>)>>
    decreases s.len(),
{
    let j = index_of_from(s, '\n', 0);
    if 0 <= j < s.len() {
        let line = s.subrange(0, j);
        let tail = parse_entries(s.subrange(j + 1, s.len() as int));
        if line.len() == 0 {
            tail
        } else if line_well_formed(line) {
            match tail {
                Some(t) => Some(seq![entry_of(line)] + t),
                None => None,
            }
        } else {
            None
        }
    } else {
        if s.len() == 0 {
            Some(Seq::empty())
        } else if line_well_formed(s) {
            Some(seq![entry_of(s)])
        } else {
            None
        }
    }
}

/// How many lines precede the first malformed one (meaningful when
/// `parse_entries` is `None`).
pub open spec fn first_bad_line(s: Seq<char>) -> int
    decreases s.len(),
{
    let j = index_of_from(s, '\n', 0);
    if 0 <= j < s.len() {
        let line = s.subrange(0, j);
        if line.len() != 0 && !line_well_formed(line) {
            0
        } else {
            1 + first_bad_line(s.subrange(j + 1, s.len() as int))
        }
    } else {
        0
    }
}

/// The loader produces exactly one entry per non-empty line, preserving
/// file order: its result is the malformed-line-free lines, each mapped to
/// its entry.
pub proof fn lemma_one_entry_per_line(s: Seq<char>)
    requires
        parse_entries(s) is Some,
    ensures
        parse_entries(s) == Some(
            split_lines(s).filter(|l: Seq<char>| l.len() > 0).map_values(|l: Seq<char>| entry_of(l)),
        ),
    decreases s.len(),
{
    let j = index_of_from(s, '\n', 0);
    let f = |l: Seq<char>| l.len() > 0;
    let m = |l: Seq<char>| entry_of(l);
    if 0 <= j < s.len() {
        let line = s.subrange(0, j);
        let rest = s.subrange(j + 1, s.len() as int);
        lemma_one_entry_per_line(rest);
        assert(split_lines(s) == seq![line] + split_lines(rest));
        Seq::<Seq<char>>::filter_distributes_over_add(seq![line], split_lines(rest), f);
        reveal_with_fuel(Seq::filter, 2);
        if line.len() == 0 {
            assert(seq![line].filter(f) =~= Seq::<Seq<char>>::empty());
            assert(split_lines(s).filter(f) == split_lines(rest).filter(f));
        } else {
            assert(seq![line].filter(f) =~= seq![line]);
            assert(split_lines(s).filter(f) == seq![line] + split_lines(rest).filter(f));
            assert((seq![line] + split_lines(rest).filter(f)).map_values(m) =~= seq![
                entry_of(line),
            ] + split_lines(rest).filter(f).map_values(m));
        }
    } else {
        reveal_with_fuel(Seq::filter, 2);
        if s.len() == 0 {
            assert(split_lines(s).filter(f) =~= Seq::<Seq<char>>::empty());
            assert(split_lines(s).filter(f).map_values(m) =~= Seq::<(Seq<char>, Seq<char>)>::empty());
        } else {
            assert(split_lines(s).filter(f) =~= seq![s]);
            assert(split_lines(s).filter(f).map_values(m) =~= seq![entry_of(s)]);
        }
    }
}

/// The loader succeeds exactly when every non-empty line can be split into
/// two tokens.
pub proof fn lemma_loader_success(s: Seq<char>)
    ensures
        parse_entries(s) is Some <==> (forall|j: int|
            0 <= j < split_lines(s).len() && (#[trigger] split_lines(s)[j]).len() > 0
                ==> line_well_formed(split_lines(s)[j])),
    decreases s.len(),
{
    let jn = index_of_from(s, '\n', 0);
    if 0 <= jn < s.len() {
        let line = s.subrange(0, jn);
        let rest = s.subrange(jn + 1, s.len() as int);
        lemma_loader_success(rest);
        assert(split_lines(s) == seq![line] + split_lines(rest));
        assert(split_lines(s)[0] == line);
        assert(forall|j: int|
            1 <= j < split_lines(s).len() ==> #[trigger] split_lines(s)[j] == split_lines(
                rest,
            )[j - 1]);
        if parse_entries(s) is Some {
            assert(parse_entries(rest) is Some);
        } else {
            if line.len() == 0 || line_well_formed(line) {
                assert(parse_entries(rest) is None);
                let j0 = choose|j: int|
                    0 <= j < split_lines(rest).len() && (#[trigger] split_lines(rest)[j]).len() > 0
                        && !line_well_formed(split_lines(rest)[j]);
                assert(split_lines(s)[j0 + 1] == split_lines(rest)[j0]);
            }
        }
    } else {
        assert(split_lines(s) == seq![s]);
        assert(split_lines(s)[0] == s);
    }
}

/// When the loader fails, `first_bad_line` counts the lines before the
/// first non-empty line without a space, and every non-empty line before it
/// is well-formed.
pub proof fn lemma_first_bad_line(s: Seq<char>)
    requires
        parse_entries(s) is None,
    ensures
        0 <= first_bad_line(s) < split_lines(s).len(),
        split_lines(s)[first_bad_line(s)].len() > 0,
        !line_well_formed(split_lines(s)[first_bad_line(s)]),
        forall|j: int|
            0 <= j < first_bad_line(s) && (#[trigger] split_lines(s)[j]).len() > 0
                ==> line_well_formed(split_lines(s)[j]),
    decreases s.len(),
{
    let jn = index_of_from(s, '\n', 0);
    if 0 <= jn < s.len() {
        let line = s.subrange(0, jn);
        let rest = s.subrange(jn + 1, s.len() as int);
        assert(split_lines(s) == seq![line] + split_lines(rest));
        assert(split_lines(s)[0] == line);
        assert(forall|j: int|
            1 <= j < split_lines(s).len() ==> #[trigger] split_lines(s)[j] == split_lines(
                rest,
            )[j - 1]);
        if line.len() != 0 && !line_well_formed(line) {
        } else {
            assert(parse_entries(rest) is None);
            lemma_first_bad_line(rest);
            assert(split_lines(s)[first_bad_line(s)] == split_lines(rest)[first_bad_line(rest)]);
        }
    } else {
        assert(split_lines(s) == seq![s]);
        assert(split_lines(s)[0] == s);
    }
}

/// The characters of a string, as a vector.
pub fn chars_of(s: &str) -> (r: Vec<char>)
    ensures
        r@ == s@,
{
    let n = s.unicode_len();
    let mut r: Vec<char> = Vec::new();
    let mut i: usize = 0;
    while i < n
        invariant
            i <= n,
            n == s@.len(),
            r@ == s@.take(i as int),
        decreases n - i,
    {
        r.push(s.get_char(i));
        i = i + 1;
        assert(r@ =~= s@.take(i as int));
    }
    assert(r@ =~= s@);
    r
}

/// The first position of `c` in `v` at or after `i`; `v.len()` when absent.
pub fn find_from(v: &Vec<char>, c: char, i: usize) -> (j: usize)
    requires
        i <= v.len(),
    ensures
        j == index_of_from(v@, c, i as int),
        i <= j <= v.len(),
{
    proof {
        lemma_index_of_from(v@, c, i as int);
    }
    let mut k: usize = i;
    while k < v.len()
        invariant
            i <= k <= v.len(),
            index_of_from(v@, c, i as int) == index_of_from(v@, c, k as int),
        decreases v.len() - k,
    {
        if v[k] == c {
            return k;
        }
        k = k + 1;
    }
    k
}

/// The characters of `v` between `a` and `b`, as a fresh string.
pub fn string_range(v: &Vec<char>, a: usize, b: usize) -> (r: String)
    requires
        a <= b <= v.len(),
    ensures
        r@ == v@.subrange(a as int, b as int),
{
    let mut out: Vec<char> = Vec::new();
    let mut k: usize = a;
    while k < b
        invariant
            a <= k <= b <= v.len(),
            out@ == v@.subrange(a as int, k as int),
        decreases b - k,
    {
        out.push(v[k]);
        k = k + 1;
        assert(out@ =~= v@.subrange(a as int, k as int));
    }
    string_from_chars(&out)
}

/// Relies on `core::iter::Iterator::collect` building a `String` from
/// exactly the characters the iterator yields, in order.
#[verifier::external_body]
pub fn string_from_chars(v: &Vec<char>) -> (r: String)
    ensures
        r@ == v@,
{
    v.iter().collect()
}

/// Parses one line known to lie at `v[start..end]` with a space in it.
fn parse_line(v: &Vec<char>, start: usize, end: usize) -> (w: Word)
    requires
        start <= end <= v.len(),
        line_well_formed(v@.subrange(start as int, end as int)),
    ensures
        w@ == entry_of(v@.subrange(start as int, end as int)),
{
    let ghost line = v@.subrange(start as int, end as int);
    proof {
        lemma_index_of_from(line, ' ', 0);
    }
    let i = find_from_bounded(v, ' ', start, end);
    proof {
        lemma_index_of_shift(v@, ' ', start as int, end as int, 0, i as int);
        assert(i - start == index_of_from(line, ' ', 0));
        lemma_index_of_from(line, ' ', i - start + 1);
    }
    let j = find_from_bounded(v, ' ', i + 1, end);
    proof {
        lemma_index_of_shift(v@, ' ', start as int, end as int, i - start + 1, j as int);
        assert(j - start == index_of_from(line, ' ', i - start + 1));
        assert(v@.subrange(i + 1, j as int) =~= line.subrange(i - start + 1, j - start));
        assert(v@.subrange(j as int, end as int) =~= line.subrange(j - start, line.len() as int));
    }
    let word = string_range(v, i + 1, j);
    let translated = string_range(v, j, end);
    Word { word, translated }
}

/// The first position of `c` in `v[.. end]` at or after `i`; `end` when absent.
fn find_from_bounded(v: &Vec<char>, c: char, i: usize, end: usize) -> (j: usize)
    requires
        i <= end <= v.len(),
    ensures
        i <= j <= end,
        j < end ==> v@[j as int] == c,
        forall|t: int| i <= t < j ==> v@[t] != c,
{
    let mut k: usize = i;
    while k < end
        invariant
            i <= k <= end <= v.len(),
            forall|t: int| i <= t < k ==> v@[t] != c,
        decreases end - k,
    {
        if v[k] == c {
            return k;
        }
        k = k + 1;
    }
    k
}

/// A scan of `s[start..end]` from `i` lands at `j - start` when `j` is the
/// first position of `c` in `s` at or after `start + i`, bounded by `end`.
proof fn lemma_index_of_shift(s: Seq<char>, c: char, start: int, end: int, i: int, j: int)
    requires
        0 <= start <= end <= s.len(),
        0 <= i <= end - start,
        start + i <= j <= end,
        j < end ==> s[j] == c,
        forall|t: int| start + i <= t < j ==> s[t] != c,
    ensures
        j - start == index_of_from(s.subrange(start, end), c, i),
{
    let line = s.subrange(start, end);
    lemma_index_of_from(line, c, i);
    let r = index_of_from(line, c, i);
    if j - start < r {
        assert(line[j - start] != c);
        assert(s[j] == line[j - start]);
    } else if j - start > r {
        assert(line[r] == c);
        assert(s[start + r] == line[r]);
    }
}

/// Loads a word list: one entry per non-empty line, in file order.
///
/// Returns `Err(k)` exactly when some non-empty line holds no space at all,
/// `k` counting the lines that precede the first such line.
pub fn parse_word_list(text: &str) -> (r: Result<Vec<Word>, usize>)
    ensures
        match r {
            Ok(ws) => parse_entries(text@) == Some(word_views(ws@)),
            Err(k) => parse_entries(text@) is None && k == first_bad_line(text@),
        },
{
    let v = chars_of(text);
    let mut out: Vec<Word> = Vec::new();
    let mut pos: usize = 0;
    let mut lines: usize = 0;
    proof {
        assert(v@.skip(0) =~= v@);
        assert(word_views(out@) =~= Seq::<(Seq<char>, Seq<char>)>::empty());
        if parse_entries(v@) is Some {
            let t = parse_entries(v@)->Some_0;
            assert(word_views(out@) + t =~= t);
        }
    }
    loop
        invariant
            pos <= v.len(),
            v@ == text@,
            pos > 0 ==> v@[pos - 1] == '\n',
            parse_entries(text@) == match parse_entries(v@.skip(pos as int)) {
                Some(t) => Some(word_views(out@) + t),
                None => None::<Seq<(Seq<char>, Seq<char>)>>,
            },
            parse_entries(v@.skip(pos as int)) is None ==> first_bad_line(text@) == lines
                + first_bad_line(v@.skip(pos as int)),
            lines <= pos,
        decreases v.len() - pos,
    {
        let ghost rem = v@.skip(pos as int);
        let j = find_from(&v, '\n', pos);
        proof {
            lemma_index_of_from(v@, '\n', pos as int);
            lemma_index_of_shift(v@, '\n', pos as int, v@.len() as int, 0, j as int);
            assert(v@.subrange(pos as int, v@.len() as int) =~= rem);
            assert(j - pos == index_of_from(rem, '\n', 0));
        }
        let ghost line = rem.subrange(0, j - pos);
        proof {
            assert(line =~= v@.subrange(pos as int, j as int));
        }
        if j < v.len() {
            // a full line ending in '\n'
            proof {
                assert(rem.subrange(j - pos + 1, rem.len() as int) =~= v@.skip(j + 1));
            }
            if j == pos {
                // empty line: no entry
            } else if exists_space(&v, pos, j) {
                proof {
                    assert(line.len() > 0);
                    assert(line_well_formed(line));
                }
                let w = parse_line(&v, pos, j);
                out.push(w);
                proof {
                    assert(word_views(out@) =~= word_views(out@.drop_last()) + seq![
                        entry_of(line),
                    ]);
                    assert forall|t: Seq<(Seq<char>, Seq<char>)>|
                        (word_views(out@.drop_last()) + (seq![entry_of(line)] + t)) =~= (word_views(
                            out@,
                        ) + t) by {}
                }
            } else {
                proof {
                    assert(line.len() > 0);
                    assert(!line_well_formed(line));
                    assert(parse_entries(rem) is None);
                    assert(first_bad_line(rem) == 0);
                }
                return Err(lines);
            }
            pos = j + 1;
            lines = lines + 1;
        } else {
            // the final line, without a terminating '\n'
            if pos == v.len() {
                proof {
                    assert(rem.len() == 0);
                    assert(parse_entries(rem) == Some(Seq::<(Seq<char>, Seq<char>)>::empty()));
                    assert(word_views(out@) + Seq::<(Seq<char>, Seq<char>)>::empty() =~= word_views(
                        out@,
                    ));
                }
                return Ok(out);
            } else if exists_space(&v, pos, v.len()) {
                proof {
                    assert(line =~= rem);
                    assert(line_well_formed(rem));
                    assert(parse_entries(rem) == Some(seq![entry_of(rem)]));
                }
                let w = parse_line(&v, pos, v.len());
                out.push(w);
                proof {
                    assert(word_views(out@) =~= word_views(out@.drop_last()) + seq![
                        entry_of(rem),
                    ]);
                }
                return Ok(out);
            } else {
                proof {
                    assert(line =~= rem);
                    assert(!line_well_formed(rem));
                    assert(parse_entries(rem) is None);
                    assert(first_bad_line(rem) == 0);
                }
                return Err(lines);
            }
        }
    }
}

/// Whether `v[start..end]` holds a space; equals well-formedness of the line.
fn exists_space(v: &Vec<char>, start: usize, end: usize) -> (r: bool)
    requires
        start <= end <= v.len(),
    ensures
        r == line_well_formed(v@.subrange(start as int, end as int)),
{
    let ghost line = v@.subrange(start as int, end as int);
    proof {
        lemma_index_of_from(line, ' ', 0);
    }
    let j = find_from_bounded(v, ' ', start, end);
    proof {
        lemma_index_of_shift(v@, ' ', start as int, end as int, 0, j as int);
        assert(j - start == index_of_from(line, ' ', 0));
    }
    j < end
}

} // verus!
