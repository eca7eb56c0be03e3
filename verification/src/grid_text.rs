use vstd::prelude::*;

verus! {

/// Whether `c` has the Unicode `White_Space` property, the characters that
/// separate the values of a grid file.
pub open spec fn is_space(c: char) -> bool {
    let u = c as u32;
    ||| 0x09 <= u <= 0x0D
    ||| u == 0x20
    ||| u == 0x85
    ||| u == 0xA0
    ||| u == 0x1680
    ||| 0x2000 <= u <= 0x200A
    ||| u == 0x2028
    ||| u == 0x2029
    ||| u == 0x202F
    ||| u == 0x205F
    ||| u == 0x3000
}

/// Whether `c` is a white space character, as `char::is_whitespace` decides.
pub fn is_whitespace(c: char) -> (b: bool)
    ensures
        b == is_space(c),
{
    let u = c as u32;
    (0x09 <= u && u <= 0x0D) || u == 0x20 || u == 0x85 || u == 0xA0 || u == 0x1680 || (0x2000
        <= u && u <= 0x200A) || u == 0x2028 || u == 0x2029 || u == 0x202F || u == 0x205F || u
        == 0x3000
}

/// The number of characters before the first white space in `s`.
pub open spec fn word_len(s: Seq<char>) -> nat
    decreases s.len(),
{
    if s.len() == 0 || is_space(s[0]) {
        0
    } else {
        1 + word_len(s.skip(1))
    }
}

/// The number of characters before the first line feed in `s`.
pub open spec fn line_len(s: Seq<char>) -> nat
    decreases s.len(),
{
    if s.len() == 0 || s[0] == '\n' {
        0
    } else {
        1 + line_len(s.skip(1))
    }
}

/// The first word of `s` is as long as its run of characters that are not white space.
pub proof fn lemma_word_len(s: Seq<char>)
    ensures
        word_len(s) <= s.len(),
        s.len() > 0 && !is_space(s[0]) ==> word_len(s) >= 1,
        forall|j: int| 0 <= j < word_len(s) ==> !is_space(#[trigger] s[j]),
        word_len(s) < s.len() ==> is_space(s[word_len(s) as int]),
    decreases s.len(),
{
    if s.len() > 0 && !is_space(s[0]) {
        lemma_word_len(s.skip(1));
        assert forall|j: int| 0 <= j < word_len(s) implies !is_space(#[trigger] s[j]) by {
            if j > 0 {
                assert(s[j] == s.skip(1)[j - 1]);
            }
        }
        if word_len(s) < s.len() {
            assert(s[word_len(s) as int] == s.skip(1)[word_len(s.skip(1)) as int]);
        }
    }
}

/// The first line of `s` ends at its first line feed, or at its end.
pub proof fn lemma_line_len(s: Seq<char>)
    ensures
        line_len(s) <= s.len(),
        forall|j: int| 0 <= j < line_len(s) ==> #[trigger] s[j] != '\n',
        line_len(s) < s.len() ==> s[line_len(s) as int] == '\n',
    decreases s.len(),
{
    if s.len() > 0 && s[0] != '\n' {
        lemma_line_len(s.skip(1));
        assert forall|j: int| 0 <= j < line_len(s) implies #[trigger] s[j] != '\n' by {
            if j > 0 {
                assert(s[j] == s.skip(1)[j - 1]);
            }
        }
        if line_len(s) < s.len() {
            assert(s[line_len(s) as int] == s.skip(1)[line_len(s.skip(1)) as int]);
        }
    }
}

/// The words of `s`: its longest runs of characters that are not white space,
/// in order.
pub open spec fn words(s: Seq<char>) -> Seq<Seq<char>>
    decreases s.len(),
{
    if s.len() == 0 {
        seq![]
    } else if is_space(s[0]) {
        words(s.skip(1))
    } else {
        proof {
            lemma_word_len(s);
        }
        seq![s.take(word_len(s) as int)] + words(s.skip(word_len(s) as int))
    }
}

/// The rows of a grid file: for each of its lines (the text between line
/// feeds) that holds a word, the words of that line.
pub open spec fn token_rows(s: Seq<char>) -> Seq<Seq<Seq<char>>>
    decreases s.len(),
{
    proof {
        lemma_line_len(s);
    }
    let k = line_len(s);
    let row = words(s.take(k as int));
    let head: Seq<Seq<Seq<char>>> = if row.len() > 0 {
        seq![row]
    } else {
        seq![]
    };
    if k >= s.len() {
        head
    } else {
        head + token_rows(s.skip(k + 1int))
    }
}


proof fn lemma_word_len_exact(s: Seq<char>, k: int)
    requires
        0 <= k <= s.len(),
        forall|j: int| 0 <= j < k ==> !is_space(#[trigger] s[j]),
        k == s.len() || is_space(s[k]),
    ensures
        word_len(s) == k,
{
    lemma_word_len(s);
    let w = word_len(s) as int;
    if w < k {
        assert(!is_space(s[w]));
    }
    if w > k {
        assert(!is_space(s[k]));
    }
}

proof fn lemma_line_len_exact(s: Seq<char>, k: int)
    requires
        0 <= k <= s.len(),
        forall|j: int| 0 <= j < k ==> #[trigger] s[j] != '\n',
        k == s.len() || s[k] == '\n',
    ensures
        line_len(s) == k,
{
    lemma_line_len(s);
    let w = line_len(s) as int;
    if w < k {
        assert(s[w] != '\n');
    }
    if w > k {
        assert(s[k] != '\n');
    }
}

/// The string made of `chars`, by `String::from_iter`.
#[verifier::external_body]
fn chars_to_string(chars: &Vec<char>) -> (s: String)
    ensures
        s@ == chars@,
{
    String::from_iter(chars.iter())
}

/// The characters of `text`, in order.
fn text_chars(text: &str) -> (v: Vec<char>)
    ensures
        v@ == text@,
{
    broadcast use vstd::string::group_string_axioms;

    let mut v: Vec<char> = Vec::new();
    for c in it: text.chars()
        invariant
            v@ == it.seq().take(it.index() as int),
    {
        v.push(c);
    }
    v
}

/// The words of the characters `lo..hi` of `chars`.
fn line_words(chars: &Vec<char>, lo: usize, hi: usize) -> (out: Vec<String>)
    requires
        lo <= hi <= chars@.len(),
    ensures
        out.deep_view() == words(chars@.subrange(lo as int, hi as int)),
{
    let mut out: Vec<String> = Vec::new();
    let mut p: usize = lo;
    while p < hi
        invariant
            lo <= p <= hi <= chars@.len(),
            words(chars@.subrange(lo as int, hi as int)) == out.deep_view() + words(
                chars@.subrange(p as int, hi as int),
            ),
        decreases hi - p,
    {
        if is_whitespace(chars[p]) {
            proof {
                let s = chars@.subrange(p as int, hi as int);
                assert(s.skip(1) =~= chars@.subrange(p + 1, hi as int));
            }
            p = p + 1;
        } else {
            let mut tok: Vec<char> = Vec::new();
            let mut q: usize = p;
            while q < hi && !is_whitespace(chars[q])
                invariant
                    p <= q <= hi <= chars@.len(),
                    tok@ == chars@.subrange(p as int, q as int),
                    forall|m: int| p <= m < q ==> !is_space(#[trigger] chars@[m]),
                decreases hi - q,
            {
                tok.push(chars[q]);
                q = q + 1;
            }
            let word = chars_to_string(&tok);
            proof {
                let s = chars@.subrange(p as int, hi as int);
                assert forall|j: int| 0 <= j < q - p implies !is_space(#[trigger] s[j]) by {
                    assert(s[j] == chars@[p + j]);
                }
                lemma_word_len_exact(s, q - p);
                assert(s.take(q - p) =~= tok@);
                assert(s.skip(q - p) =~= chars@.subrange(q as int, hi as int));
            }
            let ghost before = out.deep_view();
            out.push(word);
            proof {
                assert(out.deep_view() =~= before.push(tok@));
                let s = chars@.subrange(p as int, hi as int);
                assert(words(s) =~= seq![tok@] + words(chars@.subrange(q as int, hi as int)));
                assert(before + words(s) =~= out.deep_view() + words(chars@.subrange(q as int, hi as int)));
            }
            p = q;
        }
    }
    proof {
        assert(chars@.subrange(p as int, hi as int) =~= Seq::<char>::empty());
        assert(out.deep_view() + Seq::<Seq<char>>::empty() =~= out.deep_view());
    }
    out
}

/// The rows of the grid file `text`: for each of its lines that is not blank,
/// the values written on it, as they stand in the text.
pub fn grid_rows(text: &str) -> (rows: Vec<Vec<String>>)
    ensures
        rows.deep_view() == token_rows(text@),
{
    let chars = text_chars(text);
    let n = chars.len();
    let mut rows: Vec<Vec<String>> = Vec::new();
    let mut i: usize = 0;
    proof {
        assert(chars@.skip(0) =~= chars@);
        assert(rows.deep_view() + token_rows(chars@) =~= token_rows(chars@));
    }
    while i < n
        invariant
            n == chars@.len(),
            i <= n,
            token_rows(chars@) == rows.deep_view() + token_rows(chars@.skip(i as int)),
        decreases n - i,
    {
        let mut j: usize = i;
        while j < n && chars[j] != '\n'
            invariant
                i <= j <= n == chars@.len(),
                forall|m: int| i <= m < j ==> #[trigger] chars@[m] != '\n',
            decreases n - j,
        {
            j = j + 1;
        }
        let row = line_words(&chars, i, j);
        let ghost before = rows.deep_view();
        proof {
            let s = chars@.skip(i as int);
            assert forall|m: int| 0 <= m < j - i implies #[trigger] s[m] != '\n' by {
                assert(s[m] == chars@[i + m]);
            }
            if j < n {
                assert(s[j - i] == chars@[j as int]);
            }
            lemma_line_len_exact(s, j - i);
            assert(s.take(j - i) =~= chars@.subrange(i as int, j as int));
            if j < n {
                assert(s.skip(j - i + 1) =~= chars@.skip(j + 1));
            }
        }
        if row.len() > 0 {
            rows.push(row);
            proof {
                assert(rows.deep_view() =~= before.push(row.deep_view()));
            }
        }
        if j >= n {
            i = n;
            proof {
                let s = chars@.skip(n as int);
                assert(s.len() == 0);
                assert(s.take(0) =~= Seq::<char>::empty());
                assert(token_rows(s) =~= Seq::<Seq<Seq<char>>>::empty());
                assert(rows.deep_view() + token_rows(s) =~= rows.deep_view());
            }
        } else {
            i = j + 1;
        }
        proof {
            assert(token_rows(chars@) =~= rows.deep_view() + token_rows(chars@.skip(i as int)));
        }
    }
    proof {
        let s = chars@.skip(n as int);
        assert(s.len() == 0);
        assert(s.take(0) =~= Seq::<char>::empty());
        assert(token_rows(s) =~= Seq::<Seq<Seq<char>>>::empty());
        assert(rows.deep_view() + token_rows(s) =~= rows.deep_view());
    }
    rows
}



/// Whether `w` stands in `s` from index `st` as a whole run of characters
/// that are not white space: it is not empty, every character of it is not
/// white space, and it is bounded by white space or the ends of `s`.
pub open spec fn is_maximal_run_at(s: Seq<char>, st: int, w: Seq<char>) -> bool {
    &&& 0 <= st
    &&& st + w.len() <= s.len()
    &&& w.len() > 0
    &&& s.subrange(st, st + w.len()) == w
    &&& forall|j: int| st <= j < st + w.len() ==> !is_space(#[trigger] s[j])
    &&& (st == 0 || is_space(s[st - 1]))
    &&& (st + w.len() == s.len() || is_space(s[st + w.len()]))
}

/// The words of `s` are exactly its whole runs of characters that are not
/// white space, in the order in which they stand: each word stands in `s`
/// at its start, bounded by white space or the ends of `s`; the words do not
/// overlap and come in order; and every character that is not white space
/// lies in one of them. The starts are given as the result.
pub proof fn lemma_words_are_maximal_runs(s: Seq<char>) -> (starts: Seq<int>)
    ensures
        starts.len() == words(s).len(),
        forall|i: int| 0 <= i < starts.len() ==> is_maximal_run_at(s, #[trigger] starts[i], words(s)[i]),
        forall|i: int|
            0 <= i < starts.len() - 1 ==> #[trigger] starts[i] + words(s)[i].len() < starts[i + 1],
        forall|j: int|
            0 <= j < s.len() && !is_space(#[trigger] s[j]) ==> exists|i: int|
                0 <= i < starts.len() && #[trigger] starts[i] <= j < starts[i] + words(s)[i].len(),
    decreases s.len(),
{
    if s.len() == 0 {
        Seq::empty()
    } else if is_space(s[0]) {
        let t = s.skip(1);
        let rec = lemma_words_are_maximal_runs(t);
        let ws = words(s);
        assert(ws == words(t));
        let starts = Seq::new(rec.len(), |i: int| rec[i] + 1);
        assert forall|i: int| 0 <= i < starts.len() implies is_maximal_run_at(s, #[trigger] starts[i], ws[i]) by {
            let st = rec[i];
            let w = ws[i];
            assert(is_maximal_run_at(t, st, w));
            assert(s.subrange(st + 1, st + 1 + w.len()) =~= t.subrange(st, st + w.len()));
            assert forall|j: int| st + 1 <= j < st + 1 + w.len() implies !is_space(#[trigger] s[j]) by {
                assert(s[j] == t[j - 1]);
            }
            if st > 0 {
                assert(s[st] == t[st - 1]);
            }
            if st + w.len() < t.len() {
                assert(s[st + 1 + w.len()] == t[st + w.len()]);
            }
        }
        assert forall|i: int| 0 <= i < starts.len() - 1 implies #[trigger] starts[i] + ws[i].len() < starts[i + 1] by {
            assert(rec[i] + words(t)[i].len() < rec[i + 1]);
        }
        assert forall|j: int| 0 <= j < s.len() && !is_space(#[trigger] s[j]) implies exists|i: int|
            0 <= i < starts.len() && #[trigger] starts[i] <= j < starts[i] + ws[i].len() by {
            assert(j > 0);
            assert(t[j - 1] == s[j]);
            let i = choose|i: int| 0 <= i < rec.len() && #[trigger] rec[i] <= j - 1 < rec[i] + words(t)[i].len();
            assert(starts[i] <= j < starts[i] + ws[i].len());
        }
        starts
    } else {
        lemma_word_len(s);
        let k = word_len(s) as int;
        let t = s.skip(k);
        let rec = lemma_words_are_maximal_runs(t);
        let ws = words(s);
        let first = s.take(k);
        assert(ws == seq![first] + words(t));
        let starts = seq![0int] + Seq::new(rec.len(), |i: int| rec[i] + k);
        assert forall|i: int| 0 <= i < starts.len() implies is_maximal_run_at(s, #[trigger] starts[i], ws[i]) by {
            if i == 0 {
                assert(ws[0] == first);
                assert(s.subrange(0, k) =~= first);
            } else {
                let st = rec[i - 1];
                let w = words(t)[i - 1];
                assert(ws[i] == w);
                assert(starts[i] == st + k);
                assert(is_maximal_run_at(t, st, w));
                assert(s.subrange(st + k, st + k + w.len()) =~= t.subrange(st, st + w.len()));
                assert forall|j: int| st + k <= j < st + k + w.len() implies !is_space(#[trigger] s[j]) by {
                    assert(s[j] == t[j - k]);
                }
                if st > 0 {
                    assert(s[st + k - 1] == t[st - 1]);
                } else {
                    assert(!is_space(t[0]));
                    assert(t[0] == s[k]);
                }
                if st + w.len() < t.len() {
                    assert(s[st + k + w.len()] == t[st + w.len()]);
                }
            }
        }
        assert forall|i: int| 0 <= i < starts.len() - 1 implies #[trigger] starts[i] + ws[i].len() < starts[i + 1] by {
            if i == 0 {
                let st = rec[0];
                let w = words(t)[0];
                assert(is_maximal_run_at(t, st, w));
                if st == 0 {
                    assert(!is_space(t[0]));
                    assert(t[0] == s[k]);
                }
                assert(starts[1] == st + k);
            } else {
                assert(rec[i - 1] + words(t)[i - 1].len() < rec[i]);
                assert(ws[i] == words(t)[i - 1]);
            }
        }
        assert forall|j: int| 0 <= j < s.len() && !is_space(#[trigger] s[j]) implies exists|i: int|
            0 <= i < starts.len() && #[trigger] starts[i] <= j < starts[i] + ws[i].len() by {
            if j < k {
                assert(starts[0] <= j < starts[0] + ws[0].len());
            } else {
                assert(t[j - k] == s[j]);
                let i = choose|i: int| 0 <= i < rec.len() && #[trigger] rec[i] <= j - k < rec[i] + words(t)[i].len();
                assert(starts[i + 1] == rec[i] + k);
                assert(ws[i + 1] == words(t)[i]);
                assert(starts[i + 1] <= j < starts[i + 1] + ws[i + 1].len());
            }
        }
        starts
    }
}


/// Whether `s[a..b]` is a whole line of `s`: it starts at the start of `s`
/// or just after a line feed, ends at the end of `s` or at a line feed, and
/// holds no line feed.
pub open spec fn is_line(s: Seq<char>, a: int, b: int) -> bool {
    &&& 0 <= a <= b <= s.len()
    &&& (a == 0 || s[a - 1] == '\n')
    &&& (b == s.len() || s[b] == '\n')
    &&& forall|j: int| a <= j < b ==> #[trigger] s[j] != '\n'
}

/// The rows of a grid file are its lines that hold a value, in order, each
/// row the words of its line: each row comes from a whole line (given in the
/// result by where it starts and ends) and holds that line's words; the lines
/// come in order; and every character that is not white space lies in the
/// line of some row.
pub proof fn lemma_rows_are_lines(s: Seq<char>) -> (lines: Seq<(int, int)>)
    ensures
        lines.len() == token_rows(s).len(),
        forall|r: int|
            0 <= r < lines.len() ==> is_line(s, (#[trigger] lines[r]).0, lines[r].1) && token_rows(s)[r]
                == words(s.subrange(lines[r].0, lines[r].1)) && token_rows(s)[r].len() > 0,
        forall|r: int| 0 <= r < lines.len() - 1 ==> (#[trigger] lines[r]).1 < lines[r + 1].0,
        forall|j: int|
            0 <= j < s.len() && !is_space(#[trigger] s[j]) ==> exists|r: int|
                0 <= r < lines.len() && (#[trigger] lines[r]).0 <= j < lines[r].1,
    decreases s.len(),
{
    lemma_line_len(s);
    let k = line_len(s) as int;
    let line = s.take(k);
    let row = words(line);
    let rows = token_rows(s);
    let head: Seq<(int, int)> = if row.len() > 0 { seq![(0int, k)] } else { seq![] };
    let hrows: Seq<Seq<Seq<char>>> = if row.len() > 0 { seq![row] } else { seq![] };
    assert(s.subrange(0, k) =~= line);
    let starts = lemma_words_are_maximal_runs(line);
    // A line with a character that is not white space has a word.
    assert forall|j: int| 0 <= j < k && !is_space(#[trigger] s[j]) implies row.len() > 0 by {
        assert(line[j] == s[j]);
        let i = choose|i: int| 0 <= i < starts.len() && #[trigger] starts[i] <= j < starts[i] + row[i].len();
    }
    if k >= s.len() {
        assert(rows == hrows);
        let lines = head;
        assert forall|r: int| 0 <= r < lines.len() implies is_line(s, (#[trigger] lines[r]).0, lines[r].1) && rows[r]
            == words(s.subrange(lines[r].0, lines[r].1)) && rows[r].len() > 0 by {}
        assert forall|j: int| 0 <= j < s.len() && !is_space(#[trigger] s[j]) implies exists|r: int|
            0 <= r < lines.len() && (#[trigger] lines[r]).0 <= j < lines[r].1 by {
            assert(row.len() > 0);
            assert(lines[0].0 <= j < lines[0].1);
        }
        lines
    } else {
        let t = s.skip(k + 1);
        let rec = lemma_rows_are_lines(t);
        let trows = token_rows(t);
        assert(rows == hrows + trows);
        let off = k + 1;
        let lines = head + Seq::new(rec.len(), |r: int| (rec[r].0 + off, rec[r].1 + off));
        let h = head.len() as int;
        assert forall|r: int| 0 <= r < lines.len() implies is_line(s, (#[trigger] lines[r]).0, lines[r].1) && rows[r]
            == words(s.subrange(lines[r].0, lines[r].1)) && rows[r].len() > 0 by {
            if r < h {
                assert(lines[r] == (0int, k));
                assert(rows[r] == row);
            } else {
                let (a, b) = rec[r - h];
                assert(lines[r] == (a + off, b + off));
                assert(rows[r] == trows[r - h]);
                assert(is_line(t, a, b));
                assert(s.subrange(a + off, b + off) =~= t.subrange(a, b));
                if a == 0 {
                    assert(s[a + off - 1] == s[k]);
                } else {
                    assert(s[a + off - 1] == t[a - 1]);
                }
                if b < t.len() {
                    assert(s[b + off] == t[b]);
                }
                assert forall|j: int| a + off <= j < b + off implies #[trigger] s[j] != '\n' by {
                    assert(s[j] == t[j - off]);
                }
            }
        }
        assert forall|r: int| 0 <= r < lines.len() - 1 implies (#[trigger] lines[r]).1 < lines[r + 1].0 by {
            if r < h {
                assert(lines[r + 1] == (rec[0].0 + off, rec[0].1 + off));
            } else {
                assert(rec[r - h].1 < rec[r - h + 1].0);
                assert(lines[r] == (rec[r - h].0 + off, rec[r - h].1 + off));
                assert(lines[r + 1] == (rec[r - h + 1].0 + off, rec[r - h + 1].1 + off));
            }
        }
        assert forall|j: int| 0 <= j < s.len() && !is_space(#[trigger] s[j]) implies exists|r: int|
            0 <= r < lines.len() && (#[trigger] lines[r]).0 <= j < lines[r].1 by {
            if j < k {
                assert(row.len() > 0);
                assert(lines[0].0 <= j < lines[0].1);
            } else {
                assert(j != k);
                assert(t[j - off] == s[j]);
                let r = choose|r: int| 0 <= r < rec.len() && (#[trigger] rec[r]).0 <= j - off < rec[r].1;
                assert(lines[r + h] == (rec[r].0 + off, rec[r].1 + off));
                assert(lines[r + h].0 <= j < lines[r + h].1);
            }
        }
        lines
    }
}

/// Every word is a non-empty run of characters that are not white space.
pub proof fn lemma_words_are_nonblank(s: Seq<char>)
    ensures
        forall|i: int|
            0 <= i < words(s).len() ==> (#[trigger] words(s)[i]).len() > 0 && forall|j: int|
                0 <= j < words(s)[i].len() ==> !is_space(#[trigger] words(s)[i][j]),
    decreases s.len(),
{
    if s.len() > 0 {
        if is_space(s[0]) {
            lemma_words_are_nonblank(s.skip(1));
            assert(words(s) == words(s.skip(1)));
        } else {
            lemma_word_len(s);
            let k = word_len(s) as int;
            lemma_words_are_nonblank(s.skip(k));
            let ws = words(s);
            let rest = words(s.skip(k));
            assert(ws =~= seq![s.take(k)] + rest);
            assert forall|i: int| 0 <= i < ws.len() implies (#[trigger] ws[i]).len() > 0 && forall|j: int|
                0 <= j < ws[i].len() ==> !is_space(#[trigger] ws[i][j]) by {
                if i == 0 {
                    assert forall|j: int| 0 <= j < ws[i].len() implies !is_space(#[trigger] ws[i][j]) by {
                        assert(ws[i][j] == s[j]);
                    }
                } else {
                    assert(ws[i] == rest[i - 1]);
                }
            }
        }
    }
}

/// Every row of a grid file holds at least one value, and every value is a
/// non-empty run of characters that are not white space.
pub proof fn lemma_rows_are_nonblank(s: Seq<char>)
    ensures
        forall|r: int|
            0 <= r < token_rows(s).len() ==> (#[trigger] token_rows(s)[r]).len() > 0 && forall|i: int|
                0 <= i < token_rows(s)[r].len() ==> (#[trigger] token_rows(s)[r][i]).len() > 0
                    && forall|j: int|
                    0 <= j < token_rows(s)[r][i].len() ==> !is_space(#[trigger] token_rows(s)[r][i][j]),
    decreases s.len(),
{
    lemma_line_len(s);
    let k = line_len(s) as int;
    let row = words(s.take(k));
    lemma_words_are_nonblank(s.take(k));
    let rows = token_rows(s);
    if k < s.len() {
        lemma_rows_are_nonblank(s.skip(k + 1));
    }
    assert forall|r: int| 0 <= r < rows.len() implies (#[trigger] rows[r]).len() > 0 && forall|i: int|
        0 <= i < rows[r].len() ==> (#[trigger] rows[r][i]).len() > 0 && forall|j: int|
            0 <= j < rows[r][i].len() ==> !is_space(#[trigger] rows[r][i][j]) by {
        if row.len() > 0 && r == 0 {
            assert(rows[r] == row);
        } else {
            let rest = token_rows(s.skip(k + 1));
            let off: int = if row.len() > 0 { 1 } else { 0 };
            assert(rows[r] == rest[r - off]);
        }
    }
}

} // verus!
