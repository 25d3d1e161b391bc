//! Delimited-text handling: whitespace trimming, delimiter sniffing,
//! and splitting file content into header-skipped rows of cells.

use vstd::prelude::*;

verus! {

broadcast use vstd::string::next_postcondition;

/// The characters stripped by trimming: the Unicode white-space set.
pub open spec fn is_space(c: char) -> bool {
    c == ' ' || c == '\t' || c == '\n' || c == '\r' || c == '\u{b}' || c == '\u{c}'
        || c == '\u{85}' || c == '\u{a0}' || c == '\u{1680}' || c == '\u{2000}'
        || c == '\u{2001}' || c == '\u{2002}' || c == '\u{2003}' || c == '\u{2004}'
        || c == '\u{2005}' || c == '\u{2006}' || c == '\u{2007}' || c == '\u{2008}'
        || c == '\u{2009}' || c == '\u{200a}' || c == '\u{2028}' || c == '\u{2029}'
        || c == '\u{202f}' || c == '\u{205f}' || c == '\u{3000}'
}

/// `s` with leading white space removed.
pub open spec fn trim_start_of(s: Seq<char>) -> Seq<char>
    decreases s.len(),
{
    if s.len() > 0 && is_space(s[0]) {
        trim_start_of(s.drop_first())
    } else {
        s
    }
}

/// `s` with trailing white space removed.
pub open spec fn trim_end_of(s: Seq<char>) -> Seq<char>
    decreases s.len(),
{
    if s.len() > 0 && is_space(s.last()) {
        trim_end_of(s.drop_last())
    } else {
        s
    }
}

/// `s` with leading and trailing white space removed.
pub open spec fn trim_of(s: Seq<char>) -> Seq<char> {
    trim_end_of(trim_start_of(s))
}

/// `s` split at every occurrence of `d`; always at least one piece, and
/// the separators themselves do not appear in any piece.
pub open spec fn split_on(s: Seq<char>, d: char) -> Seq<Seq<char>>
    decreases s.len(),
{
    if s.len() == 0 {
        seq![Seq::<char>::empty()]
    } else {
        let prev = split_on(s.drop_last(), d);
        if s.last() == d {
            prev.push(Seq::<char>::empty())
        } else {
            prev.update(prev.len() - 1, prev.last().push(s.last()))
        }
    }
}

pub proof fn lemma_split_on_nonempty(s: Seq<char>, d: char)
    ensures
        split_on(s, d).len() >= 1,
    decreases s.len(),
{
    if s.len() > 0 {
        lemma_split_on_nonempty(s.drop_last(), d);
    }
}

/// One text line with a trailing carriage return removed.
pub open spec fn strip_cr(l: Seq<char>) -> Seq<char> {
    if l.len() > 0 && l.last() == '\r' {
        l.drop_last()
    } else {
        l
    }
}

pub open spec fn contains_char(s: Seq<char>, c: char) -> bool {
    exists|i: int| 0 <= i < s.len() && s[i] == c
}

/// The cell delimiter, chosen from the first line: tab if present, else
/// semicolon if present, else comma.
pub open spec fn sniff_delim(line: Seq<char>) -> char {
    if contains_char(line, '\t') {
        '\t'
    } else if contains_char(line, ';') {
        ';'
    } else {
        ','
    }
}

/// The content's lines: split at every newline, each line with a
/// trailing carriage return removed.
pub open spec fn spec_lines(s: Seq<char>) -> Seq<Seq<char>> {
    split_on(s, '\n').map_values(|l: Seq<char>| strip_cr(l))
}

/// Delimited content as rows of cells: the delimiter is sniffed from
/// the first line, the first line itself is discarded as a header, and
/// every remaining line is split into cells at the delimiter.
pub open spec fn spec_parse_delimited(s: Seq<char>) -> Seq<Seq<Seq<char>>> {
    let lines = spec_lines(s);
    let d = sniff_delim(lines[0]);
    lines.drop_first().map_values(|l: Seq<char>| split_on(l, d))
}

/// The characters of a string slice, as an indexable vector.
pub fn chars_of(s: &str) -> (r: Vec<char>)
    ensures
        r@ == s@,
{
    let mut it = s.chars();
    let mut r: Vec<char> = Vec::new();
    loop
        invariant
            r@ + vstd::std_specs::iter::IteratorSpec::remaining(&it) == s@,
        ensures
            r@ == s@,
        decreases s@.len() - r@.len(),
    {
        let ghost rem0 = vstd::std_specs::iter::IteratorSpec::remaining(&it);
        match it.next() {
            Option::Some(c) => {
                r.push(c);
                proof {
                    assert(r@ + vstd::std_specs::iter::IteratorSpec::remaining(&it) =~= s@);
                }
            },
            Option::None => {
                proof {
                    assert(rem0.len() == 0);
                    assert(r@ =~= s@);
                }
                break ;
            },
        }
    }
    r
}

/// Builds a `String` out of a vector of characters.
///
/// Relies on `String`'s `FromIterator<char>`: collecting characters
/// yields the string of exactly those characters, in order.
#[verifier::external_body]
pub(crate) fn string_of(cs: &Vec<char>) -> (r: String)
    ensures
        r@ == cs@,
{
    cs.iter().collect()
}

fn is_space_char(c: char) -> (r: bool)
    ensures
        r == is_space(c),
{
    c == ' ' || c == '\t' || c == '\n' || c == '\r' || c == '\u{b}' || c == '\u{c}'
        || c == '\u{85}' || c == '\u{a0}' || c == '\u{1680}' || c == '\u{2000}'
        || c == '\u{2001}' || c == '\u{2002}' || c == '\u{2003}' || c == '\u{2004}'
        || c == '\u{2005}' || c == '\u{2006}' || c == '\u{2007}' || c == '\u{2008}'
        || c == '\u{2009}' || c == '\u{200a}' || c == '\u{2028}' || c == '\u{2029}'
        || c == '\u{202f}' || c == '\u{205f}' || c == '\u{3000}'
}

proof fn lemma_trim_start_skip(s: Seq<char>, i: int)
    requires
        0 <= i <= s.len(),
        forall|k: int| 0 <= k < i ==> is_space(s[k]),
    ensures
        trim_start_of(s) == trim_start_of(s.skip(i)),
    decreases i,
{
    if i > 0 {
        assert(s.len() > 0 && is_space(s[0]));
        assert(trim_start_of(s) == trim_start_of(s.drop_first()));
        assert(s.drop_first().skip(i - 1) =~= s.skip(i));
        lemma_trim_start_skip(s.drop_first(), i - 1);
    } else {
        assert(s.skip(0) =~= s);
    }
}

proof fn lemma_trim_end_take(s: Seq<char>, i: int)
    requires
        0 <= i <= s.len(),
        forall|k: int| i <= k < s.len() ==> is_space(s[k]),
    ensures
        trim_end_of(s) == trim_end_of(s.take(i)),
    decreases s.len() - i,
{
    if i < s.len() {
        assert(s.len() > 0 && is_space(s.last()));
        assert(trim_end_of(s) == trim_end_of(s.drop_last()));
        assert(s.drop_last() =~= s.take(s.len() - 1));
        lemma_trim_end_take(s.take(s.len() - 1), i);
        assert(s.take(s.len() - 1).take(i) =~= s.take(i));
    } else {
        assert(s.take(i) =~= s);
    }
}

/// `cs` with leading and trailing white space removed.
pub fn trim_chars(cs: &Vec<char>) -> (r: Vec<char>)
    ensures
        r@ == trim_of(cs@),
{
    let n = cs.len();
    let mut lo: usize = 0;
    while lo < n && is_space_char(cs[lo])
        invariant
            0 <= lo <= n == cs@.len(),
            forall|k: int| 0 <= k < lo ==> is_space(cs@[k]),
        decreases n - lo,
    {
        lo += 1;
    }
    proof {
        lemma_trim_start_skip(cs@, lo as int);
        if lo < n {
            assert(cs@.skip(lo as int)[0] == cs@[lo as int]);
        }
        assert(trim_start_of(cs@) == cs@.skip(lo as int));
    }
    let t_len = n - lo;
    let mut hi: usize = t_len;
    while hi > 0 && is_space_char(cs[lo + hi - 1])
        invariant
            0 <= hi <= t_len,
            t_len == n - lo,
            lo + t_len <= cs@.len(),
            forall|k: int| hi <= k < t_len ==> is_space(cs@.skip(lo as int)[k]),
        decreases hi,
    {
        proof {
            assert(cs@.skip(lo as int)[hi - 1] == cs@[lo + hi - 1]);
        }
        hi -= 1;
    }
    proof {
        lemma_trim_end_take(cs@.skip(lo as int), hi as int);
        if hi > 0 {
            assert(cs@.skip(lo as int).take(hi as int).last() == cs@.skip(lo as int)[hi - 1]);
            assert(cs@.skip(lo as int)[hi - 1] == cs@[lo + hi - 1]);
        }
        assert(trim_end_of(cs@.skip(lo as int).take(hi as int)) == cs@.skip(lo as int).take(
            hi as int,
        ));
        assert(trim_of(cs@) == cs@.skip(lo as int).take(hi as int));
    }
    let mut r: Vec<char> = Vec::new();
    let mut k: usize = 0;
    while k < hi
        invariant
            0 <= k <= hi <= t_len,
            t_len == n - lo,
            lo + t_len <= cs@.len(),
            r@ == cs@.skip(lo as int).take(hi as int).take(k as int),
        decreases hi - k,
    {
        r.push(cs[lo + k]);
        proof {
            assert(cs@.skip(lo as int).take(hi as int).take(k + 1) =~= cs@.skip(lo as int).take(
                hi as int,
            ).take(k as int).push(cs@[lo + k]));
        }
        k += 1;
    }
    proof {
        assert(cs@.skip(lo as int).take(hi as int).take(hi as int) =~= cs@.skip(lo as int).take(
            hi as int,
        ));
    }
    r
}

/// A string trimmed of leading and trailing white space.
pub fn trim_string(s: &String) -> (r: String)
    ensures
        r@ == trim_of(s@),
{
    let cs = chars_of(s.as_str());
    let t = trim_chars(&cs);
    string_of(&t)
}

fn contains_char_exec(v: &Vec<char>, c: char) -> (r: bool)
    ensures
        r == contains_char(v@, c),
{
    let mut i: usize = 0;
    while i < v.len()
        invariant
            0 <= i <= v@.len(),
            forall|k: int| 0 <= k < i ==> v@[k] != c,
        decreases v@.len() - i,
    {
        if v[i] == c {
            return true;
        }
        i += 1;
    }
    false
}

/// `cs` split at every occurrence of the delimiter `d`.
pub fn split_chars(cs: &Vec<char>, d: char) -> (r: Vec<Vec<char>>)
    ensures
        r.deep_view() == split_on(cs@, d),
        r.len() >= 1,
{
    let mut r: Vec<Vec<char>> = Vec::new();
    let mut cur: Vec<char> = Vec::new();
    let mut i: usize = 0;
    proof {
        assert(split_on(cs@.take(0), d) =~~= r.deep_view().push(cur@));
    }
    while i < cs.len()
        invariant
            0 <= i <= cs@.len(),
            split_on(cs@.take(i as int), d) == r.deep_view().push(cur@),
        decreases cs@.len() - i,
    {
        let ghost prefix = cs@.take(i as int);
        let ghost prev = split_on(prefix, d);
        let c = cs[i];
        proof {
            assert(cs@.take(i + 1).drop_last() =~= prefix);
            assert(cs@.take(i + 1).last() == cs@[i as int]);
            lemma_split_on_nonempty(prefix, d);
        }
        if c == d {
            r.push(cur);
            cur = Vec::new();
            proof {
                assert(split_on(cs@.take(i + 1), d) =~~= r.deep_view().push(cur@));
            }
        } else {
            let ghost old_cur = cur@;
            cur.push(c);
            proof {
                assert(prev.last() == old_cur);
                assert(split_on(cs@.take(i + 1), d) == prev.update(
                    prev.len() - 1,
                    prev.last().push(c),
                ));
                assert(cur@ == old_cur.push(c));
                assert(prev.update(prev.len() - 1, old_cur.push(c)) =~~= r.deep_view().push(cur@));
            }
        }
        i += 1;
    }
    proof {
        assert(cs@.take(cs@.len() as int) =~= cs@);
    }
    let ghost prev_r = r.deep_view();
    let ghost last_cur = cur@;
    r.push(cur);
    proof {
        lemma_split_on_nonempty(cs@, d);
        let lhs = r.deep_view();
        assert(r@[r@.len() - 1] == cur);
        assert(lhs[lhs.len() - 1] =~= last_cur);
        assert forall|k: int| 0 <= k < prev_r.len() implies lhs[k] == prev_r[k] by {
            assert(r@[k] == r@.subrange(0, r@.len() - 1)[k]);
        }
        assert(lhs =~~= prev_r.push(last_cur));
    }
    r
}

/// Splits content into lines and strips each line's trailing carriage
/// return.
fn copy_chars(line: &Vec<char>) -> (r: Vec<char>)
    ensures
        r@ == line@,
{
    let mut r: Vec<char> = Vec::new();
    let mut k: usize = 0;
    while k < line.len()
        invariant
            0 <= k <= line@.len(),
            r@ == line@.take(k as int),
        decreases line@.len() - k,
    {
        r.push(line[k]);
        proof {
            assert(line@.take(k + 1) =~= line@.take(k as int).push(line@[k as int]));
        }
        k += 1;
    }
    proof {
        assert(line@.take(line@.len() as int) =~= line@);
    }
    r
}

fn lines_of(cs: &Vec<char>) -> (r: Vec<Vec<char>>)
    ensures
        r.deep_view() == spec_lines(cs@),
        r.len() >= 1,
{
    let raw = split_chars(cs, '\n');
    let ghost raw0 = raw.deep_view();
    let mut out: Vec<Vec<char>> = Vec::new();
    let mut i: usize = 0;
    while i < raw.len()
        invariant
            0 <= i <= raw@.len(),
            raw0 == raw.deep_view(),
            out.deep_view() == raw0.take(i as int).map_values(|l: Seq<char>| strip_cr(l)),
        decreases raw@.len() - i,
    {
        let mut line = copy_chars(&raw[i]);
        let line_len = line.len();
        proof {
            assert(line@ == raw0[i as int]);
        }
        if line_len > 0 && line[line_len - 1] == '\r' {
            line.pop();
            proof {
                assert(line@ =~= strip_cr(raw0[i as int]));
            }
        }
        let ghost prev_out = out.deep_view();
        out.push(line);
        proof {
            let lhs = out.deep_view();
            let rhs = raw0.take(i + 1).map_values(|l: Seq<char>| strip_cr(l));
            assert(out@.len() == prev_out.len() + 1);
            assert(lhs.len() == rhs.len());
            assert(lhs[i as int] =~= strip_cr(raw0[i as int]));
            assert forall|k: int| 0 <= k < i implies lhs[k] == prev_out[k] by {
                assert(out@[k] == out@.subrange(0, out@.len() - 1)[k]);
            }
            assert forall|k: int| 0 <= k < i implies lhs[k] =~= rhs[k] by {
                assert(prev_out[k] == strip_cr(raw0.take(i as int)[k]));
            }
            assert(lhs =~~= rhs);
        }
        i += 1;
    }
    proof {
        assert(raw0.take(raw0.len() as int) =~= raw0);
        assert(out.deep_view() =~~= spec_lines(cs@));
    }
    out
}

/// Parses delimited text content into header-skipped rows of cells,
/// sniffing the delimiter from the first line.
pub fn parse_delimited(content: &String) -> (rows: Vec<Vec<String>>)
    ensures
        rows.deep_view() == spec_parse_delimited(content@),
{
    let cs = chars_of(content.as_str());
    let lines = lines_of(&cs);
    let first = &lines[0];
    proof {
        assert(lines.deep_view()[0] == lines@[0]@);
        assert(first@ == spec_lines(cs@)[0]);
    }
    let d: char = if contains_char_exec(first, '\t') {
        '\t'
    } else if contains_char_exec(first, ';') {
        ';'
    } else {
        ','
    };
    proof {
        assert(d == sniff_delim(spec_lines(cs@)[0]));
    }
    let mut rows: Vec<Vec<String>> = Vec::new();
    let mut i: usize = 1;
    let ghost tail = spec_lines(cs@).drop_first();
    while i < lines.len()
        invariant
            1 <= i <= lines@.len(),
            tail == spec_lines(cs@).drop_first(),
            lines.deep_view() == spec_lines(cs@),
            tail.len() == lines@.len() - 1,
            rows.deep_view() == tail.take(i - 1).map_values(|l: Seq<char>| split_on(l, d)),
        decreases lines@.len() - i,
    {
        let cells = split_chars(&lines[i], d);
        proof {
            assert(lines.deep_view()[i as int] == lines@[i as int]@);
            assert(cells.deep_view() == split_on(lines@[i as int]@, d));
        }
        let mut row: Vec<String> = Vec::new();
        let mut j: usize = 0;
        while j < cells.len()
            invariant
                0 <= j <= cells@.len(),
                row.deep_view() == cells.deep_view().take(j as int),
            decreases cells@.len() - j,
        {
            let s = string_of(&cells[j]);
            proof {
                assert(s@ == cells.deep_view()[j as int]);
            }
            let ghost prev_row = row.deep_view();
            let ghost s_view = s@;
            row.push(s);
            proof {
                let lhs = row.deep_view();
                assert(prev_row.len() == j);
                assert(row@.len() == j + 1);
                assert(lhs.len() == j + 1);
                assert(lhs[j as int] == s_view);
                assert forall|k: int| 0 <= k < j implies lhs[k] == prev_row[k] by {
                    assert(row@[k] == row@.subrange(0, row@.len() - 1)[k]);
                }
                assert(lhs =~~= cells.deep_view().take(j + 1));
            }
            j += 1;
        }
        proof {
            assert(cells.deep_view().take(cells@.len() as int) =~~= cells.deep_view());
            assert(tail[i - 1] == lines.deep_view()[i as int]);
            assert(row.deep_view() == split_on(tail[i - 1], d));
        }
        let ghost prev_rows = rows.deep_view();
        let ghost this_row = row.deep_view();
        rows.push(row);
        proof {
            let lhs = rows.deep_view();
            let rhs = tail.take(i as int).map_values(|l: Seq<char>| split_on(l, d));
            assert(prev_rows.len() == i - 1);
            assert(rows@.len() == i);
            assert(lhs.len() == i);
            assert(rows@[rows@.len() - 1].deep_view() == this_row);
            assert forall|k: int| 0 <= k < prev_rows.len() implies lhs[k] == prev_rows[k] by {
                assert(rows@[k] == rows@.subrange(0, rows@.len() - 1)[k]);
            }
            assert(rhs.len() == i);
            assert forall|k: int| 0 <= k < i implies rhs[k] == split_on(tail[k], d) by {
                assert(tail.take(i as int)[k] == tail[k]);
            }
            assert forall|k: int| 0 <= k < i - 1 implies prev_rows[k] == split_on(tail[k], d) by {
                assert(prev_rows[k] == tail.take(i - 1).map_values(
                    |l: Seq<char>| split_on(l, d),
                )[k]);
                assert(tail.take(i - 1)[k] == tail[k]);
            }
            assert(lhs =~~= rhs);
        }
        i += 1;
    }
    proof {
        assert(tail.take(tail.len() as int) =~= tail);
        assert(rows.deep_view() =~~= spec_parse_delimited(content@));
    }
    rows
}

} // verus!
