//! The catalog's text format: tab-separated lines `name<TAB>url`, an
//! optional header line beginning with `file_name`, blank or malformed
//! lines ignored, the URL field trimmed of surrounding whitespace.

use vstd::prelude::*;
use vstd::string::StrSliceExecFns;
use crate::models::LinkEntry;

verus! {

/// Whitespace that trimming removes: space, tab, carriage return, line
/// feed.
pub open spec fn is_ws(c: char) -> bool {
    (c as int) == 32 || (c as int) == 9 || (c as int) == 13 || (c as int) == 10
}

pub open spec fn ws_prefix_len(s: Seq<char>) -> int
    decreases s.len(),
{
    if s.len() == 0 {
        0
    } else if is_ws(s[0]) {
        1 + ws_prefix_len(s.drop_first())
    } else {
        0
    }
}

pub open spec fn ws_suffix_len(s: Seq<char>) -> int
    decreases s.len(),
{
    if s.len() == 0 {
        0
    } else if is_ws(s.last()) {
        1 + ws_suffix_len(s.drop_last())
    } else {
        0
    }
}

/// The text with surrounding whitespace removed.
pub open spec fn trim_spec(s: Seq<char>) -> Seq<char> {
    let a = ws_prefix_len(s);
    let b = s.len() - ws_suffix_len(s);
    if a <= b {
        s.subrange(a, b)
    } else {
        Seq::<char>::empty()
    }
}

/// Index of the first tab, or -1 when there is none.
pub open spec fn first_tab(s: Seq<char>) -> int
    decreases s.len(),
{
    if s.len() == 0 {
        -1
    } else if (s[0] as int) == 9 {
        0
    } else if first_tab(s.drop_first()) < 0 {
        -1
    } else {
        1 + first_tab(s.drop_first())
    }
}

/// What one catalog line denotes: the name before the first tab, and the
/// trimmed text between the first and second tab (or the line end); a
/// line without a tab denotes nothing.
pub open spec fn parse_line_spec(line: Seq<char>) -> Option<(Seq<char>, Seq<char>)> {
    let i = first_tab(line);
    if i < 0 {
        None
    } else {
        let after = line.skip(i + 1);
        let j = first_tab(after);
        let url_raw = if j < 0 {
            after
        } else {
            after.take(j)
        };
        Some((line.take(i), trim_spec(url_raw)))
    }
}

/// An optional header line opens the file.
pub open spec fn is_header(line: Seq<char>) -> bool {
    line.len() >= 9 && line.take(9) == "file_name"@
}

/// The entries of the catalog's lines, in order, malformed lines left
/// out.
pub open spec fn parse_body(ls: Seq<Seq<char>>) -> Seq<(Seq<char>, Seq<char>)>
    decreases ls.len(),
{
    if ls.len() == 0 {
        Seq::<(Seq<char>, Seq<char>)>::empty()
    } else {
        parse_body(ls.drop_last()) + (match parse_line_spec(ls.last()) {
            Some(e) => seq![e],
            None => Seq::<(Seq<char>, Seq<char>)>::empty(),
        })
    }
}

/// The whole catalog: the header line, when present, is skipped.
pub open spec fn parse_catalog_spec(ls: Seq<Seq<char>>) -> Seq<(Seq<char>, Seq<char>)> {
    if ls.len() > 0 && is_header(ls[0]) {
        parse_body(ls.drop_first())
    } else {
        parse_body(ls)
    }
}

/// Name and URL of each entry, as one value.
pub open spec fn entry_views(s: Seq<LinkEntry>) -> Seq<(Seq<char>, Seq<char>)> {
    s.map_values(|e: LinkEntry| (e.file_name@, e.url@))
}

proof fn lemma_first_tab_at(s: Seq<char>, i: int)
    requires
        0 <= i < s.len(),
        (s[i] as int) == 9,
        forall|j: int| 0 <= j < i ==> ((#[trigger] s[j]) as int) != 9,
    ensures
        first_tab(s) == i,
    decreases s.len(),
{
    if i > 0 {
        lemma_first_tab_at(s.drop_first(), i - 1);
    }
}

proof fn lemma_first_tab_none(s: Seq<char>)
    requires
        forall|j: int| 0 <= j < s.len() ==> ((#[trigger] s[j]) as int) != 9,
    ensures
        first_tab(s) == -1,
    decreases s.len(),
{
    if s.len() > 0 {
        lemma_first_tab_none(s.drop_first());
    }
}

proof fn lemma_ws_prefix(s: Seq<char>, a: int)
    requires
        0 <= a <= s.len(),
        forall|j: int| 0 <= j < a ==> is_ws(#[trigger] s[j]),
        a == s.len() || !is_ws(s[a]),
    ensures
        ws_prefix_len(s) == a,
    decreases s.len(),
{
    if s.len() > 0 {
        if a > 0 {
            lemma_ws_prefix(s.drop_first(), a - 1);
        }
    }
}

proof fn lemma_ws_suffix(s: Seq<char>, b: int)
    requires
        0 <= b <= s.len(),
        forall|j: int| b <= j < s.len() ==> is_ws(#[trigger] s[j]),
        b == 0 || !is_ws(s[b - 1]),
    ensures
        ws_suffix_len(s) == s.len() - b,
    decreases s.len(),
{
    if b < s.len() {
        assert(is_ws(s.last()));
        assert(forall|j: int| b <= j < s.drop_last().len() ==> is_ws(#[trigger] s.drop_last()[j]));
        lemma_ws_suffix(s.drop_last(), b);
    }
}

fn is_ws_char(c: char) -> (b: bool)
    ensures
        b == is_ws(c),
{
    let v = c as u32;
    v == 32 || v == 9 || v == 13 || v == 10
}

/// The text with surrounding whitespace removed.
fn trim_chars(s: &str) -> (r: String)
    ensures
        r@ == trim_spec(s@),
{
    let n = s.unicode_len();
    let mut a: usize = 0;
    while a < n && is_ws_char(s.get_char(a))
        invariant
            a <= n,
            n == s@.len(),
            forall|j: int| 0 <= j < a ==> is_ws(#[trigger] s@[j]),
        decreases n - a,
    {
        a = a + 1;
    }
    let mut b: usize = n;
    while b > a && is_ws_char(s.get_char(b - 1))
        invariant
            a <= b <= n,
            n == s@.len(),
            forall|j: int| b <= j < n ==> is_ws(#[trigger] s@[j]),
        decreases b,
    {
        b = b - 1;
    }
    if b == a {
        proof {
            if a < n {
                assert(is_ws(s@[a as int]));
                assert(false);
            }
            lemma_ws_prefix(s@, n as int);
            lemma_ws_suffix(s@, 0);
            assert(trim_spec(s@) =~= Seq::<char>::empty());
        }
        String::new()
    } else {
        proof {
            lemma_ws_prefix(s@, a as int);
            lemma_ws_suffix(s@, b as int);
            assert(trim_spec(s@) == s@.subrange(a as int, b as int));
        }
        s.substring_char(a, b).to_owned()
    }
}

/// Read one catalog line: `Some` exactly when the line has a tab, with
/// the name before it and the trimmed URL field after it.
pub fn parse_catalog_line(line: &str) -> (r: Option<LinkEntry>)
    ensures
        r is Some <==> parse_line_spec(line@) is Some,
        r is Some ==> Some((r->0.file_name@, r->0.url@)) == parse_line_spec(line@),
{
    let n = line.unicode_len();
    let mut i: usize = 0;
    while i < n && (line.get_char(i) as u32) != 9
        invariant
            i <= n,
            n == line@.len(),
            forall|j: int| 0 <= j < i ==> ((#[trigger] line@[j]) as int) != 9,
        decreases n - i,
    {
        i = i + 1;
    }
    if i == n {
        proof {
            lemma_first_tab_none(line@);
        }
        return None;
    }
    proof {
        lemma_first_tab_at(line@, i as int);
    }
    let name = line.substring_char(0, i).to_owned();
    let mut j: usize = i + 1;
    while j < n && (line.get_char(j) as u32) != 9
        invariant
            i + 1 <= j <= n,
            n == line@.len(),
            forall|m: int| i + 1 <= m < j ==> ((#[trigger] line@[m]) as int) != 9,
        decreases n - j,
    {
        j = j + 1;
    }
    let url_raw = line.substring_char(i + 1, j);
    proof {
        let after = line@.skip(i + 1);
        assert(after.len() == n - i - 1);
        if j < n {
            assert(after[j - i - 1] == line@[j as int]);
            assert forall|m: int| 0 <= m < j - i - 1 implies ((#[trigger] after[m]) as int)
                != 9 by {
                assert(after[m] == line@[i + 1 + m]);
            }
            lemma_first_tab_at(after, j - i - 1);
            assert(url_raw@ =~= after.take(j - i - 1));
        } else {
            assert forall|m: int| 0 <= m < after.len() implies ((#[trigger] after[m]) as int)
                != 9 by {
                assert(after[m] == line@[i + 1 + m]);
            }
            lemma_first_tab_none(after);
            assert(url_raw@ =~= after);
        }
    }
    let url = trim_chars(url_raw);
    Some(LinkEntry { file_name: name, url })
}

/// Whether a line is the optional header.
fn line_is_header(line: &str) -> (b: bool)
    ensures
        b == is_header(line@),
{
    proof {
        reveal_strlit("file_name");
    }
    let n = line.unicode_len();
    if n < 9 {
        return false;
    }
    let mut j: usize = 0;
    while j < 9
        invariant
            j <= 9,
            n == line@.len(),
            n >= 9,
            "file_name"@.len() == 9,
            forall|m: int| 0 <= m < j ==> line@[m] == "file_name"@[m],
        decreases 9 - j,
    {
        if line.get_char(j) != "file_name".get_char(j) {
            proof {
                if is_header(line@) {
                    assert(line@.take(9)[j as int] == line@[j as int]);
                    assert(line@.take(9)[j as int] == "file_name"@[j as int]);
                    assert(false);
                }
            }
            return false;
        }
        j = j + 1;
    }
    proof {
        reveal_strlit("file_name");
        assert(line@.take(9) =~= "file_name"@);
    }
    true
}

/// Read the whole catalog from its lines: entries in order, the header
/// skipped, malformed lines ignored.
pub fn parse_catalog_lines(lines: &Vec<String>) -> (entries: Vec<LinkEntry>)
    ensures
        entry_views(entries@) == parse_catalog_spec(lines@.map_values(|l: String| l@)),
{
    let ghost ls = lines@.map_values(|l: String| l@);
    let n = lines.len();
    let mut entries: Vec<LinkEntry> = Vec::new();
    let mut k: usize = 0;
    if n > 0 && line_is_header(lines[0].as_str()) {
        k = 1;
    }
    let ghost k0 = k as int;
    proof {
        assert(entry_views(entries@) =~= parse_body(ls.skip(k0).take(0)));
    }
    while k < n
        invariant
            k0 <= k <= n,
            0 <= k0 <= 1,
            n == lines@.len(),
            ls == lines@.map_values(|l: String| l@),
            entry_views(entries@) == parse_body(ls.skip(k0).take(k - k0)),
        decreases n - k,
    {
        let ghost prev = entries@;
        let ghost seg = ls.skip(k0).take(k - k0 + 1);
        proof {
            assert(seg.drop_last() =~= ls.skip(k0).take(k - k0));
            assert(seg.last() == ls[k as int]);
            assert(ls[k as int] == lines@[k as int]@);
        }
        match parse_catalog_line(lines[k].as_str()) {
            Some(e) => {
                entries.push(e);
                proof {
                    assert(entry_views(entries@) =~= entry_views(prev).push(
                        (e.file_name@, e.url@),
                    ));
                    assert(entry_views(entries@) =~= parse_body(seg));
                }
            },
            None => {
                proof {
                    assert(entry_views(entries@) =~= parse_body(seg));
                }
            },
        }
        k = k + 1;
    }
    proof {
        assert(ls.skip(k0).take(n - k0) =~= ls.skip(k0));
        if k0 == 1 {
            assert(is_header(ls[0]));
            assert(ls.drop_first() =~= ls.skip(1));
        } else {
            assert(ls.skip(0) =~= ls);
            if ls.len() > 0 {
                assert(!is_header(ls[0]));
            }
        }
    }
    entries
}

} // verus!
