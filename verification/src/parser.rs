//! The executable scanner and parser, proved against the grammar.

use vstd::prelude::*;

use vstd::string::StrSliceExecFns;

use crate::grammar::is_ws;
use crate::grammar::key_value;
use crate::grammar::lemma_key_value_progress;
use crate::grammar::lemma_line_until_bounds;
use crate::grammar::lemma_parse_body_at_ws;
use crate::grammar::lemma_parse_body_bounds;
use crate::grammar::lemma_parse_titles_bounds;
use crate::grammar::lemma_skip_comment_bounds;
use crate::grammar::lemma_skip_ws_bounds;
use crate::grammar::line_until;
use crate::grammar::merge_into;
use crate::grammar::parse_body;
use crate::grammar::parse_document;
use crate::grammar::parse_document_from;
use crate::grammar::parse_titles;
use crate::grammar::scan;
use crate::grammar::skip_comment;
use crate::grammar::skip_ws;
use crate::grammar::trim;
use crate::grammar::trim_back;
use crate::grammar::trim_front;
use crate::grammar::true_value;
use crate::grammar::unescape;
use crate::item::entries_model;
use crate::item::item_model;
use crate::item::items_wf;
use crate::item::keys_unique;
use crate::item::lemma_items_wf_all;
use crate::item::lemma_model_front;
use crate::item::Item;
use crate::item::ItemV;
use crate::item::ParseError;
use crate::item::try_insert;
use crate::item::SectionMap;

verus! {

/// Whether `c` is whitespace to the scanner.
fn is_whitespace_char(c: char) -> (r: bool)
    ensures
        r == is_ws(c),
{
    c == ' ' || c == '\t' || c == '\n' || c == '\u{B}' || c == '\u{C}' || c == '\r' || c
        == '\u{85}' || c == '\u{A0}' || c == '\u{1680}' || (0x2000 <= c as u32 && c as u32
        <= 0x200A) || c == '\u{2028}' || c == '\u{2029}' || c == '\u{202F}' || c == '\u{205F}'
        || c == '\u{3000}'
}

/// What `\c` stands for, per the escape table.
fn unescape_char(c: char) -> (r: char)
    ensures
        r == unescape(c),
{
    if c == 'n' {
        '\n'
    } else if c == 'r' {
        '\r'
    } else if c == 't' {
        '\t'
    } else if c == 'b' {
        '\u{8}'
    } else if c == 'f' {
        '\u{C}'
    } else {
        c
    }
}

/// Whether `c` is one of the characters of `ends`.
fn contains_char(ends: &Vec<char>, c: char) -> (r: bool)
    ensures
        r == ends@.contains(c),
{
    let n = ends.len();
    let mut i: usize = 0;
    while i < n
        invariant
            i <= n,
            n == ends@.len(),
            forall|j: int| 0 <= j < i ==> ends@[j] != c,
        decreases n - i,
    {
        if ends[i] == c {
            return true;
        }
        i = i + 1;
    }
    false
}

/// Relies on String implementing FromIterator over char: collecting
/// characters yields the string of exactly those characters, in order.
#[verifier::external_body]
fn chars_to_string(v: &Vec<char>) -> (r: String)
    ensures
        r@ == v@,
{
    v.iter().collect()
}

/// A copy of `v[start..end]`.
fn copy_range(v: &Vec<char>, start: usize, end: usize) -> (r: Vec<char>)
    requires
        start <= end <= v@.len(),
    ensures
        r@ == v@.subrange(start as int, end as int),
{
    let mut r: Vec<char> = Vec::new();
    let mut i: usize = start;
    while i < end
        invariant
            start <= i <= end <= v@.len(),
            r@ == v@.subrange(start as int, i as int),
        decreases end - i,
    {
        r.push(v[i]);
        proof {
            assert(r@ =~= v@.subrange(start as int, i + 1));
        }
        i = i + 1;
    }
    r
}

/// A copy of `v` without surrounding whitespace.
fn trimmed_copy(v: &Vec<char>) -> (r: Vec<char>)
    ensures
        r@ == trim(v@),
{
    let n = v.len();
    let mut start: usize = 0;
    while start < n && is_whitespace_char(v[start])
        invariant
            start <= n,
            n == v@.len(),
            forall|j: int| 0 <= j < start ==> is_ws(v@[j]),
        decreases n - start,
    {
        start = start + 1;
    }
    let mut end: usize = n;
    while end > start && is_whitespace_char(v[end - 1])
        invariant
            start <= end <= n,
            n == v@.len(),
            forall|j: int| end <= j < n ==> is_ws(v@[j]),
        decreases end,
    {
        end = end - 1;
    }
    proof {
        lemma_trim_at(v@, start as int, end as int);
    }
    copy_range(v, start, end)
}

/// Characterisation of `trim` by the first and last non-whitespace
/// positions.
pub proof fn lemma_trim_at(s: Seq<char>, a: int, b: int)
    requires
        0 <= a <= b <= s.len(),
        forall|j: int| 0 <= j < a ==> is_ws(s[j]),
        a < s.len() ==> !is_ws(s[a]),
        forall|j: int| b <= j < s.len() ==> is_ws(s[j]),
        b > a ==> !is_ws(s[b - 1]),
    ensures
        trim(s) == s.subrange(a, b),
{
    lemma_trim_front_at(s, a);
    let t = s.skip(a);
    assert(forall|j: int| b - a <= j < t.len() ==> is_ws(t[j]));
    lemma_trim_back_at(t, b - a);
    assert(t.take(b - a) =~= s.subrange(a, b));
}

/// `trim_front` drops exactly the leading whitespace.
proof fn lemma_trim_front_at(s: Seq<char>, a: int)
    requires
        0 <= a <= s.len(),
        forall|j: int| 0 <= j < a ==> is_ws(s[j]),
        a < s.len() ==> !is_ws(s[a]),
    ensures
        trim_front(s) == s.skip(a),
    decreases s.len(),
{
    if s.len() > 0 && is_ws(s[0]) {
        lemma_trim_front_at(s.drop_first(), a - 1);
        assert(s.drop_first().skip(a - 1) =~= s.skip(a));
    } else {
        assert(s.skip(0) =~= s);
    }
}

/// `trim_back` drops exactly the trailing whitespace.
proof fn lemma_trim_back_at(s: Seq<char>, b: int)
    requires
        0 <= b <= s.len(),
        forall|j: int| b <= j < s.len() ==> is_ws(s[j]),
        b > 0 ==> !is_ws(s[b - 1]),
    ensures
        trim_back(s) == s.take(b),
    decreases s.len(),
{
    if s.len() > 0 && is_ws(s[s.len() - 1]) {
        lemma_trim_back_at(s.drop_last(), b);
        assert(s.drop_last().take(b) =~= s.take(b));
    } else {
        assert(s.take(s.len() as int) =~= s);
    }
}

/// The character a cursor position looks at, if any.
pub open spec fn spec_ch(s: Seq<char>, i: int) -> Option<char> {
    if 0 <= i < s.len() {
        Some(s[i])
    } else {
        None
    }
}

/// The recorded comment-marker position, as the grammar sees it.
pub open spec fn opt_int(o: Option<usize>) -> Option<int> {
    match o {
        Some(u) => Some(u as int),
        None => None,
    }
}

/// The views of a list of strings.
pub open spec fn views_of(v: Seq<String>) -> Seq<Seq<char>> {
    v.map_values(|x: String| x@)
}

/// The scanner/parser: one left-to-right pass over the characters of the
/// input, with the position of the character currently looked at.
pub struct Parser {
    data: Vec<char>,
    pos: usize,
}

impl View for Parser {
    type V = Seq<char>;

    closed spec fn view(&self) -> Seq<char> {
        self.data@
    }
}

impl Parser {
    /// The cursor stands on a character of the input or just past it.
    pub closed spec fn wf(self) -> bool {
        self.pos <= self.data@.len()
    }

    /// No character has been consumed yet.
    pub closed spec fn at_start(self) -> bool {
        self.pos == 0
    }

    /// A parser over the characters of `data`, looking at the first.
    pub fn new(data: &str) -> (r: Parser)
        ensures
            r@ == data@,
            r.wf(),
            r.at_start(),
    {
        let n = data.unicode_len();
        let mut v: Vec<char> = Vec::new();
        let mut i: usize = 0;
        while i < n
            invariant
                i <= n,
                n == data@.len(),
                v@ == data@.subrange(0, i as int),
            decreases n - i,
        {
            v.push(data.get_char(i));
            proof {
                assert(v@ =~= data@.subrange(0, i + 1));
            }
            i = i + 1;
        }
        proof {
            assert(v@ =~= data@);
        }
        Parser { data: v, pos: 0 }
    }

    /// The character looked at, or `None` once the input is exhausted.
    fn ch(&self) -> (c: Option<char>)
        requires
            self.wf(),
        ensures
            c == spec_ch(self@, self.pos as int),
    {
        if self.pos < self.data.len() {
            Some(self.data[self.pos])
        } else {
            None
        }
    }

    /// Pulls the next character, or stays at exhaustion.
    fn step(&mut self)
        requires
            old(self).wf(),
        ensures
            final(self).wf(),
            final(self)@ == old(self)@,
            old(self).pos < old(self)@.len() ==> final(self).pos == old(self).pos + 1,
            old(self).pos >= old(self)@.len() ==> final(self).pos == old(self).pos,
    {
        if self.pos < self.data.len() {
            self.pos = self.pos + 1;
        }
    }

    /// Advances past a maximal run of whitespace.
    fn consume_whitespace(&mut self)
        requires
            old(self).wf(),
        ensures
            final(self).wf(),
            final(self)@ == old(self)@,
            final(self).pos == skip_ws(old(self)@, old(self).pos as int),
    {
        loop
            invariant
                self.wf(),
                self@ == old(self)@,
                skip_ws(self@, self.pos as int) == skip_ws(old(self)@, old(self).pos as int),
            ensures
                self.wf(),
                self@ == old(self)@,
                self.pos == skip_ws(old(self)@, old(self).pos as int),
            decreases self@.len() - self.pos,
        {
            match self.ch() {
                Some(c) => {
                    if is_whitespace_char(c) {
                        self.step();
                    } else {
                        break;
                    }
                },
                None => {
                    break;
                },
            }
        }
    }

    /// Discards everything up to and including the next line terminator
    /// (`\r` or `\n`), or the rest of the input if none follows.
    fn consume_comment(&mut self)
        requires
            old(self).wf(),
        ensures
            final(self).wf(),
            final(self)@ == old(self)@,
            final(self).pos == skip_comment(old(self)@, old(self).pos as int),
    {
        loop
            invariant_except_break
                skip_comment(self@, self.pos as int) == skip_comment(
                    old(self)@,
                    old(self).pos as int,
                ),
            invariant
                self.wf(),
                self@ == old(self)@,
            ensures
                self.wf(),
                self@ == old(self)@,
                self.pos == skip_comment(old(self)@, old(self).pos as int),
            decreases self@.len() - self.pos,
        {
            match self.ch() {
                Some(c) => {
                    self.step();
                    if c == '\r' || c == '\n' {
                        break;
                    }
                },
                None => {
                    break;
                },
            }
        }
    }

    /// Scans one delimited run and post-processes it: the core scanning
    /// primitive, `scan` followed by `finish_run`.
    fn parse_line_until(&mut self, ends: &Vec<char>) -> (r: (bool, String))
        requires
            old(self).wf(),
        ensures
            final(self).wf(),
            final(self)@ == old(self)@,
            final(self).pos == line_until(old(self)@, ends@, old(self).pos as int).pos,
            r.0 == line_until(old(self)@, ends@, old(self).pos as int).found,
            r.1@ == line_until(old(self)@, ends@, old(self).pos as int).text,
    {
        let ghost s = self@;
        let ghost i0 = self.pos as int;
        let mut value: Vec<char> = Vec::new();
        let mut possibly_quoted: bool = false;
        let mut quoted_comment_loc: Option<usize> = None;
        let mut found: bool = false;
        loop
            invariant_except_break
                scan(s, ends@, i0, Seq::<char>::empty(), false, None::<int>) == scan(
                    s,
                    ends@,
                    self.pos as int,
                    value@,
                    possibly_quoted,
                    opt_int(quoted_comment_loc),
                ),
            invariant
                self.wf(),
                self@ == s,
                s == old(self)@,
                i0 == old(self).pos as int,
                match quoted_comment_loc {
                    Some(l) => l <= value@.len(),
                    None => true,
                },
            ensures
                self.wf(),
                self@ == s,
                ({
                    let st = scan(s, ends@, i0, Seq::<char>::empty(), false, None::<int>);
                    self.pos as int == st.pos && found == st.found && value@ == st.raw
                        && opt_int(quoted_comment_loc) == st.cmark
                }),
                match quoted_comment_loc {
                    Some(l) => l <= value@.len(),
                    None => true,
                },
            decreases s.len() - self.pos,
        {
            match self.ch() {
                None => {
                    found = false;
                    break;
                },
                Some(c) => {
                    if c == '\r' || c == '\n' {
                        found = false;
                        break;
                    } else if c == ';' || c == '#' {
                        if possibly_quoted {
                            if quoted_comment_loc.is_none() {
                                quoted_comment_loc = Some(value.len());
                            }
                            value.push(c);
                            self.step();
                        } else {
                            found = false;
                            break;
                        }
                    } else if contains_char(ends, c) {
                        found = true;
                        break;
                    } else if c == '\\' {
                        self.step();
                        match self.ch() {
                            None => {
                                value.push('\\');
                                found = false;
                                break;
                            },
                            Some(c2) => {
                                if c2 == '\r' || c2 == '\n' {
                                    value.push('\\');
                                    found = false;
                                    break;
                                } else {
                                    value.push(unescape_char(c2));
                                    self.step();
                                }
                            },
                        }
                    } else if c == '"' || c == '\'' {
                        possibly_quoted = true;
                        value.push(c);
                        self.step();
                    } else {
                        value.push(c);
                        self.step();
                    }
                },
            }
        }
        let ghost st = scan(s, ends@, i0, Seq::<char>::empty(), false, None::<int>);
        let trimmed = trimmed_copy(&value);
        let tlen = trimmed.len();
        let out: Vec<char>;
        if tlen >= 2 && ((trimmed[0] == '"' && trimmed[tlen - 1] == '"') || (trimmed[0] == '\''
            && trimmed[tlen - 1] == '\'')) {
            out = copy_range(&trimmed, 1, tlen - 1);
        } else {
            match quoted_comment_loc {
                Some(loc) => {
                    value.truncate(loc);
                    out = trimmed_copy(&value);
                },
                None => {
                    out = trimmed;
                },
            }
        }
        (found, chars_to_string(&out))
    }

    /// One `key=value` line: a run up to `=` and, when the `=` was found,
    /// a terminator-less run for the value; a bare key is paired with the
    /// literal value `true`.
    fn parse_key_value(&mut self) -> (r: (String, String))
        requires
            old(self).wf(),
        ensures
            final(self).wf(),
            final(self)@ == old(self)@,
            final(self).pos == key_value(old(self)@, old(self).pos as int).pos,
            r.0@ == key_value(old(self)@, old(self).pos as int).key,
            r.1@ == key_value(old(self)@, old(self).pos as int).val,
    {
        let ghost s = self@;
        let ghost i0 = self.pos as int;
        let mut eq_ends: Vec<char> = Vec::new();
        eq_ends.push('=');
        proof {
            assert(eq_ends@ =~= seq!['=']);
        }
        let (has_value, key) = self.parse_line_until(&eq_ends);
        if has_value {
            proof {
                lemma_line_until_bounds(s, seq!['='], i0);
            }
            self.step();
            let empty_ends: Vec<char> = Vec::new();
            proof {
                assert(empty_ends@ =~= Seq::<char>::empty());
            }
            let (_found2, value) = self.parse_line_until(&empty_ends);
            (key, value)
        } else {
            let t = "true".to_owned();
            proof {
                reveal_strlit("true");
                assert(t@ =~= true_value());
            }
            (key, t)
        }
    }

    /// A section body: after whitespace, stop at a header or at end of
    /// input; skip full-line comments; scan key/value lines into a fresh
    /// mapping, rejecting a key that is already present.
    fn parse_section(&mut self) -> (r: Result<SectionMap, ParseError>)
        requires
            old(self).wf(),
        ensures
            final(self).wf(),
            final(self)@ == old(self)@,
            match r {
                Ok(m) => m.wf() && parse_body(
                    old(self)@,
                    old(self).pos as int,
                    Map::<Seq<char>, ItemV>::empty(),
                ) == Ok::<(int, Map<Seq<char>, ItemV>), ParseError>((final(self).pos as int, m@)),
                Err(e) => parse_body(
                    old(self)@,
                    old(self).pos as int,
                    Map::<Seq<char>, ItemV>::empty(),
                ) == Err::<(int, Map<Seq<char>, ItemV>), ParseError>(e),
            },
    {
        let ghost s = self@;
        let ghost i0 = self.pos as int;
        let mut section = SectionMap::new();
        proof {
            lemma_parse_body_at_ws(s, i0, Map::<Seq<char>, ItemV>::empty());
            lemma_skip_ws_bounds(s, i0);
        }
        self.consume_whitespace();
        loop
            invariant
                self.wf(),
                self@ == s,
                s == old(self)@,
                i0 == old(self).pos as int,
                section.wf(),
                self.pos as int == skip_ws(s, self.pos as int),
                parse_body(s, i0, Map::<Seq<char>, ItemV>::empty()) == parse_body(
                    s,
                    self.pos as int,
                    section@,
                ),
            ensures
                self.wf(),
                self@ == s,
                section.wf(),
                parse_body(s, i0, Map::<Seq<char>, ItemV>::empty()) == Ok::<
                    (int, Map<Seq<char>, ItemV>),
                    ParseError,
                >((self.pos as int, section@)),
            decreases s.len() - self.pos,
        {
            match self.ch() {
                None => {
                    break;
                },
                Some(c) => {
                    if c == '[' {
                        break;
                    } else if c == ';' || c == '#' {
                        let ghost p = self.pos as int;
                        proof {
                            lemma_skip_comment_bounds(s, p);
                            lemma_parse_body_at_ws(s, skip_comment(s, p), section@);
                            lemma_skip_ws_bounds(s, skip_comment(s, p));
                        }
                        self.consume_comment();
                        self.consume_whitespace();
                    } else {
                        let ghost p = self.pos as int;
                        proof {
                            lemma_skip_ws_bounds(s, p);
                            lemma_key_value_progress(s, p);
                        }
                        let (key, value) = self.parse_key_value();
                        match try_insert(&mut section, key, Item::Value(value)) {
                            Ok(_) => {},
                            Err(e) => {
                                return Err(e);
                            },
                        }
                        proof {
                            lemma_parse_body_at_ws(s, self.pos as int, section@);
                            lemma_skip_ws_bounds(s, self.pos as int);
                        }
                        self.consume_whitespace();
                    }
                },
            }
        }
        Ok(section)
    }

    /// The dotted path of a section header.  The cursor stands on the
    /// header's `[`; on success it stands just past the closing `]`.
    fn parse_section_titles(&mut self) -> (r: Result<Vec<String>, ParseError>)
        requires
            old(self).wf(),
            old(self).pos < old(self)@.len(),
        ensures
            final(self).wf(),
            final(self)@ == old(self)@,
            match r {
                Ok(v) => parse_titles(
                    old(self)@,
                    old(self).pos as int + 1,
                    Seq::<Seq<char>>::empty(),
                ) == Ok::<(int, Seq<Seq<char>>), ParseError>(
                    (final(self).pos as int, views_of(v@)),
                ),
                Err(e) => parse_titles(
                    old(self)@,
                    old(self).pos as int + 1,
                    Seq::<Seq<char>>::empty(),
                ) == Err::<(int, Seq<Seq<char>>), ParseError>(e),
            },
    {
        let ghost s = self@;
        let ghost i0 = self.pos as int;
        self.step();
        let mut titles: Vec<String> = Vec::new();
        let mut ends: Vec<char> = Vec::new();
        ends.push(']');
        ends.push('.');
        proof {
            assert(ends@ =~= seq![']', '.']);
            assert(views_of(titles@) =~= Seq::<Seq<char>>::empty());
        }
        loop
            invariant
                self.wf(),
                self@ == s,
                s == old(self)@,
                i0 == old(self).pos as int,
                ends@ == seq![']', '.'],
                parse_titles(s, i0 + 1, Seq::<Seq<char>>::empty()) == parse_titles(
                    s,
                    self.pos as int,
                    views_of(titles@),
                ),
            decreases s.len() - self.pos,
        {
            let ghost p = self.pos as int;
            proof {
                lemma_line_until_bounds(s, ends@, p);
            }
            let (found, part) = self.parse_line_until(&ends);
            if !found {
                return Err(ParseError::UnterminatedSectionHeader);
            }
            let d = self.ch();
            self.step();
            let ghost tprev = titles@;
            titles.push(part);
            proof {
                assert(views_of(titles@) =~= views_of(tprev).push(part@));
            }
            match d {
                Some(dc) => {
                    if dc == ']' {
                        return Ok(titles);
                    }
                },
                None => {
                    // a found terminator means a character stood at the
                    // cursor, so it cannot be exhausted here
                    proof {
                        assert(false);
                    }
                },
            }
        }
    }
}

/// Merges the entries of `src` into `dest`, one by one and in order; a
/// key present in both ends up with `src`'s item.
fn section_extend(dest: SectionMap, src: SectionMap) -> (r: SectionMap)
    requires
        dest.wf(),
        src.wf(),
    ensures
        r.wf(),
        r@ == dest@.union_prefer_right(src@),
{
    let mut d = dest;
    let mut rest = src;
    loop
        invariant
            d.wf(),
            keys_unique(rest.entries@),
            items_wf(rest.entries@, rest.entries@.len() as int),
            d@.union_prefer_right(rest@) == dest@.union_prefer_right(src@),
        ensures
            d.wf(),
            rest.entries@.len() == 0,
            d@.union_prefer_right(rest@) == dest@.union_prefer_right(src@),
        decreases rest.entries@.len(),
    {
        if rest.entries.len() == 0 {
            break;
        }
        let ghost rprev = rest.entries@;
        let ghost dprev = d@;
        proof {
            lemma_model_front(rprev, rprev.len() as int);
            lemma_items_wf_all(rprev, rprev.len() as int);
        }
        let (k, v) = rest.entries.remove(0);
        proof {
            assert(rest.entries@ =~= rprev.drop_first());
            lemma_items_wf_all(rest.entries@, rest.entries@.len() as int);
        }
        d.insert(k, v);
        proof {
            assert(d@.union_prefer_right(rest@) =~= dprev.union_prefer_right(
                entries_model(rprev, rprev.len() as int),
            ));
        }
    }
    proof {
        assert(rest@ =~= Map::<Seq<char>, ItemV>::empty());
        assert(d@.union_prefer_right(rest@) =~= d@);
    }
    d
}

/// Walks a header path down from `dest`, creating an empty section for an
/// absent segment and failing on a segment that names a non-section
/// entry; at the path's end the body's entries overwrite same-named
/// existing ones.
fn merge_section(dest: SectionMap, path: &Vec<String>, k: usize, body: SectionMap) -> (r: Result<
    SectionMap,
    ParseError,
>)
    requires
        dest.wf(),
        body.wf(),
        k <= path@.len(),
    ensures
        match r {
            Ok(m) => m.wf() && merge_into(dest@, views_of(path@).skip(k as int), body@) == Ok::<
                Map<Seq<char>, ItemV>,
                ParseError,
            >(m@),
            Err(e) => merge_into(dest@, views_of(path@).skip(k as int), body@) == Err::<
                Map<Seq<char>, ItemV>,
                ParseError,
            >(e),
        },
    decreases path@.len() - k,
{
    if k == path.len() {
        proof {
            assert(views_of(path@).skip(k as int) =~= Seq::<Seq<char>>::empty());
        }
        Ok(section_extend(dest, body))
    } else {
        let ghost t = views_of(path@).skip(k as int)[0];
        proof {
            assert(t == path@[k as int]@);
            assert(views_of(path@).skip(k as int).drop_first() =~= views_of(path@).skip(
                k as int + 1,
            ));
        }
        let mut d = dest;
        let sub_opt = d.remove(&path[k]);
        let sub: SectionMap = match sub_opt {
            None => {
                proof {
                    assert(dest@.remove(t) =~= dest@);
                }
                SectionMap::new()
            },
            Some(it) => match it {
                Item::Section(m) => m,
                _ => {
                    return Err(ParseError::SectionPathConflict);
                },
            },
        };
        match merge_section(sub, path, k + 1, body) {
            Err(e) => Err(e),
            Ok(m2) => {
                d.insert(path[k].clone(), Item::Section(m2));
                proof {
                    assert(d@ =~= dest@.insert(t, item_model(Item::Section(m2))));
                }
                Ok(d)
            },
        }
    }
}

impl Parser {
    /// Parses the whole document: the root body, then header/body blocks
    /// merged into the tree, until the input is exhausted.
    pub fn parse(self) -> (r: Result<SectionMap, ParseError>)
        requires
            self.wf(),
            self.at_start(),
        ensures
            match r {
                Ok(m) => m.wf() && parse_document(self@) == Ok::<
                    Map<Seq<char>, ItemV>,
                    ParseError,
                >(m@),
                Err(e) => parse_document(self@) == Err::<Map<Seq<char>, ItemV>, ParseError>(e),
            },
    {
        let mut p = self;
        let ghost s = p@;
        let mut root: SectionMap = match p.parse_section() {
            Ok(m) => m,
            Err(e) => {
                return Err(e);
            },
        };
        loop
            invariant
                p.wf(),
                p@ == s,
                s == self@,
                root.wf(),
                parse_document(s) == parse_document_from(s, p.pos as int, root@),
            ensures
                root.wf(),
                parse_document(s) == Ok::<Map<Seq<char>, ItemV>, ParseError>(root@),
            decreases s.len() - p.pos,
        {
            match p.ch() {
                None => {
                    break;
                },
                Some(_) => {},
            }
            let ghost pp = p.pos as int;
            proof {
                lemma_parse_titles_bounds(s, pp + 1, Seq::<Seq<char>>::empty());
            }
            let titles = match p.parse_section_titles() {
                Ok(t) => t,
                Err(e) => {
                    return Err(e);
                },
            };
            proof {
                lemma_parse_body_bounds(s, p.pos as int, Map::<Seq<char>, ItemV>::empty());
            }
            let body = match p.parse_section() {
                Ok(m) => m,
                Err(e) => {
                    return Err(e);
                },
            };
            proof {
                assert(views_of(titles@).skip(0) =~= views_of(titles@));
            }
            root = match merge_section(root, &titles, 0, body) {
                Ok(m) => m,
                Err(e) => {
                    return Err(e);
                },
            };
        }
        Ok(root)
    }
}

} // verus!
