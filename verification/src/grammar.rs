//! The dialect's grammar, written as specification functions over the
//! character sequence.
//!
//! A position `i` names the character `s[i]` the cursor looks at; `i ==
//! s.len()` means the input is exhausted.  Each function returns where the
//! cursor stands afterwards, so the whole parse is one left-to-right pass.
//! `parse_document` is the meaning of a document: the executable parser is
//! proved to return exactly its result.

use vstd::prelude::*;

use crate::item::ItemV;
use crate::item::ParseError;

verus! {

/// Whitespace, as the scanner classifies it: the Unicode white space
/// characters.
pub open spec fn is_ws(c: char) -> bool {
    c == ' ' || c == '\t' || c == '\n' || c == '\u{B}' || c == '\u{C}' || c == '\r' || c
        == '\u{85}' || c == '\u{A0}' || c == '\u{1680}' || (0x2000 <= c as u32 && c as u32
        <= 0x200A) || c == '\u{2028}' || c == '\u{2029}' || c == '\u{202F}' || c == '\u{205F}'
        || c == '\u{3000}'
}

/// `;` and `#` introduce a comment.
pub open spec fn is_comment_marker(c: char) -> bool {
    c == ';' || c == '#'
}

/// A line terminator ends every run.
pub open spec fn is_line_end(c: char) -> bool {
    c == '\r' || c == '\n'
}

/// A quote character may wrap a value.
pub open spec fn is_quote(c: char) -> bool {
    c == '"' || c == '\''
}

/// The escape table: what `\c` stands for.  Any character outside the
/// table stands for itself.
pub open spec fn unescape(c: char) -> char {
    if c == 'n' {
        '\n'
    } else if c == 'r' {
        '\r'
    } else if c == 't' {
        '\t'
    } else if c == 'b' {
        '\u{8}'
    } else if c == 'f' {
        '\u{C}'
    } else {
        c
    }
}

/// Position after a maximal run of whitespace.
pub open spec fn skip_ws(s: Seq<char>, i: int) -> int
    decreases s.len() - i,
    when 0 <= i <= s.len()
{
    if i < s.len() && is_ws(s[i]) {
        skip_ws(s, i + 1)
    } else {
        i
    }
}

/// Position after a full-line comment: everything up to and including the
/// next line terminator is discarded, or the rest of the input if none
/// follows.
pub open spec fn skip_comment(s: Seq<char>, i: int) -> int
    decreases s.len() - i,
    when 0 <= i <= s.len()
{
    if i >= s.len() {
        i
    } else if is_line_end(s[i]) {
        i + 1
    } else {
        skip_comment(s, i + 1)
    }
}

/// State of the delimited-run scanner when it stops: the position of the
/// terminator (or of the line end), whether a terminator from `ends` was
/// found, the accumulated characters, and the position within `raw` of the
/// first comment marker that was provisionally kept because a quote had
/// already appeared.
pub struct ScanState {
    pub pos: int,
    pub found: bool,
    pub raw: Seq<char>,
    pub cmark: Option<int>,
}

/// The delimited-run scanner.  `raw`, `quoted` and `cmark` accumulate; a
/// run starts with `raw` empty, `quoted` false and `cmark` `None`.
///
/// The scanner stops without a terminator at a line end or end of input; a
/// comment marker ends the run unless a quote has appeared, in which case
/// the first such marker's position is recorded and scanning goes on; a
/// backslash substitutes per the escape table, except that a trailing
/// backslash (before a line end or end of input) is kept literally and the
/// run stops.
pub open spec fn scan(
    s: Seq<char>,
    ends: Seq<char>,
    i: int,
    raw: Seq<char>,
    quoted: bool,
    cmark: Option<int>,
) -> ScanState
    decreases s.len() - i,
    when 0 <= i <= s.len()
{
    if i >= s.len() || is_line_end(s[i]) {
        ScanState { pos: i, found: false, raw, cmark }
    } else if is_comment_marker(s[i]) {
        if quoted {
            let cmark2 = if cmark is None {
                Some(raw.len() as int)
            } else {
                cmark
            };
            scan(s, ends, i + 1, raw.push(s[i]), quoted, cmark2)
        } else {
            ScanState { pos: i, found: false, raw, cmark }
        }
    } else if ends.contains(s[i]) {
        ScanState { pos: i, found: true, raw, cmark }
    } else if s[i] == '\\' {
        if i + 1 >= s.len() || is_line_end(s[i + 1]) {
            ScanState { pos: i + 1, found: false, raw: raw.push('\\'), cmark }
        } else {
            scan(s, ends, i + 2, raw.push(unescape(s[i + 1])), quoted, cmark)
        }
    } else if is_quote(s[i]) {
        scan(s, ends, i + 1, raw.push(s[i]), true, cmark)
    } else {
        scan(s, ends, i + 1, raw.push(s[i]), quoted, cmark)
    }
}

/// `s` without leading whitespace.
pub open spec fn trim_front(s: Seq<char>) -> Seq<char>
    decreases s.len(),
{
    if s.len() > 0 && is_ws(s[0]) {
        trim_front(s.drop_first())
    } else {
        s
    }
}

/// `s` without trailing whitespace.
pub open spec fn trim_back(s: Seq<char>) -> Seq<char>
    decreases s.len(),
{
    if s.len() > 0 && is_ws(s[s.len() - 1]) {
        trim_back(s.drop_last())
    } else {
        s
    }
}

/// `s` without surrounding whitespace.
pub open spec fn trim(s: Seq<char>) -> Seq<char> {
    trim_back(trim_front(s))
}

/// The trimmed text is wrapped in one matching pair of the same quote
/// character.
pub open spec fn quote_wrapped(t: Seq<char>) -> bool {
    t.len() >= 2 && ((t[0] == '"' && t[t.len() - 1] == '"') || (t[0] == '\'' && t[t.len() - 1]
        == '\''))
}

/// Post-processing of a scanned run: trim; strip one matching outer pair
/// of quotes and keep the remainder verbatim; otherwise, when a comment
/// marker was provisionally recorded, truncate there and re-trim.
pub open spec fn finish_run(raw: Seq<char>, cmark: Option<int>) -> Seq<char> {
    let t = trim(raw);
    if quote_wrapped(t) {
        t.subrange(1, t.len() - 1)
    } else {
        match cmark {
            Some(loc) => trim(raw.take(loc)),
            None => t,
        }
    }
}

/// Outcome of scanning one run and post-processing it.
pub struct RunResult {
    pub pos: int,
    pub found: bool,
    pub text: Seq<char>,
}

/// Scan a run from `i` with terminator set `ends`, and post-process it.
pub open spec fn line_until(s: Seq<char>, ends: Seq<char>, i: int) -> RunResult {
    let st = scan(s, ends, i, Seq::<char>::empty(), false, None::<int>);
    RunResult { pos: st.pos, found: st.found, text: finish_run(st.raw, st.cmark) }
}

/// A key/value pair and the position after it.
pub struct PairResult {
    pub pos: int,
    pub key: Seq<char>,
    pub val: Seq<char>,
}

/// The literal value a bare flag key is paired with.
pub open spec fn true_value() -> Seq<char> {
    seq!['t', 'r', 'u', 'e']
}

/// One `key=value` line: scan a run up to `=`; when found, the value is a
/// second, terminator-less run after the `=`; when no `=` stands on the
/// line, the text is a bare flag key with the literal value `true`.
pub open spec fn key_value(s: Seq<char>, i: int) -> PairResult {
    let k = line_until(s, seq!['='], i);
    if k.found {
        let v = line_until(s, Seq::<char>::empty(), k.pos + 1);
        PairResult { pos: v.pos, key: k.text, val: v.text }
    } else {
        PairResult { pos: k.pos, key: k.text, val: true_value() }
    }
}

/// `skip_ws` moves forward, stays within the input, and stops on a
/// non-whitespace character.
pub proof fn lemma_skip_ws_bounds(s: Seq<char>, i: int)
    requires
        0 <= i <= s.len(),
    ensures
        i <= skip_ws(s, i) <= s.len(),
        skip_ws(s, i) < s.len() ==> !is_ws(s[skip_ws(s, i)]),
        skip_ws(s, skip_ws(s, i)) == skip_ws(s, i),
    decreases s.len() - i,
{
    if i < s.len() && is_ws(s[i]) {
        lemma_skip_ws_bounds(s, i + 1);
    }
}

/// `skip_comment` consumes at least the character it starts on.
pub proof fn lemma_skip_comment_bounds(s: Seq<char>, i: int)
    requires
        0 <= i <= s.len(),
    ensures
        i <= skip_comment(s, i) <= s.len(),
        i < s.len() ==> skip_comment(s, i) >= i + 1,
    decreases s.len() - i,
{
    if i < s.len() && !is_line_end(s[i]) {
        lemma_skip_comment_bounds(s, i + 1);
    }
}

/// The scanner moves forward, stays within the input, and stops with
/// `found` exactly on a character of `ends`.
pub proof fn lemma_scan_bounds(
    s: Seq<char>,
    ends: Seq<char>,
    i: int,
    raw: Seq<char>,
    quoted: bool,
    cmark: Option<int>,
)
    requires
        0 <= i <= s.len(),
    ensures
        i <= scan(s, ends, i, raw, quoted, cmark).pos <= s.len(),
        scan(s, ends, i, raw, quoted, cmark).found ==> scan(s, ends, i, raw, quoted, cmark).pos
            < s.len() && ends.contains(s[scan(s, ends, i, raw, quoted, cmark).pos]),
    decreases s.len() - i,
{
    if i < s.len() && !is_line_end(s[i]) {
        if is_comment_marker(s[i]) {
            if quoted {
                let cmark2 = if cmark is None {
                    Some(raw.len() as int)
                } else {
                    cmark
                };
                lemma_scan_bounds(s, ends, i + 1, raw.push(s[i]), quoted, cmark2);
            }
        } else if ends.contains(s[i]) {
        } else if s[i] == '\\' {
            if !(i + 1 >= s.len() || is_line_end(s[i + 1])) {
                lemma_scan_bounds(s, ends, i + 2, raw.push(unescape(s[i + 1])), quoted, cmark);
            }
        } else if is_quote(s[i]) {
            lemma_scan_bounds(s, ends, i + 1, raw.push(s[i]), true, cmark);
        } else {
            lemma_scan_bounds(s, ends, i + 1, raw.push(s[i]), quoted, cmark);
        }
    }
}

/// A run scanned from a character that does not end it at once consumes
/// that character.
pub proof fn lemma_scan_progress(
    s: Seq<char>,
    ends: Seq<char>,
    i: int,
    raw: Seq<char>,
    quoted: bool,
    cmark: Option<int>,
)
    requires
        0 <= i < s.len(),
        !is_line_end(s[i]),
        !is_comment_marker(s[i]),
        !ends.contains(s[i]),
    ensures
        scan(s, ends, i, raw, quoted, cmark).pos >= i + 1,
{
    if s[i] == '\\' {
        if !(i + 1 >= s.len() || is_line_end(s[i + 1])) {
            lemma_scan_bounds(s, ends, i + 2, raw.push(unescape(s[i + 1])), quoted, cmark);
        }
    } else if is_quote(s[i]) {
        lemma_scan_bounds(s, ends, i + 1, raw.push(s[i]), true, cmark);
    } else {
        lemma_scan_bounds(s, ends, i + 1, raw.push(s[i]), quoted, cmark);
    }
}

/// Bounds of `line_until`, carried over from the scanner.
pub proof fn lemma_line_until_bounds(s: Seq<char>, ends: Seq<char>, i: int)
    requires
        0 <= i <= s.len(),
    ensures
        i <= line_until(s, ends, i).pos <= s.len(),
        line_until(s, ends, i).found ==> line_until(s, ends, i).pos < s.len() && ends.contains(
            s[line_until(s, ends, i).pos],
        ),
{
    lemma_scan_bounds(s, ends, i, Seq::<char>::empty(), false, None::<int>);
}

/// Bounds of `key_value`: the cursor never moves backwards nor past the
/// end.
pub proof fn lemma_key_value_bounds(s: Seq<char>, i: int)
    requires
        0 <= i <= s.len(),
    ensures
        i <= key_value(s, i).pos <= s.len(),
{
    lemma_line_until_bounds(s, seq!['='], i);
    let k = line_until(s, seq!['='], i);
    if k.found {
        lemma_line_until_bounds(s, Seq::<char>::empty(), k.pos + 1);
    }
}

/// A key/value line scanned from a non-blank, non-comment character
/// consumes at least one character.
pub proof fn lemma_key_value_progress(s: Seq<char>, i: int)
    requires
        0 <= i < s.len(),
        !is_ws(s[i]),
        !is_comment_marker(s[i]),
    ensures
        i + 1 <= key_value(s, i).pos <= s.len(),
{
    let ends = seq!['='];
    lemma_line_until_bounds(s, ends, i);
    let k = line_until(s, ends, i);
    if k.found {
        lemma_line_until_bounds(s, Seq::<char>::empty(), k.pos + 1);
    } else {
        assert(!is_line_end(s[i]));
        if !ends.contains(s[i]) {
            lemma_scan_progress(s, ends, i, Seq::<char>::empty(), false, None::<int>);
        } else {
            assert(scan(s, ends, i, Seq::<char>::empty(), false, None::<int>).found);
        }
    }
}

/// A section body: after whitespace, stop at a header or at end of input;
/// skip full-line comments; scan key/value lines into `acc`, rejecting a
/// key that is already present.  Returns the position after the body and
/// the accumulated mapping.
pub open spec fn parse_body(s: Seq<char>, i: int, acc: Map<Seq<char>, ItemV>) -> Result<
    (int, Map<Seq<char>, ItemV>),
    ParseError,
>
    decreases s.len() - i,
    when 0 <= i <= s.len()
    via parse_body_dec
{
    let j = skip_ws(s, i);
    if j >= s.len() || s[j] == '[' {
        Ok((j, acc))
    } else if is_comment_marker(s[j]) {
        parse_body(s, skip_comment(s, j), acc)
    } else {
        let kv = key_value(s, j);
        if acc.contains_key(kv.key) {
            Err(ParseError::DuplicateKey)
        } else {
            parse_body(s, kv.pos, acc.insert(kv.key, ItemV::Value(kv.val)))
        }
    }
}

#[via_fn]
proof fn parse_body_dec(s: Seq<char>, i: int, acc: Map<Seq<char>, ItemV>) {
    lemma_skip_ws_bounds(s, i);
    let j = skip_ws(s, i);
    if !(j >= s.len() || s[j] == '[') {
        if is_comment_marker(s[j]) {
            lemma_skip_comment_bounds(s, j);
        } else {
            lemma_key_value_progress(s, j);
        }
    }
}

/// The dot-separated segments of a section header, scanned after its `[`.
/// A `.` terminator means more segments follow; `]` ends the header;
/// a run that ends without either is fatal.
pub open spec fn parse_titles(s: Seq<char>, i: int, acc: Seq<Seq<char>>) -> Result<
    (int, Seq<Seq<char>>),
    ParseError,
>
    decreases s.len() - i,
    when 0 <= i <= s.len()
    via parse_titles_dec
{
    let r = line_until(s, seq![']', '.'], i);
    if !r.found {
        Err(ParseError::UnterminatedSectionHeader)
    } else if s[r.pos] == ']' {
        Ok((r.pos + 1, acc.push(r.text)))
    } else {
        parse_titles(s, r.pos + 1, acc.push(r.text))
    }
}

#[via_fn]
proof fn parse_titles_dec(s: Seq<char>, i: int, acc: Seq<Seq<char>>) {
    lemma_line_until_bounds(s, seq![']', '.'], i);
}

/// Merging a parsed body into the tree at a header path: walk the path
/// from `root`, creating an empty section for an absent segment and
/// failing on a segment that names a non-section entry; at the path's
/// end, the body's entries overwrite same-named existing ones.
pub open spec fn merge_into(
    root: Map<Seq<char>, ItemV>,
    path: Seq<Seq<char>>,
    body: Map<Seq<char>, ItemV>,
) -> Result<Map<Seq<char>, ItemV>, ParseError>
    decreases path.len(),
{
    if path.len() == 0 {
        Ok(root.union_prefer_right(body))
    } else {
        let sub = if root.contains_key(path[0]) {
            root[path[0]]
        } else {
            ItemV::Section(Map::empty())
        };
        match sub {
            ItemV::Section(m) => match merge_into(m, path.drop_first(), body) {
                Ok(m2) => Ok(root.insert(path[0], ItemV::Section(m2))),
                Err(e) => Err(e),
            },
            _ => Err(ParseError::SectionPathConflict),
        }
    }
}

/// Two bodies merged at the same header path, one after the other,
/// accumulate into one section: the outcome is the same as merging the
/// two bodies' union there at once, the later body's entries winning.
pub proof fn lemma_merge_same_path_accumulates(
    root: Map<Seq<char>, ItemV>,
    path: Seq<Seq<char>>,
    b1: Map<Seq<char>, ItemV>,
    b2: Map<Seq<char>, ItemV>,
    r1: Map<Seq<char>, ItemV>,
)
    requires
        merge_into(root, path, b1) == Ok::<Map<Seq<char>, ItemV>, ParseError>(r1),
    ensures
        merge_into(r1, path, b2) == merge_into(root, path, b1.union_prefer_right(b2)),
    decreases path.len(),
{
    if path.len() == 0 {
        assert(root.union_prefer_right(b1).union_prefer_right(b2) =~= root.union_prefer_right(
            b1.union_prefer_right(b2),
        ));
    } else {
        let t = path[0];
        let sub = if root.contains_key(t) {
            root[t]
        } else {
            ItemV::Section(Map::empty())
        };
        match sub {
            ItemV::Section(m) => {
                match merge_into(m, path.drop_first(), b1) {
                    Ok(m1) => {
                        lemma_merge_same_path_accumulates(m, path.drop_first(), b1, b2, m1);
                        assert(r1 == root.insert(t, ItemV::Section(m1)));
                        match merge_into(m1, path.drop_first(), b2) {
                            Ok(m2) => {
                                assert(r1.insert(t, ItemV::Section(m2)) =~= root.insert(
                                    t,
                                    ItemV::Section(m2),
                                ));
                            },
                            Err(_) => {},
                        }
                    },
                    Err(_) => {
                        assert(false);
                    },
                }
            },
            _ => {
                assert(false);
            },
        }
    }
}

/// The blocks after the root body: while input remains, a header path,
/// then a body, merged into the tree at that path.
pub open spec fn parse_document_from(s: Seq<char>, i: int, root: Map<Seq<char>, ItemV>) -> Result<
    Map<Seq<char>, ItemV>,
    ParseError,
>
    decreases s.len() - i,
    when 0 <= i <= s.len()
    via parse_document_from_dec
{
    if i >= s.len() {
        Ok(root)
    } else {
        match parse_titles(s, i + 1, Seq::<Seq<char>>::empty()) {
            Err(e) => Err(e),
            Ok((j, segs)) => match parse_body(s, j, Map::<Seq<char>, ItemV>::empty()) {
                Err(e) => Err(e),
                Ok((k, body)) => match merge_into(root, segs, body) {
                    Err(e) => Err(e),
                    Ok(root2) => parse_document_from(s, k, root2),
                },
            },
        }
    }
}

#[via_fn]
proof fn parse_document_from_dec(s: Seq<char>, i: int, root: Map<Seq<char>, ItemV>) {
    if i < s.len() {
        lemma_parse_titles_bounds(s, i + 1, Seq::<Seq<char>>::empty());
        match parse_titles(s, i + 1, Seq::<Seq<char>>::empty()) {
            Err(_) => {}
            Ok((j, segs)) => {
                lemma_parse_body_bounds(s, j, Map::<Seq<char>, ItemV>::empty());
            }
        }
    }
}

/// The whole document: a root body, then header/body blocks to the end of
/// the input.
pub open spec fn parse_document(s: Seq<char>) -> Result<Map<Seq<char>, ItemV>, ParseError> {
    match parse_body(s, 0, Map::<Seq<char>, ItemV>::empty()) {
        Err(e) => Err(e),
        Ok((i, root)) => parse_document_from(s, i, root),
    }
}

/// A body parse is indifferent to leading whitespace already consumed.
pub proof fn lemma_parse_body_at_ws(s: Seq<char>, i: int, acc: Map<Seq<char>, ItemV>)
    requires
        0 <= i <= s.len(),
    ensures
        parse_body(s, i, acc) == parse_body(s, skip_ws(s, i), acc),
{
    lemma_skip_ws_bounds(s, i);
}

/// A parsed body never moves the cursor backwards nor past the end.
pub proof fn lemma_parse_body_bounds(s: Seq<char>, i: int, acc: Map<Seq<char>, ItemV>)
    requires
        0 <= i <= s.len(),
    ensures
        match parse_body(s, i, acc) {
            Ok((p, _)) => i <= p <= s.len(),
            Err(_) => true,
        },
    decreases s.len() - i,
{
    lemma_skip_ws_bounds(s, i);
    let j = skip_ws(s, i);
    if !(j >= s.len() || s[j] == '[') {
        if is_comment_marker(s[j]) {
            lemma_skip_comment_bounds(s, j);
            lemma_parse_body_bounds(s, skip_comment(s, j), acc);
        } else {
            let kv = key_value(s, j);
            lemma_key_value_progress(s, j);
            if !acc.contains_key(kv.key) {
                lemma_parse_body_bounds(s, kv.pos, acc.insert(kv.key, ItemV::Value(kv.val)));
            }
        }
    }
}

/// A document in which the root body runs to the end of the input — one
/// without section headers — means exactly its root body: the mapping
/// obtained by inserting each scanned pair, in document order, into an
/// empty mapping.
pub proof fn lemma_document_without_headers(s: Seq<char>, p: int, m: Map<Seq<char>, ItemV>)
    requires
        parse_body(s, 0, Map::<Seq<char>, ItemV>::empty()) == Ok::<
            (int, Map<Seq<char>, ItemV>),
            ParseError,
        >((p, m)),
        p >= s.len(),
    ensures
        parse_document(s) == Ok::<Map<Seq<char>, ItemV>, ParseError>(m),
{
    lemma_parse_body_bounds(s, 0, Map::<Seq<char>, ItemV>::empty());
}

/// Where no `[` stands anywhere ahead, a successful body parse leaves
/// nothing behind: it runs to the end of the input.
pub proof fn lemma_body_runs_out(s: Seq<char>, i: int, acc: Map<Seq<char>, ItemV>)
    requires
        0 <= i <= s.len(),
        forall|j: int| i <= j < s.len() ==> s[j] != '[',
    ensures
        match parse_body(s, i, acc) {
            Ok((p, _)) => p >= s.len(),
            Err(_) => true,
        },
    decreases s.len() - i,
{
    lemma_skip_ws_bounds(s, i);
    let j = skip_ws(s, i);
    if !(j >= s.len() || s[j] == '[') {
        if is_comment_marker(s[j]) {
            lemma_skip_comment_bounds(s, j);
            lemma_body_runs_out(s, skip_comment(s, j), acc);
        } else {
            let kv = key_value(s, j);
            lemma_key_value_progress(s, j);
            if !acc.contains_key(kv.key) {
                lemma_body_runs_out(s, kv.pos, acc.insert(kv.key, ItemV::Value(kv.val)));
            }
        }
    }
}

/// A document without section headers — no `[` occurs in it — means
/// exactly its root body: when that body parses, the document's mapping
/// is the one obtained by inserting each scanned pair, in document
/// order, into an empty mapping, and holds nothing else.
pub proof fn lemma_headerless_document(s: Seq<char>, p: int, m: Map<Seq<char>, ItemV>)
    requires
        forall|j: int| 0 <= j < s.len() ==> s[j] != '[',
        parse_body(s, 0, Map::<Seq<char>, ItemV>::empty()) == Ok::<
            (int, Map<Seq<char>, ItemV>),
            ParseError,
        >((p, m)),
    ensures
        parse_document(s) == Ok::<Map<Seq<char>, ItemV>, ParseError>(m),
{
    lemma_body_runs_out(s, 0, Map::<Seq<char>, ItemV>::empty());
    lemma_document_without_headers(s, p, m);
}

/// One step of a body parse on a key/value line with a fresh key: the
/// pair is inserted and the body parse goes on behind the line.
pub proof fn lemma_body_step_inserts(s: Seq<char>, i: int, acc: Map<Seq<char>, ItemV>)
    requires
        0 <= i <= s.len(),
        ({
            let j = skip_ws(s, i);
            j < s.len() && s[j] != '[' && !is_comment_marker(s[j]) && !acc.contains_key(
                key_value(s, j).key,
            )
        }),
    ensures
        ({
            let kv = key_value(s, skip_ws(s, i));
            parse_body(s, i, acc) == parse_body(s, kv.pos, acc.insert(kv.key, ItemV::Value(kv.val)))
        }),
{
    lemma_skip_ws_bounds(s, i);
    lemma_key_value_progress(s, skip_ws(s, i));
}

/// A key/value line whose key is already in the accumulated mapping ends
/// the whole body parse with `DuplicateKey`: the earlier value is never
/// silently overwritten.
pub proof fn lemma_duplicate_key_rejected(s: Seq<char>, i: int, acc: Map<Seq<char>, ItemV>)
    requires
        0 <= i <= s.len(),
        ({
            let j = skip_ws(s, i);
            j < s.len() && s[j] != '[' && !is_comment_marker(s[j]) && acc.contains_key(
                key_value(s, j).key,
            )
        }),
    ensures
        parse_body(s, i, acc) == Err::<(int, Map<Seq<char>, ItemV>), ParseError>(
            ParseError::DuplicateKey,
        ),
{
    lemma_skip_ws_bounds(s, i);
}

/// A parsed header consumes at least its terminator.
pub proof fn lemma_parse_titles_bounds(s: Seq<char>, i: int, acc: Seq<Seq<char>>)
    requires
        0 <= i <= s.len(),
    ensures
        match parse_titles(s, i, acc) {
            Ok((p, _)) => i < p <= s.len(),
            Err(_) => true,
        },
    decreases s.len() - i,
{
    lemma_line_until_bounds(s, seq![']', '.'], i);
    let r = line_until(s, seq![']', '.'], i);
    if r.found && s[r.pos] != ']' {
        lemma_parse_titles_bounds(s, r.pos + 1, acc.push(r.text));
    }
}

} // verus!
