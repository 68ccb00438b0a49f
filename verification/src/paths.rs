//! Paths as text, with the component rules of `std::path` on the platform
//! at hand. Separators split a path into pieces; empty pieces and `.`
//! pieces after the first are ignored; a leading separator is the root and
//! a leading `.` the current directory. On Unix `/` is the one separator.
//! On Windows `\` and `/` both are, `\` is the one that joins, and a
//! leading drive (a letter and `:`) is a prefix before the root; the other
//! Windows prefixes (`\\server\share`, `\\?\`, `\\.\`) are not modelled
//! and read as a root followed by plain pieces. File names, stems,
//! extensions, parents, joins and prefix stripping are all read off these
//! components.

use vstd::prelude::*;

verus! {

/// The path rules of a platform.
#[derive(Clone, Copy, Debug, PartialEq, Eq)]
pub enum PathStyle {
    Unix,
    Windows,
}

/// The primary separator of path components on the platform this runs
/// on, as `std::path::MAIN_SEPARATOR` gives it. Nothing is claimed of the
/// value: it depends on the platform the library was built for.
#[verifier::external_body]
fn main_separator() -> (c: char) {
    std::path::MAIN_SEPARATOR
}

impl PathStyle {
    /// The path rules of the platform this runs on: Windows rules where
    /// the primary separator is `\`, Unix rules elsewhere.
    pub fn native() -> (r: PathStyle) {
        if main_separator() == '\\' {
            PathStyle::Windows
        } else {
            PathStyle::Unix
        }
    }
}

/// A component, as the range of character positions that it spans.
pub type Span = (int, int);

/// Whether `c` separates components.
pub open spec fn is_sep(s: PathStyle, c: char) -> bool {
    match s {
        PathStyle::Unix => c == '/',
        PathStyle::Windows => c == '/' || c == '\\',
    }
}

/// The separator that joins components.
pub open spec fn main_sep(s: PathStyle) -> char {
    match s {
        PathStyle::Unix => '/',
        PathStyle::Windows => '\\',
    }
}

/// Whether `c` is an ASCII letter.
pub open spec fn is_ascii_letter(c: char) -> bool {
    ('a' <= c && c <= 'z') || ('A' <= c && c <= 'Z')
}

/// How many characters the prefix of `p` takes: two for a Windows drive
/// (a letter and `:`), none otherwise.
pub open spec fn prefix_len(s: PathStyle, p: Seq<char>) -> int {
    match s {
        PathStyle::Unix => 0,
        PathStyle::Windows => if p.len() >= 2 && p[1] == ':' && is_ascii_letter(p[0]) {
            2
        } else {
            0
        },
    }
}

/// Whether the piece of `p` from `start` to `end` (between separators) is
/// a component: it is not empty, and it is not a `.` that stands anywhere
/// but at `base`, where the path proper begins.
pub open spec fn is_kept(p: Seq<char>, base: int, start: int, end: int) -> bool {
    end > start && (start == base || p.subrange(start, end) != seq!['.'])
}

/// The components of `p` after its prefix and root, scanning from
/// position `i`, the current piece having begun at `start`.
pub open spec fn parts_scan(s: PathStyle, p: Seq<char>, base: int, start: int, i: int) -> Seq<Span>
    decreases p.len() - i,
{
    if i >= p.len() {
        if is_kept(p, base, start, p.len() as int) {
            seq![(start, p.len() as int)]
        } else {
            seq![]
        }
    } else if is_sep(s, p[i]) {
        (if is_kept(p, base, start, i) {
            seq![(start, i)]
        } else {
            seq![]
        }) + parts_scan(s, p, base, i + 1, i + 1)
    } else {
        parts_scan(s, p, base, start, i + 1)
    }
}

/// Whether `p` has a root: a separator right after its prefix.
pub open spec fn has_root(s: PathStyle, p: Seq<char>) -> bool {
    p.len() > prefix_len(s, p) && is_sep(s, p[prefix_len(s, p)])
}

/// The components of `p`: its prefix (if any), its root (if any), then
/// the pieces.
pub open spec fn components(s: PathStyle, p: Seq<char>) -> Seq<Span> {
    let pl = prefix_len(s, p);
    (if pl > 0 {
        seq![(0int, pl)]
    } else {
        seq![]
    }) + (if has_root(s, p) {
        seq![(pl, pl + 1)]
    } else {
        seq![]
    }) + parts_scan(s, p, pl, pl, pl)
}

/// The text of a component.
pub open spec fn span_text(p: Seq<char>, c: Span) -> Seq<char> {
    p.subrange(c.0, c.1)
}

/// Whether `t` is the text of a root: a single separator.
pub open spec fn is_root_text(s: PathStyle, t: Seq<char>) -> bool {
    t.len() == 1 && is_sep(s, t[0])
}

/// Whether `c` is the prefix of `p`.
pub open spec fn is_prefix_span(s: PathStyle, p: Seq<char>, c: Span) -> bool {
    prefix_len(s, p) > 0 && c == (0int, prefix_len(s, p))
}

/// Whether a component with text `t` is a plain name: not the root, not
/// `.` and not `..`.
pub open spec fn is_name_text(s: PathStyle, t: Seq<char>) -> bool {
    !is_root_text(s, t) && t != seq!['.'] && t != seq!['.', '.']
}

/// Where the file name of `p` lies: its last component, if that is a name.
pub open spec fn file_name_span(s: PathStyle, p: Seq<char>) -> Option<Span> {
    let cs = components(s, p);
    if cs.len() > 0 && !is_prefix_span(s, p, cs.last()) && is_name_text(s, span_text(p, cs.last())) {
        Some(cs.last())
    } else {
        None
    }
}

/// The file name of `p`: its last component, if that is a name.
pub open spec fn file_name_spec(s: PathStyle, p: Seq<char>) -> Option<Seq<char>> {
    match file_name_span(s, p) {
        Some(c) => Some(span_text(p, c)),
        None => None,
    }
}

/// The position of the last `.` among the first `i` characters of `f`,
/// or -1 if there is none.
pub open spec fn last_dot_before(f: Seq<char>, i: int) -> int
    decreases i,
{
    if i <= 0 {
        -1
    } else if f[i - 1] == '.' {
        i - 1
    } else {
        last_dot_before(f, i - 1)
    }
}

/// The position of the last `.` of `f`, or -1.
pub open spec fn last_dot(f: Seq<char>) -> int {
    last_dot_before(f, f.len() as int)
}

/// How many characters of the file name `f` form its stem: all of them
/// when `f` has no `.` past its first character, else those before the
/// last `.`.
pub open spec fn stem_len(f: Seq<char>) -> int {
    if last_dot(f) <= 0 {
        f.len() as int
    } else {
        last_dot(f)
    }
}

/// The extension of the file name `f`: what follows its last `.`, unless
/// that `.` is its first character or `f` has none.
pub open spec fn name_extension(f: Seq<char>) -> Option<Seq<char>> {
    if last_dot(f) <= 0 {
        None
    } else {
        Some(f.skip(last_dot(f) + 1))
    }
}

/// The extension of the file name of `p`.
pub open spec fn extension_spec(s: PathStyle, p: Seq<char>) -> Option<Seq<char>> {
    match file_name_spec(s, p) {
        Some(f) => name_extension(f),
        None => None,
    }
}

/// The stem of the file name of `p`.
pub open spec fn file_stem_spec(s: PathStyle, p: Seq<char>) -> Option<Seq<char>> {
    match file_name_spec(s, p) {
        Some(f) => Some(f.take(stem_len(f))),
        None => None,
    }
}

/// `base` with `name` appended: `name` alone when it has a prefix; the
/// prefix of `base` then `name` when `name` has a root but no prefix; else
/// joined by the joining separator, unless `base` is empty, already ends
/// in a separator, or is a drive alone.
pub open spec fn join_spec(s: PathStyle, base: Seq<char>, name: Seq<char>) -> Seq<char> {
    if prefix_len(s, name) > 0 {
        name
    } else if has_root(s, name) {
        base.take(prefix_len(s, base)) + name
    } else if base.len() > 0 && !is_sep(s, base.last()) && prefix_len(s, base) != base.len() {
        base + seq![main_sep(s)] + name
    } else {
        base + name
    }
}

/// The parent of `p`: everything up to the end of the component before
/// its last one. `None` when `p` has no components or ends at its prefix
/// or root.
pub open spec fn parent_spec(s: PathStyle, p: Seq<char>) -> Option<Seq<char>> {
    let cs = components(s, p);
    if cs.len() == 0 || is_prefix_span(s, p, cs.last()) || is_root_text(s, span_text(p, cs.last())) {
        None
    } else if cs.len() >= 2 {
        Some(p.take(cs[cs.len() - 2].1))
    } else {
        Some(seq![])
    }
}

/// The code of a character with ASCII letters taken as capitals.
pub open spec fn ascii_upper(c: char) -> int {
    if 'a' <= c && c <= 'z' {
        c as int - 32
    } else {
        c as int
    }
}

/// Whether component `c` of `p` and component `d` of `q` are the same:
/// two drives with the same letter (in either case), two roots, or two
/// other components with the same text.
pub open spec fn same_component(s: PathStyle, p: Seq<char>, c: Span, q: Seq<char>, d: Span) -> bool {
    if is_prefix_span(s, p, c) || is_prefix_span(s, q, d) {
        is_prefix_span(s, p, c) && is_prefix_span(s, q, d) && ascii_upper(p[0]) == ascii_upper(q[0])
    } else if is_root_text(s, span_text(p, c)) || is_root_text(s, span_text(q, d)) {
        is_root_text(s, span_text(p, c)) && is_root_text(s, span_text(q, d))
    } else {
        span_text(p, c) == span_text(q, d)
    }
}

/// Whether the first components of `p` are those of `base`.
pub open spec fn starts_with_components(s: PathStyle, p: Seq<char>, base: Seq<char>) -> bool {
    let cp = components(s, p);
    let cb = components(s, base);
    cb.len() <= cp.len() && forall|k: int|
        0 <= k < cb.len() ==> #[trigger] same_component(s, p, cp[k], base, cb[k])
}

/// `p` relative to `base`: the text of the components of `p` past those of
/// `base`, when `base` is a leading part of `p`.
pub open spec fn strip_prefix_spec(s: PathStyle, p: Seq<char>, base: Seq<char>) -> Option<Seq<char>> {
    if starts_with_components(s, p, base) {
        Some(text_past(s, p, components(s, base).len() as int))
    } else {
        None
    }
}

/// Every span that the scan from `start`, `i` yields lies within `p`,
/// begins at or after `start`, and is not empty.
pub proof fn lemma_parts_scan_bounds(s: PathStyle, p: Seq<char>, base: int, start: int, i: int)
    requires
        0 <= start <= i <= p.len(),
    ensures
        forall|k: int| 0 <= k < parts_scan(s, p, base, start, i).len() ==>
            start <= #[trigger] parts_scan(s, p, base, start, i)[k].0 < parts_scan(s, p, base, start, i)[k].1
                <= p.len(),
    decreases p.len() - i,
{
    if i < p.len() {
        if is_sep(s, p[i]) {
            lemma_parts_scan_bounds(s, p, base, i + 1, i + 1);
            let head: Seq<Span> = if is_kept(p, base, start, i) { seq![(start, i)] } else { seq![] };
            let rest = parts_scan(s, p, base, i + 1, i + 1);
            assert(parts_scan(s, p, base, start, i) == head + rest);
            assert forall|k: int| 0 <= k < parts_scan(s, p, base, start, i).len() implies start
                <= #[trigger] parts_scan(s, p, base, start, i)[k].0 < parts_scan(s, p, base, start, i)[k].1
                <= p.len() by {
                if k >= head.len() {
                    assert(parts_scan(s, p, base, start, i)[k] == rest[k - head.len()]);
                }
            }
        } else {
            lemma_parts_scan_bounds(s, p, base, start, i + 1);
            assert(parts_scan(s, p, base, start, i) == parts_scan(s, p, base, start, i + 1));
        }
    } else {
        if is_kept(p, base, start, p.len() as int) {
            assert(parts_scan(s, p, base, start, i)[0] == (start, p.len() as int));
        }
    }
}

/// The leading components (prefix and root) of `p`.
pub open spec fn lead_spans(s: PathStyle, p: Seq<char>) -> Seq<Span> {
    let pl = prefix_len(s, p);
    (if pl > 0 {
        seq![(0int, pl)]
    } else {
        seq![]
    }) + (if has_root(s, p) {
        seq![(pl, pl + 1)]
    } else {
        seq![]
    })
}

/// The pieces of `p`, after its prefix and root.
pub open spec fn pieces(s: PathStyle, p: Seq<char>) -> Seq<Span> {
    parts_scan(s, p, prefix_len(s, p), prefix_len(s, p), prefix_len(s, p))
}

/// With a root, no piece starts before the root ends.
proof fn lemma_pieces_after_root(s: PathStyle, p: Seq<char>)
    requires
        has_root(s, p),
    ensures
        forall|k: int| 0 <= k < pieces(s, p).len() ==> #[trigger] pieces(s, p)[k].0 >= prefix_len(s, p) + 1,
{
    let pl = prefix_len(s, p);
    lemma_parts_scan_bounds(s, p, pl, pl + 1, pl + 1);
    assert(!is_kept(p, pl, pl, pl));
    assert(pieces(s, p) =~= seq![] + parts_scan(s, p, pl, pl + 1, pl + 1));
}

/// Every component of `p` lies within `p` and is not empty; the pieces
/// come after the prefix and the root.
pub proof fn lemma_component_bounds(s: PathStyle, p: Seq<char>)
    ensures
        components(s, p) == lead_spans(s, p) + pieces(s, p),
        forall|k: int| 0 <= k < components(s, p).len() ==>
            0 <= #[trigger] components(s, p)[k].0 < components(s, p)[k].1 <= p.len(),
        forall|k: int| 0 <= k < pieces(s, p).len() ==>
            #[trigger] pieces(s, p)[k].0 >= prefix_len(s, p) + (if has_root(s, p) { 1int } else { 0 }),
{
    let pl = prefix_len(s, p);
    lemma_parts_scan_bounds(s, p, pl, pl, pl);
    if has_root(s, p) {
        lemma_pieces_after_root(s, p);
    }
    let lead = lead_spans(s, p);
    assert(components(s, p) =~= lead + pieces(s, p));
    assert forall|k: int| 0 <= k < components(s, p).len() implies
        0 <= #[trigger] components(s, p)[k].0 < components(s, p)[k].1 <= p.len() by {
        if k >= lead.len() {
            assert(components(s, p)[k] == pieces(s, p)[k - lead.len()]);
        }
    }
}

/// The last `.` before position `i` lies before `i`.
pub proof fn lemma_last_dot_bounds(f: Seq<char>, i: int)
    requires
        i <= f.len(),
    ensures
        -1 <= last_dot_before(f, i) < (if i > 0 { i } else { 0 }),
        last_dot_before(f, i) >= 0 ==> f[last_dot_before(f, i)] == '.',
    decreases i,
{
    if i > 0 && f[i - 1] != '.' {
        lemma_last_dot_bounds(f, i - 1);
    }
}

/// Pieces come in order: each ends before the next begins.
pub proof fn lemma_parts_scan_ordered(s: PathStyle, p: Seq<char>, base: int, start: int, i: int)
    requires
        0 <= start <= i <= p.len(),
    ensures
        forall|a: int, b: int| 0 <= a < b < parts_scan(s, p, base, start, i).len() ==>
            #[trigger] parts_scan(s, p, base, start, i)[a].1 < #[trigger] parts_scan(s, p, base, start, i)[b].0,
    decreases p.len() - i,
{
    lemma_parts_scan_bounds(s, p, base, start, i);
    if i < p.len() {
        if is_sep(s, p[i]) {
            lemma_parts_scan_ordered(s, p, base, i + 1, i + 1);
            lemma_parts_scan_bounds(s, p, base, i + 1, i + 1);
            let head: Seq<Span> = if is_kept(p, base, start, i) { seq![(start, i)] } else { seq![] };
            let rest = parts_scan(s, p, base, i + 1, i + 1);
            assert(parts_scan(s, p, base, start, i) == head + rest);
            assert forall|a: int, b: int| 0 <= a < b < parts_scan(s, p, base, start, i).len() implies
                #[trigger] parts_scan(s, p, base, start, i)[a].1 < #[trigger] parts_scan(s, p, base, start, i)[b].0 by {
                assert(parts_scan(s, p, base, start, i)[b] == rest[b - head.len()]);
                if a >= head.len() {
                    assert(parts_scan(s, p, base, start, i)[a] == rest[a - head.len()]);
                }
            }
        } else {
            lemma_parts_scan_ordered(s, p, base, start, i + 1);
            assert(parts_scan(s, p, base, start, i) == parts_scan(s, p, base, start, i + 1));
        }
    }
}

/// Components come in order: each ends at or before the next begins.
pub proof fn lemma_components_ordered(s: PathStyle, p: Seq<char>)
    ensures
        forall|a: int, b: int| 0 <= a < b < components(s, p).len() ==>
            #[trigger] components(s, p)[a].1 <= #[trigger] components(s, p)[b].0,
{
    let pl = prefix_len(s, p);
    lemma_parts_scan_ordered(s, p, pl, pl, pl);
    lemma_component_bounds(s, p);
    let lead = lead_spans(s, p);
    let rest = pieces(s, p);
    assert forall|a: int, b: int| 0 <= a < b < components(s, p).len() implies
        #[trigger] components(s, p)[a].1 <= #[trigger] components(s, p)[b].0 by {
        if b >= lead.len() {
            assert(components(s, p)[b] == rest[b - lead.len()]);
        } else {
            assert(components(s, p)[b] == lead[b]);
        }
        if a >= lead.len() {
            assert(components(s, p)[a] == rest[a - lead.len()]);
        } else {
            assert(components(s, p)[a] == lead[a]);
        }
    }
}

/// The spans of a sequence of `usize` pairs, as integers.
pub open spec fn spans_of(v: Seq<(usize, usize)>) -> Seq<Span> {
    v.map_values(|c: (usize, usize)| (c.0 as int, c.1 as int))
}

/// Whether `c` separates components.
fn is_sep_exec(style: PathStyle, c: char) -> (r: bool)
    ensures
        r == is_sep(style, c),
{
    match style {
        PathStyle::Unix => c == '/',
        PathStyle::Windows => c == '/' || c == '\\',
    }
}

/// How many characters the prefix of `p` takes.
fn prefix_len_exec(style: PathStyle, p: &Vec<char>) -> (r: usize)
    ensures
        r == prefix_len(style, p@),
{
    match style {
        PathStyle::Unix => 0,
        PathStyle::Windows => {
            if p.len() >= 2 && p[1] == ':' && (('a' <= p[0] && p[0] <= 'z') || ('A' <= p[0] && p[0]
                <= 'Z')) {
                2
            } else {
                0
            }
        },
    }
}

fn piece_is_kept(p: &Vec<char>, base: usize, start: usize, end: usize) -> (r: bool)
    requires
        start <= end <= p@.len(),
    ensures
        r == is_kept(p@, base as int, start as int, end as int),
{
    if end <= start {
        return false;
    }
    if start == base {
        return true;
    }
    if end == start + 1 && p[start] == '.' {
        assert(p@.subrange(start as int, end as int) =~= seq!['.']);
        return false;
    }
    if end == start + 1 {
        assert(p@.subrange(start as int, end as int)[0] != seq!['.'][0]);
    } else {
        assert(p@.subrange(start as int, end as int).len() != seq!['.'].len());
    }
    true
}

/// The components of the path whose characters are `p`.
pub fn component_spans(style: PathStyle, p: &Vec<char>) -> (r: Vec<(usize, usize)>)
    ensures
        spans_of(r@) == components(style, p@),
{
    let pl = prefix_len_exec(style, p);
    let mut out: Vec<(usize, usize)> = Vec::new();
    if pl > 0 {
        out.push((0, pl));
    }
    let ghost after_prefix = out@;
    if p.len() > pl && is_sep_exec(style, p[pl]) {
        out.push((pl, pl + 1));
    }
    let mut start: usize = pl;
    let mut i: usize = pl;
    assert(spans_of(out@) =~= lead_spans(style, p@));
    assert(components(style, p@) =~= lead_spans(style, p@) + parts_scan(
        style,
        p@,
        pl as int,
        pl as int,
        pl as int,
    ));
    while i < p.len()
        invariant
            pl == prefix_len(style, p@),
            pl <= start <= i <= p@.len(),
            spans_of(out@) + parts_scan(style, p@, pl as int, start as int, i as int) == components(
                style,
                p@,
            ),
        decreases p@.len() - i,
    {
        if is_sep_exec(style, p[i]) {
            let ghost before = out@;
            if piece_is_kept(p, pl, start, i) {
                out.push((start, i));
                assert(spans_of(out@) =~= spans_of(before) + seq![(start as int, i as int)]);
            }
            i = i + 1;
            start = i;
        } else {
            i = i + 1;
        }
    }
    let ghost before = out@;
    if piece_is_kept(p, pl, start, p.len()) {
        out.push((start, p.len()));
        assert(spans_of(out@) =~= spans_of(before) + seq![(start as int, p@.len() as int)]);
    }
    proof {
        assert(spans_of(out@) =~= components(style, p@));
    }
    out
}

/// The text held by an optional string.
pub open spec fn opt_text(o: Option<String>) -> Option<Seq<char>> {
    match o {
        Some(s) => Some(s@),
        None => None,
    }
}

/// Whether the component `c` of `p` is its prefix or a root, the two
/// kinds of component that are never names.
fn is_prefix_or_root(style: PathStyle, p: &Vec<char>, c: (usize, usize)) -> (r: bool)
    requires
        c.0 < c.1 <= p@.len(),
    ensures
        r == (is_prefix_span(style, p@, (c.0 as int, c.1 as int)) || is_root_text(
            style,
            span_text(p@, (c.0 as int, c.1 as int)),
        )),
{
    let pl = prefix_len_exec(style, p);
    let ghost t = span_text(p@, (c.0 as int, c.1 as int));
    assert(c.1 - c.0 == 1 ==> t[0] == p@[c.0 as int]);
    (pl > 0 && c.0 == 0 && c.1 == pl) || (c.1 - c.0 == 1 && is_sep_exec(style, p[c.0]))
}

/// Where the file name of the path with characters `p` lies.
fn file_name_span_exec(style: PathStyle, p: &Vec<char>) -> (r: Option<(usize, usize)>)
    ensures
        match r {
            Some(c) => file_name_span(style, p@) == Some((c.0 as int, c.1 as int)) && c.0 <= c.1 <= p@.len(),
            None => file_name_span(style, p@) is None,
        },
{
    let cs = component_spans(style, p);
    if cs.len() == 0 {
        return None;
    }
    let c = cs[cs.len() - 1];
    proof {
        lemma_component_bounds(style, p@);
    }
    assert(spans_of(cs@)[cs@.len() - 1] == (c.0 as int, c.1 as int));
    assert(components(style, p@).last() == (c.0 as int, c.1 as int));
    let ghost t = span_text(p@, components(style, p@).last());
    assert(t == p@.subrange(c.0 as int, c.1 as int));
    if is_prefix_or_root(style, p, c) {
        return None;
    }
    let len: usize = c.1 - c.0;
    let cur = len == 1 && p[c.0] == '.';
    let up = len == 2 && p[c.0] == '.' && p[c.0 + 1] == '.';
    if len == 1 {
        assert(t.len() == 1 && t[0] == p@[c.0 as int]);
        if cur {
            assert(t =~= seq!['.']);
        } else {
            assert(t[0] != seq!['.'][0]);
        }
        assert(t.len() != seq!['.', '.'].len());
    } else if len == 2 {
        assert(t.len() != seq!['.'].len());
        if up {
            assert(t =~= seq!['.', '.']);
        } else {
            assert(t[0] != seq!['.', '.'][0] || t[1] != seq!['.', '.'][1]);
        }
    } else {
        assert(t.len() != seq!['.'].len());
        assert(t.len() != seq!['.', '.'].len());
    }
    if cur || up {
        return None;
    }
    Some(c)
}

/// The position, counted from `a`, of the last `.` among the characters
/// of `p` from `a` to `b`, if there is one.
fn last_dot_exec(p: &Vec<char>, a: usize, b: usize) -> (r: Option<usize>)
    requires
        a <= b <= p@.len(),
    ensures
        match r {
            Some(d) => d == last_dot(p@.subrange(a as int, b as int)) && d < b - a,
            None => last_dot(p@.subrange(a as int, b as int)) == -1,
        },
{
    let ghost f = p@.subrange(a as int, b as int);
    let mut i: usize = b - a;
    while i > 0
        invariant
            i <= b - a,
            a <= b <= p@.len(),
            f == p@.subrange(a as int, b as int),
            last_dot_before(f, i as int) == last_dot(f),
        decreases i,
    {
        if p[a + i - 1] == '.' {
            assert(f[i - 1] == '.');
            return Some(i - 1);
        }
        i = i - 1;
    }
    None
}

/// The file name of `path`.
pub fn file_name_of(style: PathStyle, path: &str) -> (r: Option<String>)
    ensures
        opt_text(r) == file_name_spec(style, path@),
{
    let p = crate::text::chars_of(path);
    match file_name_span_exec(style, &p) {
        Some(c) => Some(String::from_str(path.substring_char(c.0, c.1))),
        None => None,
    }
}

/// The stem and the extension of the file name of `path`.
pub fn stem_and_extension_of(style: PathStyle, path: &str) -> (r: (Option<String>, Option<String>))
    ensures
        opt_text(r.0) == file_stem_spec(style, path@),
        opt_text(r.1) == extension_spec(style, path@),
{
    let p = crate::text::chars_of(path);
    match file_name_span_exec(style, &p) {
        Some(c) => {
            let dot = last_dot_exec(&p, c.0, c.1);
            if dot.is_none() || dot == Some(0usize) {
                (Some(String::from_str(path.substring_char(c.0, c.1))), None)
            } else {
                let d: usize = dot.unwrap();
                let cut: usize = c.0 + d;
                let stem = String::from_str(path.substring_char(c.0, cut));
                let ext = String::from_str(path.substring_char(cut + 1, c.1));
                assert(stem@ =~= p@.subrange(c.0 as int, c.1 as int).take(d as int));
                assert(ext@ =~= p@.subrange(c.0 as int, c.1 as int).skip(d + 1));
                (Some(stem), Some(ext))
            }
        },
        None => (None, None),
    }
}

/// The joining separator, as a string.
fn main_sep_str(style: PathStyle) -> (r: &'static str)
    ensures
        r@ == seq![main_sep(style)],
{
    proof {
        reveal_strlit("/");
        reveal_strlit("\\");
    }
    let r = match style {
        PathStyle::Unix => "/",
        PathStyle::Windows => "\\",
    };
    assert(r@ =~= seq![main_sep(style)]);
    r
}

/// `base` with `name` appended, as a path.
pub fn join(style: PathStyle, base: &str, name: &str) -> (r: String)
    ensures
        r@ == join_spec(style, base@, name@),
{
    let nb = crate::text::chars_of(name);
    let bb = crate::text::chars_of(base);
    let name_prefix = prefix_len_exec(style, &nb);
    if name_prefix > 0 {
        return String::from_str(name);
    }
    if nb.len() > 0 && is_sep_exec(style, nb[0]) {
        let base_prefix = prefix_len_exec(style, &bb);
        let mut out = String::from_str(base.substring_char(0, base_prefix));
        out.append(name);
        return out;
    }
    let mut out = String::from_str(base);
    let base_prefix = prefix_len_exec(style, &bb);
    if bb.len() > 0 && !is_sep_exec(style, bb[bb.len() - 1]) && base_prefix != bb.len() {
        out.append(main_sep_str(style));
        out.append(name);
    } else {
        out.append(name);
    }
    out
}

/// The parent of `path`.
pub fn parent_of(style: PathStyle, path: &str) -> (r: Option<String>)
    ensures
        opt_text(r) == parent_spec(style, path@),
{
    let p = crate::text::chars_of(path);
    let cs = component_spans(style, &p);
    proof {
        lemma_component_bounds(style, p@);
    }
    if cs.len() == 0 {
        return None;
    }
    let last = cs[cs.len() - 1];
    assert(spans_of(cs@)[cs@.len() - 1] == (last.0 as int, last.1 as int));
    if is_prefix_or_root(style, &p, last) {
        return None;
    }
    if cs.len() >= 2 {
        let prev = cs[cs.len() - 2];
        assert(spans_of(cs@)[cs@.len() - 2] == (prev.0 as int, prev.1 as int));
        Some(String::from_str(path.substring_char(0, prev.1)))
    } else {
        Some(String::from_str(path.substring_char(0, 0)))
    }
}

/// Whether the characters of `a` from `s` to `e` equal those of `b` from
/// `t` to `u`.
fn same_piece(a: &Vec<char>, s: usize, e: usize, b: &Vec<char>, t: usize, u: usize) -> (r: bool)
    requires
        s <= e <= a@.len(),
        t <= u <= b@.len(),
    ensures
        r == (a@.subrange(s as int, e as int) == b@.subrange(t as int, u as int)),
{
    if e - s != u - t {
        assert(a@.subrange(s as int, e as int).len() != b@.subrange(t as int, u as int).len());
        return false;
    }
    let ghost x = a@.subrange(s as int, e as int);
    let ghost y = b@.subrange(t as int, u as int);
    let mut k: usize = 0;
    while k < e - s
        invariant
            s <= e <= a@.len(),
            t <= u <= b@.len(),
            e - s == u - t,
            k <= e - s,
            x == a@.subrange(s as int, e as int),
            y == b@.subrange(t as int, u as int),
            forall|j: int| 0 <= j < k ==> x[j] == y[j],
        decreases e - s - k,
    {
        assert(x[k as int] == a@[s + k]);
        assert(y[k as int] == b@[t + k]);
        if a[s + k] != b[t + k] {
            return false;
        }
        k = k + 1;
    }
    assert(x =~= y);
    true
}

/// The code of `c` with ASCII letters taken as capitals.
fn ascii_upper_exec(c: char) -> (r: u32)
    ensures
        r == ascii_upper(c),
{
    if 'a' <= c && c <= 'z' {
        (c as u32) - 32
    } else {
        c as u32
    }
}

/// Whether component `c` of `p` and component `d` of `q` are the same.
fn same_component_exec(
    style: PathStyle,
    p: &Vec<char>,
    c: (usize, usize),
    q: &Vec<char>,
    d: (usize, usize),
) -> (r: bool)
    requires
        c.0 < c.1 <= p@.len(),
        d.0 < d.1 <= q@.len(),
    ensures
        r == same_component(style, p@, (c.0 as int, c.1 as int), q@, (d.0 as int, d.1 as int)),
{
    let pp = prefix_len_exec(style, p);
    let qp = prefix_len_exec(style, q);
    let c_prefix = pp > 0 && c.0 == 0 && c.1 == pp;
    let d_prefix = qp > 0 && d.0 == 0 && d.1 == qp;
    if c_prefix || d_prefix {
        return c_prefix && d_prefix && ascii_upper_exec(p[0]) == ascii_upper_exec(q[0]);
    }
    let ghost tc = span_text(p@, (c.0 as int, c.1 as int));
    let ghost td = span_text(q@, (d.0 as int, d.1 as int));
    assert(c.1 - c.0 == 1 ==> tc[0] == p@[c.0 as int]);
    assert(d.1 - d.0 == 1 ==> td[0] == q@[d.0 as int]);
    let c_root = c.1 - c.0 == 1 && is_sep_exec(style, p[c.0]);
    let d_root = d.1 - d.0 == 1 && is_sep_exec(style, q[d.0]);
    if c_root || d_root {
        return c_root && d_root;
    }
    same_piece(p, c.0, c.1, q, d.0, d.1)
}

/// Whether the components of `b` lead those of `p`.
fn components_lead(
    style: PathStyle,
    p: &Vec<char>,
    cp: &Vec<(usize, usize)>,
    b: &Vec<char>,
    cb: &Vec<(usize, usize)>,
) -> (r: bool)
    requires
        spans_of(cp@) == components(style, p@),
        spans_of(cb@) == components(style, b@),
    ensures
        r == starts_with_components(style, p@, b@),
{
    proof {
        lemma_component_bounds(style, p@);
        lemma_component_bounds(style, b@);
    }
    let ghost sp = components(style, p@);
    let ghost sb = components(style, b@);
    assert(sp.len() == cp@.len());
    assert(sb.len() == cb@.len());
    if cb.len() > cp.len() {
        return false;
    }
    let mut k: usize = 0;
    while k < cb.len()
        invariant
            cb@.len() <= cp@.len(),
            k <= cb@.len(),
            spans_of(cp@) == sp,
            spans_of(cb@) == sb,
            sp.len() == cp@.len(),
            sb.len() == cb@.len(),
            sp == components(style, p@),
            sb == components(style, b@),
            forall|m: int| 0 <= m < sp.len() ==> 0 <= #[trigger] sp[m].0 < sp[m].1 <= p@.len(),
            forall|m: int| 0 <= m < sb.len() ==> 0 <= #[trigger] sb[m].0 < sb[m].1 <= b@.len(),
            forall|m: int| 0 <= m < k ==> #[trigger] same_component(style, p@, sp[m], b@, sb[m]),
        decreases cb@.len() - k,
    {
        let x = cp[k];
        let y = cb[k];
        assert(sp[k as int] == (x.0 as int, x.1 as int));
        assert(sb[k as int] == (y.0 as int, y.1 as int));
        let same = same_component_exec(style, p, x, b, y);
        if !same {
            proof {
                if starts_with_components(style, p@, b@) {
                    assert(same_component(
                        style,
                        p@,
                        components(style, p@)[k as int],
                        b@,
                        components(style, b@)[k as int],
                    ));
                }
            }
            return false;
        }
        k = k + 1;
    }
    true
}

/// The text of `p` past its first `k` components, as relative paths give
/// it.
pub open spec fn text_past(s: PathStyle, p: Seq<char>, k: int) -> Seq<char> {
    let cp = components(s, p);
    if k == 0 {
        p.take(if cp.len() > 0 { cp.last().1 } else { 0 })
    } else if k == cp.len() {
        seq![]
    } else {
        p.subrange(cp[k].0, cp.last().1)
    }
}

fn text_past_exec(
    style: PathStyle,
    path: &str,
    p: &Vec<char>,
    cp: &Vec<(usize, usize)>,
    k: usize,
) -> (r: String)
    requires
        p@ == path@,
        spans_of(cp@) == components(style, p@),
        k <= cp@.len(),
    ensures
        r@ == text_past(style, path@, k as int),
{
    proof {
        lemma_component_bounds(style, p@);
    }
    let ghost sp = components(style, p@);
    assert(sp.len() == cp@.len());
    if k == 0 {
        let end: usize = if cp.len() > 0 {
            cp[cp.len() - 1].1
        } else {
            0
        };
        if cp.len() > 0 {
            assert(spans_of(cp@)[cp@.len() - 1].1 == end);
        }
        String::from_str(path.substring_char(0, end))
    } else if k == cp.len() {
        String::from_str(path.substring_char(0, 0))
    } else {
        let first = cp[k];
        let last = cp[cp.len() - 1];
        assert(spans_of(cp@)[k as int] == (first.0 as int, first.1 as int));
        assert(spans_of(cp@)[cp@.len() - 1] == (last.0 as int, last.1 as int));
        assert(first.0 <= last.1) by {
            lemma_components_ordered(style, p@);
            if k < cp.len() - 1 {
                assert(sp[k as int].1 <= sp[cp@.len() - 1].0);
            }
        }
        String::from_str(path.substring_char(first.0, last.1))
    }
}

/// `path` relative to `base`, when the components of `base` lead those of
/// `path`.
pub fn strip_prefix(style: PathStyle, path: &str, base: &str) -> (r: Option<String>)
    ensures
        opt_text(r) == strip_prefix_spec(style, path@, base@),
{
    let p = crate::text::chars_of(path);
    let b = crate::text::chars_of(base);
    let cp = component_spans(style, &p);
    let cb = component_spans(style, &b);
    if !components_lead(style, &p, &cp, &b, &cb) {
        return None;
    }
    assert(components(style, b@).len() == cb@.len());
    assert(components(style, p@).len() == cp@.len());
    let r = text_past_exec(style, path, &p, &cp, cb.len());
    Some(r)
}

/// `s` with every backslash turned into a forward slash.
pub open spec fn forward_slashes(s: Seq<char>) -> Seq<char> {
    s.map_values(|c: char| if c == '\\' { '/' } else { c })
}

/// `s` with every backslash turned into a forward slash.
pub fn to_forward_slashes(s: &str) -> (r: String)
    ensures
        r@ == forward_slashes(s@),
{
    let n: usize = s.unicode_len();
    let mut out = String::from_str(s.substring_char(0, 0));
    let mut i: usize = 0;
    while i < n
        invariant
            n == s@.len(),
            i <= n,
            out@ == forward_slashes(s@.take(i as int)),
        decreases n - i,
    {
        let c = s.get_char(i);
        proof {
            reveal_strlit("/");
        }
        if c == '\\' {
            out.append("/");
        } else {
            let one = s.substring_char(i, i + 1);
            assert(one@ =~= seq![c]);
            out.append(one);
        }
        assert(forward_slashes(s@.take(i + 1)) =~= forward_slashes(s@.take(i as int)).push(
            if c == '\\' { '/' } else { c },
        ));
        i = i + 1;
    }
    assert(s@.take(n as int) =~= s@);
    out
}

/// Scanning a stretch without separators to the end yields at most the
/// one piece that began at `start`.
proof fn lemma_parts_scan_without_sep(s: PathStyle, p: Seq<char>, base: int, start: int, i: int)
    requires
        0 <= start <= i <= p.len(),
        forall|j: int| i <= j < p.len() ==> !is_sep(s, p[j]),
    ensures
        parts_scan(s, p, base, start, i) == (if is_kept(p, base, start, p.len() as int) {
            seq![(start, p.len() as int)]
        } else {
            seq![]
        }),
    decreases p.len() - i,
{
    if i < p.len() {
        lemma_parts_scan_without_sep(s, p, base, start, i + 1);
    }
}

/// A text without separators and without a prefix that is neither empty,
/// `.` nor `..` is its own file name.
pub proof fn lemma_plain_name_is_file_name(s: PathStyle, name: Seq<char>)
    requires
        name.len() > 0,
        forall|j: int| 0 <= j < name.len() ==> !is_sep(s, #[trigger] name[j]),
        prefix_len(s, name) == 0,
        name != seq!['.'],
        name != seq!['.', '.'],
    ensures
        file_name_spec(s, name) == Some(name),
{
    lemma_parts_scan_without_sep(s, name, 0, 0, 0);
    assert(!has_root(s, name));
    assert(components(s, name) =~= seq![(0int, name.len() as int)]);
    assert(span_text(name, (0int, name.len() as int)) =~= name);
    assert(!is_root_text(s, name));
}

/// The pieces that a scan yields hold no separator, provided the piece
/// under way holds none so far.
proof fn lemma_parts_scan_pieces_without_sep(s: PathStyle, p: Seq<char>, base: int, start: int, i: int)
    requires
        0 <= start <= i <= p.len(),
        forall|j: int| start <= j < i ==> !is_sep(s, p[j]),
    ensures
        forall|k: int, j: int|
            #![trigger parts_scan(s, p, base, start, i)[k], p[j]]
            0 <= k < parts_scan(s, p, base, start, i).len() && parts_scan(s, p, base, start, i)[k].0 <= j
                < parts_scan(s, p, base, start, i)[k].1 ==> !is_sep(s, p[j]),
    decreases p.len() - i,
{
    lemma_parts_scan_bounds(s, p, base, start, i);
    if i < p.len() {
        if is_sep(s, p[i]) {
            lemma_parts_scan_pieces_without_sep(s, p, base, i + 1, i + 1);
            let head: Seq<Span> = if is_kept(p, base, start, i) { seq![(start, i)] } else { seq![] };
            let rest = parts_scan(s, p, base, i + 1, i + 1);
            assert(parts_scan(s, p, base, start, i) == head + rest);
            assert forall|k: int, j: int|
                #![trigger parts_scan(s, p, base, start, i)[k], p[j]]
                0 <= k < parts_scan(s, p, base, start, i).len() && parts_scan(s, p, base, start, i)[k].0
                    <= j < parts_scan(s, p, base, start, i)[k].1 implies !is_sep(s, p[j]) by {
                if k >= head.len() {
                    assert(parts_scan(s, p, base, start, i)[k] == rest[k - head.len()]);
                }
            }
        } else {
            lemma_parts_scan_pieces_without_sep(s, p, base, start, i + 1);
            assert(parts_scan(s, p, base, start, i) == parts_scan(s, p, base, start, i + 1));
        }
    }
}

/// A file name holds no separator and is not empty.
pub proof fn lemma_file_name_is_plain(s: PathStyle, p: Seq<char>)
    requires
        file_name_spec(s, p) is Some,
    ensures
        file_name_spec(s, p)->0.len() > 0,
        forall|j: int|
            0 <= j < file_name_spec(s, p)->0.len() ==> !is_sep(s, #[trigger] file_name_spec(s, p)->0[j]),
{
    lemma_component_bounds(s, p);
    let pl = prefix_len(s, p);
    lemma_parts_scan_pieces_without_sep(s, p, pl, pl, pl);
    let cs = components(s, p);
    let c = cs.last();
    let f = span_text(p, c);
    let lead = lead_spans(s, p);
    if cs.len() - 1 < lead.len() {
        // the last component is the prefix or the root, never a file name
        assert(c == lead[cs.len() - 1]);
        if pl > 0 && cs.len() - 1 == 0 {
            assert(is_prefix_span(s, p, c));
        } else {
            assert(c == (pl, pl + 1));
            assert(f.len() == 1 && f[0] == p[pl]);
            assert(is_root_text(s, f));
        }
    } else {
        assert(c == pieces(s, p)[cs.len() - 1 - lead.len()]);
        assert forall|j: int| 0 <= j < f.len() implies !is_sep(s, #[trigger] f[j]) by {
            assert(f[j] == p[c.0 + j]);
        }
    }
}

/// A path that is its own file name has neither a prefix nor a root.
pub proof fn lemma_file_name_stands_alone(s: PathStyle, name: Seq<char>)
    requires
        file_name_spec(s, name) == Some(name),
    ensures
        prefix_len(s, name) == 0,
        !has_root(s, name),
{
    lemma_component_bounds(s, name);
    let pl = prefix_len(s, name);
    let cs = components(s, name);
    let c = cs.last();
    let f = span_text(name, c);
    let lead = lead_spans(s, name);
    assert(f == name);
    assert(c.1 - c.0 == name.len());
    assert(c.0 == 0);
    if cs.len() - 1 < lead.len() {
        assert(c == lead[cs.len() - 1]);
        if pl > 0 && cs.len() - 1 == 0 {
            assert(is_prefix_span(s, name, c));
        } else {
            assert(c == (pl, pl + 1));
            assert(f.len() == 1 && f[0] == name[pl]);
            assert(is_root_text(s, f));
        }
    } else {
        assert(c == pieces(s, name)[cs.len() - 1 - lead.len()]);
    }
}

/// The capital letters, in order.
pub open spec fn capitals() -> Seq<char> {
    "ABCDEFGHIJKLMNOPQRSTUVWXYZ"@
}

/// A drive letter as it is compared: lowercase ASCII letters as their
/// capitals.
pub open spec fn drive_letter_key(c: char) -> char {
    if 'a' <= c && c <= 'z' {
        capitals()[c as int - 'a' as int]
    } else {
        c
    }
}

/// The text by which component `c` of `p` is compared: a drive as its
/// capital letter and `:`, a root as the joining separator, any other
/// component as its text.
pub open spec fn component_key(s: PathStyle, p: Seq<char>, c: Span) -> Seq<char> {
    if is_prefix_span(s, p, c) {
        seq![drive_letter_key(p[0]), ':']
    } else if is_root_text(s, span_text(p, c)) {
        seq![main_sep(s)]
    } else {
        span_text(p, c)
    }
}

/// The keys of the first `n` of the components `cs` of `p`, with the
/// joining separator between two components of which the first is
/// neither a prefix nor a root.
pub open spec fn keys_of(s: PathStyle, p: Seq<char>, cs: Seq<Span>, n: int) -> Seq<char>
    decreases n,
{
    if n <= 0 {
        seq![]
    } else {
        let glue: Seq<char> = if n >= 2 && !is_prefix_span(s, p, cs[n - 2]) && !is_root_text(
            s,
            span_text(p, cs[n - 2]),
        ) {
            seq![main_sep(s)]
        } else {
            seq![]
        };
        keys_of(s, p, cs, n - 1) + glue + component_key(s, p, cs[n - 1])
    }
}

/// The text by which paths are compared: two paths with the same
/// components (drives compared without regard to case, roots whatever
/// separator they are written with) have the same key, whatever
/// redundant separators and `.` pieces they are written with.
pub open spec fn path_key(s: PathStyle, p: Seq<char>) -> Seq<char> {
    keys_of(s, p, components(s, p), components(s, p).len() as int)
}

/// The key of `path`.
pub fn path_key_of(style: PathStyle, path: &str) -> (r: String)
    ensures
        r@ == path_key(style, path@),
{
    let p = crate::text::chars_of(path);
    let cs = component_spans(style, &p);
    proof {
        lemma_component_bounds(style, p@);
        reveal_strlit("ABCDEFGHIJKLMNOPQRSTUVWXYZ");
        reveal_strlit(":");
    }
    let ghost sp = components(style, p@);
    assert(sp.len() == cs@.len());
    let pl = prefix_len_exec(style, &p);
    let mut out = String::new();
    let mut k: usize = 0;
    while k < cs.len()
        invariant
            p@ == path@,
            pl == prefix_len(style, p@),
            sp == components(style, p@),
            spans_of(cs@) == sp,
            sp.len() == cs@.len(),
            k <= cs@.len(),
            forall|m: int| 0 <= m < sp.len() ==> 0 <= #[trigger] sp[m].0 < sp[m].1 <= p@.len(),
            out@ == keys_of(style, p@, sp, k as int),
        decreases cs@.len() - k,
    {
        let c = cs[k];
        assert(sp[k as int] == (c.0 as int, c.1 as int));
        let ghost before = out@;
        if k >= 1 {
            let prev = cs[k - 1];
            assert(sp[k - 1] == (prev.0 as int, prev.1 as int));
            if !is_prefix_or_root(style, &p, prev) {
                out.append(main_sep_str(style));
            }
        }
        let ghost glued = out@;
        assert(glued == before + (if k >= 1 && !is_prefix_span(style, p@, sp[k - 1]) && !is_root_text(
            style,
            span_text(p@, sp[k - 1]),
        ) {
            seq![main_sep(style)]
        } else {
            seq![]
        }));
        let ghost t = span_text(p@, (c.0 as int, c.1 as int));
        assert(c.1 - c.0 == 1 ==> t[0] == p@[c.0 as int]);
        if pl > 0 && c.0 == 0 && c.1 == pl {
            let d = p[0];
            let letter = if 'a' <= d && d <= 'z' {
                let i: usize = ((d as u32) - ('a' as u32)) as usize;
                let capitals_text = "ABCDEFGHIJKLMNOPQRSTUVWXYZ";
                proof {
                    reveal_strlit("ABCDEFGHIJKLMNOPQRSTUVWXYZ");
                }
                assert(capitals_text@ == capitals());
                assert(capitals_text@.len() == 26);
                assert(i < 26);
                capitals_text.substring_char(i, i + 1)
            } else {
                path.substring_char(0, 1)
            };
            assert(letter@ =~= seq![drive_letter_key(p@[0])]);
            out.append(letter);
            proof {
                reveal_strlit(":");
            }
            out.append(":");
            assert(is_prefix_span(style, p@, sp[k as int]));
            assert(component_key(style, p@, sp[k as int]) =~= seq![drive_letter_key(p@[0]), ':']);
            assert(out@ =~= glued + component_key(style, p@, sp[k as int]));
        } else if c.1 - c.0 == 1 && is_sep_exec(style, p[c.0]) {
            out.append(main_sep_str(style));
            assert(!is_prefix_span(style, p@, sp[k as int]));
            assert(is_root_text(style, t));
            assert(out@ =~= glued + component_key(style, p@, sp[k as int]));
        } else {
            out.append(path.substring_char(c.0, c.1));
            assert(!is_prefix_span(style, p@, sp[k as int]));
            assert(!is_root_text(style, t));
            assert(out@ =~= glued + component_key(style, p@, sp[k as int]));
        }
        assert(out@ == glued + component_key(style, p@, sp[k as int]));
        assert(keys_of(style, p@, sp, k + 1) == keys_of(style, p@, sp, k as int) + (if k + 1 >= 2
            && !is_prefix_span(style, p@, sp[k - 1]) && !is_root_text(style, span_text(p@, sp[k - 1])) {
            seq![main_sep(style)]
        } else {
            seq![]
        }) + component_key(style, p@, sp[k as int]));
        assert(out@ =~= keys_of(style, p@, sp, k + 1));
        k = k + 1;
    }
    out
}

/// Scanning `b + t`, where `t` begins with a separator, from inside `b`
/// yields what scanning `b` yields, then what scanning past that separator
/// yields.
proof fn lemma_parts_scan_then_sep(
    s: PathStyle,
    b: Seq<char>,
    t: Seq<char>,
    base: int,
    start: int,
    i: int,
)
    requires
        0 <= start <= i <= b.len(),
        t.len() > 0,
        is_sep(s, t[0]),
    ensures
        parts_scan(s, b + t, base, start, i) == parts_scan(s, b, base, start, i) + parts_scan(
            s,
            b + t,
            base,
            b.len() + 1 as int,
            b.len() + 1 as int,
        ),
    decreases b.len() - i,
{
    let p = b + t;
    assert(p.subrange(start, i) =~= b.subrange(start, i));
    if i < b.len() {
        assert(p[i] == b[i]);
        if is_sep(s, b[i]) {
            lemma_parts_scan_then_sep(s, b, t, base, i + 1, i + 1);
        } else {
            lemma_parts_scan_then_sep(s, b, t, base, start, i + 1);
        }
    } else {
        assert(p[i] == t[0]);
        assert(p.subrange(start, b.len() as int) =~= b.subrange(start, b.len() as int));
    }
}

/// Scanning `b + t`, where `b` ends in a separator, from inside `b` before
/// that separator yields what scanning `b` yields, then what scanning `t`
/// from its start yields.
proof fn lemma_parts_scan_after_sep(
    s: PathStyle,
    b: Seq<char>,
    t: Seq<char>,
    base: int,
    start: int,
    i: int,
)
    requires
        0 <= start <= i < b.len(),
        is_sep(s, b.last()),
    ensures
        parts_scan(s, b + t, base, start, i) == parts_scan(s, b, base, start, i) + parts_scan(
            s,
            b + t,
            base,
            b.len() as int,
            b.len() as int,
        ),
    decreases b.len() - i,
{
    let p = b + t;
    assert(p.subrange(start, i) =~= b.subrange(start, i));
    assert(p[i] == b[i]);
    if is_sep(s, b[i]) {
        if i + 1 < b.len() {
            lemma_parts_scan_after_sep(s, b, t, base, i + 1, i + 1);
        } else {
            assert(parts_scan(s, b, base, i + 1, i + 1) =~= Seq::<Span>::empty());
        }
    } else {
        assert(i + 1 < b.len());
        lemma_parts_scan_after_sep(s, b, t, base, start, i + 1);
    }
}

/// Whether `x` is a plain name: not empty, neither `.` nor `..`, and
/// without separators or a prefix.
pub open spec fn is_plain_name(s: PathStyle, x: Seq<char>) -> bool {
    &&& x.len() > 0
    &&& x != seq!['.']
    &&& x != seq!['.', '.']
    &&& prefix_len(s, x) == 0
    &&& forall|j: int| 0 <= j < x.len() ==> !is_sep(s, #[trigger] x[j])
}

/// Joining a plain name to `base` gives a path that begins with `base`,
/// whose components are those of `base` followed by one holding the name,
/// and whose file name is the name.
pub proof fn lemma_join_plain_name(s: PathStyle, base: Seq<char>, x: Seq<char>)
    requires
        is_plain_name(s, x),
    ensures
        ({
            let p = join_spec(s, base, x);
            &&& p.take(base.len() as int) == base
            &&& p.len() >= base.len() + x.len()
            &&& p.skip(p.len() - x.len()) == x
            &&& components(s, p) == components(s, base) + seq![((p.len() - x.len()) as int, p.len() as int)]
            &&& file_name_spec(s, p) == Some(x)
        }),
{
    let p = join_spec(s, base, x);
    let pl = prefix_len(s, base);
    assert(!has_root(s, x));
    let glued = base.len() > 0 && !is_sep(s, base.last()) && pl != base.len();
    let k: int = if glued { base.len() + 1 as int } else { base.len() as int };
    if glued {
        assert(p =~= base + (seq![main_sep(s)] + x));
    } else {
        assert(p =~= base + x);
    }
    assert(p.take(base.len() as int) =~= base);
    assert(p.skip(k) =~= x);
    // the prefix and the root of `p` are those of `base`
    if base.len() >= 2 {
        assert(p[0] == base[0] && p[1] == base[1]);
    } else if base.len() == 1 {
        if glued {
            assert(p[1] == main_sep(s));
        } else {
            assert(p[0] == base[0]);
        }
    } else {
        assert(p =~= x);
    }
    assert(prefix_len(s, p) == pl);
    if base.len() > pl {
        assert(p[pl] == base[pl]);
    } else {
        assert(p[pl] == x[0]);
    }
    assert(has_root(s, p) == has_root(s, base));
    assert(lead_spans(s, p) == lead_spans(s, base));
    // the pieces of `p` are those of `base`, then the name
    lemma_parts_scan_without_sep(s, p, pl, k, k);
    assert(p.subrange(k, p.len() as int) =~= x);
    assert(parts_scan(s, p, pl, k, k) =~= seq![(k, p.len() as int)]);
    if glued {
        lemma_parts_scan_then_sep(s, base, seq![main_sep(s)] + x, pl, pl, pl);
    } else if base.len() > pl {
        lemma_parts_scan_after_sep(s, base, x, pl, pl, pl);
    } else {
        assert(parts_scan(s, base, pl, pl, pl) =~= Seq::<Span>::empty());
    }
    assert(pieces(s, p) =~= pieces(s, base) + seq![(k, p.len() as int)]);
    lemma_component_bounds(s, p);
    lemma_component_bounds(s, base);
    assert(components(s, p) =~= components(s, base) + seq![(k, p.len() as int)]);
    let c = (k, p.len() as int);
    assert(components(s, p).last() == c);
    assert(span_text(p, c) =~= x);
    if pl > 0 {
        assert(c.0 >= pl);
    }
    assert(!is_prefix_span(s, p, c));
    assert(!is_root_text(s, x)) by {
        assert(!is_sep(s, x[0]));
    }
}

/// Every piece that a scan yields ends at the end of `p` or right before
/// a separator.
proof fn lemma_parts_scan_ends(s: PathStyle, p: Seq<char>, base: int, start: int, i: int)
    requires
        0 <= start <= i <= p.len(),
    ensures
        forall|k: int| 0 <= k < parts_scan(s, p, base, start, i).len() ==> {
            let e = (#[trigger] parts_scan(s, p, base, start, i)[k]).1;
            e == p.len() || (0 <= e < p.len() && is_sep(s, p[e]))
        },
    decreases p.len() - i,
{
    if i < p.len() {
        if is_sep(s, p[i]) {
            lemma_parts_scan_ends(s, p, base, i + 1, i + 1);
            let head: Seq<Span> = if is_kept(p, base, start, i) { seq![(start, i)] } else { seq![] };
            let rest = parts_scan(s, p, base, i + 1, i + 1);
            assert(parts_scan(s, p, base, start, i) == head + rest);
            assert forall|k: int| 0 <= k < parts_scan(s, p, base, start, i).len() implies {
                let e = (#[trigger] parts_scan(s, p, base, start, i)[k]).1;
                e == p.len() || (0 <= e < p.len() && is_sep(s, p[e]))
            } by {
                if k >= head.len() {
                    assert(parts_scan(s, p, base, start, i)[k] == rest[k - head.len()]);
                }
            }
        } else {
            lemma_parts_scan_ends(s, p, base, start, i + 1);
            assert(parts_scan(s, p, base, start, i) == parts_scan(s, p, base, start, i + 1));
        }
    }
}

/// The parent of `p` is a leading part of `p` whose components are those
/// of `p` but the last; it ends where its last component ends, and it is
/// empty when it has no component.
pub proof fn lemma_parent_components(s: PathStyle, p: Seq<char>)
    requires
        parent_spec(s, p) is Some,
    ensures
        ({
            let q = parent_spec(s, p)->0;
            &&& q.len() <= p.len()
            &&& q == p.take(q.len() as int)
            &&& components(s, q) == components(s, p).drop_last()
            &&& components(s, q).len() == 0 ==> q.len() == 0
            &&& components(s, q).len() > 0 ==> components(s, q).last().1 == q.len()
        }),
{
    lemma_component_bounds(s, p);
    lemma_components_ordered(s, p);
    let cs = components(s, p);
    let n = cs.len();
    let q = parent_spec(s, p)->0;
    let pl = prefix_len(s, p);
    let lead = lead_spans(s, p);
    if n == 1 {
        assert(q =~= Seq::<char>::empty());
        assert(components(s, q) =~= Seq::<Span>::empty());
        assert(cs.drop_last() =~= Seq::<Span>::empty());
        return;
    }
    let e = cs[n - 2].1;
    assert(q =~= p.take(e));
    if n - 2 < lead.len() {
        // the component before the last is the prefix or the root
        if pl > 0 && n - 2 == 0 {
            assert(cs[0] == (0int, pl));
            assert(q.len() == pl);
            assert(q[0] == p[0] && q[1] == p[1]);
            assert(prefix_len(s, q) == pl);
            assert(!has_root(s, q));
            assert(parts_scan(s, q, pl, pl, pl) =~= Seq::<Span>::empty());
            assert(components(s, q) =~= seq![(0int, pl)]);
            assert(cs.drop_last() =~= seq![(0int, pl)]);
        } else {
            assert(has_root(s, p));
            assert(cs[n - 2] == (pl, pl + 1));
            assert(lead.len() == n - 1);
            assert(q.len() == pl + 1);
            if pl > 0 {
                assert(q[0] == p[0] && q[1] == p[1]);
            } else if q.len() >= 2 {
                assert(q[1] == p[1]);
                assert(q[0] == p[0]);
            }
            assert(prefix_len(s, q) == pl);
            assert(q[pl] == p[pl]);
            assert(has_root(s, q));
            assert(parts_scan(s, q, pl, pl + 1, pl + 1) =~= Seq::<Span>::empty());
            assert(parts_scan(s, q, pl, pl, pl) =~= Seq::<Span>::empty());
            assert(lead_spans(s, q) == lead);
            assert(components(s, q) =~= lead);
            assert(cs.drop_last() =~= lead);
        }
    } else {
        // the component before the last is a piece, which a separator ends
        let pcs = pieces(s, p);
        lemma_parts_scan_ends(s, p, pl, pl, pl);
        assert(cs[n - 2] == pcs[n - 2 - lead.len()]);
        assert(cs[n - 1].0 >= e);
        assert(e < p.len());
        assert(is_sep(s, p[e]));
        let t = p.skip(e);
        assert(p =~= q + t);
        assert(t[0] == p[e]);
        assert(cs[n - 2].0 >= pl);
        assert(e > pl);
        if q.len() >= 2 {
            assert(q[0] == p[0] && q[1] == p[1]);
        }
        assert(prefix_len(s, q) == pl);
        assert(q[pl] == p[pl]);
        assert(lead_spans(s, q) == lead);
        lemma_parts_scan_then_sep(s, q, t, pl, pl, pl);
        let pb = pieces(s, q);
        let r = parts_scan(s, p, pl, e + 1, e + 1);
        assert(pcs == pb + r);
        lemma_parts_scan_bounds(s, q, pl, pl, pl);
        lemma_parts_scan_bounds(s, p, pl, e + 1, e + 1);
        assert(cs == lead + pb + r);
        // the last component lies in `r`, the one before it does not
        if r.len() == 0 {
            assert(cs =~= lead + pb);
            assert(cs[n - 1] == pb[n - 1 - lead.len()]);
            assert(false);
        }
        if r.len() >= 2 {
            assert(cs[n - 2] == r[r.len() - 2]);
            assert(false);
        }
        assert(cs.drop_last() =~= lead + pb);
        lemma_component_bounds(s, q);
        assert(components(s, q) =~= lead + pb);
        assert(components(s, q).last() == cs[n - 2]);
    }
}

} // verus!
