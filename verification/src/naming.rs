//! The name a mismatched file should be renamed to, and the numbering
//! that keeps renames from colliding.

use vstd::prelude::*;
use vstd::hash_set::StringHashSet;
use crate::detect::{
    accepted_for, is_known_extension, is_known_extension_spec, is_small_or_digit, lemma_canonical_shape, list_contains,
    lookup_spec,
};
use crate::paths::{
    components, extension_spec, file_name_of, file_name_spec, file_stem_spec, has_root, is_name_text,
    is_plain_name, is_sep, join, join_spec, last_dot, last_dot_before, lemma_file_name_is_plain,
    lemma_file_name_stands_alone, lemma_join_plain_name, lemma_last_dot_bounds, lemma_plain_name_is_file_name,
    main_sep, name_extension, opt_text, path_key, path_key_of, prefix_len, stem_and_extension_of, stem_len,
    PathStyle,
};
use crate::text::{all_ascii, ascii_lower, lower_text, to_lowercase};

verus! {

/// The text of an optional string, or nothing.
pub open spec fn or_empty(o: Option<Seq<char>>) -> Seq<char> {
    match o {
        Some(t) => t,
        None => seq![],
    }
}

/// An optional text, lowercased.
pub open spec fn lowered(o: Option<Seq<char>>) -> Option<Seq<char>> {
    match o {
        Some(t) => Some(lower_text(t)),
        None => None,
    }
}

/// The text of an optional string slice.
pub open spec fn opt_str_text(o: Option<&str>) -> Option<Seq<char>> {
    match o {
        Some(s) => Some(s@),
        None => None,
    }
}

/// Whether a stem whose own (lowercased) extension is `prior` already
/// ends in an extension accepted for the format `canonical`.
pub open spec fn collapses(canonical: Seq<char>, prior: Option<Seq<char>>) -> bool {
    match prior {
        Some(e) => match lookup_spec(canonical) {
            Some(f) => f.1.contains(e),
            None => false,
        },
        None => false,
    }
}

/// The name suggested for the file at `p` detected as `canonical`, given
/// the lowercased extension of its name (`current`) and the lowercased
/// extension of its stem (`prior`):
/// - no extension, or one that no format accepts: the canonical extension
///   is appended to the whole file name;
/// - a known extension: it is replaced by the canonical one, except that
///   a stem already ending in an extension accepted for the same format is
///   kept as it is (one level only).
pub open spec fn suggestion(
    s: PathStyle,
    p: Seq<char>,
    canonical: Seq<char>,
    current: Option<Seq<char>>,
    prior: Option<Seq<char>>,
) -> Seq<char> {
    let file = or_empty(file_name_spec(s, p));
    let stem = or_empty(file_stem_spec(s, p));
    let dotted = seq!['.'] + canonical;
    match current {
        None => file + dotted,
        Some(e) => if !is_known_extension_spec(e) {
            file + dotted
        } else if collapses(canonical, prior) {
            stem
        } else {
            stem + dotted
        },
    }
}

/// The name suggested for the file at `p` detected as `canonical`, under
/// the path rules `s`.
pub open spec fn suggested_name_spec(s: PathStyle, p: Seq<char>, canonical: Seq<char>) -> Seq<char> {
    suggestion(
        s,
        p,
        canonical,
        lowered(extension_spec(s, p)),
        lowered(extension_spec(s, or_empty(file_stem_spec(s, p)))),
    )
}

/// `name` followed by a `.` and `ext`.
fn dotted(name: &str, ext: &str) -> (r: String)
    ensures
        r@ == name@ + seq!['.'] + ext@,
{
    let mut out = String::from_str(name);
    proof {
        reveal_strlit(".");
    }
    out.append(".");
    out.append(ext);
    out
}

/// The name suggested for the file at `path` detected as `canonical`,
/// given the lowercased extension of its file name and the lowercased
/// extension of its stem.
pub fn suggest_name(
    style: PathStyle,
    path: &str,
    canonical: &str,
    current_ext: Option<&str>,
    prior_ext: Option<&str>,
) -> (r: String)
    ensures
        r@ == suggestion(style, path@, canonical@, opt_str_text(current_ext), opt_str_text(prior_ext)),
{
    let (stem, _) = stem_and_extension_of(style, path);
    let file = match file_name_of(style, path) {
        Some(f) => f,
        None => String::new(),
    };
    let stem = match stem {
        Some(s) => s,
        None => String::new(),
    };
    match current_ext {
        None => {
            let r = dotted(file.as_str(), canonical);
            assert(r@ =~= suggestion(style, path@, canonical@, opt_str_text(current_ext), opt_str_text(prior_ext)));
            r
        },
        Some(e) => {
            if !is_known_extension(e) {
                let r = dotted(file.as_str(), canonical);
                assert(r@ =~= suggestion(style, path@, canonical@, opt_str_text(current_ext), opt_str_text(prior_ext)));
                return r;
            }
            let collapse = match prior_ext {
                Some(pe) => match accepted_for(canonical) {
                    Some(accepted) => list_contains(accepted, pe),
                    None => false,
                },
                None => false,
            };
            if collapse {
                stem
            } else {
                let r = dotted(stem.as_str(), canonical);
                assert(r@ =~= suggestion(style, path@, canonical@, opt_str_text(current_ext), opt_str_text(prior_ext)));
                r
            }
        },
    }
}

/// Computes the filename (not full path) a mismatched file should be
/// renamed to, given the format its content was detected as, reading the
/// path by the rules `style`.
///
/// - If the current extension isn't one we recognize at all (`.dup3`,
///   `.bak`, no extension, ...), the canonical extension is appended -
///   nothing about the original name is touched or guessed at.
/// - If the current extension is a *known* extension (just the wrong
///   format), it's replaced. If that replacement would leave two
///   identical real extensions back to back (`vacation.png.mp4` -> a
///   naive replace gives `vacation.png.png`), the redundant one is
///   dropped instead. Only one level of lookback is checked, so
///   `vacation.png.png.mp4` normalizes to `vacation.png.png`.
pub fn compute_suggested_name_in(style: PathStyle, path: &str, canonical: &str) -> (r: String)
    ensures
        r@ == suggested_name_spec(style, path@, canonical@),
{
    let (stem, ext) = stem_and_extension_of(style, path);
    let stem = match stem {
        Some(s) => s,
        None => String::new(),
    };
    let (_, prior) = stem_and_extension_of(style, stem.as_str());
    let current = match ext {
        Some(e) => Some(to_lowercase(e.as_str())),
        None => None,
    };
    let prior = match prior {
        Some(e) => Some(to_lowercase(e.as_str())),
        None => None,
    };
    let current_ref = match &current {
        Some(e) => Some(e.as_str()),
        None => None,
    };
    let prior_ref = match &prior {
        Some(e) => Some(e.as_str()),
        None => None,
    };
    suggest_name(style, path, canonical, current_ref, prior_ref)
}

/// The suggested name for the file at `path`, read by the path rules of
/// the platform this runs on (`PathStyle::native`). Which rules those are
/// is a fact of the platform, so all that is stated here is that the name
/// is the one that one of the two rule sets gives.
pub fn compute_suggested_name(path: &str, canonical: &str) -> (r: String)
    ensures
        exists|s: PathStyle| r@ == suggested_name_spec(s, path@, canonical@),
{
    let style = PathStyle::native();
    compute_suggested_name_in(style, path, canonical)
}

/// The decimal digit for `d` (0 to 9).
pub open spec fn digit_char(d: int) -> char {
    if d == 0 {
        '0'
    } else if d == 1 {
        '1'
    } else if d == 2 {
        '2'
    } else if d == 3 {
        '3'
    } else if d == 4 {
        '4'
    } else if d == 5 {
        '5'
    } else if d == 6 {
        '6'
    } else if d == 7 {
        '7'
    } else if d == 8 {
        '8'
    } else {
        '9'
    }
}

/// `n` written in decimal.
pub open spec fn decimal(n: nat) -> Seq<char>
    decreases n,
{
    if n < 10 {
        seq![digit_char(n as int)]
    } else {
        decimal(n / 10).push(digit_char((n % 10) as int))
    }
}

/// The `n`th numbered variant of the file name `name`: its stem, then
/// ` (n)`, then its extension (if any) after a `.`.
pub open spec fn numbered_name(s: PathStyle, name: Seq<char>, n: nat) -> Seq<char> {
    let numbered = or_empty(file_stem_spec(s, name)) + seq![' ', '('] + decimal(n) + seq![')'];
    match extension_spec(s, name) {
        Some(e) => numbered + seq!['.'] + e,
        None => numbered,
    }
}

/// The `n`th path tried for `name` in `parent`: the name itself first,
/// then its numbered variants from 1 on.
pub open spec fn candidate(s: PathStyle, parent: Seq<char>, name: Seq<char>, n: nat) -> Seq<char> {
    join_spec(s, parent, if n == 0 { name } else { numbered_name(s, name, n) })
}

/// Whether some call of `on_disk` on a string with the characters `t`
/// answered `answer`.
pub open spec fn answered<F: Fn(&str) -> bool>(on_disk: F, t: Seq<char>, answer: bool) -> bool {
    exists|s: &str| s@ == t && #[trigger] call_ensures(on_disk, (s,), answer)
}

/// Whether `t` was found taken: a path with the same components already
/// claimed (the claimed set holds path keys), or `t` reported by `on_disk`
/// to exist.
pub open spec fn found_taken<F: Fn(&str) -> bool>(
    s: PathStyle,
    claimed: Set<Seq<char>>,
    on_disk: F,
    t: Seq<char>,
) -> bool {
    claimed.contains(path_key(s, t)) || answered(on_disk, t, true)
}

/// The decimal digit for `d`.
fn digit_str(d: usize) -> (r: &'static str)
    requires
        d < 10,
    ensures
        r@ == seq![digit_char(d as int)],
{
    proof {
        reveal_strlit("0");
        reveal_strlit("1");
        reveal_strlit("2");
        reveal_strlit("3");
        reveal_strlit("4");
        reveal_strlit("5");
        reveal_strlit("6");
        reveal_strlit("7");
        reveal_strlit("8");
        reveal_strlit("9");
    }
    let r = match d {
        0 => "0",
        1 => "1",
        2 => "2",
        3 => "3",
        4 => "4",
        5 => "5",
        6 => "6",
        7 => "7",
        8 => "8",
        _ => "9",
    };
    assert(r@ =~= seq![digit_char(d as int)]);
    r
}

/// `n` written in decimal.
pub fn decimal_string(n: usize) -> (r: String)
    ensures
        r@ == decimal(n as nat),
    decreases n,
{
    if n < 10 {
        String::from_str(digit_str(n))
    } else {
        let mut s = decimal_string(n / 10);
        s.append(digit_str(n % 10));
        s
    }
}

/// The `n`th numbered variant of a file name with stem `stem` and
/// extension `ext`.
fn numbered(stem: &str, n: usize, ext: &Option<String>) -> (r: String)
    ensures
        r@ == (match ext {
            Some(e) => stem@ + seq![' ', '('] + decimal(n as nat) + seq![')'] + seq!['.'] + e@,
            None => stem@ + seq![' ', '('] + decimal(n as nat) + seq![')'],
        }),
{
    proof {
        reveal_strlit(" (");
        reveal_strlit(")");
        reveal_strlit(".");
    }
    let mut out = String::from_str(stem);
    out.append(" (");
    let digits = decimal_string(n);
    out.append(digits.as_str());
    out.append(")");
    match ext {
        Some(e) => {
            out.append(".");
            out.append(e.as_str());
        },
        None => {},
    }
    out
}

/// Whether resolving `name` in `parent` against the claimed set `before`
/// and the answers of `on_disk` may end in `r` with the claimed set
/// `after`: either `r` is the `n`th candidate, reported free and not
/// claimed, every earlier candidate having been found taken, and its key
/// is now claimed; or `r` is `None`, every candidate up to `usize::MAX`
/// having been found taken, and nothing is claimed. Claimed sets hold
/// path keys, so paths that differ only in how they are written count as
/// one.
pub open spec fn resolution<F: Fn(&str) -> bool>(
    s: PathStyle,
    parent: Seq<char>,
    name: Seq<char>,
    before: Set<Seq<char>>,
    after: Set<Seq<char>>,
    on_disk: F,
    r: Option<Seq<char>>,
) -> bool {
    match r {
        Some(t) => after == before.insert(path_key(s, t)) && exists|n: nat| {
            &&& n <= usize::MAX
            &&& t == candidate(s, parent, name, n)
            &&& answered(on_disk, t, false)
            &&& !before.contains(path_key(s, t))
            &&& forall|k: nat|
                k < n ==> found_taken(s, before, on_disk, #[trigger] candidate(s, parent, name, k))
        },
        None => after == before && forall|k: nat|
            k <= usize::MAX ==> found_taken(s, before, on_disk, #[trigger] candidate(s, parent, name, k)),
    }
}

/// Resolves `parent/suggested_name` against collisions - both files
/// already on disk (as `on_disk` reports them) and other targets already
/// claimed earlier in the same batch - appending " (1)", " (2)", etc.
/// until a free name is found, which is then claimed. A path counts as
/// claimed when one with the same components is (the set holds
/// `path_key`s). Paths are read by the rules `style`. `None` only when every numbered name up to
/// `usize::MAX` is taken.
pub fn resolve_conflict_in(
    style: PathStyle,
    parent: &str,
    suggested_name: &str,
    claimed: &mut StringHashSet,
    on_disk: impl Fn(&str) -> bool,
) -> (r: Option<String>)
    requires
        forall|s: &str| call_requires(on_disk, (s,)),
    ensures
        resolution(style, parent@, suggested_name@, old(claimed)@, final(claimed)@, on_disk, opt_text(r)),
{
    let base = join(style, parent, suggested_name);
    let base_exists = on_disk(base.as_str());
    let base_key = path_key_of(style, base.as_str());
    if !base_exists && !claimed.contains(base_key.as_str()) {
        claimed.insert(base_key);
        assert(resolution(style, parent@, suggested_name@, old(claimed)@, claimed@, on_disk, Some(base@))) by {
            assert(base@ == candidate(style, parent@, suggested_name@, 0nat));
        }
        return Some(base);
    }
    assert(found_taken(style, old(claimed)@, on_disk, candidate(style, parent@, suggested_name@, 0)));
    let (stem, ext) = stem_and_extension_of(style, suggested_name);
    let stem = match stem {
        Some(s) => s,
        None => String::new(),
    };
    let mut n: usize = 1;
    loop
        invariant
            1 <= n,
            forall|s: &str| call_requires(on_disk, (s,)),
            claimed@ == old(claimed)@,
            stem@ == or_empty(file_stem_spec(style, suggested_name@)),
            opt_text(ext) == extension_spec(style, suggested_name@),
            forall|k: nat| k < n ==> found_taken(
                style,
                old(claimed)@,
                on_disk,
                #[trigger] candidate(style, parent@, suggested_name@, k),
            ),
        decreases usize::MAX - n,
    {
        let name = numbered(stem.as_str(), n, &ext);
        let path = join(style, parent, name.as_str());
        assert(name@ =~= numbered_name(style, suggested_name@, n as nat));
        assert(path@ == candidate(style, parent@, suggested_name@, n as nat));
        let taken_on_disk = on_disk(path.as_str());
        let key = path_key_of(style, path.as_str());
        if !taken_on_disk && !claimed.contains(key.as_str()) {
            claimed.insert(key);
            assert(resolution(style, parent@, suggested_name@, old(claimed)@, claimed@, on_disk, Some(path@)))
                by {
                assert(path@ == candidate(style, parent@, suggested_name@, n as nat));
            }
            return Some(path);
        }
        assert(found_taken(style, old(claimed)@, on_disk, candidate(style, parent@, suggested_name@, n as nat)));
        if n == usize::MAX {
            return None;
        }
        n = n + 1;
    }
}

/// `resolve_conflict_in` with the path rules of the platform this runs on
/// (`PathStyle::native`). Which rules those are is a fact of the platform,
/// so all that is stated here is that the resolution is the one that one
/// of the two rule sets gives.
pub fn resolve_conflict(
    parent: &str,
    suggested_name: &str,
    claimed: &mut StringHashSet,
    on_disk: impl Fn(&str) -> bool,
) -> (r: Option<String>)
    requires
        forall|s: &str| call_requires(on_disk, (s,)),
    ensures
        exists|s: PathStyle|
            resolution(s, parent@, suggested_name@, old(claimed)@, final(claimed)@, on_disk, opt_text(r)),
{
    let style = PathStyle::native();
    resolve_conflict_in(style, parent, suggested_name, claimed, on_disk)
}

/// The last `.` before position `i` of `w` is the one at `d` when no `.`
/// follows it.
proof fn lemma_last_dot_is(w: Seq<char>, d: int, i: int)
    requires
        0 <= d < i <= w.len(),
        w[d] == '.',
        forall|j: int| d < j < w.len() ==> w[j] != '.',
    ensures
        last_dot_before(w, i) == d,
    decreases i,
{
    if i - 1 > d {
        lemma_last_dot_is(w, d, i - 1);
    }
}

/// Unless the stem is kept as it is (the collapse of a redundant
/// extension), the suggested name carries exactly the canonical extension
/// of the detected format, for any file that has a name and any canonical
/// extension that holds neither `.` nor a separator, provided the name
/// does not begin like a Windows drive (`a:` followed by the rest).
pub proof fn law_suggestion_carries_canonical_extension(
    s: PathStyle,
    p: Seq<char>,
    canonical: Seq<char>,
    current: Option<Seq<char>>,
    prior: Option<Seq<char>>,
)
    requires
        file_name_spec(s, p) is Some,
        canonical.len() > 0,
        !canonical.contains('.'),
        forall|j: int| 0 <= j < canonical.len() ==> !is_sep(s, #[trigger] canonical[j]),
        prefix_len(s, suggestion(s, p, canonical, current, prior)) == 0,
        !(current matches Some(e) && is_known_extension_spec(e) && collapses(canonical, prior)),
    ensures
        extension_spec(s, suggestion(s, p, canonical, current, prior)) == Some(canonical),
{
    lemma_file_name_is_plain(s, p);
    let f = file_name_spec(s, p)->0;
    lemma_last_dot_bounds(f, f.len() as int);
    let stem = f.take(stem_len(f));
    let x = if current matches Some(e) && is_known_extension_spec(e) { stem } else { f };
    assert(x.len() > 0);
    assert forall|j: int| 0 <= j < x.len() implies !is_sep(s, #[trigger] x[j]) by {
        assert(x[j] == f[j]);
    }
    let w = x + seq!['.'] + canonical;
    assert(w =~= suggestion(s, p, canonical, current, prior));
    assert forall|j: int| 0 <= j < w.len() implies !is_sep(s, #[trigger] w[j]) by {
        if j < x.len() {
            assert(w[j] == x[j]);
        } else if j >= x.len() + 1 {
            assert(w[j] == canonical[j - x.len() - 1]);
        }
    }
    assert(w.len() >= 3);
    assert(w.len() != seq!['.'].len());
    assert(w.len() != seq!['.', '.'].len());
    lemma_plain_name_is_file_name(s, w);
    assert forall|j: int| x.len() < j < w.len() implies w[j] != '.' by {
        assert(w[j] == canonical[j - x.len() - 1]);
    }
    lemma_last_dot_is(w, x.len() as int, w.len() as int);
    assert(last_dot(w) == x.len());
    assert(name_extension(w) == Some(w.skip(x.len() as int + 1)));
    assert(w.skip(x.len() as int + 1) =~= canonical);
}

/// A renamed file is not reported again: the extension of the name
/// suggested for a file detected as a format, lowercased, is one that the
/// format accepts. This holds of every file that has a name, provided the
/// suggested name does not begin like a Windows drive (`a:` followed by
/// the rest).
pub proof fn law_suggested_extension_is_accepted(s: PathStyle, p: Seq<char>, canonical: Seq<char>)
    requires
        file_name_spec(s, p) is Some,
        lookup_spec(canonical) is Some,
        prefix_len(s, suggested_name_spec(s, p, canonical)) == 0,
    ensures
        extension_spec(s, suggested_name_spec(s, p, canonical)) matches Some(e) && (lookup_spec(
            canonical,
        ) matches Some(f) && f.1.contains(lower_text(e))),
{
    lemma_canonical_shape(canonical);
    let current = lowered(extension_spec(s, p));
    let prior = lowered(extension_spec(s, or_empty(file_stem_spec(s, p))));
    if current matches Some(e) && is_known_extension_spec(e) && collapses(canonical, prior) {
        assert(suggested_name_spec(s, p, canonical) == or_empty(file_stem_spec(s, p)));
    } else {
        assert forall|j: int| 0 <= j < canonical.len() implies !is_sep(s, #[trigger] canonical[j]) by {
            assert(is_small_or_digit(canonical[j]));
        }
        assert(!canonical.contains('.')) by {
            if canonical.contains('.') {
                let j = choose|j: int| 0 <= j < canonical.len() && canonical[j] == '.';
                assert(is_small_or_digit(canonical[j]));
            }
        }
        law_suggestion_carries_canonical_extension(s, p, canonical, current, prior);
        assert(all_ascii(canonical)) by {
            assert forall|j: int| 0 <= j < canonical.len() implies (#[trigger] canonical[j] as u32) < 128 by {
                assert(is_small_or_digit(canonical[j]));
            }
        }
        assert(canonical.map_values(|c: char| ascii_lower(c)) =~= canonical) by {
            assert forall|j: int| 0 <= j < canonical.len() implies ascii_lower(canonical[j]) == canonical[j] by {
                assert(is_small_or_digit(canonical[j]));
            }
        }
        assert(lower_text(canonical) == canonical);
    }
}

/// Every path tried for a plain file name lies in the folder: it begins
/// with the folder's text, its components are those of the folder followed
/// by one more, and its file name is the tried name.
pub proof fn law_candidates_lie_in_the_folder(s: PathStyle, parent: Seq<char>, name: Seq<char>, n: nat)
    requires
        file_name_spec(s, name) == Some(name),
    ensures
        ({
            let c = candidate(s, parent, name, n);
            let tried = if n == 0 { name } else { numbered_name(s, name, n) };
            &&& c.take(parent.len() as int) == parent
            &&& components(s, c) == components(s, parent) + seq![
                ((c.len() - tried.len()) as int, c.len() as int),
            ]
            &&& file_name_spec(s, c) == Some(tried)
        }),
{
    lemma_tried_name_shape(s, name, n);
    let tried = if n == 0 { name } else { numbered_name(s, name, n) };
    lemma_join_plain_name(s, parent, tried);
}

/// The value of a text of decimal digits.
pub open spec fn digit_value(c: char) -> int {
    if c == '0' {
        0
    } else if c == '1' {
        1
    } else if c == '2' {
        2
    } else if c == '3' {
        3
    } else if c == '4' {
        4
    } else if c == '5' {
        5
    } else if c == '6' {
        6
    } else if c == '7' {
        7
    } else if c == '8' {
        8
    } else {
        9
    }
}

/// The number that the digits `s` write in decimal.
pub open spec fn decimal_value(s: Seq<char>) -> int
    decreases s.len(),
{
    if s.len() == 0 {
        0
    } else {
        decimal_value(s.drop_last()) * 10 + digit_value(s.last())
    }
}

/// Whether `c` is a decimal digit.
pub open spec fn is_digit(c: char) -> bool {
    '0' <= c && c <= '9'
}

/// Writing `n` in decimal gives digits only, at least one, and they read
/// back as `n`.
proof fn lemma_decimal_reads_back(n: nat)
    ensures
        decimal(n).len() > 0,
        forall|i: int| 0 <= i < decimal(n).len() ==> is_digit(#[trigger] decimal(n)[i]),
        decimal_value(decimal(n)) == n,
    decreases n,
{
    if n < 10 {
        assert(decimal(n) == seq![digit_char(n as int)]);
        assert(decimal(n).len() == 1);
        assert(decimal(n).drop_last() =~= Seq::<char>::empty());
        assert(decimal_value(Seq::<char>::empty()) == 0);
        assert(decimal_value(decimal(n).drop_last()) == 0);
        assert(digit_value(digit_char(n as int)) == n);
        assert(decimal(n).last() == digit_char(n as int));
        assert(decimal_value(decimal(n)) == n);
    } else {
        lemma_decimal_reads_back(n / 10);
        vstd::arithmetic::div_mod::lemma_fundamental_div_mod(n as int, 10);
        let d = decimal(n / 10);
        assert(decimal(n).drop_last() =~= d);
        assert(digit_value(digit_char((n % 10) as int)) == n % 10);
        assert(decimal_value(decimal(n)) == decimal_value(d) * 10 + n % 10);
        assert(decimal_value(d) == n / 10);
        assert(n as int == 10 * ((n as int) / 10) + (n as int) % 10);
        assert(decimal_value(decimal(n)) == n);
        assert forall|i: int| 0 <= i < decimal(n).len() implies is_digit(#[trigger] decimal(n)[i]) by {
            if i < d.len() {
                assert(decimal(n)[i] == d[i]);
            }
        }
    }
}

/// Two texts that agree after a common prefix `a`, each made of digits
/// followed by `)` and then `e`, have the same digits.
proof fn lemma_digits_before_paren(a: Seq<char>, d1: Seq<char>, d2: Seq<char>, e: Seq<char>)
    requires
        forall|i: int| 0 <= i < d1.len() ==> is_digit(#[trigger] d1[i]),
        forall|i: int| 0 <= i < d2.len() ==> is_digit(#[trigger] d2[i]),
        a + d1 + seq![')'] + e == a + d2 + seq![')'] + e,
    ensures
        d1 == d2,
{
    let x = a + d1 + seq![')'] + e;
    let y = a + d2 + seq![')'] + e;
    if d1.len() < d2.len() {
        assert(x[(a.len() + d1.len()) as int] == ')');
        assert(y[(a.len() + d1.len()) as int] == d2[d1.len() as int]);
        assert(false);
    } else if d2.len() < d1.len() {
        assert(y[(a.len() + d2.len()) as int] == ')');
        assert(x[(a.len() + d2.len()) as int] == d1[d2.len() as int]);
        assert(false);
    } else {
        assert forall|i: int| 0 <= i < d1.len() implies d1[i] == d2[i] by {
            assert(x[a.len() + i] == d1[i]);
            assert(y[a.len() + i] == d2[i]);
        }
        assert(d1 =~= d2);
    }
}

/// For a plain file name, the tried name for `n` is the name itself
/// (`n == 0`) or its numbered variant, and has neither a prefix nor a
/// root.
proof fn lemma_tried_name_shape(s: PathStyle, name: Seq<char>, n: nat)
    requires
        file_name_spec(s, name) == Some(name),
    ensures
        ({
            let stem = name.take(stem_len(name));
            let tail: Seq<char> = match name_extension(name) {
                Some(e) => seq!['.'] + e,
                None => seq![],
            };
            let tried = if n == 0 { name } else { numbered_name(s, name, n) };
            &&& name == stem + tail
            &&& stem.len() > 0
            &&& tried[0] == stem[0]
            &&& prefix_len(s, tried) == 0
            &&& !has_root(s, tried)
            &&& is_plain_name(s, tried)
            &&& n > 0 ==> numbered_name(s, name, n) == stem + seq![' ', '('] + decimal(n) + seq![')'] + tail
        }),
{
    lemma_file_name_is_plain(s, name);
    lemma_file_name_stands_alone(s, name);
    lemma_last_dot_bounds(name, name.len() as int);
    let stem = name.take(stem_len(name));
    let tail: Seq<char> = match name_extension(name) {
        Some(e) => seq!['.'] + e,
        None => seq![],
    };
    assert(name == stem + tail);
    assert(!is_sep(s, name[0]));
    if n > 0 {
        let tried = stem + seq![' ', '('] + decimal(n) + seq![')'] + tail;
        assert(numbered_name(s, name, n) =~= tried);
        assert(tried[0] == name[0]);
        if stem.len() >= 2 {
            assert(tried[1] == name[1]);
        } else {
            assert(tried[1] == ' ');
        }
        lemma_decimal_reads_back(n);
        let d = decimal(n);
        assert forall|j: int| 0 <= j < tried.len() implies !is_sep(s, #[trigger] tried[j]) by {
            if j < stem.len() {
                assert(tried[j] == name[j]);
            } else if j < stem.len() + 2 {
            } else if j < stem.len() + 2 + d.len() {
                assert(tried[j] == d[j - stem.len() - 2]);
                assert(is_digit(d[j - stem.len() - 2]));
            } else if j == stem.len() + 2 + d.len() {
            } else {
                let m = j - stem.len() - 3 - d.len();
                assert(tried[j] == tail[m]);
                assert(tail[m] == name[stem.len() + m]);
            }
        }
        assert(tried.len() != seq!['.'].len());
        assert(tried.len() != seq!['.', '.'].len());
    } else {
        assert(is_name_text(s, name));
    }
}

/// `join_spec` gives different paths for different names in one folder,
/// when neither name has a prefix or a root.
proof fn lemma_join_injective(s: PathStyle, base: Seq<char>, x: Seq<char>, y: Seq<char>)
    requires
        prefix_len(s, x) == 0,
        prefix_len(s, y) == 0,
        !has_root(s, x),
        !has_root(s, y),
        x != y,
    ensures
        join_spec(s, base, x) != join_spec(s, base, y),
{
    let pre: Seq<char> = if base.len() > 0 && !is_sep(s, base.last()) && prefix_len(s, base) != base.len() {
        base + seq![main_sep(s)]
    } else {
        base
    };
    assert(join_spec(s, base, x) =~= pre + x);
    assert(join_spec(s, base, y) =~= pre + y);
    if pre + x == pre + y {
        assert(x =~= (pre + x).skip(pre.len() as int));
        assert(y =~= (pre + y).skip(pre.len() as int));
    }
}

/// The names tried for one plain file name are pairwise different, so
/// only as many can be found taken as there are taken paths.
pub proof fn law_candidates_are_distinct(s: PathStyle, parent: Seq<char>, name: Seq<char>, j: nat, k: nat)
    requires
        file_name_spec(s, name) == Some(name),
        j != k,
    ensures
        candidate(s, parent, name, j) != candidate(s, parent, name, k),
{
    lemma_tried_name_shape(s, name, j);
    lemma_tried_name_shape(s, name, k);
    let stem = name.take(stem_len(name));
    let tail: Seq<char> = match name_extension(name) {
        Some(e) => seq!['.'] + e,
        None => seq![],
    };
    let x = if j == 0 { name } else { numbered_name(s, name, j) };
    let y = if k == 0 { name } else { numbered_name(s, name, k) };
    lemma_decimal_reads_back(j);
    lemma_decimal_reads_back(k);
    if j == 0 {
        assert(y.len() > x.len());
    } else if k == 0 {
        assert(x.len() > y.len());
    } else if x == y {
        let a = stem + seq![' ', '('];
        assert(x =~= a + decimal(j) + seq![')'] + tail);
        assert(y =~= a + decimal(k) + seq![')'] + tail);
        lemma_digits_before_paren(a, decimal(j), decimal(k), tail);
        assert(false);
    }
    lemma_join_injective(s, parent, x, y);
}

} // verus!
