//! Locale strings, locale tags and their resolution.

use vstd::prelude::*;
use crate::text::{
    chars_equal, chars_of, decimal, decimal_chars, lemma_trimmed_ends, lemma_trimmed_unchanged,
    lower_char, ascii_lower, replace_all, replace_chars, string_from_chars, trim_chars, trimmed,
    unicode_white_space,
};

verus! {

/// Texts of the header bar.
#[derive(Debug, Clone, PartialEq, Eq)]
pub struct HeaderStrings {
    pub title: String,
    pub subtitle: String,
}

/// Labels of the statistics bar.
#[derive(Debug, Clone, PartialEq, Eq)]
pub struct StatsStrings {
    pub turn: String,
    pub walls: String,
    pub biomass: String,
    pub max: String,
}

/// Texts of the end-of-level dialog.
#[derive(Debug, Clone, PartialEq, Eq)]
pub struct ModalStrings {
    pub containment_complete: String,
    pub congratulations: String,
    pub all_sectors_contained: String,
    pub containment_breached: String,
    pub sector_cleared_template: String,
    pub facility_secured_template: String,
    pub all_threats_neutralized: String,
    pub defeat_reason: String,
    pub retry_level: String,
    pub replay_level: String,
    pub next_level: String,
    pub skip_level: String,
    pub start_from_first: String,
}

/// The placeholder for the number of turns in a template.
pub open spec fn turns_placeholder() -> Seq<char> {
    seq!['{', 't', 'u', 'r', 'n', 's', '}']
}

/// `template` with every `{turns}` replaced by the decimal number `turns`.
fn fill_turns(template: &String, turns: usize) -> (s: String)
    ensures
        s@ == replace_all(template@, turns_placeholder(), decimal(turns as nat)),
{
    let t = chars_of(template.as_str());
    let pat: Vec<char> = vec!['{', 't', 'u', 'r', 'n', 's', '}'];
    assert(pat@ =~= turns_placeholder());
    let digits = decimal_chars(turns);
    let filled = replace_chars(&t, &pat, &digits);
    string_from_chars(&filled)
}

impl ModalStrings {
    /// The "sector cleared" message for a level won in `turns` turns.
    pub fn format_sector_cleared(&self, turns: usize) -> (s: String)
        ensures
            s@ == replace_all(
                self.sector_cleared_template@,
                turns_placeholder(),
                decimal(turns as nat),
            ),
    {
        fill_turns(&self.sector_cleared_template, turns)
    }

    /// The "facility secured" message for the last level won in `turns` turns.
    pub fn format_facility_secured(&self, turns: usize) -> (s: String)
        ensures
            s@ == replace_all(
                self.facility_secured_template@,
                turns_placeholder(),
                decimal(turns as nat),
            ),
    {
        fill_turns(&self.facility_secured_template, turns)
    }
}

/// All texts of one locale.
#[derive(Debug, Clone, PartialEq, Eq)]
pub struct LocaleStrings {
    pub locale: String,
    pub language_name: String,
    pub header: HeaderStrings,
    pub stats: StatsStrings,
    pub levels: Vec<String>,
    pub modal: ModalStrings,
}

/// `_` and `+` separate the parts of a tag as `-` does.
pub open spec fn unify_separator(c: char) -> char {
    if c == '_' || c == '+' {
        '-'
    } else {
        c
    }
}

/// A locale tag in normal form: trimmed, with `-` for every separator, in
/// ASCII lowercase.
pub open spec fn normalized_tag(tag: Seq<char>) -> Seq<char> {
    trimmed(tag).map_values(|c: char| lower_char(unify_separator(c)))
}

fn normalize_chars(tag: &str) -> (v: Vec<char>)
    ensures
        v@ == normalized_tag(tag@),
{
    let t = trim_chars(&chars_of(tag));
    let mut v: Vec<char> = Vec::new();
    let mut i: usize = 0;
    while i < t.len()
        invariant
            i <= t@.len(),
            t@ == trimmed(tag@),
            v@ == t@.subrange(0, i as int).map_values(|c: char| lower_char(unify_separator(c))),
        decreases t@.len() - i,
    {
        let c = t[i];
        let d = if c == '_' || c == '+' {
            '-'
        } else {
            c
        };
        v.push(ascii_lower(d));
        i = i + 1;
        assert(v@ =~= t@.subrange(0, i as int).map_values(
            |c: char| lower_char(unify_separator(c)),
        ));
    }
    assert(t@.subrange(0, t@.len() as int) =~= t@);
    v
}

/// Normalizes a locale tag: trims it, turns the separators `_` and `+` into
/// `-`, and lowercases it, e.g. "pt_BR", "pt+BR", "PT-BR" all give "pt-br".
pub fn normalize_locale_tag(tag: &str) -> (s: String)
    ensures
        s@ == normalized_tag(tag@),
{
    let v = normalize_chars(tag);
    string_from_chars(&v)
}

/// A normalized tag holds neither `_`, `+` nor ASCII capitals.
pub proof fn lemma_normalized_form(tag: Seq<char>)
    ensures
        forall|i: int|
            0 <= i < normalized_tag(tag).len() ==> {
                let c = #[trigger] normalized_tag(tag)[i];
                c != '_' && c != '+' && !('A' <= c && c <= 'Z')
            },
{
    assert forall|i: int| 0 <= i < normalized_tag(tag).len() implies {
        let c = #[trigger] normalized_tag(tag)[i];
        c != '_' && c != '+' && !('A' <= c && c <= 'Z')
    } by {
        let c0 = trimmed(tag)[i];
        let d = unify_separator(c0);
        assert(normalized_tag(tag)[i] == lower_char(d));
        if 'A' <= d && d <= 'Z' {
            assert((d as u32) + 32 <= 'z' as u32);
        }
    }
}

/// Normalizing a normalized tag changes nothing.
pub proof fn lemma_normalize_idempotent(tag: Seq<char>)
    ensures
        normalized_tag(normalized_tag(tag)) == normalized_tag(tag),
{
    let t = trimmed(tag);
    let n = normalized_tag(tag);
    lemma_trimmed_ends(tag);
    if n.len() > 0 {
        lemma_normalize_char_keeps_non_space(t[0]);
        lemma_normalize_char_keeps_non_space(t[t.len() - 1]);
        assert(n[0] == lower_char(unify_separator(t[0])));
        assert(n.last() == lower_char(unify_separator(t[t.len() - 1])));
    }
    lemma_trimmed_unchanged(n);
    assert forall|i: int| 0 <= i < n.len() implies #[trigger] normalized_tag(n)[i] == n[i] by {
        let c = lower_char(unify_separator(t[i]));
        assert(n[i] == c);
        if 'A' <= unify_separator(t[i]) && unify_separator(t[i]) <= 'Z' {
            assert((unify_separator(t[i]) as u32) + 32 <= 'z' as u32);
        }
    }
    assert(normalized_tag(n) =~= n);
}

proof fn lemma_normalize_char_keeps_non_space(c: char)
    requires
        !unicode_white_space(c),
    ensures
        !unicode_white_space(lower_char(unify_separator(c))),
{
    let d = unify_separator(c);
    if 'A' <= d && d <= 'Z' {
        assert((d as u32) + 32 <= 'z' as u32);
    }
}

/// The part of `t` before the first `sep`, or all of `t` without one.
pub open spec fn prefix_before(t: Seq<char>, sep: char) -> Seq<char>
    decreases t.len(),
{
    if t.len() == 0 || t[0] == sep {
        Seq::empty()
    } else {
        seq![t[0]] + prefix_before(t.drop_first(), sep)
    }
}

fn prefix_before_chars(t: &Vec<char>, sep: char) -> (v: Vec<char>)
    ensures
        v@ == prefix_before(t@, sep),
{
    let mut v: Vec<char> = Vec::new();
    let mut i: usize = 0;
    assert(t@.subrange(0, t@.len() as int) =~= t@);
    assert(v@ + t@ =~= t@);
    while i < t.len() && t[i] != sep
        invariant
            i <= t@.len(),
            forall|j: int| 0 <= j < i ==> t@[j] != sep,
            v@ == t@.subrange(0, i as int),
            v@ + prefix_before(t@.subrange(i as int, t@.len() as int), sep) == prefix_before(t@, sep),
        decreases t@.len() - i,
    {
        proof {
            let u = t@.subrange(i as int, t@.len() as int);
            assert(u.drop_first() =~= t@.subrange(i + 1, t@.len() as int));
            assert(v@.push(t@[i as int]) + prefix_before(u.drop_first(), sep) =~= v@ + (seq![u[0]]
                + prefix_before(u.drop_first(), sep)));
        }
        v.push(t[i]);
        i = i + 1;
    }
    proof {
        let u = t@.subrange(i as int, t@.len() as int);
        assert(prefix_before(u, sep) =~= Seq::<char>::empty());
        assert(v@ + Seq::<char>::empty() =~= v@);
    }
    v
}

/// The language of a normalized tag: its part before the first `-`.
pub open spec fn base_language(t: Seq<char>) -> Seq<char> {
    prefix_before(t, '-')
}

/// The locale's tag matches `tag` once both are normalized.
pub open spec fn exact_match(l: LocaleStrings, tag: Seq<char>) -> bool {
    normalized_tag(l.locale@) == normalized_tag(tag)
}

/// The locale's language matches the language of `tag`.
pub open spec fn language_match(l: LocaleStrings, tag: Seq<char>) -> bool {
    base_language(normalized_tag(l.locale@)) == base_language(normalized_tag(tag))
}

/// The index that locale resolution picks: the first exact match; else, when
/// the tag names a language, the first locale of that language; else the
/// first locale, the default.
pub open spec fn resolved_index(locales: Seq<LocaleStrings>, tag: Seq<char>, i: int) -> bool {
    if exists|j: int| 0 <= j < locales.len() && #[trigger] exact_match(locales[j], tag) {
        &&& 0 <= i < locales.len()
        &&& exact_match(locales[i], tag)
        &&& forall|j: int| 0 <= j < i ==> !#[trigger] exact_match(locales[j], tag)
    } else if base_language(normalized_tag(tag)).len() > 0 && exists|j: int|
        0 <= j < locales.len() && #[trigger] language_match(locales[j], tag) {
        &&& 0 <= i < locales.len()
        &&& language_match(locales[i], tag)
        &&& forall|j: int| 0 <= j < i ==> !#[trigger] language_match(locales[j], tag)
    } else {
        i == 0
    }
}

/// Resolves a requested locale tag against the available locales:
/// 1. exact normalized match (e.g. "ru-ru" matches "ru-RU");
/// 2. language match (e.g. "ru" or "ru-kz" matches "ru-RU");
/// 3. the first locale, the default.
pub fn resolve_locale<'a>(tag: &str, locales: &'a [LocaleStrings]) -> (l: &'a LocaleStrings)
    requires
        locales@.len() > 0,
    ensures
        exists|i: int| resolved_index(locales@, tag@, i) && *l == locales@[i],
{
    let norm = normalize_chars(tag);
    let base = prefix_before_chars(&norm, '-');
    let n = locales.len();
    let mut i: usize = 0;
    while i < n
        invariant
            n == locales@.len(),
            i <= n,
            norm@ == normalized_tag(tag@),
            forall|j: int| 0 <= j < i ==> !#[trigger] exact_match(locales@[j], tag@),
        decreases n - i,
    {
        let cand = normalize_chars(locales[i].locale.as_str());
        if chars_equal(&cand, &norm) {
            assert(exact_match(locales@[i as int], tag@));
            assert(resolved_index(locales@, tag@, i as int));
            return &locales[i];
        }
        i = i + 1;
    }
    if base.len() > 0 {
        let mut i: usize = 0;
        while i < n
            invariant
                n == locales@.len(),
                i <= n,
                norm@ == normalized_tag(tag@),
                base@ == base_language(norm@),
                base@.len() > 0,
                forall|j: int| 0 <= j < n ==> !#[trigger] exact_match(locales@[j], tag@),
                forall|j: int| 0 <= j < i ==> !#[trigger] language_match(locales@[j], tag@),
            decreases n - i,
        {
            let cand = normalize_chars(locales[i].locale.as_str());
            let cand_base = prefix_before_chars(&cand, '-');
            if chars_equal(&cand_base, &base) {
                assert(language_match(locales@[i as int], tag@));
                assert(resolved_index(locales@, tag@, i as int));
                return &locales[i];
            }
            i = i + 1;
        }
    }
    assert(resolved_index(locales@, tag@, 0));
    &locales[0]
}

/// A tag that normalizes like one of the locales' own tags resolves to
/// the first locale whose tag normalizes alike: "ru_ru" gives the locale
/// tagged "ru-RU", never a mere language match.
pub proof fn lemma_own_tag_resolves_exactly(
    locales: Seq<LocaleStrings>,
    tag: Seq<char>,
    j: int,
    i: int,
)
    requires
        0 <= j < locales.len(),
        normalized_tag(tag) == normalized_tag(locales[j].locale@),
        resolved_index(locales, tag, i),
    ensures
        0 <= i <= j,
        normalized_tag(locales[i].locale@) == normalized_tag(tag),
{
    assert(exact_match(locales[j], tag));
}

/// The texts of a list of string slices.
pub open spec fn texts(args: Seq<&str>) -> Seq<Seq<char>> {
    args.map_values(|a: &str| a@)
}

pub open spec fn long_lang_flag() -> Seq<char> {
    seq!['-', '-', 'l', 'a', 'n', 'g']
}

pub open spec fn short_lang_flag() -> Seq<char> {
    seq!['-', 'l']
}

pub open spec fn lang_assignment_prefix() -> Seq<char> {
    seq!['-', '-', 'l', 'a', 'n', 'g', '=']
}

/// The locale requested on a command line: the first `--lang <tag>`,
/// `-l <tag>` or `--lang=<tag>` whose tag is not blank, trimmed. A flag
/// consumes the argument after it even when that one is blank.
pub open spec fn cli_locale(args: Seq<Seq<char>>) -> Option<Seq<char>>
    decreases args.len(),
{
    if args.len() == 0 {
        None
    } else if args[0] == long_lang_flag() || args[0] == short_lang_flag() {
        if args.len() >= 2 {
            if trimmed(args[1]).len() > 0 {
                Some(trimmed(args[1]))
            } else {
                cli_locale(args.skip(2))
            }
        } else {
            None
        }
    } else if args[0].len() >= 7 && args[0].take(7) == lang_assignment_prefix() {
        if trimmed(args[0].skip(7)).len() > 0 {
            Some(trimmed(args[0].skip(7)))
        } else {
            cli_locale(args.skip(1))
        }
    } else {
        cli_locale(args.skip(1))
    }
}

/// Extracts the locale tag from command-line arguments (`--lang <tag>`,
/// `--lang=<tag>`, `-l <tag>`).
pub fn parse_cli_locale(args: &[&str]) -> (res: Option<String>)
    ensures
        match res {
            Some(s) => cli_locale(texts(args@)) == Some(s@),
            None => cli_locale(texts(args@)) is None,
        },
{
    let long_flag: Vec<char> = vec!['-', '-', 'l', 'a', 'n', 'g'];
    let short_flag: Vec<char> = vec!['-', 'l'];
    let prefix: Vec<char> = vec!['-', '-', 'l', 'a', 'n', 'g', '='];
    assert(long_flag@ =~= long_lang_flag());
    assert(short_flag@ =~= short_lang_flag());
    assert(prefix@ =~= lang_assignment_prefix());
    let n = args.len();
    let ghost all = texts(args@);
    let mut i: usize = 0;
    assert(all.skip(0) =~= all);
    while i < n
        invariant
            n == args@.len(),
            i <= n,
            all == texts(args@),
            long_flag@ == long_lang_flag(),
            short_flag@ == short_lang_flag(),
            prefix@ == lang_assignment_prefix(),
            cli_locale(all) == cli_locale(all.skip(i as int)),
        decreases n - i,
    {
        let ghost rest = all.skip(i as int);
        let a = chars_of(args[i]);
        assert(rest[0] == a@);
        if chars_equal(&a, &long_flag) || chars_equal(&a, &short_flag) {
            if i + 1 < n {
                let v = trim_chars(&chars_of(args[i + 1]));
                assert(rest[1] == args@[i + 1]@);
                if v.len() > 0 {
                    return Some(string_from_chars(&v));
                }
                assert(rest.skip(2) =~= all.skip(i + 2));
                i = i + 2;
            } else {
                return None;
            }
        } else {
            let mut has_prefix = false;
            if a.len() >= 7 {
                let mut head: Vec<char> = Vec::new();
                let mut k: usize = 0;
                while k < 7
                    invariant
                        k <= 7,
                        a@.len() >= 7,
                        head@ == a@.take(k as int),
                    decreases 7 - k,
                {
                    head.push(a[k]);
                    k = k + 1;
                    assert(head@ =~= a@.take(k as int));
                }
                has_prefix = chars_equal(&head, &prefix);
            }
            if has_prefix {
                let mut tail: Vec<char> = Vec::new();
                let mut k: usize = 7;
                while k < a.len()
                    invariant
                        7 <= k <= a@.len(),
                        tail@ == a@.subrange(7, k as int),
                    decreases a@.len() - k,
                {
                    tail.push(a[k]);
                    k = k + 1;
                    assert(tail@ =~= a@.subrange(7, k as int));
                }
                assert(tail@ =~= a@.skip(7));
                let v = trim_chars(&tail);
                if v.len() > 0 {
                    return Some(string_from_chars(&v));
                }
            }
            assert(rest.skip(1) =~= all.skip(i + 1));
            i = i + 1;
        }
    }
    assert(all.skip(n as int) =~= Seq::<Seq<char>>::empty());
    None
}

/// The locale named by an environment value such as `LANG`: the value
/// trimmed, up to its first `.`; blank values and the `C` and `POSIX`
/// locales name none.
pub open spec fn env_locale(value: Seq<char>) -> Option<Seq<char>> {
    let t = trimmed(value);
    if t.len() > 0 && t != seq!['C'] && t != seq!['P', 'O', 'S', 'I', 'X'] {
        Some(prefix_before(t, '.'))
    } else {
        None
    }
}

/// The locale named by the first of the environment values that names one.
pub open spec fn first_env_locale(values: Seq<Seq<char>>) -> Option<Seq<char>>
    decreases values.len(),
{
    if values.len() == 0 {
        None
    } else if env_locale(values[0]) is Some {
        env_locale(values[0])
    } else {
        first_env_locale(values.drop_first())
    }
}

/// The locale tag a desktop run asks for: the command line's, else the
/// first set environment value's, else "en-US".
pub open spec fn detected_locale(args: Seq<Seq<char>>, env_values: Seq<Seq<char>>) -> Seq<char> {
    match cli_locale(args) {
        Some(v) => v,
        None => match first_env_locale(env_values) {
            Some(v) => v,
            None => seq!['e', 'n', '-', 'U', 'S'],
        },
    }
}

/// Chooses the locale tag from the command-line arguments (program name
/// left out) and the values of `LANG`, `LC_ALL` and `LC_MESSAGES` that are
/// set, in that order; "en-US" when none names one.
pub fn detect_locale_tag(args: &[&str], env_values: &[&str]) -> (tag: String)
    ensures
        tag@ == detected_locale(texts(args@), texts(env_values@)),
{
    match parse_cli_locale(args) {
        Some(t) => {
            return t;
        },
        None => {},
    }
    let ghost all = texts(env_values@);
    let c_locale: Vec<char> = vec!['C'];
    let posix_locale: Vec<char> = vec!['P', 'O', 'S', 'I', 'X'];
    assert(c_locale@ =~= seq!['C']);
    assert(posix_locale@ =~= seq!['P', 'O', 'S', 'I', 'X']);
    let n = env_values.len();
    let mut i: usize = 0;
    assert(all.skip(0) =~= all);
    while i < n
        invariant
            n == env_values@.len(),
            i <= n,
            all == texts(env_values@),
            c_locale@ == seq!['C'],
            posix_locale@ == seq!['P', 'O', 'S', 'I', 'X'],
            cli_locale(texts(args@)) is None,
            first_env_locale(all) == first_env_locale(all.skip(i as int)),
        decreases n - i,
    {
        let ghost rest = all.skip(i as int);
        let t = trim_chars(&chars_of(env_values[i]));
        assert(rest[0] == env_values@[i as int]@);
        if t.len() > 0 && !chars_equal(&t, &c_locale) && !chars_equal(&t, &posix_locale) {
            let head = prefix_before_chars(&t, '.');
            return string_from_chars(&head);
        }
        assert(rest.drop_first() =~= all.skip(i + 1));
        i = i + 1;
    }
    assert(all.skip(n as int) =~= Seq::<Seq<char>>::empty());
    let fallback: Vec<char> = vec!['e', 'n', '-', 'U', 'S'];
    string_from_chars(&fallback)
}

/// The locale tag for a browser language code: 1 Russian, 2 Spanish,
/// 3 German, 4 French, anything else English.
pub open spec fn tag_for_code(code: i32) -> Seq<char> {
    if code == 1 {
        seq!['r', 'u', '-', 'R', 'U']
    } else if code == 2 {
        seq!['e', 's', '-', 'E', 'S']
    } else if code == 3 {
        seq!['d', 'e', '-', 'D', 'E']
    } else if code == 4 {
        seq!['f', 'r', '-', 'F', 'R']
    } else {
        seq!['e', 'n', '-', 'U', 'S']
    }
}

/// The locale tag for a browser language code.
pub fn locale_tag_for_code(code: i32) -> (tag: String)
    ensures
        tag@ == tag_for_code(code),
{
    let v: Vec<char> = if code == 1 {
        vec!['r', 'u', '-', 'R', 'U']
    } else if code == 2 {
        vec!['e', 's', '-', 'E', 'S']
    } else if code == 3 {
        vec!['d', 'e', '-', 'D', 'E']
    } else if code == 4 {
        vec!['f', 'r', '-', 'F', 'R']
    } else {
        vec!['e', 'n', '-', 'U', 'S']
    };
    assert(v@ =~= tag_for_code(code));
    string_from_chars(&v)
}

} // verus!
