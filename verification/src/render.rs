//! Rendering a template: every placeholder `{{ name }}` or `{{ name | filter }}` is replaced by
//! the text of the named value.
use vstd::prelude::*;

use crate::text::{
    is_name_char, is_white_space, lowercase, name_char, push_char, string_of, to_lowercase,
    to_uppercase, uppercase, white_space, chars_of,
};
use crate::config::{Config, ConfigItem};
use crate::values::ValuesMap;
use crate::yaml::{Yaml, YamlView, value_as_string, value_text};

verus! {

/// The number of white-space characters of `t` from position `i` on.
pub open spec fn white_run(t: Seq<char>, i: int) -> nat
    decreases t.len() - i,
{
    if 0 <= i < t.len() && is_white_space(t[i]) {
        1 + white_run(t, i + 1)
    } else {
        0
    }
}

/// The number of name characters of `t` from position `i` on.
pub open spec fn name_run(t: Seq<char>, i: int) -> nat
    decreases t.len() - i,
{
    if 0 <= i < t.len() && is_name_char(t[i]) {
        1 + name_run(t, i + 1)
    } else {
        0
    }
}

/// Whether `t` holds `}}` at position `i`.
pub open spec fn closes_at(t: Seq<char>, i: int) -> bool {
    0 <= i && i + 1 < t.len() && t[i] == '}' && t[i + 1] == '}'
}

/// A placeholder found in a template: where it ends (exclusive), where its name starts and
/// ends, and where its filter's name starts and ends, if it has one.
pub struct Placeholder {
    pub end: usize,
    pub name_start: usize,
    pub name_end: usize,
    pub filter: Option<(usize, usize)>,
}

/// The placeholder that starts at position `p` of `t`, if one does: `{{`, white space, a name,
/// optionally white space, `|`, white space and a filter name, then white space and `}}`.
/// Each run of white space and each name is taken whole.
pub open spec fn placeholder_at(t: Seq<char>, p: int) -> Option<(int, int, int, Option<(int, int)>)> {
    if 0 <= p && p + 1 < t.len() && t[p] == '{' && t[p + 1] == '{' {
        let name_start = p + 2 + white_run(t, p + 2);
        let name_end = name_start + name_run(t, name_start);
        if name_end == name_start {
            None
        } else {
            let bar = name_end + white_run(t, name_end);
            let filtered = if 0 <= bar < t.len() && t[bar] == '|' {
                let filter_start = bar + 1 + white_run(t, bar + 1);
                let filter_end = filter_start + name_run(t, filter_start);
                let close = filter_end + white_run(t, filter_end);
                if filter_end > filter_start && closes_at(t, close) {
                    Some((close + 2, name_start, name_end, Some((filter_start, filter_end))))
                } else {
                    None
                }
            } else {
                None
            };
            match filtered {
                Some(found) => Some(found),
                None => if closes_at(t, bar) {
                    Some((bar + 2, name_start, name_end, None))
                } else {
                    None
                },
            }
        }
    } else {
        None
    }
}

/// The text a filter makes of a value's text: no filter keeps it, `lower` and `upper` map its
/// case; any other filter gives `None`.
pub open spec fn filtered(text: Seq<char>, filter: Option<Seq<char>>) -> Option<Seq<char>> {
    match filter {
        None => Some(text),
        Some(f) => if f == seq!['l', 'o', 'w', 'e', 'r'] {
            Some(lowercase(text))
        } else if f == seq!['u', 'p', 'p', 'e', 'r'] {
            Some(uppercase(text))
        } else {
            None
        },
    }
}

/// What replaces the placeholder `t[p..end]`: the filtered text of the named value, or the
/// placeholder itself where no value has that name or the filter is unknown.
pub open spec fn replacement(
    t: Seq<char>,
    p: int,
    found: (int, int, int, Option<(int, int)>),
    values: Map<Seq<char>, YamlView>,
) -> Seq<char> {
    let whole = t.subrange(p, found.0);
    let name = t.subrange(found.1, found.2);
    let filter = match found.3 {
        Some((a, b)) => Some(t.subrange(a, b)),
        None => None,
    };
    if values.contains_key(name) {
        match filtered(value_text(values[name]), filter) {
            Some(text) => text,
            None => whole,
        }
    } else {
        whole
    }
}

/// `t` from position `i` on, rendered: scanning left to right, each placeholder is replaced
/// and scanning goes on after it; any other character is kept.
pub open spec fn rendered_from(t: Seq<char>, values: Map<Seq<char>, YamlView>, i: int) -> Seq<char>
    decreases t.len() - i,
{
    if i < 0 || i >= t.len() {
        Seq::empty()
    } else {
        match placeholder_at(t, i) {
            Some(found) => replacement(t, i, found, values) + rendered_from(t, values, found.0),
            None => seq![t[i]] + rendered_from(t, values, i + 1),
        }
    }
}

/// The template `t` rendered with the values.
pub open spec fn rendered(t: Seq<char>, values: Map<Seq<char>, YamlView>) -> Seq<char> {
    rendered_from(t, values, 0)
}

/// The position after the run of white space that starts at `i`.
fn skip_white(t: &Vec<char>, i: usize) -> (r: usize)
    requires
        i <= t.len(),
    ensures
        r == i + white_run(t@, i as int),
        r <= t.len(),
{
    let mut j = i;
    while j < t.len() && white_space(t[j])
        invariant
            i <= j <= t.len(),
            white_run(t@, i as int) == (j - i) + white_run(t@, j as int),
        decreases t.len() - j,
    {
        j = j + 1;
    }
    j
}

/// The position after the run of name characters that starts at `i`.
fn skip_name(t: &Vec<char>, i: usize) -> (r: usize)
    requires
        i <= t.len(),
    ensures
        r == i + name_run(t@, i as int),
        r <= t.len(),
{
    let mut j = i;
    while j < t.len() && name_char(t[j])
        invariant
            i <= j <= t.len(),
            name_run(t@, i as int) == (j - i) + name_run(t@, j as int),
        decreases t.len() - j,
    {
        j = j + 1;
    }
    j
}

/// Whether `t` holds `}}` at position `i`.
fn closes(t: &Vec<char>, i: usize) -> (r: bool)
    ensures
        r == closes_at(t@, i as int),
{
    i < t.len() && i + 1 < t.len() && t[i] == '}' && t[i + 1] == '}'
}

/// The placeholder that starts at position `p`, if one does (see `placeholder_at`).
pub fn find_placeholder(t: &Vec<char>, p: usize) -> (r: Option<Placeholder>)
    requires
        p < t.len(),
    ensures
        match r {
            Some(ph) => placeholder_at(t@, p as int) == Some(
                (
                    ph.end as int,
                    ph.name_start as int,
                    ph.name_end as int,
                    match ph.filter {
                        Some((a, b)) => Some((a as int, b as int)),
                        None => None,
                    },
                ),
            ) && p < ph.end <= t.len() && ph.name_start <= ph.name_end <= ph.end && match ph.filter {
                Some((a, b)) => a <= b <= ph.end,
                None => true,
            },
            None => placeholder_at(t@, p as int) is None,
        },
{
    if !(p + 1 < t.len() && t[p] == '{' && t[p + 1] == '{') {
        return None;
    }
    let name_start = skip_white(t, p + 2);
    let name_end = skip_name(t, name_start);
    if name_end == name_start {
        return None;
    }
    let bar = skip_white(t, name_end);
    if bar < t.len() && t[bar] == '|' {
        let filter_start = skip_white(t, bar + 1);
        let filter_end = skip_name(t, filter_start);
        let close = skip_white(t, filter_end);
        if filter_end > filter_start && closes(t, close) {
            return Some(
                Placeholder {
                    end: close + 2,
                    name_start,
                    name_end,
                    filter: Some((filter_start, filter_end)),
                },
            );
        }
    }
    if closes(t, bar) {
        Some(Placeholder { end: bar + 2, name_start, name_end, filter: None })
    } else {
        None
    }
}

/// The characters of a filter name, if there is one.
pub open spec fn filter_view(filter: Option<&str>) -> Option<Seq<char>> {
    match filter {
        Some(f) => Some(f@),
        None => None,
    }
}

/// Applies a filter to a value's text (see `filtered`).
pub fn apply_filter(value: String, filter: Option<&str>) -> (r: Option<String>)
    ensures
        match r {
            Some(s) => filtered(value@, filter_view(filter)) == Some(s@),
            None => filtered(value@, filter_view(filter)) is None,
        },
        filter is None ==> r is Some && r->Some_0@ == value@,
        filter is Some && filter->Some_0@ == seq!['l', 'o', 'w', 'e', 'r'] ==> r is Some
            && r->Some_0@ == lowercase(value@),
        filter is Some && filter->Some_0@ == seq!['u', 'p', 'p', 'e', 'r'] ==> r is Some
            && r->Some_0@ == uppercase(value@),
        filter is Some && filter->Some_0@ != seq!['l', 'o', 'w', 'e', 'r'] && filter->Some_0@
            != seq!['u', 'p', 'p', 'e', 'r'] ==> r is None,
{
    match filter {
        None => Some(value),
        Some(f) => {
            let name = chars_of(f);
            if is_word(&name, "lower") {
                proof {
                    reveal_strlit("lower");
                }
                assert(name@ == seq!['l', 'o', 'w', 'e', 'r']);
                Some(to_lowercase(value.as_str()))
            } else if is_word(&name, "upper") {
                proof {
                    reveal_strlit("upper");
                    reveal_strlit("lower");
                }
                assert(name@ == seq!['u', 'p', 'p', 'e', 'r']);
                assert(name@ != seq!['l', 'o', 'w', 'e', 'r']);
                Some(to_uppercase(value.as_str()))
            } else {
                proof {
                    reveal_strlit("upper");
                    reveal_strlit("lower");
                    assert("lower"@ =~= seq!['l', 'o', 'w', 'e', 'r']);
                    assert("upper"@ =~= seq!['u', 'p', 'p', 'e', 'r']);
                }
                None
            }
        },
    }
}

/// Whether the characters spell `word`.
fn is_word(chars: &Vec<char>, word: &str) -> (r: bool)
    ensures
        r == (chars@ == word@),
{
    let expected = chars_of(word);
    if chars.len() != expected.len() {
        return false;
    }
    let mut i: usize = 0;
    while i < chars.len()
        invariant
            0 <= i <= chars.len(),
            chars.len() == expected.len(),
            expected@ == word@,
            forall|j: int| 0 <= j < i ==> chars@[j] == expected@[j],
        decreases chars.len() - i,
    {
        if chars[i] != expected[i] {
            return false;
        }
        i = i + 1;
    }
    assert(chars@ =~= expected@);
    true
}

/// The template with every placeholder replaced by the text of its value (see `rendered`).
pub fn apply_values(template_content: &str, values: &ValuesMap) -> (r: String)
    ensures
        r@ == rendered(template_content@, values@),
{
    let t = chars_of(template_content);
    let mut out = String::new();
    let mut i: usize = 0;
    while i < t.len()
        invariant
            0 <= i <= t.len(),
            t@ == template_content@,
            rendered(t@, values@) == out@ + rendered_from(t@, values@, i as int),
        decreases t.len() - i,
    {
        match find_placeholder(&t, i) {
            Some(ph) => {
                let piece = replace_placeholder(&t, i, &ph, values);
                out.append(piece.as_str());
                i = ph.end;
            },
            None => {
                push_char(&mut out, t[i]);
                i = i + 1;
            },
        }
    }
    out
}

/// What replaces the placeholder `ph` that starts at `p` (see `replacement`).
fn replace_placeholder(t: &Vec<char>, p: usize, ph: &Placeholder, values: &ValuesMap) -> (r: String)
    requires
        p < ph.end <= t.len(),
        ph.name_start <= ph.name_end <= ph.end,
        match ph.filter {
            Some((a, b)) => a <= b <= ph.end,
            None => true,
        },
    ensures
        r@ == replacement(
            t@,
            p as int,
            (
                ph.end as int,
                ph.name_start as int,
                ph.name_end as int,
                match ph.filter {
                    Some((a, b)) => Some((a as int, b as int)),
                    None => None,
                },
            ),
            values@,
        ),
{
    let name = string_of(t, ph.name_start, ph.name_end);
    match values.get(name.as_str()) {
        Some(value) => {
            let text = value_as_string(value);
            let filter_name = match ph.filter {
                Some((a, b)) => Some(string_of(t, a, b)),
                None => None,
            };
            let filter = match &filter_name {
                Some(f) => Some(f.as_str()),
                None => None,
            };
            match apply_filter(text, filter) {
                Some(s) => s,
                None => string_of(t, p, ph.end),
            }
        },
        None => string_of(t, p, ph.end),
    }
}

/// The name under which an item's own name is given to its template.
pub open spec fn name_key() -> Seq<char> {
    seq!['n', 'a', 'm', 'e']
}

/// The values an item's template is rendered with: the shared values, then `name` given the
/// item's name, then the item's own values, each later one replacing an earlier one.
pub open spec fn item_values(
    default_values: Map<Seq<char>, YamlView>,
    item_name: Seq<char>,
    item_values: Map<Seq<char>, YamlView>,
) -> Map<Seq<char>, YamlView> {
    default_values.insert(name_key(), YamlView::Text(item_name)).union_prefer_right(item_values)
}

/// The values an item's template is rendered with (see `item_values`).
pub fn get_values(default_values: &ValuesMap, item: &ConfigItem) -> (r: ValuesMap)
    ensures
        r@ == item_values(default_values@, item.name@, item.values@),
{
    let mut values = default_values.deep_clone();
    proof {
        reveal_strlit("name");
    }
    let key = String::from_str("name");
    assert(key@ =~= name_key());
    values.insert(key, Yaml::Text(item.name.clone()));
    values.extend(&item.values);
    values
}

/// An item's template, whose text is `template_content`, rendered with the item's values.
pub fn render_item(config: &Config, item: &ConfigItem, template_content: &str) -> (r: String)
    ensures
        r@ == rendered(template_content@, item_values(config.values@, item.name@, item.values@)),
{
    let values = get_values(&config.values, item);
    apply_values(template_content, &values)
}

proof fn lemma_placeholder_bounds(t: Seq<char>, p: int)
    ensures
        placeholder_at(t, p) matches Some(found) ==> p < found.0 <= t.len(),
{
}

proof fn lemma_rendered_without_values(t: Seq<char>, i: int)
    requires
        0 <= i <= t.len(),
    ensures
        rendered_from(t, Map::empty(), i) == t.subrange(i, t.len() as int),
    decreases t.len() - i,
{
    if i < t.len() {
        lemma_placeholder_bounds(t, i);
        match placeholder_at(t, i) {
            Some(found) => {
                lemma_rendered_without_values(t, found.0);
                assert(t.subrange(i, found.0) + t.subrange(found.0, t.len() as int) =~= t.subrange(
                    i,
                    t.len() as int,
                ));
            },
            None => {
                lemma_rendered_without_values(t, i + 1);
                assert(seq![t[i]] + t.subrange(i + 1, t.len() as int) =~= t.subrange(
                    i,
                    t.len() as int,
                ));
            },
        }
    } else {
        assert(t.subrange(i, t.len() as int) =~= Seq::<char>::empty());
    }
}

/// A template rendered with no values is left as it is: each placeholder stays as written.
pub proof fn law_render_without_values(template: Seq<char>)
    ensures
        rendered(template, Map::empty()) == template,
{
    lemma_rendered_without_values(template, 0);
    assert(template.subrange(0, template.len() as int) =~= template);
}

/// An item's own values override the shared ones, the item's name is given as `name` unless
/// the item gives `name` a value of its own, and any other shared value is kept.
pub proof fn law_local_values_override(
    default_values: Map<Seq<char>, YamlView>,
    item_name: Seq<char>,
    local_values: Map<Seq<char>, YamlView>,
    key: Seq<char>,
)
    ensures
        local_values.contains_key(key) ==> item_values(default_values, item_name, local_values)[key]
            == local_values[key],
        !local_values.contains_key(key) && key == name_key() ==> item_values(
            default_values,
            item_name,
            local_values,
        )[key] == YamlView::Text(item_name),
        !local_values.contains_key(key) && key != name_key() ==> (item_values(
            default_values,
            item_name,
            local_values,
        ).contains_key(key) == default_values.contains_key(key) && (default_values.contains_key(
            key,
        ) ==> item_values(default_values, item_name, local_values)[key] == default_values[key])),
{
}

proof fn lemma_rendered_plain(t: Seq<char>, values: Map<Seq<char>, YamlView>, i: int)
    requires
        0 <= i <= t.len(),
        forall|p: int| 0 <= p < t.len() - 1 ==> !(#[trigger] t[p] == '{' && t[p + 1] == '{'),
    ensures
        rendered_from(t, values, i) == t.subrange(i, t.len() as int),
    decreases t.len() - i,
{
    if i < t.len() {
        lemma_rendered_plain(t, values, i + 1);
        if i < t.len() - 1 {
            assert(!(t[i] == '{' && t[i + 1] == '{'));
        }
        assert(seq![t[i]] + t.subrange(i + 1, t.len() as int) =~= t.subrange(i, t.len() as int));
    } else {
        assert(t.subrange(i, t.len() as int) =~= Seq::<char>::empty());
    }
}

/// A template with no `{{` is left as it is, whatever the values.
pub proof fn law_plain_text_unchanged(template: Seq<char>, values: Map<Seq<char>, YamlView>)
    requires
        forall|p: int|
            0 <= p < template.len() - 1 ==> !(#[trigger] template[p] == '{' && template[p + 1]
                == '{'),
    ensures
        rendered(template, values) == template,
{
    lemma_rendered_plain(template, values, 0);
    assert(template.subrange(0, template.len() as int) =~= template);
}


proof fn lemma_name_run_span(t: Seq<char>, i: int, k: int)
    requires
        0 <= i,
        0 <= k,
        i + k <= t.len(),
        forall|j: int| i <= j < i + k ==> is_name_char(#[trigger] t[j]),
        i + k < t.len() ==> !is_name_char(t[i + k]),
    ensures
        name_run(t, i) == k,
    decreases k,
{
    if k > 0 {
        lemma_name_run_span(t, i + 1, k - 1);
    }
}

/// Every character of the text is an ASCII letter or digit, `_` or `-`, and there is one.
pub open spec fn ascii_name(n: Seq<char>) -> bool {
    n.len() > 0 && forall|i: int|
        0 <= i < n.len() ==> ('a' <= #[trigger] n[i] && n[i] <= 'z') || ('A' <= n[i] && n[i]
            <= 'Z') || ('0' <= n[i] && n[i] <= '9') || n[i] == '_' || n[i] == '-'
}

/// The placeholder `{{ n }}` written out.
pub open spec fn plain_placeholder(n: Seq<char>) -> Seq<char> {
    seq!['{', '{', ' '] + n + seq![' ', '}', '}']
}

/// The placeholder `{{ n | f }}` written out.
pub open spec fn filter_placeholder(n: Seq<char>, f: Seq<char>) -> Seq<char> {
    seq!['{', '{', ' '] + n + seq![' ', '|', ' '] + f + seq![' ', '}', '}']
}

proof fn lemma_name_span(t: Seq<char>, start: int, n: Seq<char>)
    requires
        ascii_name(n),
        0 <= start,
        start + n.len() < t.len(),
        t.subrange(start, start + n.len()) == n,
        t[start + n.len()] == ' ',
    ensures
        name_run(t, start) == n.len(),
        white_run(t, start) == 0,
{
    let l = n.len() as int;
    assert forall|j: int| start <= j < start + l implies is_name_char(#[trigger] t[j]) by {
        assert(t[j] == t.subrange(start, start + l)[j - start]);
    }
    assert(t[start] == t.subrange(start, start + l)[0]);
    lemma_name_run_span(t, start, l);
}

proof fn lemma_plain_placeholder_at(n: Seq<char>, rest: Seq<char>)
    requires
        ascii_name(n),
    ensures
        placeholder_at(plain_placeholder(n) + rest, 0) == Some(
            (n.len() + 6int, 3int, n.len() + 3int, None::<(int, int)>),
        ),
        (plain_placeholder(n) + rest).subrange(3, n.len() + 3int) == n,
        (plain_placeholder(n) + rest).subrange(0, n.len() + 6int) == plain_placeholder(n),
        (plain_placeholder(n) + rest).subrange(n.len() + 6int, n.len() + 6int + rest.len()) == rest,
{
    let t = plain_placeholder(n) + rest;
    let l = n.len() as int;
    assert(t.len() == l + 6 + rest.len());
    assert(t[0] == '{' && t[1] == '{' && t[2] == ' ');
    assert(t[3 + l] == ' ');
    assert(t[4 + l] == '}');
    assert(t[5 + l] == '}');
    assert(t.subrange(3, 3 + l) =~= n);
    lemma_name_span(t, 3, n);
    assert(white_run(t, 2) == 1);
    assert(white_run(t, 4 + l) == 0);
    assert(white_run(t, 3 + l) == 1);
    assert(closes_at(t, 4 + l));
    assert(t.subrange(0, l + 6) =~= plain_placeholder(n));
    assert(t.subrange(l + 6, l + 6 + rest.len()) =~= rest);
}

/// A template that starts with a placeholder `{{ N }}`, whose name `N` is any non-empty string
/// of ASCII letters, digits, `_` and `-` that the values name, renders as the text of that
/// value followed by the rest of the template rendered on its own.
pub proof fn law_named_placeholder_replaced(
    n: Seq<char>,
    rest: Seq<char>,
    values: Map<Seq<char>, YamlView>,
)
    requires
        ascii_name(n),
        values.contains_key(n),
    ensures
        rendered(plain_placeholder(n) + rest, values) == value_text(values[n]) + rendered(
            rest,
            values,
        ),
{
    let t = plain_placeholder(n) + rest;
    lemma_plain_placeholder_at(n, rest);
    law_rendered_local(t, n.len() + 6int, values);
    assert(rendered(t, values) =~= value_text(values[n]) + rendered(rest, values));
}

/// A placeholder `{{ N }}` whose name no value has is kept as written, and the rest of the
/// template is rendered on its own.
pub proof fn law_unknown_name_kept(n: Seq<char>, rest: Seq<char>, values: Map<Seq<char>, YamlView>)
    requires
        ascii_name(n),
        !values.contains_key(n),
    ensures
        rendered(plain_placeholder(n) + rest, values) == plain_placeholder(n) + rendered(
            rest,
            values,
        ),
{
    let t = plain_placeholder(n) + rest;
    lemma_plain_placeholder_at(n, rest);
    law_rendered_local(t, n.len() + 6int, values);
}

/// A placeholder `{{ N | F }}` with names `N` and `F` (ASCII letters, digits, `_`, `-`) whose
/// value is named renders as that value's text with the filter applied: lower- or upper-cased
/// for `lower` and `upper`, and kept as written for any other filter; the rest of the template
/// is rendered on its own.
pub proof fn law_filtered_placeholder(
    n: Seq<char>,
    f: Seq<char>,
    rest: Seq<char>,
    values: Map<Seq<char>, YamlView>,
)
    requires
        ascii_name(n),
        ascii_name(f),
        values.contains_key(n),
    ensures
        rendered(filter_placeholder(n, f) + rest, values) == (if f == seq!['l', 'o', 'w', 'e', 'r'] {
            lowercase(value_text(values[n]))
        } else if f == seq!['u', 'p', 'p', 'e', 'r'] {
            uppercase(value_text(values[n]))
        } else {
            filter_placeholder(n, f)
        }) + rendered(rest, values),
{
    let t = filter_placeholder(n, f) + rest;
    let l = n.len() as int;
    let m = f.len() as int;
    assert(t.len() == l + m + 9 + rest.len());
    assert(t[0] == '{' && t[1] == '{' && t[2] == ' ');
    assert(t[3 + l] == ' ');
    assert(t[4 + l] == '|');
    assert(t[5 + l] == ' ');
    assert(t[6 + l + m] == ' ');
    assert(t[7 + l + m] == '}');
    assert(t[8 + l + m] == '}');
    assert(t.subrange(3, 3 + l) =~= n);
    assert(t.subrange(6 + l, 6 + l + m) =~= f);
    lemma_name_span(t, 3, n);
    lemma_name_span(t, 6 + l, f);
    assert(white_run(t, 2) == 1);
    assert(white_run(t, 4 + l) == 0);
    assert(white_run(t, 3 + l) == 1);
    assert(white_run(t, 5 + l) == 1);
    assert(white_run(t, 7 + l + m) == 0);
    assert(white_run(t, 6 + l + m) == 1);
    assert(closes_at(t, 7 + l + m));
    assert(placeholder_at(t, 0) == Some((l + m + 9, 3int, l + 3, Some((l + 6, l + 6 + m)))));
    assert(t.subrange(0, l + m + 9) =~= filter_placeholder(n, f));
    assert(t.subrange(l + m + 9, t.len() as int) =~= rest);
    law_filters(value_text(values[n]), f);
    law_rendered_local(t, l + m + 9, values);
}

/// A placeholder found at some position, with every position moved by `d`.
pub open spec fn shifted(
    found: Option<(int, int, int, Option<(int, int)>)>,
    d: int,
) -> Option<(int, int, int, Option<(int, int)>)> {
    match found {
        Some((end, name_start, name_end, filter)) => Some(
            (
                end + d,
                name_start + d,
                name_end + d,
                match filter {
                    Some((a, b)) => Some((a + d, b + d)),
                    None => None,
                },
            ),
        ),
        None => None,
    }
}

/// Two texts that agree from positions `p` and `q` on.
pub open spec fn same_suffix(t: Seq<char>, p: int, u: Seq<char>, q: int) -> bool {
    &&& 0 <= p <= t.len()
    &&& 0 <= q <= u.len()
    &&& t.subrange(p, t.len() as int) == u.subrange(q, u.len() as int)
}

proof fn lemma_suffix_chars(t: Seq<char>, p: int, u: Seq<char>, q: int)
    requires
        same_suffix(t, p, u, q),
    ensures
        t.len() - p == u.len() - q,
        forall|k: int| 0 <= k < t.len() - p ==> #[trigger] t[p + k] == u[q + k],
{
    assert(t.subrange(p, t.len() as int).len() == u.subrange(q, u.len() as int).len());
    assert forall|k: int| 0 <= k < t.len() - p implies #[trigger] t[p + k] == u[q + k] by {
        assert(t.subrange(p, t.len() as int)[k] == u.subrange(q, u.len() as int)[k]);
    }
}

proof fn lemma_runs_agree(t: Seq<char>, p: int, u: Seq<char>, q: int, k: int)
    requires
        same_suffix(t, p, u, q),
        0 <= k,
    ensures
        white_run(t, p + k) == white_run(u, q + k),
        name_run(t, p + k) == name_run(u, q + k),
    decreases t.len() - p - k,
{
    lemma_suffix_chars(t, p, u, q);
    if p + k < t.len() {
        assert(t[p + k] == u[q + k]);
        lemma_runs_agree(t, p, u, q, k + 1);
        assert(p + (k + 1) == p + k + 1);
        assert(q + (k + 1) == q + k + 1);
    }
}

proof fn lemma_placeholder_agree(t: Seq<char>, p: int, u: Seq<char>, q: int)
    requires
        same_suffix(t, p, u, q),
    ensures
        placeholder_at(t, p) == shifted(placeholder_at(u, q), p - q),
{
    let d = p - q;
    lemma_suffix_chars(t, p, u, q);
    if p + 1 < t.len() {
        assert(t[p + 0] == u[q + 0]);
        assert(t[p] == u[q]);
        assert(t[p + 1] == u[q + 1]);
        lemma_runs_agree(t, p, u, q, 2);
        let ns = q + 2 + white_run(u, q + 2);
        lemma_runs_agree(t, p, u, q, ns - q);
        let ne = ns + name_run(u, ns);
        lemma_runs_agree(t, p, u, q, ne - q);
        let bar = ne + white_run(u, ne);
        if bar < u.len() {
            assert(t[p + (bar - q)] == u[q + (bar - q)]);
        }
        if bar + 1 < u.len() {
            assert(t[p + (bar + 1 - q)] == u[q + (bar + 1 - q)]);
        }
        lemma_runs_agree(t, p, u, q, bar + 1 - q);
        let fs = bar + 1 + white_run(u, bar + 1);
        lemma_runs_agree(t, p, u, q, fs - q);
        let fe = fs + name_run(u, fs);
        lemma_runs_agree(t, p, u, q, fe - q);
        let close = fe + white_run(u, fe);
        if close + 1 < u.len() && close >= 0 {
            assert(t[p + (close - q)] == u[q + (close - q)]);
            assert(t[p + (close + 1 - q)] == u[q + (close + 1 - q)]);
        }
        assert(closes_at(t, close + d) == closes_at(u, close));
        assert(closes_at(t, bar + d) == closes_at(u, bar));
    }
}

/// Whether a placeholder starts at a position depends only on the text from that position on:
/// it is the placeholder that starts the rest of the text, its positions moved there.
pub proof fn law_placeholder_local(t: Seq<char>, p: int)
    requires
        0 <= p <= t.len(),
    ensures
        placeholder_at(t, p) == shifted(placeholder_at(t.subrange(p, t.len() as int), 0), p),
{
    let rest = t.subrange(p, t.len() as int);
    assert(rest.subrange(0, rest.len() as int) =~= rest);
    lemma_placeholder_agree(t, p, rest, 0);
}


proof fn lemma_placeholder_order(t: Seq<char>, p: int)
    ensures
        placeholder_at(t, p) matches Some(found) ==> p <= found.1 <= found.2 <= found.0 <= t.len()
            && match found.3 {
            Some((a, b)) => p <= a <= b <= found.0,
            None => true,
        },
{
}

proof fn lemma_suffix_subrange(t: Seq<char>, p: int, u: Seq<char>, q: int, a: int, b: int)
    requires
        same_suffix(t, p, u, q),
        p <= a <= b <= t.len(),
    ensures
        t.subrange(a, b) == u.subrange(a - p + q, b - p + q),
{
    lemma_suffix_chars(t, p, u, q);
    assert forall|j: int| 0 <= j < b - a implies #[trigger] t.subrange(a, b)[j] == u.subrange(
        a - p + q,
        b - p + q,
    )[j] by {
        let k = a - p + j;
        assert(t[p + k] == u[q + k]);
    }
    assert(t.subrange(a, b) =~= u.subrange(a - p + q, b - p + q));
}

proof fn lemma_rendered_agree(
    t: Seq<char>,
    p: int,
    u: Seq<char>,
    q: int,
    values: Map<Seq<char>, YamlView>,
)
    requires
        same_suffix(t, p, u, q),
    ensures
        rendered_from(t, values, p) == rendered_from(u, values, q),
    decreases t.len() - p,
{
    lemma_suffix_chars(t, p, u, q);
    if p < t.len() {
        let d = p - q;
        lemma_placeholder_agree(t, p, u, q);
        lemma_placeholder_order(u, q);
        match placeholder_at(u, q) {
            Some(fu) => {
                let ft = shifted(Some(fu), d)->Some_0;
                lemma_suffix_subrange(t, p, u, q, p, ft.0);
                lemma_suffix_subrange(t, p, u, q, ft.1, ft.2);
                if let Some((a, b)) = fu.3 {
                    lemma_suffix_subrange(t, p, u, q, a + d, b + d);
                }
                assert(replacement(t, p, ft, values) == replacement(u, q, fu, values));
                lemma_suffix_subrange(t, p, u, q, ft.0, t.len() as int);
                lemma_suffix_subrange(t, p, u, q, p, t.len() as int);
                assert(u.subrange(fu.0, u.len() as int) == t.subrange(ft.0, t.len() as int));
                lemma_rendered_agree(t, ft.0, u, fu.0, values);
            },
            None => {
                assert(t[p + 0] == u[q + 0]);
                lemma_suffix_subrange(t, p, u, q, p + 1, t.len() as int);
                lemma_rendered_agree(t, p + 1, u, q + 1, values);
            },
        }
    }
}

/// Rendering from a position of a template gives what rendering the rest of the template, on
/// its own, gives: what precedes a placeholder does not change how it is read or replaced.
pub proof fn law_rendered_local(t: Seq<char>, i: int, values: Map<Seq<char>, YamlView>)
    requires
        0 <= i <= t.len(),
    ensures
        rendered_from(t, values, i) == rendered(t.subrange(i, t.len() as int), values),
{
    let rest = t.subrange(i, t.len() as int);
    assert(rest.subrange(0, rest.len() as int) =~= rest);
    lemma_rendered_agree(t, i, rest, 0, values);
}


/// The filters map the whole text: no filter keeps it, `lower` gives `str::to_lowercase` of it,
/// `upper` gives `str::to_uppercase` of it, and any other filter is unknown.
pub proof fn law_filters(text: Seq<char>, other: Seq<char>)
    ensures
        filtered(text, None) == Some(text),
        filtered(text, Some(seq!['l', 'o', 'w', 'e', 'r'])) == Some(lowercase(text)),
        filtered(text, Some(seq!['u', 'p', 'p', 'e', 'r'])) == Some(uppercase(text)),
        other != seq!['l', 'o', 'w', 'e', 'r'] && other != seq!['u', 'p', 'p', 'e', 'r'] ==> filtered(
            text,
            Some(other),
        ) is None,
{
    assert(seq!['l', 'o', 'w', 'e', 'r'] != seq!['u', 'p', 'p', 'e', 'r']) by {
        assert(seq!['l', 'o', 'w', 'e', 'r'][0] != seq!['u', 'p', 'p', 'e', 'r'][0]);
    }
}


/// A character other than `{` starts no placeholder: it is kept, and the rest of the template
/// is rendered on its own.
pub proof fn law_plain_char_kept(c: char, rest: Seq<char>, values: Map<Seq<char>, YamlView>)
    requires
        c != '{',
    ensures
        rendered(seq![c] + rest, values) == seq![c] + rendered(rest, values),
{
    let t = seq![c] + rest;
    assert(t[0] == c);
    law_rendered_local(t, 1, values);
    assert(t.subrange(1, t.len() as int) =~= rest);
}

} // verus!
