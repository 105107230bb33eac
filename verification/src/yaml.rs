//! A YAML value held as plain data, and the text it gives in a rendered template.
use vstd::prelude::*;

use crate::text::{trim, trimmed};
use serde_yaml_ng::Value;
use serde_yaml_ng::value::{Tag, TaggedValue};

verus! {

/// The mathematical model of a YAML value.
///
/// Numbers are held by their canonical text (the decimal form of an integer, the shortest
/// round-trip form of a float, or `.nan`, `.inf`, `-.inf`), tags without their leading `!`.
pub enum YamlView {
    Null,
    Bool(bool),
    Number(Seq<char>),
    Text(Seq<char>),
    List(Seq<YamlView>),
    Mapping(Seq<(YamlView, YamlView)>),
    Tagged(Seq<char>, Box<YamlView>),
}

/// A YAML value: a scalar, a sequence, a mapping whose entries keep their order, or a tagged value.
///
/// A mapping is held as a vector of entries and searched by `same_as`, which compares keys as
/// `serde_yaml_ng`'s `Value` does: its `Mapping` is keyed by the outside `Value`, whose content
/// the merge reads, so the library holds the entries as its own values.
#[derive(Debug, PartialEq)]
pub enum Yaml {
    Null,
    Bool(bool),
    Number(String),
    Text(String),
    List(Vec<Yaml>),
    Mapping(Vec<(Yaml, Yaml)>),
    Tagged(String, Box<Yaml>),
}

impl Yaml {
    /// The value's model: strings by their characters, sequences by their items' models.
    pub open spec fn model(&self) -> YamlView
        decreases self,
    {
        match self {
            Yaml::Null => YamlView::Null,
            Yaml::Bool(b) => YamlView::Bool(*b),
            Yaml::Number(n) => YamlView::Number(n@),
            Yaml::Text(s) => YamlView::Text(s@),
            Yaml::List(items) => YamlView::List(
                Seq::new(
                    items.len() as nat,
                    |i: int|
                        {
                            if 0 <= i < items.len() {
                                proof {
                                    assert(decreases_to!(items => items@[i]));
                                }
                                items@[i].model()
                            } else {
                                YamlView::Null
                            }
                        },
                ),
            ),
            Yaml::Mapping(entries) => YamlView::Mapping(
                Seq::new(
                    entries.len() as nat,
                    |i: int|
                        {
                            if 0 <= i < entries.len() {
                                proof {
                                    assert(decreases_to!(entries => entries@[i]));
                                }
                                (entries@[i].0.model(), entries@[i].1.model())
                            } else {
                                (YamlView::Null, YamlView::Null)
                            }
                        },
                ),
            ),
            Yaml::Tagged(tag, inner) => YamlView::Tagged(tag@, Box::new(inner.model())),
        }
    }
}

impl View for Yaml {
    type V = YamlView;

    open spec fn view(&self) -> YamlView {
        self.model()
    }
}

/// The models of a sequence of values.
pub open spec fn items_view(items: Seq<Yaml>) -> Seq<YamlView> {
    items.map_values(|y: Yaml| y@)
}

/// The models of a sequence of mapping entries.
pub open spec fn entries_view(entries: Seq<(Yaml, Yaml)>) -> Seq<(YamlView, YamlView)> {
    entries.map_values(|e: (Yaml, Yaml)| (e.0@, e.1@))
}

/// A list's model holds its items' models.
pub proof fn lemma_list_view(items: Vec<Yaml>)
    ensures
        Yaml::List(items)@ == YamlView::List(items_view(items@)),
{
    assert(Yaml::List(items)@->List_0 =~= items_view(items@));
}

/// A mapping's model holds its entries' models.
pub proof fn lemma_mapping_view(entries: Vec<(Yaml, Yaml)>)
    ensures
        Yaml::Mapping(entries)@ == YamlView::Mapping(entries_view(entries@)),
{
    assert(Yaml::Mapping(entries)@->Mapping_0 =~= entries_view(entries@));
}

/// Every tag of the value, at any depth, is non-empty.
pub open spec fn tags_named(v: YamlView) -> bool
    decreases v,
{
    match v {
        YamlView::List(items) => forall|i: int| 0 <= i < items.len() ==> tags_named(#[trigger] items[i]),
        YamlView::Mapping(entries) => forall|i: int|
            0 <= i < entries.len() ==> tags_named(#[trigger] entries[i].0) && tags_named(entries[i].1),
        YamlView::Tagged(tag, inner) => tag.len() > 0 && tags_named(*inner),
        _ => true,
    }
}

/// The text by which a float zero is shown: `0.0` or `-0.0`.
pub open spec fn is_float_zero(text: Seq<char>) -> bool {
    text == seq!['0', '.', '0'] || text == seq!['-', '0', '.', '0']
}

/// Whether two numbers, given by their text, are equal: the same text, or both a float zero
/// (`0.0` equals `-0.0`, as two floats do).
pub open spec fn numbers_equal(x: Seq<char>, y: Seq<char>) -> bool {
    x == y || (is_float_zero(x) && is_float_zero(y))
}

/// Some entry of `ys` has a key equivalent to the key of `x` and a value equivalent to its value.
pub open spec fn matched_in(x: (YamlView, YamlView), ys: Seq<(YamlView, YamlView)>) -> bool
    decreases x, 1nat,
{
    exists|j: int|
        #![trigger ys[j]]
        0 <= j < ys.len() && equivalent(x.0, ys[j].0) && equivalent(x.1, ys[j].1)
}

/// Some entry of `xs` has a key equivalent to the key of `y` and a value equivalent to its value.
pub open spec fn matches_one_of(xs: Seq<(YamlView, YamlView)>, y: (YamlView, YamlView)) -> bool
    decreases xs, 1nat,
{
    exists|i: int|
        #![trigger xs[i]]
        0 <= i < xs.len() && equivalent(xs[i].0, y.0) && equivalent(xs[i].1, y.1)
}

/// Whether two values are equal as YAML values: scalars of the same kind and value (numbers by
/// `numbers_equal`), lists item by item, tagged values by tag and value, and mappings of the same
/// length whose entries match one for one whatever their order.
pub open spec fn equivalent(a: YamlView, b: YamlView) -> bool
    decreases a, 0nat,
{
    match a {
        YamlView::Null => b is Null,
        YamlView::Bool(x) => b matches YamlView::Bool(y) && x == y,
        YamlView::Number(x) => b matches YamlView::Number(y) && numbers_equal(x, y),
        YamlView::Text(x) => b matches YamlView::Text(y) && x == y,
        YamlView::List(xs) => match b {
            YamlView::List(ys) => xs.len() == ys.len() && forall|i: int|
                0 <= i < xs.len() ==> equivalent(#[trigger] xs[i], ys[i]),
            _ => false,
        },
        YamlView::Mapping(xs) => match b {
            YamlView::Mapping(ys) => xs.len() == ys.len() && (forall|i: int|
                0 <= i < xs.len() ==> matched_in(#[trigger] xs[i], ys)) && (forall|j: int|
                0 <= j < ys.len() ==> matches_one_of(xs, #[trigger] ys[j])),
            _ => false,
        },
        YamlView::Tagged(t, x) => match b {
            YamlView::Tagged(u, y) => t == u && equivalent(*x, *y),
            _ => false,
        },
    }
}

/// Every value is equivalent to itself.
pub proof fn lemma_equivalent_reflexive(a: YamlView)
    ensures
        equivalent(a, a),
    decreases a,
{
    match a {
        YamlView::List(xs) => {
            assert forall|i: int| 0 <= i < xs.len() implies equivalent(#[trigger] xs[i], xs[i]) by {
                assert(decreases_to!(a => xs));
                assert(decreases_to!(xs => xs[i]));
                lemma_equivalent_reflexive(xs[i]);
            }
        },
        YamlView::Mapping(xs) => {
            assert forall|i: int| 0 <= i < xs.len() implies matched_in(#[trigger] xs[i], xs)
                && matches_one_of(xs, xs[i]) by {
                assert(decreases_to!(a => xs));
                assert(decreases_to!(xs => xs[i]));
                assert(decreases_to!(xs[i] => xs[i].0));
                assert(decreases_to!(xs[i] => xs[i].1));
                lemma_equivalent_reflexive(xs[i].0);
                lemma_equivalent_reflexive(xs[i].1);
            }
        },
        YamlView::Tagged(t, x) => {
            lemma_equivalent_reflexive(*x);
        },
        _ => {},
    }
}

/// Equivalence is symmetric.
pub proof fn lemma_equivalent_symmetric(a: YamlView, b: YamlView)
    requires
        equivalent(a, b),
    ensures
        equivalent(b, a),
    decreases a,
{
    match a {
        YamlView::List(xs) => {
            let ys = b->List_0;
            assert forall|i: int| 0 <= i < ys.len() implies equivalent(#[trigger] ys[i], xs[i]) by {
                assert(equivalent(xs[i], ys[i]));
                assert(decreases_to!(a => xs));
                assert(decreases_to!(xs => xs[i]));
                lemma_equivalent_symmetric(xs[i], ys[i]);
            }
        },
        YamlView::Mapping(xs) => {
            let ys = b->Mapping_0;
            assert forall|j: int| 0 <= j < ys.len() implies matched_in(#[trigger] ys[j], xs) by {
                assert(matches_one_of(xs, ys[j]));
                let i = choose|i: int|
                    #![trigger xs[i]]
                    0 <= i < xs.len() && equivalent(xs[i].0, ys[j].0) && equivalent(
                        xs[i].1,
                        ys[j].1,
                    );
                assert(decreases_to!(a => xs));
                assert(decreases_to!(xs => xs[i]));
                assert(decreases_to!(xs[i] => xs[i].0));
                assert(decreases_to!(xs[i] => xs[i].1));
                lemma_equivalent_symmetric(xs[i].0, ys[j].0);
                lemma_equivalent_symmetric(xs[i].1, ys[j].1);
            }
            assert forall|i: int| 0 <= i < xs.len() implies matches_one_of(ys, #[trigger] xs[i]) by {
                assert(matched_in(xs[i], ys));
                let j = choose|j: int|
                    #![trigger ys[j]]
                    0 <= j < ys.len() && equivalent(xs[i].0, ys[j].0) && equivalent(
                        xs[i].1,
                        ys[j].1,
                    );
                assert(decreases_to!(a => xs));
                assert(decreases_to!(xs => xs[i]));
                assert(decreases_to!(xs[i] => xs[i].0));
                assert(decreases_to!(xs[i] => xs[i].1));
                lemma_equivalent_symmetric(xs[i].0, ys[j].0);
                lemma_equivalent_symmetric(xs[i].1, ys[j].1);
            }
        },
        YamlView::Tagged(t, x) => {
            lemma_equivalent_symmetric(*x, *(b->Tagged_1));
        },
        _ => {},
    }
}

/// Equivalence is transitive.
pub proof fn lemma_equivalent_transitive(a: YamlView, b: YamlView, c: YamlView)
    requires
        equivalent(a, b),
        equivalent(b, c),
    ensures
        equivalent(a, c),
    decreases a,
{
    match a {
        YamlView::List(xs) => {
            let ys = b->List_0;
            let zs = c->List_0;
            assert forall|i: int| 0 <= i < xs.len() implies equivalent(#[trigger] xs[i], zs[i]) by {
                assert(equivalent(xs[i], ys[i]));
                assert(equivalent(ys[i], zs[i]));
                assert(decreases_to!(a => xs));
                assert(decreases_to!(xs => xs[i]));
                lemma_equivalent_transitive(xs[i], ys[i], zs[i]);
            }
        },
        YamlView::Mapping(xs) => {
            let ys = b->Mapping_0;
            let zs = c->Mapping_0;
            assert forall|i: int| 0 <= i < xs.len() implies matched_in(#[trigger] xs[i], zs) by {
                assert(matched_in(xs[i], ys));
                let j = choose|j: int|
                    #![trigger ys[j]]
                    0 <= j < ys.len() && equivalent(xs[i].0, ys[j].0) && equivalent(
                        xs[i].1,
                        ys[j].1,
                    );
                assert(matched_in(ys[j], zs));
                let l = choose|l: int|
                    #![trigger zs[l]]
                    0 <= l < zs.len() && equivalent(ys[j].0, zs[l].0) && equivalent(
                        ys[j].1,
                        zs[l].1,
                    );
                assert(decreases_to!(a => xs));
                assert(decreases_to!(xs => xs[i]));
                assert(decreases_to!(xs[i] => xs[i].0));
                assert(decreases_to!(xs[i] => xs[i].1));
                lemma_equivalent_transitive(xs[i].0, ys[j].0, zs[l].0);
                lemma_equivalent_transitive(xs[i].1, ys[j].1, zs[l].1);
            }
            assert forall|l: int| 0 <= l < zs.len() implies matches_one_of(xs, #[trigger] zs[l]) by {
                assert(matches_one_of(ys, zs[l]));
                let j = choose|j: int|
                    #![trigger ys[j]]
                    0 <= j < ys.len() && equivalent(ys[j].0, zs[l].0) && equivalent(
                        ys[j].1,
                        zs[l].1,
                    );
                assert(matches_one_of(xs, ys[j]));
                let i = choose|i: int|
                    #![trigger xs[i]]
                    0 <= i < xs.len() && equivalent(xs[i].0, ys[j].0) && equivalent(
                        xs[i].1,
                        ys[j].1,
                    );
                assert(decreases_to!(a => xs));
                assert(decreases_to!(xs => xs[i]));
                assert(decreases_to!(xs[i] => xs[i].0));
                assert(decreases_to!(xs[i] => xs[i].1));
                lemma_equivalent_transitive(xs[i].0, ys[j].0, zs[l].0);
                lemma_equivalent_transitive(xs[i].1, ys[j].1, zs[l].1);
            }
        },
        YamlView::Tagged(t, x) => {
            lemma_equivalent_transitive(*x, *(b->Tagged_1), *(c->Tagged_1));
        },
        _ => {},
    }
}

/// No two entries of the mapping have equivalent keys.
pub open spec fn keys_distinct(entries: Seq<(YamlView, YamlView)>) -> bool {
    forall|i: int, j: int|
        0 <= i < entries.len() && 0 <= j < entries.len() && i != j ==> !equivalent(
            #[trigger] entries[i].0,
            #[trigger] entries[j].0,
        )
}

/// A value as a YAML document can hold it: every tag is non-empty and no mapping, at any
/// depth, holds two equivalent keys.
pub open spec fn well_formed(v: YamlView) -> bool
    decreases v,
{
    match v {
        YamlView::List(items) => forall|i: int|
            0 <= i < items.len() ==> well_formed(#[trigger] items[i]),
        YamlView::Mapping(entries) => keys_distinct(entries) && forall|i: int|
            0 <= i < entries.len() ==> well_formed(#[trigger] entries[i].0) && well_formed(
                entries[i].1,
            ),
        YamlView::Tagged(tag, inner) => tag.len() > 0 && well_formed(*inner),
        _ => true,
    }
}

/// An item of a list is smaller than the list.
proof fn lemma_item_smaller(v: Yaml, i: int)
    requires
        v is List,
        0 <= i < v->List_0.len(),
    ensures
        decreases_to!(v => v->List_0@[i]),
{
    let items = v->List_0;
    assert(decreases_to!(v => items));
    assert(decreases_to!(items => items@));
    assert(decreases_to!(items@ => items@[i]));
}

/// The key and the value of a mapping entry are smaller than the mapping.
proof fn lemma_entry_smaller(v: Yaml, i: int)
    requires
        v is Mapping,
        0 <= i < v->Mapping_0.len(),
    ensures
        decreases_to!(v => v->Mapping_0@[i].0),
        decreases_to!(v => v->Mapping_0@[i].1),
{
    let entries = v->Mapping_0;
    assert(decreases_to!(v => entries));
    assert(decreases_to!(entries => entries@));
    assert(decreases_to!(entries@ => entries@[i]));
    assert(decreases_to!(entries@[i] => entries@[i].0));
    assert(decreases_to!(entries@[i] => entries@[i].1));
}

/// A list with an item that has an empty tag has an empty tag.
proof fn lemma_list_tags(items: Seq<YamlView>, i: int)
    requires
        0 <= i < items.len(),
        !tags_named(items[i]),
    ensures
        !tags_named(YamlView::List(items)),
{
    let v = YamlView::List(items);
    assert(decreases_to!(v => v->List_0));
    assert(decreases_to!(items => items[i]));
}

/// A mapping with an entry that has an empty tag has an empty tag.
proof fn lemma_mapping_tags(entries: Seq<(YamlView, YamlView)>, i: int)
    requires
        0 <= i < entries.len(),
        !tags_named(entries[i].0) || !tags_named(entries[i].1),
    ensures
        !tags_named(YamlView::Mapping(entries)),
{
    let v = YamlView::Mapping(entries);
    assert(decreases_to!(v => v->Mapping_0));
    assert(decreases_to!(entries => entries[i]));
    assert(decreases_to!(entries[i] => entries[i].0));
    assert(decreases_to!(entries[i] => entries[i].1));
}

/// Whether the text is that of a float zero (see `is_float_zero`).
fn is_float_zero_text(text: &String) -> (r: bool)
    ensures
        r == is_float_zero(text@),
{
    let c = crate::text::chars_of(text.as_str());
    let positive = c.len() == 3 && c[0] == '0' && c[1] == '.' && c[2] == '0';
    let negative = c.len() == 4 && c[0] == '-' && c[1] == '0' && c[2] == '.' && c[3] == '0';
    proof {
        let z = seq!['0', '.', '0'];
        let nz = seq!['-', '0', '.', '0'];
        assert(z.len() == 3 && z[0] == '0' && z[1] == '.' && z[2] == '0');
        assert(nz.len() == 4 && nz[0] == '-' && nz[1] == '0' && nz[2] == '.' && nz[3] == '0');
        if positive {
            assert(c@ =~= z);
        }
        if negative {
            assert(c@ =~= nz);
        }
    }
    positive || negative
}

impl Yaml {
    /// Whether the two values are equal as YAML values (see `equivalent`).
    pub fn same_as(&self, other: &Yaml) -> (r: bool)
        ensures
            r == equivalent(self@, other@),
            self is Text && other is Text ==> r == (self->Text_0@ == other->Text_0@),
            self is Bool && other is Bool ==> r == (self->Bool_0 == other->Bool_0),
            self is Null && other is Null ==> r,
            self is Number && other is Number ==> r == (self->Number_0@ == other->Number_0@ || (
            zero_text(self->Number_0@) && zero_text(other->Number_0@))),
        decreases self,
    {
        match (self, other) {
            (Yaml::Null, Yaml::Null) => true,
            (Yaml::Bool(x), Yaml::Bool(y)) => *x == *y,
            (Yaml::Number(x), Yaml::Number(y)) => {
                proof {
                    lemma_zero_text(x@);
                    lemma_zero_text(y@);
                }
                x.eq(y) || (is_float_zero_text(x) && is_float_zero_text(y))
            },
            (Yaml::Text(x), Yaml::Text(y)) => x.eq(y),
            (Yaml::List(xs), Yaml::List(ys)) => {
                proof {
                    lemma_list_view(*xs);
                    lemma_list_view(*ys);
                }
                let ghost vx = items_view(xs@);
                let ghost vy = items_view(ys@);
                if xs.len() != ys.len() {
                    assert(vx.len() != vy.len());
                    return false;
                }
                let mut i: usize = 0;
                while i < xs.len()
                    invariant
                        0 <= i <= xs.len(),
                        xs.len() == ys.len(),
                        vx == items_view(xs@),
                        vy == items_view(ys@),
                        self@ == YamlView::List(vx),
                        other@ == YamlView::List(vy),
                        *self == Yaml::List(*xs),
                        forall|k: int| 0 <= k < i ==> equivalent(#[trigger] vx[k], vy[k]),
                    decreases xs.len() - i,
                {
                    proof {
                        lemma_item_smaller(*self, i as int);
                    }
                    if !xs[i].same_as(&ys[i]) {
                        assert(vx[i as int] == xs@[i as int]@ && vy[i as int] == ys@[i as int]@);
                        assert(!equivalent(self@, other@));
                        return false;
                    }
                    assert(vx[i as int] == xs@[i as int]@ && vy[i as int] == ys@[i as int]@);
                    i = i + 1;
                }
                assert(equivalent(self@, other@));
                true
            },
            (Yaml::Mapping(xs), Yaml::Mapping(ys)) => {
                proof {
                    lemma_mapping_view(*xs);
                    lemma_mapping_view(*ys);
                }
                let ghost vx = entries_view(xs@);
                let ghost vy = entries_view(ys@);
                if xs.len() != ys.len() {
                    assert(vx.len() != vy.len());
                    return false;
                }
                let mut i: usize = 0;
                while i < xs.len()
                    invariant
                        0 <= i <= xs.len(),
                        xs.len() == ys.len(),
                        vx == entries_view(xs@),
                        vy == entries_view(ys@),
                        self@ == YamlView::Mapping(vx),
                        other@ == YamlView::Mapping(vy),
                        *self == Yaml::Mapping(*xs),
                        forall|k: int| 0 <= k < i ==> matched_in(#[trigger] vx[k], vy),
                    decreases xs.len() - i,
                {
                    let mut found = false;
                    let mut j: usize = 0;
                    while j < ys.len() && !found
                        invariant
                            0 <= i < xs.len(),
                            0 <= j <= ys.len(),
                            vx == entries_view(xs@),
                            vy == entries_view(ys@),
                            *self == Yaml::Mapping(*xs),
                            found ==> matched_in(vx[i as int], vy),
                            !found ==> forall|l: int|
                                0 <= l < j ==> !(equivalent(vx[i as int].0, #[trigger] vy[l].0)
                                    && equivalent(vx[i as int].1, vy[l].1)),
                        decreases ys.len() - j,
                    {
                        proof {
                            lemma_entry_smaller(*self, i as int);
                        }
                        assert(vx[i as int] == (xs@[i as int].0@, xs@[i as int].1@));
                        assert(vy[j as int] == (ys@[j as int].0@, ys@[j as int].1@));
                        if xs[i].0.same_as(&ys[j].0) && xs[i].1.same_as(&ys[j].1) {
                            found = true;
                        }
                        j = j + 1;
                    }
                    if !found {
                        assert(!matched_in(vx[i as int], vy));
                        assert(!equivalent(self@, other@));
                        return false;
                    }
                    i = i + 1;
                }
                let mut j: usize = 0;
                while j < ys.len()
                    invariant
                        0 <= j <= ys.len(),
                        xs.len() == ys.len(),
                        vx == entries_view(xs@),
                        vy == entries_view(ys@),
                        self@ == YamlView::Mapping(vx),
                        other@ == YamlView::Mapping(vy),
                        *self == Yaml::Mapping(*xs),
                        forall|k: int| 0 <= k < xs.len() ==> matched_in(#[trigger] vx[k], vy),
                        forall|k: int| 0 <= k < j ==> matches_one_of(vx, #[trigger] vy[k]),
                    decreases ys.len() - j,
                {
                    let mut found = false;
                    let mut i: usize = 0;
                    while i < xs.len() && !found
                        invariant
                            0 <= j < ys.len(),
                            0 <= i <= xs.len(),
                            vx == entries_view(xs@),
                            vy == entries_view(ys@),
                            *self == Yaml::Mapping(*xs),
                            found ==> matches_one_of(vx, vy[j as int]),
                            !found ==> forall|l: int|
                                0 <= l < i ==> !(equivalent(#[trigger] vx[l].0, vy[j as int].0)
                                    && equivalent(vx[l].1, vy[j as int].1)),
                        decreases xs.len() - i,
                    {
                        proof {
                            lemma_entry_smaller(*self, i as int);
                        }
                        assert(vx[i as int] == (xs@[i as int].0@, xs@[i as int].1@));
                        assert(vy[j as int] == (ys@[j as int].0@, ys@[j as int].1@));
                        if xs[i].0.same_as(&ys[j].0) && xs[i].1.same_as(&ys[j].1) {
                            found = true;
                        }
                        i = i + 1;
                    }
                    if !found {
                        assert(!matches_one_of(vx, vy[j as int]));
                        assert(!equivalent(self@, other@));
                        return false;
                    }
                    j = j + 1;
                }
                assert(equivalent(self@, other@));
                true
            },
            (Yaml::Tagged(t, x), Yaml::Tagged(u, y)) => {
                let same_tag = t.eq(u);
                assert(self@ == YamlView::Tagged(t@, Box::new(x@)));
                assert(other@ == YamlView::Tagged(u@, Box::new(y@)));
                if !same_tag {
                    return false;
                }
                x.same_as(y)
            },
            (Yaml::Null, _) | (Yaml::Bool(_), _) | (Yaml::Number(_), _) | (Yaml::Text(_), _) | (
                Yaml::List(_),
                _,
            ) | (Yaml::Mapping(_), _) | (Yaml::Tagged(_, _), _) => false,
        }
    }

    /// Whether every tag of the value, at any depth, is non-empty (see `tags_named`).
    pub fn has_named_tags(&self) -> (r: bool)
        ensures
            r == tags_named(self@),
        decreases self,
    {
        match self {
            Yaml::List(items) => {
                proof {
                    lemma_list_view(*items);
                }
                let mut i: usize = 0;
                while i < items.len()
                    invariant
                        0 <= i <= items.len(),
                        *self == Yaml::List(*items),
                        self@ == YamlView::List(items_view(items@)),
                        forall|k: int| 0 <= k < i ==> tags_named(#[trigger] items_view(items@)[k]),
                    decreases items.len() - i,
                {
                    proof {
                        lemma_item_smaller(*self, i as int);
                    }
                    if !items[i].has_named_tags() {
                        assert(items_view(items@)[i as int] == items@[i as int]@);
                        proof {
                            lemma_list_tags(items_view(items@), i as int);
                        }
                        return false;
                    }
                    i = i + 1;
                }
                true
            },
            Yaml::Mapping(entries) => {
                proof {
                    lemma_mapping_view(*entries);
                }
                let mut i: usize = 0;
                while i < entries.len()
                    invariant
                        0 <= i <= entries.len(),
                        *self == Yaml::Mapping(*entries),
                        self@ == YamlView::Mapping(entries_view(entries@)),
                        forall|k: int|
                            #![trigger entries@[k]]
                            0 <= k < i ==> tags_named(entries@[k].0@) && tags_named(entries@[k].1@),
                    decreases entries.len() - i,
                {
                    proof {
                        lemma_entry_smaller(*self, i as int);
                    }
                    assert(entries_view(entries@)[i as int] == (entries@[i as int].0@, entries@[i as int].1@));
                    let key_named = entries[i].0.has_named_tags();
                    let value_named = entries[i].1.has_named_tags();
                    if !key_named || !value_named {
                        proof {
                            lemma_mapping_tags(entries_view(entries@), i as int);
                        }
                        return false;
                    }
                    i = i + 1;
                }
                assert forall|k: int| 0 <= k < entries_view(entries@).len() implies tags_named(
                    #[trigger] entries_view(entries@)[k].0,
                ) && tags_named(entries_view(entries@)[k].1) by {
                    assert(entries_view(entries@)[k] == (entries@[k].0@, entries@[k].1@));
                }
                true
            },
            Yaml::Tagged(tag, inner) => !tag.as_str().is_empty() && inner.has_named_tags(),
            _ => true,
        }
    }

    /// A copy of the value, equal to it.
    pub fn deep_clone(&self) -> (r: Yaml)
        ensures
            r@ == self@,
        decreases self,
    {
        match self {
            Yaml::Null => Yaml::Null,
            Yaml::Bool(b) => Yaml::Bool(*b),
            Yaml::Number(n) => Yaml::Number(n.clone()),
            Yaml::Text(s) => Yaml::Text(s.clone()),
            Yaml::List(items) => {
                let mut out: Vec<Yaml> = Vec::new();
                let mut i: usize = 0;
                while i < items.len()
                    invariant
                        0 <= i <= items.len(),
                        out.len() == i,
                        *self == Yaml::List(*items),
                        forall|k: int| 0 <= k < i ==> out@[k]@ == items@[k]@,
                    decreases items.len() - i,
                {
                    proof {
                        lemma_item_smaller(*self, i as int);
                    }
                    out.push(items[i].deep_clone());
                    i = i + 1;
                }
                proof {
                    lemma_list_view(*items);
                    lemma_list_view(out);
                    assert(items_view(out@) =~= items_view(items@));
                }
                Yaml::List(out)
            },
            Yaml::Mapping(entries) => {
                let mut out: Vec<(Yaml, Yaml)> = Vec::new();
                let mut i: usize = 0;
                while i < entries.len()
                    invariant
                        0 <= i <= entries.len(),
                        out.len() == i,
                        *self == Yaml::Mapping(*entries),
                        forall|k: int|
                            0 <= k < i ==> out@[k].0@ == entries@[k].0@ && out@[k].1@
                                == entries@[k].1@,
                    decreases entries.len() - i,
                {
                    proof {
                        lemma_entry_smaller(*self, i as int);
                    }
                    let key = entries[i].0.deep_clone();
                    let value = entries[i].1.deep_clone();
                    out.push((key, value));
                    i = i + 1;
                }
                proof {
                    lemma_mapping_view(*entries);
                    lemma_mapping_view(out);
                    assert(entries_view(out@) =~= entries_view(entries@));
                }
                Yaml::Mapping(out)
            },
            Yaml::Tagged(tag, inner) => {
                let inner_copy = inner.deep_clone();
                Yaml::Tagged(tag.clone(), Box::new(inner_copy))
            },
        }
    }
}

#[verifier::external_type_specification]
#[verifier::external_body]
pub struct ExYamlValue(Value);

/// The value as `serde_yaml_ng` holds it, converted one for one: a number is read back from its
/// text with `Number::from_str`, a tag is made with `Tag::new`. `None` where a number's text
/// does not read as a number.
#[verifier::external_body]
fn outside_value(v: &Yaml) -> Option<Value>
    requires
        tags_named(v@),
{
    Some(match v {
        Yaml::Null => Value::Null,
        Yaml::Bool(b) => Value::Bool(*b),
        Yaml::Number(n) => Value::Number(n.parse().ok()?),
        Yaml::Text(s) => Value::String(s.clone()),
        Yaml::List(items) => Value::Sequence(items.iter().map(outside_value).collect::<Option<_>>()?),
        Yaml::Mapping(entries) => Value::Mapping(
            entries.iter().map(|(k, x)| outside_value(k).zip(outside_value(x))).collect::<Option<_>>()?,
        ),
        Yaml::Tagged(t, inner) => Value::Tagged(Box::new(TaggedValue { tag: Tag::new(&**t), value: outside_value(inner)? })),
    })
}

/// The YAML text that `serde_yaml_ng::to_string` writes for the document a value stands for,
/// or `None` where it fails.
pub uninterp spec fn yaml_document(v: YamlView) -> Option<Seq<char>>;

/// The YAML text of the value, as `serde_yaml_ng::to_string` writes it. The contract names that
/// text (or the failure) as a function of the value and states nothing more of it.
#[verifier::external_body]
fn to_yaml_text(v: &Yaml) -> (r: Option<String>)
    requires
        tags_named(v@),
    ensures
        match r {
            Some(s) => yaml_document(v@) == Some(s@),
            None => yaml_document(v@) is None,
        },
{
    outside_value(v).and_then(|value| serde_yaml_ng::to_string(&value).ok())
}

/// The text that a value gives in a rendered template: a string as it is, `true` or `false`,
/// a number's text, nothing for null, and for any other value its YAML text with the
/// surrounding white space trimmed (nothing where that text cannot be written).
pub open spec fn value_text(v: YamlView) -> Seq<char> {
    match v {
        YamlView::Text(s) => s,
        YamlView::Bool(b) => if b {
            seq!['t', 'r', 'u', 'e']
        } else {
            seq!['f', 'a', 'l', 's', 'e']
        },
        YamlView::Number(n) => n,
        YamlView::Null => Seq::empty(),
        _ => match yaml_document(v) {
            Some(text) => trimmed(text),
            None => Seq::empty(),
        },
    }
}

/// The text that a value gives in a rendered template (see `value_text`).
pub fn value_as_string(value: &Yaml) -> (r: String)
    requires
        tags_named(value@),
    ensures
        r@ == value_text(value@),
        value is Text ==> r@ == value->Text_0@,
        value is Number ==> r@ == value->Number_0@,
        value is Null ==> r@.len() == 0,
        value is Bool ==> r@ == (if value->Bool_0 {
            seq!['t', 'r', 'u', 'e']
        } else {
            seq!['f', 'a', 'l', 's', 'e']
        }),
{
    match value {
        Yaml::Text(s) => s.clone(),
        Yaml::Bool(b) => {
            if *b {
                proof {
                    reveal_strlit("true");
                }
                let r = String::from_str("true");
                assert(r@ =~= seq!['t', 'r', 'u', 'e']);
                r
            } else {
                proof {
                    reveal_strlit("false");
                }
                let r = String::from_str("false");
                assert(r@ =~= seq!['f', 'a', 'l', 's', 'e']);
                r
            }
        },
        Yaml::Number(n) => n.clone(),
        Yaml::Null => String::new(),
        _ => match to_yaml_text(value) {
            Some(text) => trim(text.as_str()),
            None => String::new(),
        },
    }
}


/// The texts `0.0` and `-0.0`, spelled out.
pub open spec fn zero_text(t: Seq<char>) -> bool {
    ||| t.len() == 3 && t[0] == '0' && t[1] == '.' && t[2] == '0'
    ||| t.len() == 4 && t[0] == '-' && t[1] == '0' && t[2] == '.' && t[3] == '0'
}

proof fn lemma_zero_text(t: Seq<char>)
    ensures
        zero_text(t) == is_float_zero(t),
{
    let z = seq!['0', '.', '0'];
    let nz = seq!['-', '0', '.', '0'];
    assert(z.len() == 3 && z[0] == '0' && z[1] == '.' && z[2] == '0');
    assert(nz.len() == 4 && nz[0] == '-' && nz[1] == '0' && nz[2] == '.' && nz[3] == '0');
    if t.len() == 3 && zero_text(t) {
        assert(t =~= z);
    }
    if t.len() == 4 && zero_text(t) {
        assert(t =~= nz);
    }
}

/// Scalars are equivalent exactly when they are of one kind and equal: texts and booleans by
/// their value, numbers by their text, except that `0.0` and `-0.0` are one number; values of
/// different kinds are never equivalent.
pub proof fn law_scalar_equivalence(x: Seq<char>, y: Seq<char>, b: bool, c: bool, other: YamlView)
    ensures
        equivalent(YamlView::Text(x), YamlView::Text(y)) == (x == y),
        equivalent(YamlView::Bool(b), YamlView::Bool(c)) == (b == c),
        equivalent(YamlView::Null, YamlView::Null),
        equivalent(YamlView::Number(x), YamlView::Number(y)) == (x == y || (zero_text(x)
            && zero_text(y))),
        !(other is Text) ==> !equivalent(other, YamlView::Text(y)) && !equivalent(
            YamlView::Text(y),
            other,
        ),
        !(other is Number) ==> !equivalent(other, YamlView::Number(y)) && !equivalent(
            YamlView::Number(y),
            other,
        ),
{
    lemma_zero_text(x);
    lemma_zero_text(y);
}

/// The text of a scalar in a rendered file: a string as it is, a number's text, `true` or
/// `false`, nothing for null.
pub proof fn law_scalar_text(s: Seq<char>, b: bool)
    ensures
        value_text(YamlView::Text(s)) == s,
        value_text(YamlView::Number(s)) == s,
        value_text(YamlView::Null) == Seq::<char>::empty(),
        value_text(YamlView::Bool(b)) == (if b {
            seq!['t', 'r', 'u', 'e']
        } else {
            seq!['f', 'a', 'l', 's', 'e']
        }),
{
}

} // verus!
