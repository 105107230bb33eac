//! The deep merge of YAML documents: later documents override earlier ones key by key.
use vstd::prelude::*;

use crate::yaml::{
    Yaml, YamlView, entries_view, equivalent, keys_distinct, law_scalar_equivalence,
    lemma_equivalent_reflexive,
    lemma_equivalent_symmetric, lemma_equivalent_transitive, lemma_mapping_view, well_formed,
};

verus! {

/// The position of the first entry whose key is equivalent to `key`.
pub open spec fn key_position(entries: Seq<(YamlView, YamlView)>, key: YamlView) -> Option<int>
    decreases entries.len(),
{
    if entries.len() == 0 {
        None
    } else {
        match key_position(entries.drop_last(), key) {
            Some(i) => Some(i),
            None => if equivalent(entries.last().0, key) {
                Some(entries.len() - 1)
            } else {
                None
            },
        }
    }
}

/// The value that the mapping entries give to `key` (to the first key equivalent to it), if any.
pub open spec fn lookup(entries: Seq<(YamlView, YamlView)>, key: YamlView) -> Option<YamlView> {
    match key_position(entries, key) {
        Some(i) => Some(entries[i].1),
        None => None,
    }
}

/// `over` merged onto `base`: two mappings merge key by key, the entries of `over` taken in
/// order; a key of `base` equivalent to the key of an entry of `over` keeps its place and its
/// value is merged with that entry's value, a key new to `base` is added at the end. Any other
/// pair of values gives `over`.
pub open spec fn merged(base: YamlView, over: YamlView) -> YamlView
    decreases over, 0nat,
{
    match over {
        YamlView::Mapping(over_entries) => match base {
            YamlView::Mapping(base_entries) => YamlView::Mapping(
                merged_entries(base_entries, over_entries),
            ),
            _ => over,
        },
        _ => over,
    }
}

/// The entries `over` merged one after the other onto the entries `acc`.
pub open spec fn merged_entries(
    acc: Seq<(YamlView, YamlView)>,
    over: Seq<(YamlView, YamlView)>,
) -> Seq<(YamlView, YamlView)>
    decreases over, 1nat,
{
    if over.len() == 0 {
        acc
    } else {
        let key = over[0].0;
        let value = over[0].1;
        let next = match key_position(acc, key) {
            Some(j) => acc.update(j, (acc[j].0, merged(acc[j].1, value))),
            None => acc.push((key, value)),
        };
        merged_entries(next, over.subrange(1, over.len() as int))
    }
}

/// One more than the number of mapping entries and tags nested in a value: the measure that a
/// merge, which descends only into mappings, decreases.
pub open spec fn size(v: YamlView) -> nat
    decreases v, 0nat,
{
    match v {
        YamlView::Mapping(entries) => 1 + entries_size(entries),
        YamlView::Tagged(_, inner) => 1 + size(*inner),
        _ => 1,
    }
}

/// The measure of the keys and values of mapping entries (see `size`).
pub open spec fn entries_size(entries: Seq<(YamlView, YamlView)>) -> nat
    decreases entries, 1nat,
{
    if entries.len() == 0 {
        0
    } else {
        entries_size(entries.subrange(0, entries.len() - 1)) + size(entries[entries.len() - 1].0)
            + size(entries[entries.len() - 1].1)
    }
}

proof fn lemma_entry_value_size(entries: Seq<(YamlView, YamlView)>, i: int)
    requires
        0 <= i < entries.len(),
    ensures
        size(entries[i].1) < entries_size(entries),
    decreases entries.len(),
{
    let prefix = entries.subrange(0, entries.len() - 1);
    let last = entries[entries.len() - 1];
    assert(size(last.0) > 0) by {
        match last.0 {
            YamlView::Mapping(_) => {},
            YamlView::Tagged(_, _) => {},
            _ => {},
        }
    }
    assert(entries_size(entries) == entries_size(prefix) + size(last.0) + size(last.1));
    if i < entries.len() - 1 {
        lemma_entry_value_size(prefix, i);
        assert(prefix[i] == entries[i]);
    }
}

/// `key_position` finds the first entry with a key equivalent to `key`, and finds none when no
/// entry has one.
pub proof fn lemma_key_position(entries: Seq<(YamlView, YamlView)>, key: YamlView)
    ensures
        match key_position(entries, key) {
            Some(i) => 0 <= i < entries.len() && equivalent(entries[i].0, key) && forall|j: int|
                0 <= j < i ==> !equivalent(#[trigger] entries[j].0, key),
            None => forall|j: int|
                0 <= j < entries.len() ==> !equivalent(#[trigger] entries[j].0, key),
        },
    decreases entries.len(),
{
    if entries.len() > 0 {
        let prefix = entries.drop_last();
        lemma_key_position(prefix, key);
        assert forall|j: int| 0 <= j < prefix.len() implies prefix[j] == entries[j] by {}
    }
}

/// The position of the first entry whose key is equivalent to `key`.
fn find_key(entries: &Vec<(Yaml, Yaml)>, key: &Yaml) -> (r: Option<usize>)
    ensures
        match r {
            Some(i) => key_position(entries_view(entries@), key@) == Some(i as int),
            None => key_position(entries_view(entries@), key@) is None,
        },
{
    let ghost view = entries_view(entries@);
    proof {
        lemma_key_position(view, key@);
    }
    let mut i: usize = 0;
    while i < entries.len()
        invariant
            0 <= i <= entries.len(),
            view == entries_view(entries@),
            forall|j: int| 0 <= j < i ==> !equivalent(#[trigger] view[j].0, key@),
            match key_position(view, key@) {
                Some(p) => 0 <= p < view.len() && equivalent(view[p].0, key@) && forall|j: int|
                    0 <= j < p ==> !equivalent(#[trigger] view[j].0, key@),
                None => forall|j: int| 0 <= j < view.len() ==> !equivalent(#[trigger] view[j].0, key@),
            },
        decreases entries.len() - i,
    {
        if entries[i].0.same_as(key) {
            assert(equivalent(view[i as int].0, key@));
            return Some(i);
        }
        i = i + 1;
    }
    None
}

/// `over` merged onto `base` (see `merged`).
pub fn merge_value(base: Yaml, over: Yaml) -> (r: Yaml)
    ensures
        r@ == merged(base@, over@),
    decreases size(over@), 0nat,
{
    match over {
        Yaml::Mapping(over_entries) => {
            proof {
                lemma_mapping_view(over_entries);
            }
            match base {
                Yaml::Mapping(base_entries) => {
                    proof {
                        lemma_mapping_view(base_entries);
                    }
                    let entries = merge_entries(base_entries, over_entries);
                    proof {
                        lemma_mapping_view(entries);
                    }
                    Yaml::Mapping(entries)
                },
                _ => Yaml::Mapping(over_entries),
            }
        },
        other => other,
    }
}

/// The entries `over` merged one after the other onto the entries `acc` (see `merged_entries`).
fn merge_entries(acc: Vec<(Yaml, Yaml)>, over: Vec<(Yaml, Yaml)>) -> (r: Vec<(Yaml, Yaml)>)
    ensures
        entries_view(r@) == merged_entries(entries_view(acc@), entries_view(over@)),
    decreases entries_size(entries_view(over@)), 1nat,
{
    let ghost over_view = entries_view(over@);
    let ghost target = merged_entries(entries_view(acc@), over_view);
    let mut acc = acc;
    let mut i: usize = 0;
    assert(over_view.subrange(0, over_view.len() as int) =~= over_view);
    while i < over.len()
        invariant
            0 <= i <= over.len(),
            over_view == entries_view(over@),
            target == merged_entries(
                entries_view(acc@),
                over_view.subrange(i as int, over_view.len() as int),
            ),
        decreases over.len() - i,
    {
        let ghost before = entries_view(acc@);
        let ghost rest = over_view.subrange(i as int, over_view.len() as int);
        assert(rest.subrange(1, rest.len() as int) =~= over_view.subrange(
            i + 1,
            over_view.len() as int,
        ));
        assert(rest[0] == over_view[i as int]);
        let key = over[i].0.deep_clone();
        let value = over[i].1.deep_clone();
        proof {
            lemma_key_position(before, key@);
        }
        match find_key(&acc, &key) {
            Some(j) => {
                let (old_key, old_value) = acc.remove(j);
                proof {
                    lemma_entry_value_size(over_view, i as int);
                }
                let m = merge_value(old_value, value);
                acc.insert(j, (old_key, m));
                assert(entries_view(acc@) =~= before.update(
                    j as int,
                    (before[j as int].0, merged(before[j as int].1, value@)),
                ));
            },
            None => {
                acc.push((key, value));
                assert(entries_view(acc@) =~= before.push((key@, value@)));
            },
        }
        i = i + 1;
    }
    assert(over_view.subrange(i as int, over_view.len() as int) =~= Seq::<
        (YamlView, YamlView),
    >::empty());
    acc
}

/// Merges `over` onto `base` in place: afterwards `base` holds `over` merged onto its old value.
pub fn merge_yaml(base: &mut Yaml, override_value: Yaml)
    ensures
        final(base)@ == merged(old(base)@, override_value@),
{
    let mut old_base = Yaml::Null;
    std::mem::swap(base, &mut old_base);
    *base = merge_value(old_base, override_value);
}

/// What a key is given after a merge, from what the base gave it and what the override gave it.
pub open spec fn overridden(base: Option<YamlView>, over: Option<YamlView>) -> Option<YamlView> {
    match over {
        Some(o) => match base {
            Some(b) => Some(merged(b, o)),
            None => Some(o),
        },
        None => base,
    }
}

proof fn lemma_lookup_at(entries: Seq<(YamlView, YamlView)>, key: YamlView, i: int)
    requires
        keys_distinct(entries),
        0 <= i < entries.len(),
        equivalent(entries[i].0, key),
    ensures
        lookup(entries, key) == Some(entries[i].1),
{
    lemma_key_position(entries, key);
    let p = key_position(entries, key)->Some_0;
    if p != i {
        lemma_equivalent_symmetric(entries[i].0, key);
        lemma_equivalent_transitive(entries[p].0, key, entries[i].0);
    }
}

proof fn lemma_lookup_absent(entries: Seq<(YamlView, YamlView)>, key: YamlView)
    requires
        forall|j: int| 0 <= j < entries.len() ==> !equivalent(#[trigger] entries[j].0, key),
    ensures
        lookup(entries, key) is None,
{
    lemma_key_position(entries, key);
}

/// Adding an entry whose key is equivalent to no key of the entries keeps the keys distinct.
proof fn lemma_push_distinct(acc: Seq<(YamlView, YamlView)>, entry: (YamlView, YamlView))
    requires
        keys_distinct(acc),
        forall|j: int| 0 <= j < acc.len() ==> !equivalent(#[trigger] acc[j].0, entry.0),
    ensures
        keys_distinct(acc.push(entry)),
{
    let next = acc.push(entry);
    assert forall|i: int, j: int|
        0 <= i < next.len() && 0 <= j < next.len() && i != j implies !equivalent(
        #[trigger] next[i].0,
        #[trigger] next[j].0,
    ) by {
        if i == acc.len() {
            if equivalent(entry.0, acc[j].0) {
                lemma_equivalent_symmetric(entry.0, acc[j].0);
            }
        } else if j == acc.len() {
            assert(!equivalent(acc[i].0, entry.0));
        } else {
            assert(next[i] == acc[i] && next[j] == acc[j]);
        }
    }
}

/// Merging entries with distinct keys onto entries with distinct keys gives entries with
/// distinct keys, and each key the value that `overridden` gives it.
pub proof fn lemma_merged_entries_lookup(
    acc: Seq<(YamlView, YamlView)>,
    over: Seq<(YamlView, YamlView)>,
    key: YamlView,
)
    requires
        keys_distinct(acc),
        keys_distinct(over),
    ensures
        keys_distinct(merged_entries(acc, over)),
        lookup(merged_entries(acc, over), key) == overridden(lookup(acc, key), lookup(over, key)),
    decreases over.len(),
{
    if over.len() == 0 {
        lemma_lookup_absent(over, key);
    } else {
        let k0 = over[0].0;
        let v0 = over[0].1;
        let rest = over.subrange(1, over.len() as int);
        lemma_key_position(acc, k0);
        let next = match key_position(acc, k0) {
            Some(j) => acc.update(j, (acc[j].0, merged(acc[j].1, v0))),
            None => acc.push((k0, v0)),
        };
        match key_position(acc, k0) {
            Some(j) => {
                assert forall|i: int| 0 <= i < next.len() implies #[trigger] next[i].0
                    == acc[i].0 by {}
                assert(keys_distinct(next));
            },
            None => {
                lemma_push_distinct(acc, (k0, v0));
            },
        }
        assert(keys_distinct(rest));
        lemma_merged_entries_lookup(next, rest, key);
        assert(merged_entries(acc, over) == merged_entries(next, rest));
        lemma_key_position(acc, key);
        lemma_key_position(next, key);
        lemma_key_position(rest, key);
        if equivalent(k0, key) {
            lemma_lookup_at(over, key, 0);
            lemma_equivalent_symmetric(k0, key);
            assert forall|j: int| 0 <= j < rest.len() implies !equivalent(
                #[trigger] rest[j].0,
                key,
            ) by {
                assert(rest[j] == over[j + 1]);
                if equivalent(rest[j].0, key) {
                    lemma_equivalent_transitive(rest[j].0, key, k0);
                }
            }
            lemma_lookup_absent(rest, key);
            match key_position(acc, k0) {
                Some(j) => {
                    lemma_equivalent_transitive(acc[j].0, k0, key);
                    lemma_lookup_at(acc, key, j);
                    lemma_lookup_at(next, key, j);
                },
                None => {
                    assert forall|i: int| 0 <= i < acc.len() implies !equivalent(
                        #[trigger] acc[i].0,
                        key,
                    ) by {
                        if equivalent(acc[i].0, key) {
                            lemma_equivalent_transitive(acc[i].0, key, k0);
                        }
                    }
                    lemma_lookup_absent(acc, key);
                    lemma_lookup_at(next, key, acc.len() as int);
                },
            }
        } else {
            match key_position(rest, key) {
                Some(j) => {
                    assert(rest[j] == over[j + 1]);
                    lemma_lookup_at(over, key, j + 1);
                },
                None => {
                    assert forall|j: int| 0 <= j < over.len() implies !equivalent(
                        #[trigger] over[j].0,
                        key,
                    ) by {
                        if j > 0 {
                            assert(rest[j - 1] == over[j]);
                        }
                    }
                    lemma_lookup_absent(over, key);
                },
            }
            match key_position(acc, key) {
                Some(i) => {
                    if let Some(j) = key_position(acc, k0) {
                        if i == j {
                            lemma_equivalent_symmetric(acc[j].0, k0);
                            lemma_equivalent_transitive(k0, acc[j].0, key);
                        }
                    }
                    assert(next[i].0 == acc[i].0);
                    lemma_lookup_at(acc, key, i);
                    lemma_lookup_at(next, key, i);
                },
                None => {
                    assert forall|j: int| 0 <= j < next.len() implies !equivalent(
                        #[trigger] next[j].0,
                        key,
                    ) by {
                        if j < acc.len() {
                            assert(next[j].0 == acc[j].0);
                        }
                    }
                    lemma_lookup_absent(next, key);
                },
            }
        }
    }
}

proof fn lemma_entries_size_first(entries: Seq<(YamlView, YamlView)>)
    requires
        entries.len() > 0,
    ensures
        entries_size(entries) == size(entries[0].0) + size(entries[0].1) + entries_size(
            entries.subrange(1, entries.len() as int),
        ),
    decreases entries.len(),
{
    let n = entries.len() as int;
    let prefix = entries.subrange(0, n - 1);
    let tail = entries.subrange(1, n);
    assert(entries_size(entries) == entries_size(prefix) + size(entries[n - 1].0) + size(
        entries[n - 1].1,
    ));
    if n > 1 {
        lemma_entries_size_first(prefix);
        assert(prefix.subrange(1, n - 1) =~= tail.subrange(0, n - 2));
        assert(prefix[0] == entries[0]);
        assert(tail[n - 2] == entries[n - 1]);
        assert(entries_size(tail) == entries_size(tail.subrange(0, n - 2)) + size(tail[n - 2].0)
            + size(tail[n - 2].1));
    } else {
        assert(tail.len() == 0);
        assert(prefix.len() == 0);
        assert(entries_size(tail) == 0);
        assert(entries_size(prefix) == 0);
    }
}

/// Each key and each value of the entries is well formed.
pub open spec fn entries_well_formed(entries: Seq<(YamlView, YamlView)>) -> bool {
    forall|i: int|
        0 <= i < entries.len() ==> well_formed(#[trigger] entries[i].0) && well_formed(
            entries[i].1,
        )
}

/// Merging keeps values well formed.
pub proof fn lemma_merged_well_formed(base: YamlView, over: YamlView)
    requires
        well_formed(base),
        well_formed(over),
    ensures
        well_formed(merged(base, over)),
    decreases size(over), 0nat,
{
    match over {
        YamlView::Mapping(over_entries) => match base {
            YamlView::Mapping(base_entries) => {
                lemma_merged_entries_well_formed(base_entries, over_entries);
                let m = merged_entries(base_entries, over_entries);
                assert(well_formed(YamlView::Mapping(m)));
            },
            _ => {},
        },
        _ => {},
    }
}

proof fn lemma_merged_entries_well_formed(
    acc: Seq<(YamlView, YamlView)>,
    over: Seq<(YamlView, YamlView)>,
)
    requires
        keys_distinct(acc),
        entries_well_formed(acc),
        keys_distinct(over),
        entries_well_formed(over),
    ensures
        keys_distinct(merged_entries(acc, over)),
        entries_well_formed(merged_entries(acc, over)),
    decreases entries_size(over), 1nat, over.len(),
{
    if over.len() > 0 {
        let k0 = over[0].0;
        let v0 = over[0].1;
        let rest = over.subrange(1, over.len() as int);
        lemma_entries_size_first(over);
        lemma_key_position(acc, k0);
        let next = match key_position(acc, k0) {
            Some(j) => {
                lemma_entry_value_size(over, 0);
                lemma_merged_well_formed(acc[j].1, v0);
                acc.update(j, (acc[j].0, merged(acc[j].1, v0)))
            },
            None => acc.push((k0, v0)),
        };
        match key_position(acc, k0) {
            Some(j) => {
                assert forall|i: int| 0 <= i < next.len() implies #[trigger] next[i].0
                    == acc[i].0 by {}
                assert(keys_distinct(next));
            },
            None => {
                lemma_push_distinct(acc, (k0, v0));
            },
        }
        assert(entries_well_formed(next)) by {
            assert forall|i: int| 0 <= i < next.len() implies well_formed(#[trigger] next[i].0)
                && well_formed(next[i].1) by {
                if i < acc.len() {
                    assert(well_formed(acc[i].0) && well_formed(acc[i].1));
                } else {
                    assert(well_formed(over[0].0) && well_formed(over[0].1));
                }
            }
        }
        assert(keys_distinct(rest));
        assert(entries_well_formed(rest)) by {
            assert forall|i: int| 0 <= i < rest.len() implies well_formed(#[trigger] rest[i].0)
                && well_formed(rest[i].1) by {
                assert(rest[i] == over[i + 1]);
            }
        }
        lemma_merged_entries_well_formed(next, rest);
    }
}

/// The empty mapping.
pub open spec fn empty_mapping() -> YamlView {
    YamlView::Mapping(Seq::empty())
}

proof fn lemma_merged_entries_fresh(acc: Seq<(YamlView, YamlView)>, over: Seq<(YamlView, YamlView)>)
    requires
        keys_distinct(over),
        forall|i: int, j: int|
            0 <= i < acc.len() && 0 <= j < over.len() ==> !equivalent(
                #[trigger] acc[i].0,
                #[trigger] over[j].0,
            ),
    ensures
        merged_entries(acc, over) == acc + over,
    decreases over.len(),
{
    if over.len() == 0 {
        assert(acc + over =~= acc);
    } else {
        let rest = over.subrange(1, over.len() as int);
        lemma_key_position(acc, over[0].0);
        let next = acc.push(over[0]);
        assert forall|i: int, j: int|
            0 <= i < next.len() && 0 <= j < rest.len() implies !equivalent(
            #[trigger] next[i].0,
            #[trigger] rest[j].0,
        ) by {
            assert(rest[j] == over[j + 1]);
            if i < acc.len() {
                assert(next[i] == acc[i]);
            }
        }
        lemma_merged_entries_fresh(next, rest);
        assert(next + rest =~= acc + over);
    }
}

/// The values of a sequence of documents merged one after the other, in order, onto an empty
/// mapping.
pub open spec fn merged_documents(documents: Seq<YamlView>) -> YamlView
    decreases documents.len(),
{
    if documents.len() == 0 {
        empty_mapping()
    } else {
        merged(merged_documents(documents.drop_last()), documents.last())
    }
}

/// Merges the documents one after the other, in order, onto an empty mapping.
pub fn merge_documents(documents: Vec<Yaml>) -> (r: Yaml)
    ensures
        r@ == merged_documents(crate::yaml::items_view(documents@)),
        (forall|i: int| 0 <= i < documents@.len() ==> well_formed(#[trigger] documents@[i]@))
            ==> well_formed(r@),
{
    let ghost views = crate::yaml::items_view(documents@);
    let start: Vec<(Yaml, Yaml)> = Vec::new();
    proof {
        lemma_mapping_view(start);
        assert(entries_view(Seq::<(Yaml, Yaml)>::empty()) =~= Seq::empty());
        assert(views.subrange(0, 0) =~= Seq::<YamlView>::empty());
    }
    let mut result = Yaml::Mapping(start);
    let count = documents.len();
    let mut rest = documents;
    let mut i: usize = 0;
    let ghost n = views.len();
    assert(n == count);
    while rest.len() > 0
        invariant
            0 <= i <= n,
            n == views.len(),
            n <= usize::MAX,
            rest@.len() == n - i,
            forall|k: int| 0 <= k < rest@.len() ==> #[trigger] rest@[k]@ == views[i + k],
            result@ == merged_documents(views.subrange(0, i as int)),
            (forall|k: int| 0 <= k < n ==> well_formed(#[trigger] views[k])) ==> well_formed(
                result@,
            ),
        decreases rest.len(),
    {
        let ghost old_rest = rest@;
        let document = rest.remove(0);
        assert(document@ == views[i as int]);
        proof {
            if forall|k: int| 0 <= k < n ==> well_formed(#[trigger] views[k]) {
                lemma_merged_well_formed(result@, document@);
            }
        }
        merge_yaml(&mut result, document);
        proof {
            assert(views.subrange(0, i + 1).drop_last() =~= views.subrange(0, i as int));
            assert forall|k: int| 0 <= k < rest@.len() implies #[trigger] rest@[k]@ == views[i + 1
                + k] by {
                assert(rest@[k] == old_rest[k + 1]);
            }
        }
        i = i + 1;
    }
    assert(views.subrange(0, n as int) =~= views);
    result
}

/// The entries already give the entry's key a value that merging the entry's value leaves as
/// it is.
pub open spec fn absorbs(acc: Seq<(YamlView, YamlView)>, entry: (YamlView, YamlView)) -> bool {
    match lookup(acc, entry.0) {
        Some(a) => merged(a, entry.1) == a,
        None => false,
    }
}

proof fn lemma_merged_entries_absorbed(
    acc: Seq<(YamlView, YamlView)>,
    over: Seq<(YamlView, YamlView)>,
)
    requires
        forall|i: int| 0 <= i < over.len() ==> #[trigger] absorbs(acc, over[i]),
    ensures
        merged_entries(acc, over) == acc,
    decreases over.len(),
{
    if over.len() > 0 {
        let k0 = over[0].0;
        let v0 = over[0].1;
        let rest = over.subrange(1, over.len() as int);
        assert(absorbs(acc, over[0]));
        let j = key_position(acc, k0)->Some_0;
        lemma_key_position(acc, k0);
        assert(acc.update(j, (acc[j].0, merged(acc[j].1, v0))) =~= acc);
        assert forall|i: int| 0 <= i < rest.len() implies #[trigger] absorbs(acc, rest[i]) by {
            assert(rest[i] == over[i + 1]);
            assert(absorbs(acc, over[i + 1]));
        }
        lemma_merged_entries_absorbed(acc, rest);
    }
}

proof fn lemma_merged_self(v: YamlView)
    requires
        well_formed(v),
    ensures
        merged(v, v) == v,
    decreases size(v),
{
    if let YamlView::Mapping(entries) = v {
        assert forall|i: int| 0 <= i < entries.len() implies #[trigger] absorbs(
            entries,
            entries[i],
        ) by {
            lemma_equivalent_reflexive(entries[i].0);
            lemma_lookup_at(entries, entries[i].0, i);
            lemma_entry_value_size(entries, i);
            assert(well_formed(entries[i].1));
            lemma_merged_self(entries[i].1);
        }
        lemma_merged_entries_absorbed(entries, entries);
    }
}

proof fn lemma_merged_twice(base: YamlView, over: YamlView)
    requires
        well_formed(base),
        well_formed(over),
    ensures
        merged(merged(base, over), over) == merged(base, over),
    decreases size(over),
{
    match over {
        YamlView::Mapping(over_entries) => match base {
            YamlView::Mapping(base_entries) => {
                let m = merged_entries(base_entries, over_entries);
                assert forall|i: int| 0 <= i < over_entries.len() implies #[trigger] absorbs(
                    m,
                    over_entries[i],
                ) by {
                    let key = over_entries[i].0;
                    let value = over_entries[i].1;
                    lemma_merged_entries_lookup(base_entries, over_entries, key);
                    lemma_equivalent_reflexive(key);
                    lemma_lookup_at(over_entries, key, i);
                    lemma_entry_value_size(over_entries, i);
                    assert(well_formed(value));
                    lemma_key_position(base_entries, key);
                    match key_position(base_entries, key) {
                        Some(p) => {
                            assert(well_formed(base_entries[p].1));
                            lemma_merged_twice(base_entries[p].1, value);
                        },
                        None => {
                            lemma_merged_self(value);
                        },
                    }
                }
                lemma_merged_entries_absorbed(m, over_entries);
            },
            _ => {
                lemma_merged_self(over);
            },
        },
        _ => {
            lemma_merged_self(over);
        },
    }
}

/// Merging is idempotent: merging the same override a second time changes nothing, and a value
/// merged onto itself is that value.
pub proof fn law_merge_idempotent(base: YamlView, over: YamlView)
    requires
        well_formed(base),
        well_formed(over),
    ensures
        merged(merged(base, over), over) == merged(base, over),
        merged(over, over) == over,
{
    lemma_merged_twice(base, over);
    lemma_merged_self(over);
}

/// A later document overrides an earlier one key by key: after a merge of two mappings, a key
/// of both holds the merge of its two values, a key of only the override holds the override's
/// value, a key of only the base holds the base's value, and no other key is present.
pub proof fn law_override_by_key(base: YamlView, over: YamlView, key: YamlView)
    requires
        well_formed(base),
        well_formed(over),
        base is Mapping,
        over is Mapping,
    ensures
        merged(base, over) is Mapping,
        lookup(merged(base, over)->Mapping_0, key) == overridden(
            lookup(base->Mapping_0, key),
            lookup(over->Mapping_0, key),
        ),
{
    lemma_merged_entries_lookup(base->Mapping_0, over->Mapping_0, key);
}

/// Where the base or the override is not a mapping, the merge gives the override.
pub proof fn law_non_mapping_replaced(base: YamlView, over: YamlView)
    requires
        !(base is Mapping && over is Mapping),
    ensures
        merged(base, over) == over,
{
}

/// Merging well-formed values gives a well-formed value.
pub proof fn law_merge_keeps_well_formed(base: YamlView, over: YamlView)
    requires
        well_formed(base),
        well_formed(over),
    ensures
        well_formed(merged(base, over)),
{
    lemma_merged_well_formed(base, over);
}

/// A single well-formed document merged onto the empty mapping is that document unchanged.
pub proof fn law_single_document(document: YamlView)
    requires
        well_formed(document),
    ensures
        merged(empty_mapping(), document) == document,
        merged_documents(seq![document]) == document,
{
    if let YamlView::Mapping(entries) = document {
        lemma_merged_entries_fresh(Seq::empty(), entries);
        assert(Seq::<(YamlView, YamlView)>::empty() + entries =~= entries);
    }
    assert(seq![document].drop_last() =~= Seq::<YamlView>::empty());
    assert(merged_documents(Seq::<YamlView>::empty()) == empty_mapping());
}


/// A text key that no key of a mapping equals is added, with its value, after the mapping's
/// entries; the entries already there are kept as they are.
pub proof fn law_new_text_key_appended(
    base: Seq<(YamlView, YamlView)>,
    key: Seq<char>,
    value: YamlView,
)
    requires
        forall|i: int| 0 <= i < base.len() ==> #[trigger] base[i].0 != YamlView::Text(key),
    ensures
        merged(YamlView::Mapping(base), YamlView::Mapping(seq![(YamlView::Text(key), value)]))
            == YamlView::Mapping(base.push((YamlView::Text(key), value))),
{
    let k = YamlView::Text(key);
    assert forall|i: int| 0 <= i < base.len() implies !equivalent(#[trigger] base[i].0, k) by {
        assert(base[i].0 != k);
        if base[i].0 is Text {
            law_scalar_equivalence(base[i].0->Text_0, key, true, true, k);
        } else {
            law_scalar_equivalence(key, key, true, true, base[i].0);
        }
    }
    lemma_key_position(base, k);
    let over = seq![(k, value)];
    assert(over.subrange(1, 1) =~= Seq::<(YamlView, YamlView)>::empty());
    assert(merged_entries(base, over) == merged_entries(base.push((k, value)), over.subrange(1, 1)));
}

/// Where the keys of a mapping are texts, all different, an override of one of them merges
/// its value with that key's value in place; every other entry is kept as it is.
pub proof fn law_text_key_overridden(
    base: Seq<(YamlView, YamlView)>,
    i: int,
    value: YamlView,
)
    requires
        0 <= i < base.len(),
        forall|j: int| 0 <= j < base.len() ==> (#[trigger] base[j].0) is Text,
        forall|j: int, l: int|
            0 <= j < base.len() && 0 <= l < base.len() && j != l ==> #[trigger] base[j].0
                != #[trigger] base[l].0,
    ensures
        merged(YamlView::Mapping(base), YamlView::Mapping(seq![(base[i].0, value)]))
            == YamlView::Mapping(base.update(i, (base[i].0, merged(base[i].1, value)))),
{
    let k = base[i].0;
    assert forall|j: int| 0 <= j < i implies !equivalent(#[trigger] base[j].0, k) by {
        law_scalar_equivalence(base[j].0->Text_0, k->Text_0, true, true, k);
    }
    law_scalar_equivalence(k->Text_0, k->Text_0, true, true, k);
    lemma_key_position(base, k);
    if key_position(base, k) != Some(i) {
        let p = key_position(base, k)->Some_0;
        if p > i {
            assert(equivalent(base[i].0, k));
        }
    }
    assert(key_position(base, k) == Some(i));
    let over = seq![(k, value)];
    assert(over.subrange(1, 1) =~= Seq::<(YamlView, YamlView)>::empty());
    let updated = base.update(i, (base[i].0, merged(base[i].1, value)));
    assert(merged_entries(base, over) == merged_entries(updated, over.subrange(1, 1)));
}

} // verus!
