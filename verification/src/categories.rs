//! The tests of categories: a category is a set of labels, and its tests
//! are the paths that carry one of them.

use vstd::prelude::*;
use crate::metadata::{inverted, patterns_of, Metadata, PathMetadataView};
use crate::ordered::{among, lemma_among_step, TextMap, TextSet};

verus! {

/// The paths that carry one of `labels`.
pub open spec fn tests_of(data: Map<Seq<char>, PathMetadataView>, labels: Set<Seq<char>>) -> Set<
    Seq<char>,
> {
    Set::new(
        |p: Seq<char>|
            exists|l: Seq<char>| labels.contains(l) && #[trigger] patterns_of(data, l).contains(p),
    )
}

/// The tests of each category.
pub open spec fn categorized(
    data: Map<Seq<char>, PathMetadataView>,
    labels_by_category: Map<Seq<char>, Set<Seq<char>>>,
) -> Map<Seq<char>, Set<Seq<char>>> {
    Map::new(
        |c: Seq<char>| labels_by_category.contains_key(c),
        |c: Seq<char>| tests_of(data, labels_by_category[c]),
    )
}

/// The tests of all categories together.
pub open spec fn all_tests_of(tests_by_category: Map<Seq<char>, Set<Seq<char>>>) -> Set<Seq<char>> {
    Set::new(
        |p: Seq<char>|
            exists|c: Seq<char>|
                tests_by_category.contains_key(c) && #[trigger] tests_by_category[c].contains(p),
    )
}

/// Path `p` carries the label at a place before `j`.
spec fn met(data: Map<Seq<char>, PathMetadataView>, labels: Seq<Seq<char>>, p: Seq<char>, j: int) -> bool {
    exists|b: int| 0 <= b < j && b < labels.len() && #[trigger] patterns_of(data, labels[b]).contains(p)
}

fn labelled_tests(metadata: &Metadata, patterns_by_label: &TextMap<TextSet>, labels: &TextSet) -> (tests:
    TextSet)
    requires
        patterns_by_label@ == inverted(metadata@.data, None),
    ensures
        tests@ == tests_of(metadata@.data, labels@),
{
    let ghost data = metadata@.data;
    let ghost names = labels.elements();
    let mut tests = TextSet::new();
    let n = labels.len();
    let mut j: usize = 0;
    while j < n
        invariant
            n == names.len(),
            names == labels.elements(),
            data == metadata@.data,
            patterns_by_label@ == inverted(data, None),
            0 <= j <= n,
            forall|p: Seq<char>| tests@.contains(p) <==> met(data, names, p, j as int),
        decreases n - j,
    {
        let label = labels.get(j);
        let ghost before = tests@;
        match patterns_by_label.get(label.as_str()) {
            Some(patterns) => {
                proof {
                    use_type_invariant(patterns_by_label);
                    patterns_by_label.lemma_entries();
                    assert(patterns_by_label@[label@] == patterns@);
                }
                tests.extend(patterns);
            },
            None => {
                assert(!patterns_by_label@.contains_key(label@));
            },
        }
        proof {
            assert(tests@ =~= before.union(patterns_of(data, label@))) by {
                if !patterns_by_label@.contains_key(label@) {
                    assert(patterns_of(data, label@) =~= Set::<Seq<char>>::empty());
                }
            }
            assert forall|p: Seq<char>| tests@.contains(p) <==> met(data, names, p, j + 1) by {
                if met(data, names, p, j + 1) {
                    let b = choose|b: int|
                        0 <= b < j + 1 && b < names.len() && #[trigger] patterns_of(
                            data,
                            names[b],
                        ).contains(p);
                    if b < j {
                        assert(met(data, names, p, j as int));
                    }
                }
                if met(data, names, p, j as int) {
                    let b = choose|b: int|
                        0 <= b < j && b < names.len() && #[trigger] patterns_of(
                            data,
                            names[b],
                        ).contains(p);
                    assert(met(data, names, p, j + 1));
                }
                if patterns_of(data, label@).contains(p) {
                    assert(patterns_of(data, names[j as int]).contains(p));
                    assert(met(data, names, p, j + 1));
                }
            }
        }
        j = j + 1;
    }
    proof {
        labels.lemma_elements();
        assert forall|p: Seq<char>| tests@.contains(p) <==> tests_of(data, labels@).contains(p) by {
            if met(data, names, p, n as int) {
                let b = choose|b: int|
                    0 <= b < n && b < names.len() && #[trigger] patterns_of(data, names[b]).contains(
                        p,
                    );
                assert(labels@.contains(names[b]));
            }
            if tests_of(data, labels@).contains(p) {
                let l = choose|l: Seq<char>|
                    labels@.contains(l) && #[trigger] patterns_of(data, l).contains(p);
                let b = names.index_of(l);
                assert(names[b] == l);
                assert(patterns_of(data, names[b]).contains(p));
            }
        }
        assert(tests@ =~= tests_of(data, labels@));
    }
    tests
}

/// The revision of the index, the tests of each category, and the tests of
/// all categories together.
pub fn interop_tests(metadata: &Metadata, labels_by_category: &TextMap<TextSet>) -> (r: (
    String,
    TextMap<TextSet>,
    TextSet,
))
    ensures
        r.0@ == metadata@.revision,
        r.1@ == categorized(metadata@.data, labels_by_category@),
        r.2@ == all_tests_of(r.1@),
        r.1.ordered(),
        r.2.ordered(),
{
    let ghost data = metadata@.data;
    let ghost categories = labels_by_category.keys();
    let patterns_by_label = metadata.patterns_by_label(None);
    let mut tests_by_category: TextMap<TextSet> = TextMap::new();
    let mut all_tests = TextSet::new();
    let n = labels_by_category.len();
    let mut i: usize = 0;
    while i < n
        invariant
            n == categories.len(),
            categories == labels_by_category.keys(),
            data == metadata@.data,
            patterns_by_label@ == inverted(data, None),
            0 <= i <= n,
            forall|c: Seq<char>| #[trigger]
                tests_by_category@.contains_key(c) <==> among(categories, c, i as int),
            forall|c: Seq<char>|
                tests_by_category@.contains_key(c) ==> #[trigger] tests_by_category@[c] == tests_of(
                    data,
                    labels_by_category@[c],
                ),
            all_tests@ == all_tests_of(tests_by_category@),
        decreases n - i,
    {
        let category = labels_by_category.key(i);
        let labels = labels_by_category.value_at(i);
        assert(labels_by_category@[category@] == labels@);
        let tests = labelled_tests(metadata, &patterns_by_label, labels);
        let ghost before = tests_by_category@;
        let ghost before_all = all_tests@;
        all_tests.extend(&tests);
        tests_by_category.insert(category.as_str(), tests);
        proof {
            use_type_invariant(labels_by_category);
            lemma_among_step(categories, i as int, i + 1);
            assert(tests_by_category@ == before.insert(category@, tests@));
            assert(!before.contains_key(category@)) by {
                if among(categories, category@, i as int) {
                    let a = choose|a: int|
                        0 <= a < i && a < categories.len() && #[trigger] categories[a]
                            == category@;
                    labels_by_category.lemma_keys();
                }
            }
            assert forall|p: Seq<char>| all_tests@.contains(p) <==> all_tests_of(
                tests_by_category@,
            ).contains(p) by {
                if all_tests_of(tests_by_category@).contains(p) {
                    let c = choose|c: Seq<char>|
                        tests_by_category@.contains_key(c) && #[trigger] tests_by_category@[c].contains(
                            p,
                        );
                    if c != category@ {
                        assert(before.contains_key(c) && before[c].contains(p));
                    }
                }
                if before_all.contains(p) {
                    let c = choose|c: Seq<char>|
                        before.contains_key(c) && #[trigger] before[c].contains(p);
                    assert(tests_by_category@.contains_key(c) && tests_by_category@[c].contains(p));
                }
                if tests@.contains(p) {
                    assert(tests_by_category@.contains_key(category@)
                        && tests_by_category@[category@].contains(p));
                }
            }
            assert(all_tests@ =~= all_tests_of(tests_by_category@));
        }
        i = i + 1;
    }
    proof {
        assert forall|c: Seq<char>| among(categories, c, n as int)
            <==> labels_by_category@.contains_key(c) by {
            if labels_by_category@.contains_key(c) {
                let a = categories.index_of(c);
                assert(categories[a] == c);
            }
        }
        assert(tests_by_category@ =~= categorized(data, labels_by_category@));
        use_type_invariant(&tests_by_category);
        use_type_invariant(&all_tests);
    }
    (metadata.revision().clone(), tests_by_category, all_tests)
}

} // verus!
