//! Lists of names as the index reports them: sorted, each name once.

use vstd::prelude::*;
use rayon::slice::ParallelSliceMut;
use crate::text::{ascending, lemma_text_le_antisymmetric, strictly_ascending, text_le, texts};

verus! {

/// `rayon::slice::ParallelSliceMut::par_sort` on a vector of strings.
///
/// Believed, not proved: afterwards the vector holds the same strings as
/// before, each as often as before, and they stand in the order of `String`,
/// which compares byte by byte and hence code point by code point.
#[verifier::external_body]
fn par_sort_strings(items: &mut Vec<String>)
    ensures
        texts(final(items)@).to_multiset() == texts(old(items)@).to_multiset(),
        ascending(texts(final(items)@)),
{
    items.par_sort();
}

/// Two lists with the same entries, each as often, hold the same texts.
proof fn lemma_same_multiset_same_texts(a: Seq<Seq<char>>, b: Seq<Seq<char>>)
    requires
        a.to_multiset() == b.to_multiset(),
    ensures
        a.to_set() == b.to_set(),
{
    a.to_multiset_ensures();
    b.to_multiset_ensures();
    assert forall|x: Seq<char>| a.to_set().contains(x) == b.to_set().contains(x) by {
        assert(a.contains(x) <==> a.to_multiset().count(x) > 0);
        assert(b.contains(x) <==> b.to_multiset().count(x) > 0);
    }
    assert(a.to_set() =~= b.to_set());
}

/// The entries of an ascending list, each kept once.
fn without_repeats(items: &Vec<String>) -> (out: Vec<String>)
    requires
        ascending(texts(items@)),
    ensures
        strictly_ascending(texts(out@)),
        texts(out@).to_set() == texts(items@).to_set(),
{
    let n: usize = items.len();
    let mut out: Vec<String> = Vec::new();
    let ghost mut origin: Seq<int> = Seq::empty();
    let mut i: usize = 0;
    while i < n
        invariant
            n == items@.len(),
            i <= n,
            ascending(texts(items@)),
            origin.len() == out@.len(),
            forall|k: int| 0 <= k < out@.len() ==> 0 <= #[trigger] origin[k] < i && out@[k]@ == items@[origin[k]]@,
            strictly_ascending(texts(out@)),
            i > 0 ==> out@.len() > 0 && out@.last()@ == items@[i - 1]@,
            forall|idx: int| 0 <= idx < i ==> texts(out@).contains(#[trigger] items@[idx]@),
        decreases n - i,
    {
        let fresh: bool = i == 0 || items[i] != items[i - 1];
        if fresh {
            let ghost before = out@;
            let entry: String = items[i].clone();
            out.push(entry);
            proof {
                origin = origin.push(i as int);
                assert forall|a: int, b: int| 0 <= a < b < out@.len() implies text_le(
                    #[trigger] texts(out@)[a],
                    #[trigger] texts(out@)[b],
                ) && texts(out@)[a] != texts(out@)[b] by {
                    if b < before.len() {
                        assert(texts(before)[a] == texts(out@)[a]);
                        assert(texts(before)[b] == texts(out@)[b]);
                    } else {
                        let from: int = origin[a];
                        assert(texts(items@)[from] == items@[from]@);
                        assert(texts(items@)[i as int] == items@[i as int]@);
                        assert(text_le(texts(items@)[from], texts(items@)[i as int]));
                        if items@[from]@ == items@[i as int]@ {
                            assert(text_le(texts(items@)[i - 1], texts(items@)[i as int]));
                            if from < i - 1 {
                                assert(text_le(texts(items@)[from], texts(items@)[i - 1]));
                                lemma_text_le_antisymmetric(items@[i - 1]@, items@[i as int]@);
                            }
                        }
                    }
                }
                assert forall|idx: int| 0 <= idx < i + 1 implies texts(out@).contains(
                    #[trigger] items@[idx]@,
                ) by {
                    if idx < i {
                        let k = choose|k: int| 0 <= k < texts(before).len() && texts(before)[k] == items@[idx]@;
                        assert(texts(out@)[k] == items@[idx]@);
                    } else {
                        assert(texts(out@)[out@.len() - 1] == items@[idx]@);
                    }
                }
            }
        } else {
            proof {
                assert forall|idx: int| 0 <= idx < i + 1 implies texts(out@).contains(
                    #[trigger] items@[idx]@,
                ) by {
                    if idx == i {
                        assert(texts(out@)[out@.len() - 1] == items@[idx]@);
                    }
                }
            }
        }
        i += 1;
    }
    proof {
        assert forall|x: Seq<char>| texts(out@).to_set().contains(x) == texts(items@).to_set().contains(x) by {
            if texts(out@).contains(x) {
                let k = choose|k: int| 0 <= k < texts(out@).len() && texts(out@)[k] == x;
                assert(texts(items@)[origin[k]] == x);
            }
            if texts(items@).contains(x) {
                let idx = choose|idx: int| 0 <= idx < texts(items@).len() && texts(items@)[idx] == x;
                assert(texts(out@).contains(items@[idx]@));
            }
        }
        assert(texts(out@).to_set() =~= texts(items@).to_set());
    }
    out
}

/// The texts of `items` in ascending order, each once.
pub fn sorted_unique(items: Vec<String>) -> (out: Vec<String>)
    ensures
        strictly_ascending(texts(out@)),
        texts(out@).to_set() == texts(items@).to_set(),
{
    let mut items = items;
    let ghost given = texts(items@);
    par_sort_strings(&mut items);
    proof {
        lemma_same_multiset_same_texts(texts(items@), given);
    }
    without_repeats(&items)
}

} // verus!
