//! Insertion into a directory's sorted children sequence: fast-path append,
//! otherwise binary search, failing on duplicate names and on file entries.
use crate::entry::contains_name;
use crate::entry::cmp_names;
use crate::entry::entries_caches_ok;
use crate::entry::entries_sorted_ok;
use crate::entry::lemma_entries_caches_from_forall;
use crate::entry::lemma_entries_sorted_from_forall;
use crate::entry::lemma_entries_ok_index;
use crate::entry::sorted_by_name;
use crate::entry::Entry;
use crate::order::lex_lt;
use crate::order::lemma_lex_transitive;
use crate::order::lemma_lex_trichotomy;
use crate::order::NameOrder;
use vstd::prelude::*;

verus! {

/// Why an insertion was refused. The tree is left unchanged either way.
#[derive(Clone, Copy, PartialEq, Eq, Debug)]
pub enum TreeError {
    /// A sibling with the same name is already present.
    DuplicateName,
    /// The receiving entry is a file, not a directory.
    NotADirectory,
}

/// The sequence `s` with `e` placed before the first element whose name
/// sorts after `e`'s: the canonical result of a successful insertion.
pub open spec fn insert_sorted(s: Seq<Entry>, e: Entry) -> Seq<Entry>
    decreases s.len(),
{
    if s.len() == 0 {
        seq![e]
    } else if lex_lt(e.spec_name(), s[0].spec_name()) {
        seq![e] + s
    } else {
        seq![s[0]] + insert_sorted(s.drop_first(), e)
    }
}

/// Placing `e` at an index that all earlier names precede and all later
/// names follow yields exactly `insert_sorted`.
pub proof fn lemma_insert_sorted_at(s: Seq<Entry>, e: Entry, i: int)
    requires
        0 <= i <= s.len(),
        forall|j: int| 0 <= j < i ==> lex_lt(#[trigger] s[j].spec_name(), e.spec_name()),
        i < s.len() ==> lex_lt(e.spec_name(), s[i].spec_name()),
    ensures
        insert_sorted(s, e) == s.insert(i, e),
    decreases i,
{
    if i == 0 {
        if s.len() == 0 {
            assert(insert_sorted(s, e) =~= s.insert(0, e));
        } else {
            assert(seq![e] + s =~= s.insert(0, e));
        }
    } else {
        lemma_lex_trichotomy(e.spec_name(), s[0].spec_name());
        let t = s.drop_first();
        assert forall|j: int| 0 <= j < i - 1 implies lex_lt(
            #[trigger] t[j].spec_name(),
            e.spec_name(),
        ) by {
            assert(t[j] == s[j + 1]);
        }
        assert(i - 1 < t.len() ==> lex_lt(e.spec_name(), t[i - 1].spec_name()));
        lemma_insert_sorted_at(t, e, i - 1);
        s.insert_ensures(i, e);
        t.insert_ensures(i - 1, e);
        let lhs = seq![s[0]] + t.insert(i - 1, e);
        let rhs = s.insert(i, e);
        assert forall|k: int| 0 <= k < lhs.len() implies lhs[k] == rhs[k] by {
            if k == 0 {
            } else if k < i {
                assert(lhs[k] == t.insert(i - 1, e)[k - 1]);
                assert(t[k - 1] == s[k]);
            } else if k == i {
                assert(lhs[k] == t.insert(i - 1, e)[k - 1]);
            } else {
                assert(lhs[k] == t.insert(i - 1, e)[k - 1]);
                assert(t.insert(i - 1, e)[(k - 2) + 1] == t[k - 2]);
                assert(t[k - 2] == s[k - 1]);
            }
        }
        assert(lhs =~= rhs);
    }
}

/// Inserting at the index that splits the strictly smaller names from the
/// strictly larger ones keeps the sequence strictly sorted.
pub proof fn lemma_insert_keeps_sorted(s: Seq<Entry>, e: Entry, i: int)
    requires
        sorted_by_name(s),
        0 <= i <= s.len(),
        forall|j: int| 0 <= j < i ==> lex_lt(#[trigger] s[j].spec_name(), e.spec_name()),
        forall|j: int| i <= j < s.len() ==> lex_lt(e.spec_name(), #[trigger] s[j].spec_name()),
    ensures
        sorted_by_name(s.insert(i, e)),
{
    s.insert_ensures(i, e);
    let t = s.insert(i, e);
    assert forall|p: int, q: int| 0 <= p < q < t.len() implies lex_lt(
        t[p].spec_name(),
        t[q].spec_name(),
    ) by {
        if q < i {
            assert(t[p] == s[p] && t[q] == s[q]);
        } else if p < i && q == i {
            assert(t[p] == s[p]);
        } else if p < i && q > i {
            assert(t[p] == s[p] && t[q] == s[q - 1]);
            lemma_lex_transitive(s[p].spec_name(), e.spec_name(), s[q - 1].spec_name());
        } else if p == i {
            assert(t[q] == s[q - 1]);
        } else {
            assert(t[p] == s[p - 1] && t[q] == s[q - 1]);
        }
    }
}

/// Where a name sits in a sorted children sequence.
enum SearchResult {
    /// A child with the searched name stands at this index.
    Found(usize),
    /// No child bears the name; it would belong at this index.
    Missing(usize),
}

/// Binary search of a sorted children sequence for `target`'s name.
fn search_children(children: &Vec<Entry>, target: &Entry) -> (r: SearchResult)
    requires
        sorted_by_name(children@),
        forall|i: int| 0 <= i < children@.len() ==> (#[trigger] children@[i]).caches_ok(),
        target.caches_ok(),
    ensures
        match r {
            SearchResult::Found(i) => i < children@.len() && children@[i as int].spec_name()
                == target.spec_name(),
            SearchResult::Missing(i) => {
                &&& i <= children@.len()
                &&& forall|j: int|
                    0 <= j < i ==> lex_lt(
                        (#[trigger] children@[j]).spec_name(),
                        target.spec_name(),
                    )
                &&& forall|j: int|
                    i <= j < children@.len() ==> lex_lt(
                        target.spec_name(),
                        (#[trigger] children@[j]).spec_name(),
                    )
            },
        },
{
    let mut lo: usize = 0;
    let mut hi: usize = children.len();
    while lo < hi
        invariant
            lo <= hi <= children@.len(),
            sorted_by_name(children@),
            forall|i: int| 0 <= i < children@.len() ==> (#[trigger] children@[i]).caches_ok(),
            target.caches_ok(),
            forall|j: int|
                0 <= j < lo ==> lex_lt((#[trigger] children@[j]).spec_name(), target.spec_name()),
            forall|j: int|
                hi <= j < children@.len() ==> lex_lt(
                    target.spec_name(),
                    (#[trigger] children@[j]).spec_name(),
                ),
        decreases hi - lo,
    {
        let mid = lo + (hi - lo) / 2;
        match cmp_names(&children[mid], target) {
            NameOrder::Same => {
                return SearchResult::Found(mid);
            },
            NameOrder::Before => {
                proof {
                    assert forall|j: int| 0 <= j < mid + 1 implies lex_lt(
                        (#[trigger] children@[j]).spec_name(),
                        target.spec_name(),
                    ) by {
                        if j < mid {
                            lemma_lex_transitive(
                                children@[j].spec_name(),
                                children@[mid as int].spec_name(),
                                target.spec_name(),
                            );
                        }
                    }
                }
                lo = mid + 1;
            },
            NameOrder::After => {
                proof {
                    assert forall|j: int| mid <= j < children@.len() implies lex_lt(
                        target.spec_name(),
                        (#[trigger] children@[j]).spec_name(),
                    ) by {
                        if j > mid {
                            lemma_lex_transitive(
                                target.spec_name(),
                                children@[mid as int].spec_name(),
                                children@[j].spec_name(),
                            );
                        }
                    }
                }
                hi = mid;
            },
        }
    }
    SearchResult::Missing(lo)
}


/// A successful insertion at the splitting index yields the canonical
/// sorted result and preserves every well-formedness fact.
proof fn lemma_children_after_insert(cs: Seq<Entry>, e: Entry, i: int)
    requires
        entries_caches_ok(cs),
        entries_sorted_ok(cs),
        sorted_by_name(cs),
        e.caches_ok(),
        e.sorted_ok(),
        0 <= i <= cs.len(),
        forall|j: int| 0 <= j < i ==> lex_lt((#[trigger] cs[j]).spec_name(), e.spec_name()),
        forall|j: int| i <= j < cs.len() ==> lex_lt(e.spec_name(), (#[trigger] cs[j]).spec_name()),
    ensures
        entries_caches_ok(cs.insert(i, e)),
        entries_sorted_ok(cs.insert(i, e)),
        sorted_by_name(cs.insert(i, e)),
        cs.insert(i, e) == insert_sorted(cs, e),
        !contains_name(cs, e.spec_name()),
{
    lemma_insert_sorted_at(cs, e, i);
    lemma_insert_keeps_sorted(cs, e, i);
    cs.insert_ensures(i, e);
    let t = cs.insert(i, e);
    assert forall|k: int| 0 <= k < t.len() implies (#[trigger] t[k]).caches_ok()
        && t[k].sorted_ok() by {
        if k < i {
            assert(t[k] == cs[k]);
            lemma_entries_ok_index(cs, k);
        } else if k > i {
            assert(t[k] == cs[k - 1]);
            lemma_entries_ok_index(cs, k - 1);
        }
    }
    lemma_entries_caches_from_forall(t);
    lemma_entries_sorted_from_forall(t);
    assert forall|j: int| 0 <= j < cs.len() implies (#[trigger] cs[j]).spec_name()
        != e.spec_name() by {
        lemma_lex_trichotomy(cs[j].spec_name(), e.spec_name());
    }
    assert(!contains_name(cs, e.spec_name()));
}

impl Entry {
    /// Insert `new_entry` among this directory's children, keeping them
    /// strictly sorted by name. Fails with `NotADirectory` on a file entry
    /// and with `DuplicateName` when a sibling already bears the name; in
    /// both cases the entry is left exactly as it was.
    pub fn insert(&mut self, new_entry: Entry) -> (r: Result<(), TreeError>)
        requires
            old(self).wf(),
            new_entry.wf(),
        ensures
            final(self).wf(),
            r is Ok <==> (*old(self) is Dir && !contains_name(
                old(self).spec_children(),
                new_entry.spec_name(),
            )),
            r == Err::<(), TreeError>(TreeError::NotADirectory) <==> *old(self) is File,
            r == Err::<(), TreeError>(TreeError::DuplicateName) <==> (*old(self) is Dir
                && contains_name(old(self).spec_children(), new_entry.spec_name())),
            r is Err ==> *final(self) == *old(self),
            r is Ok ==> {
                &&& *final(self) is Dir
                &&& final(self).spec_children() == insert_sorted(
                    old(self).spec_children(),
                    new_entry,
                )
                &&& final(self).spec_name() == old(self).spec_name()
                &&& final(self).spec_name_chars() == old(self).spec_name_chars()
                &&& final(self).spec_id() == old(self).spec_id()
                &&& final(self).spec_symlink() == old(self).spec_symlink()
                &&& final(self).spec_ignored() == old(self).spec_ignored()
            },
    {
        match self {
            Entry::File(_) => Err(TreeError::NotADirectory),
            Entry::Dir(d) => {
                let ghost cs = d.children@;
                proof {
                    let ghost e0 = *old(self);
                    assert(e0 == Entry::Dir(*d));
                    assert(e0.caches_ok() && e0.sorted_ok());
                    assert(entries_caches_ok(cs) && entries_sorted_ok(cs) && sorted_by_name(cs));
                    assert forall|i: int| 0 <= i < cs.len() implies (
                    #[trigger] cs[i]).caches_ok() by {
                        lemma_entries_ok_index(cs, i);
                    }
                    assert(new_entry.caches_ok() && new_entry.sorted_ok());
                }
                let n = d.children.len();
                let append = if n == 0 {
                    true
                } else {
                    match cmp_names(&d.children[n - 1], &new_entry) {
                        NameOrder::Before => true,
                        _ => false,
                    }
                };
                if append {
                    proof {
                        assert forall|j: int| 0 <= j < n implies lex_lt(
                            (#[trigger] cs[j]).spec_name(),
                            new_entry.spec_name(),
                        ) by {
                            if j < n - 1 {
                                lemma_lex_transitive(
                                    cs[j].spec_name(),
                                    cs[n - 1].spec_name(),
                                    new_entry.spec_name(),
                                );
                            }
                        }
                        lemma_children_after_insert(cs, new_entry, n as int);
                        assert(cs.insert(n as int, new_entry) =~= cs.push(new_entry));
                    }
                    d.children.push(new_entry);
                    proof {
                        assert(d.children@ == insert_sorted(cs, new_entry));
                        assert(Entry::Dir(*d).wf());
                    }
                    Ok(())
                } else {
                    match search_children(&d.children, &new_entry) {
                        SearchResult::Found(i) => {
                            proof {
                                assert(contains_name(cs, new_entry.spec_name())) by {
                                    assert(cs[i as int].spec_name() == new_entry.spec_name());
                                }
                            }
                            Err(TreeError::DuplicateName)
                        },
                        SearchResult::Missing(i) => {
                            proof {
                                lemma_children_after_insert(cs, new_entry, i as int);
                            }
                            d.children.insert(i, new_entry);
                            proof {
                                assert(d.children@ == insert_sorted(cs, new_entry));
                                assert(Entry::Dir(*d).wf());
                            }
                            Ok(())
                        },
                    }
                }
            },
        }
    }
}

} // verus!
