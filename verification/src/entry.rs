//! The `Entry` tree: a recursive directory/file node whose directory children
//! are kept strictly sorted by name with no duplicate names.
use crate::order::lex_lt;
use crate::order::lemma_lex_skip_prefix;
use crate::order::lemma_lex_trichotomy;
use crate::order::NameOrder;
use vstd::prelude::*;
use vstd::std_specs::iter::IteratorSpec;

verus! {

/// Process-local identity of an in-memory `Entry`; never preserved by the codec.
pub type EntryId = usize;

/// A node of the tree: a directory with a sorted children sequence, or a leaf file.
pub enum Entry {
    Dir(DirInner),
    File(FileInner),
}

/// A directory node.
pub struct DirInner {
    pub id: EntryId,
    pub name: String,
    pub name_chars: Vec<char>,
    pub children: Vec<Entry>,
    pub symlink: bool,
    pub ignored: bool,
}

/// A leaf file node.
pub struct FileInner {
    pub id: EntryId,
    pub name: String,
    pub name_chars: Vec<char>,
    pub symlink: bool,
    pub ignored: bool,
}

/// The children are strictly ascending by name, so no two share a name.
pub open spec fn sorted_by_name(s: Seq<Entry>) -> bool {
    forall|i: int, j: int|
        0 <= i < j < s.len() ==> lex_lt(s[i].spec_name(), s[j].spec_name())
}

/// Some entry of the sequence bears this name.
pub open spec fn contains_name(s: Seq<Entry>, name: Seq<char>) -> bool {
    exists|i: int| 0 <= i < s.len() && s[i].spec_name() == name
}

/// Every entry of the sequence has correct derived caches.
pub open spec fn entries_caches_ok(s: Seq<Entry>) -> bool
    decreases s,
{
    if s.len() == 0 {
        true
    } else {
        s[0].caches_ok() && entries_caches_ok(s.drop_first())
    }
}

/// Every entry of the sequence has sorted children throughout.
pub open spec fn entries_sorted_ok(s: Seq<Entry>) -> bool
    decreases s,
{
    if s.len() == 0 {
        true
    } else {
        s[0].sorted_ok() && entries_sorted_ok(s.drop_first())
    }
}

/// `entries_caches_ok` and `entries_sorted_ok` hold exactly when they hold
/// of every element.
pub proof fn lemma_entries_ok_index(s: Seq<Entry>, i: int)
    requires
        0 <= i < s.len(),
    ensures
        entries_caches_ok(s) ==> s[i].caches_ok(),
        entries_sorted_ok(s) ==> s[i].sorted_ok(),
    decreases i,
{
    if i > 0 {
        lemma_entries_ok_index(s.drop_first(), i - 1);
        assert(s.drop_first()[i - 1] == s[i]);
    }
}

/// Build `entries_caches_ok` from element-wise facts.
pub proof fn lemma_entries_caches_from_forall(s: Seq<Entry>)
    requires
        forall|i: int| 0 <= i < s.len() ==> (#[trigger] s[i]).caches_ok(),
    ensures
        entries_caches_ok(s),
    decreases s.len(),
{
    if s.len() > 0 {
        assert forall|i: int| 0 <= i < s.drop_first().len() implies (
        #[trigger] s.drop_first()[i]).caches_ok() by {
            assert(s.drop_first()[i] == s[i + 1]);
        }
        lemma_entries_caches_from_forall(s.drop_first());
    }
}

/// Build `entries_sorted_ok` from element-wise facts.
pub proof fn lemma_entries_sorted_from_forall(s: Seq<Entry>)
    requires
        forall|i: int| 0 <= i < s.len() ==> (#[trigger] s[i]).sorted_ok(),
    ensures
        entries_sorted_ok(s),
    decreases s.len(),
{
    if s.len() > 0 {
        assert forall|i: int| 0 <= i < s.drop_first().len() implies (
        #[trigger] s.drop_first()[i]).sorted_ok() by {
            assert(s.drop_first()[i] == s[i + 1]);
        }
        lemma_entries_sorted_from_forall(s.drop_first());
    }
}

impl Entry {
    /// The node's name, as a sequence of characters.
    pub open spec fn spec_name(self) -> Seq<char> {
        match self {
            Entry::Dir(d) => d.name@,
            Entry::File(f) => f.name@,
        }
    }

    /// The derived name cache: the name, with a separator appended for directories.
    pub open spec fn spec_name_chars(self) -> Seq<char> {
        match self {
            Entry::Dir(d) => d.name_chars@,
            Entry::File(f) => f.name_chars@,
        }
    }

    /// The node's process-local identity.
    pub open spec fn spec_id(self) -> EntryId {
        match self {
            Entry::Dir(d) => d.id,
            Entry::File(f) => f.id,
        }
    }

    /// Whether the node is a symbolic link.
    pub open spec fn spec_symlink(self) -> bool {
        match self {
            Entry::Dir(d) => d.symlink,
            Entry::File(f) => f.symlink,
        }
    }

    /// Whether the node is ignored.
    pub open spec fn spec_ignored(self) -> bool {
        match self {
            Entry::Dir(d) => d.ignored,
            Entry::File(f) => f.ignored,
        }
    }

    /// The children sequence; empty for files.
    pub open spec fn spec_children(self) -> Seq<Entry> {
        match self {
            Entry::Dir(d) => d.children@,
            Entry::File(_) => seq![],
        }
    }

    /// The derived name cache equals the documented derivation of the name,
    /// at this node and everywhere below it.
    pub open spec fn caches_ok(self) -> bool
        decreases self,
    {
        match self {
            Entry::Dir(d) => d.name_chars@ == d.name@.push('/') && entries_caches_ok(
                d.children@,
            ),
            Entry::File(f) => f.name_chars@ == f.name@,
        }
    }

    /// Every directory's children, at this node and below, are strictly
    /// sorted by name.
    pub open spec fn sorted_ok(self) -> bool
        decreases self,
    {
        match self {
            Entry::Dir(d) => sorted_by_name(d.children@) && entries_sorted_ok(d.children@),
            Entry::File(_) => true,
        }
    }

    /// Well-formedness: correct derived caches and sorted, duplicate-free children.
    pub open spec fn wf(self) -> bool {
        self.caches_ok() && self.sorted_ok()
    }

    /// Construct a leaf file entry.
    pub fn file(id: EntryId, name: String, symlink: bool, ignored: bool) -> (e: Entry)
        ensures
            e.wf(),
            e is File,
            e.spec_id() == id,
            e.spec_name() == name@,
            e.spec_symlink() == symlink,
            e.spec_ignored() == ignored,
            e.spec_children() == Seq::<Entry>::empty(),
    {
        let name_chars = chars_of(name.as_str());
        Entry::File(FileInner { id, name, name_chars, symlink, ignored })
    }

    /// Construct a directory entry with no children.
    pub fn dir(id: EntryId, name: String, symlink: bool, ignored: bool) -> (e: Entry)
        ensures
            e.wf(),
            e is Dir,
            e.spec_id() == id,
            e.spec_name() == name@,
            e.spec_symlink() == symlink,
            e.spec_ignored() == ignored,
            e.spec_children() == Seq::<Entry>::empty(),
    {
        let mut name_chars = chars_of(name.as_str());
        name_chars.push('/');
        Entry::Dir(
            DirInner { id, name, name_chars, children: Vec::new(), symlink, ignored },
        )
    }

    /// Whether this entry is a directory.
    pub fn is_dir(&self) -> (r: bool)
        ensures
            r == (*self is Dir),
    {
        match self {
            Entry::Dir(_) => true,
            Entry::File(_) => false,
        }
    }

    /// The entry's process-local identity.
    pub fn id(&self) -> (r: EntryId)
        ensures
            r == self.spec_id(),
    {
        match self {
            Entry::Dir(d) => d.id,
            Entry::File(f) => f.id,
        }
    }

    /// The entry's name.
    pub fn name(&self) -> (r: &String)
        ensures
            r@ == self.spec_name(),
    {
        match self {
            Entry::Dir(d) => &d.name,
            Entry::File(f) => &f.name,
        }
    }

    /// The derived name cache.
    pub fn name_chars(&self) -> (r: &Vec<char>)
        ensures
            r@ == self.spec_name_chars(),
    {
        match self {
            Entry::Dir(d) => &d.name_chars,
            Entry::File(f) => &f.name_chars,
        }
    }

    /// Whether the entry is a symbolic link.
    pub fn is_symlink(&self) -> (r: bool)
        ensures
            r == self.spec_symlink(),
    {
        match self {
            Entry::Dir(d) => d.symlink,
            Entry::File(f) => f.symlink,
        }
    }

    /// Whether the entry is ignored.
    pub fn is_ignored(&self) -> (r: bool)
        ensures
            r == self.spec_ignored(),
    {
        match self {
            Entry::Dir(d) => d.ignored,
            Entry::File(f) => f.ignored,
        }
    }

    /// The length of the entry's name, read off the derived cache.
    fn name_len(&self) -> (n: usize)
        requires
            self.caches_ok(),
        ensures
            n == self.spec_name().len(),
    {
        match self {
            Entry::Dir(d) => d.name_chars.len() - 1,
            Entry::File(f) => f.name_chars.len(),
        }
    }

    /// One character of the entry's name, read off the derived cache.
    fn name_char(&self, i: usize) -> (c: char)
        requires
            self.caches_ok(),
            i < self.spec_name().len(),
        ensures
            c == self.spec_name()[i as int],
    {
        match self {
            Entry::Dir(d) => d.name_chars[i],
            Entry::File(f) => f.name_chars[i],
        }
    }
}

/// Collect the characters of a string slice into a vector.
pub fn chars_of(s: &str) -> (v: Vec<char>)
    ensures
        v@ == s@,
{
    broadcast use vstd::string::next_postcondition;

    let mut v: Vec<char> = Vec::new();
    let mut it = s.chars();
    proof {
        vstd::string::axiom_spec_iter(s);
    }
    loop
        invariant
            v@ + it.remaining() == s@,
            it.obeys_prophetic_iter_laws(),
            it.decrease() is Some,
        decreases it.decrease()->0,
    {
        match it.next() {
            Some(c) => {
                v.push(c);
                proof {
                    assert(v@ + it.remaining() =~= s@);
                }
            },
            None => {
                proof {
                    assert(v@ + it.remaining() =~= v@);
                }
                return v;
            },
        }
    }
}

/// Compare two entries by name under the children ordering.
pub fn cmp_names(a: &Entry, b: &Entry) -> (o: NameOrder)
    requires
        a.caches_ok(),
        b.caches_ok(),
    ensures
        (o is Before) == lex_lt(a.spec_name(), b.spec_name()),
        (o is Same) == (a.spec_name() == b.spec_name()),
        (o is After) == lex_lt(b.spec_name(), a.spec_name()),
{
    proof {
        lemma_lex_trichotomy(a.spec_name(), b.spec_name());
    }
    let alen = a.name_len();
    let blen = b.name_len();
    let mut i: usize = 0;
    while i < alen && i < blen
        invariant
            a.caches_ok(),
            b.caches_ok(),
            alen == a.spec_name().len(),
            blen == b.spec_name().len(),
            i <= alen,
            i <= blen,
            forall|j: int| 0 <= j < i ==> a.spec_name()[j] == b.spec_name()[j],
        decreases alen - i,
    {
        let ca = a.name_char(i);
        let cb = b.name_char(i);
        if ca != cb {
            proof {
                lemma_lex_skip_prefix(a.spec_name(), b.spec_name(), i as int);
                lemma_lex_skip_prefix(b.spec_name(), a.spec_name(), i as int);
                assert(a.spec_name().skip(i as int)[0] == ca);
                assert(b.spec_name().skip(i as int)[0] == cb);
            }
            if (ca as u32) < (cb as u32) {
                return NameOrder::Before;
            } else {
                return NameOrder::After;
            }
        }
        i += 1;
    }
    proof {
        lemma_lex_skip_prefix(a.spec_name(), b.spec_name(), i as int);
        lemma_lex_skip_prefix(b.spec_name(), a.spec_name(), i as int);
        if alen == blen {
            assert(a.spec_name() =~= b.spec_name());
        }
    }
    if alen < blen {
        NameOrder::Before
    } else if blen < alen {
        NameOrder::After
    } else {
        NameOrder::Same
    }
}

} // verus!
