//! Deep copies and snapshots: equality of trees field for field, an
//! independent clone, and the owned children snapshot a directory hands out.
use crate::entry::DirInner;
use crate::entry::Entry;
use crate::entry::FileInner;
use vstd::prelude::*;

verus! {

/// Two trees are equal in every field: identity, name, derived cache, kind,
/// flags, and recursively equal children.
pub open spec fn entry_equal(a: Entry, b: Entry) -> bool
    decreases a,
{
    match a {
        Entry::Dir(da) => b is Dir && {
            let db = b->Dir_0;
            &&& da.id == db.id
            &&& da.name@ == db.name@
            &&& da.name_chars@ == db.name_chars@
            &&& da.symlink == db.symlink
            &&& da.ignored == db.ignored
            &&& entries_equal(da.children@, db.children@)
        },
        Entry::File(fa) => b is File && {
            let fb = b->File_0;
            &&& fa.id == fb.id
            &&& fa.name@ == fb.name@
            &&& fa.name_chars@ == fb.name_chars@
            &&& fa.symlink == fb.symlink
            &&& fa.ignored == fb.ignored
        },
    }
}

/// The sequences are equal element for element under `entry_equal`.
pub open spec fn entries_equal(a: Seq<Entry>, b: Seq<Entry>) -> bool
    decreases a,
{
    if a.len() == 0 {
        b.len() == 0
    } else {
        b.len() > 0 && entry_equal(a[0], b[0]) && entries_equal(a.drop_first(), b.drop_first())
    }
}

/// `entries_equal` gives equal lengths and element-wise `entry_equal`.
pub proof fn lemma_entries_equal_index(a: Seq<Entry>, b: Seq<Entry>)
    requires
        entries_equal(a, b),
    ensures
        a.len() == b.len(),
        forall|i: int| 0 <= i < a.len() ==> entry_equal(#[trigger] a[i], b[i]),
    decreases a.len(),
{
    if a.len() > 0 {
        lemma_entries_equal_index(a.drop_first(), b.drop_first());
        assert forall|i: int| 0 <= i < a.len() implies entry_equal(#[trigger] a[i], b[i]) by {
            if i > 0 {
                assert(a.drop_first()[i - 1] == a[i]);
                assert(b.drop_first()[i - 1] == b[i]);
            }
        }
    }
}

/// Build `entries_equal` from equal lengths and element-wise `entry_equal`.
pub proof fn lemma_entries_equal_from_forall(a: Seq<Entry>, b: Seq<Entry>)
    requires
        a.len() == b.len(),
        forall|i: int| 0 <= i < a.len() ==> entry_equal(#[trigger] a[i], b[i]),
    ensures
        entries_equal(a, b),
    decreases a.len(),
{
    if a.len() > 0 {
        assert forall|i: int| 0 <= i < a.drop_first().len() implies entry_equal(
            #[trigger] a.drop_first()[i],
            b.drop_first()[i],
        ) by {
            assert(a.drop_first()[i] == a[i + 1]);
            assert(b.drop_first()[i] == b[i + 1]);
        }
        lemma_entries_equal_from_forall(a.drop_first(), b.drop_first());
    }
}

/// Copy a children sequence element by element.
fn clone_children(children: &Vec<Entry>) -> (r: Vec<Entry>)
    ensures
        r@.len() == children@.len(),
        forall|k: int| 0 <= k < r@.len() ==> entry_equal(#[trigger] r@[k], children@[k]),
        entries_equal(r@, children@),
    decreases children,
{
    let mut kids: Vec<Entry> = Vec::new();
    let mut j: usize = 0;
    while j < children.len()
        invariant
            j <= children@.len(),
            kids@.len() == j,
            forall|k: int| 0 <= k < j ==> entry_equal(#[trigger] kids@[k], children@[k]),
        decreases children@.len() - j,
    {
        let c = children[j].deep_clone();
        kids.push(c);
        j += 1;
    }
    proof {
        lemma_entries_equal_from_forall(kids@, children@);
    }
    kids
}

impl Entry {
    /// An independent deep copy of the tree, equal to the original in every
    /// field, identity included.
    pub fn deep_clone(&self) -> (r: Entry)
        ensures
            entry_equal(r, *self),
        decreases *self,
    {
        match self {
            Entry::File(f) => Entry::File(
                FileInner {
                    id: f.id,
                    name: f.name.clone(),
                    name_chars: f.name_chars.clone(),
                    symlink: f.symlink,
                    ignored: f.ignored,
                },
            ),
            Entry::Dir(d) => {
                let kids = clone_children(&d.children);
                Entry::Dir(
                    DirInner {
                        id: d.id,
                        name: d.name.clone(),
                        name_chars: d.name_chars.clone(),
                        children: kids,
                        symlink: d.symlink,
                        ignored: d.ignored,
                    },
                )
            },
        }
    }

    /// For a directory, an independent snapshot of the children sequence: a
    /// copy that no later mutation of this entry touches. For a file, `None`.
    pub fn children(&self) -> (r: Option<Vec<Entry>>)
        ensures
            r is Some <==> *self is Dir,
            match r {
                Some(v) => {
                    &&& v@.len() == self.spec_children().len()
                    &&& forall|k: int|
                        0 <= k < v@.len() ==> entry_equal(
                            #[trigger] v@[k],
                            self.spec_children()[k],
                        )
                    &&& entries_equal(v@, self.spec_children())
                },
                None => *self is File,
            },
    {
        match self {
            Entry::Dir(d) => Some(clone_children(&d.children)),
            Entry::File(_) => None,
        }
    }
}


/// Equality of trees as the replication and the codec preserve it: same
/// name, same derived name cache, same kind, same ignored flag, and
/// recursively equal children. Identity is excluded: it is process-local
/// and never carried across serialization.
pub open spec fn structurally_equal(a: Entry, b: Entry) -> bool
    decreases a,
{
    match a {
        Entry::Dir(da) => b is Dir && {
            let db = b->Dir_0;
            &&& da.name@ == db.name@
            &&& da.name_chars@ == db.name_chars@
            &&& da.ignored == db.ignored
            &&& children_structurally_equal(da.children@, db.children@)
        },
        Entry::File(fa) => b is File && {
            let fb = b->File_0;
            &&& fa.name@ == fb.name@
            &&& fa.name_chars@ == fb.name_chars@
            &&& fa.ignored == fb.ignored
        },
    }
}

/// The sequences are equal element for element under `structurally_equal`.
pub open spec fn children_structurally_equal(a: Seq<Entry>, b: Seq<Entry>) -> bool
    decreases a,
{
    if a.len() == 0 {
        b.len() == 0
    } else {
        b.len() > 0 && structurally_equal(a[0], b[0]) && children_structurally_equal(
            a.drop_first(),
            b.drop_first(),
        )
    }
}

/// `children_structurally_equal` gives equal lengths and element-wise equality.
pub proof fn lemma_children_structural_index(a: Seq<Entry>, b: Seq<Entry>)
    requires
        children_structurally_equal(a, b),
    ensures
        a.len() == b.len(),
        forall|i: int| 0 <= i < a.len() ==> structurally_equal(#[trigger] a[i], b[i]),
    decreases a.len(),
{
    if a.len() > 0 {
        lemma_children_structural_index(a.drop_first(), b.drop_first());
        assert forall|i: int| 0 <= i < a.len() implies structurally_equal(
            #[trigger] a[i],
            b[i],
        ) by {
            if i > 0 {
                assert(a.drop_first()[i - 1] == a[i]);
                assert(b.drop_first()[i - 1] == b[i]);
            }
        }
    }
}

/// Build `children_structurally_equal` from element-wise equality.
pub proof fn lemma_children_structural_from_forall(a: Seq<Entry>, b: Seq<Entry>)
    requires
        a.len() == b.len(),
        forall|i: int| 0 <= i < a.len() ==> structurally_equal(#[trigger] a[i], b[i]),
    ensures
        children_structurally_equal(a, b),
    decreases a.len(),
{
    if a.len() > 0 {
        assert forall|i: int| 0 <= i < a.drop_first().len() implies structurally_equal(
            #[trigger] a.drop_first()[i],
            b.drop_first()[i],
        ) by {
            assert(a.drop_first()[i] == a[i + 1]);
            assert(b.drop_first()[i] == b[i + 1]);
        }
        lemma_children_structural_from_forall(a.drop_first(), b.drop_first());
    }
}

/// Field-for-field equality is stronger than structural equality.
pub proof fn lemma_entry_equal_structural(a: Entry, b: Entry)
    requires
        entry_equal(a, b),
    ensures
        structurally_equal(a, b),
    decreases a,
{
    if a is Dir {
        let ca = a->Dir_0.children@;
        let cb = b->Dir_0.children@;
        lemma_entries_equal_index(ca, cb);
        assert forall|i: int| 0 <= i < ca.len() implies structurally_equal(
            #[trigger] ca[i],
            cb[i],
        ) by {
            lemma_entry_equal_structural(ca[i], cb[i]);
        }
        lemma_children_structural_from_forall(ca, cb);
    }
}

/// Compare two character vectors.
fn chars_eq(a: &Vec<char>, b: &Vec<char>) -> (r: bool)
    ensures
        r == (a@ == b@),
{
    if a.len() != b.len() {
        return false;
    }
    let mut i: usize = 0;
    while i < a.len()
        invariant
            a@.len() == b@.len(),
            i <= a@.len(),
            forall|j: int| 0 <= j < i ==> a@[j] == b@[j],
        decreases a@.len() - i,
    {
        if a[i] != b[i] {
            return false;
        }
        i += 1;
    }
    proof {
        assert(a@ =~= b@);
    }
    true
}

/// Compare two children sequences element by element.
fn children_struct_eq(a: &Vec<Entry>, b: &Vec<Entry>) -> (r: bool)
    ensures
        r == children_structurally_equal(a@, b@),
    decreases a,
{
    if a.len() != b.len() {
        proof {
            if children_structurally_equal(a@, b@) {
                lemma_children_structural_index(a@, b@);
            }
        }
        return false;
    }
    let mut i: usize = 0;
    while i < a.len()
        invariant
            a@.len() == b@.len(),
            i <= a@.len(),
            forall|j: int| 0 <= j < i ==> structurally_equal(#[trigger] a@[j], b@[j]),
        decreases a@.len() - i,
    {
        if !structural_eq(&a[i], &b[i]) {
            proof {
                if children_structurally_equal(a@, b@) {
                    lemma_children_structural_index(a@, b@);
                }
            }
            return false;
        }
        i += 1;
    }
    proof {
        lemma_children_structural_from_forall(a@, b@);
    }
    true
}

/// Decide structural equality of two trees.
pub fn structural_eq(a: &Entry, b: &Entry) -> (r: bool)
    ensures
        r == structurally_equal(*a, *b),
    decreases *a,
{
    match (a, b) {
        (Entry::File(fa), Entry::File(fb)) => fa.name == fb.name && chars_eq(
            &fa.name_chars,
            &fb.name_chars,
        ) && fa.ignored == fb.ignored,
        (Entry::Dir(da), Entry::Dir(db)) => {
            if da.name == db.name && chars_eq(&da.name_chars, &db.name_chars) && da.ignored
                == db.ignored {
                children_struct_eq(&da.children, &db.children)
            } else {
                false
            }
        },
        (Entry::Dir(_), Entry::File(_)) => false,
        (Entry::File(_), Entry::Dir(_)) => false,
    }
}

} // verus!
