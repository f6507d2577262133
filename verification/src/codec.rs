//! The wire form of a tree and its codec. The wire form carries name, kind,
//! flags and children only: the derived name cache is never persisted and is
//! recomputed on load, and a loaded entry receives a fresh identity.
use crate::entry::chars_of;
use crate::entry::entries_caches_ok;
use crate::entry::entries_sorted_ok;
use crate::entry::lemma_entries_caches_from_forall;
use crate::entry::lemma_entries_ok_index;
use crate::entry::lemma_entries_sorted_from_forall;
use crate::entry::sorted_by_name;
use crate::entry::DirInner;
use crate::entry::Entry;
use crate::entry::EntryId;
use crate::order::lex_lt;
use crate::snapshot::lemma_children_structural_from_forall;
use crate::snapshot::structurally_equal;
use vstd::prelude::*;

verus! {

/// The serialized form of an `Entry`: a tagged union without the derived
/// name cache and without the process-local identity.
pub enum WireEntry {
    Dir(WireDir),
    File(WireFile),
}

/// The serialized form of a directory node.
pub struct WireDir {
    pub name: String,
    pub children: Vec<WireEntry>,
    pub symlink: bool,
    pub ignored: bool,
}

/// The serialized form of a file node.
pub struct WireFile {
    pub name: String,
    pub symlink: bool,
    pub ignored: bool,
}

impl WireEntry {
    /// The serialized node's name.
    pub open spec fn spec_name(self) -> Seq<char> {
        match self {
            WireEntry::Dir(d) => d.name@,
            WireEntry::File(f) => f.name@,
        }
    }
}

/// The wire node carries exactly the persisted fields of the entry: same
/// name, kind, flags, and matching children in the same order.
pub open spec fn wire_matches(w: WireEntry, e: Entry) -> bool
    decreases w,
{
    match w {
        WireEntry::Dir(wd) => e is Dir && {
            let d = e->Dir_0;
            &&& wd.name@ == d.name@
            &&& wd.symlink == d.symlink
            &&& wd.ignored == d.ignored
            &&& wires_match(wd.children@, d.children@)
        },
        WireEntry::File(wf) => e is File && {
            let f = e->File_0;
            &&& wf.name@ == f.name@
            &&& wf.symlink == f.symlink
            &&& wf.ignored == f.ignored
        },
    }
}

/// The sequences match element for element under `wire_matches`.
pub open spec fn wires_match(ws: Seq<WireEntry>, es: Seq<Entry>) -> bool
    decreases ws,
{
    if ws.len() == 0 {
        es.len() == 0
    } else {
        es.len() > 0 && wire_matches(ws[0], es[0]) && wires_match(
            ws.drop_first(),
            es.drop_first(),
        )
    }
}

/// `wires_match` gives equal lengths and element-wise `wire_matches`.
pub proof fn lemma_wires_match_index(ws: Seq<WireEntry>, es: Seq<Entry>)
    requires
        wires_match(ws, es),
    ensures
        ws.len() == es.len(),
        forall|i: int| 0 <= i < ws.len() ==> wire_matches(#[trigger] ws[i], es[i]),
    decreases ws.len(),
{
    if ws.len() > 0 {
        lemma_wires_match_index(ws.drop_first(), es.drop_first());
        assert forall|i: int| 0 <= i < ws.len() implies wire_matches(
            #[trigger] ws[i],
            es[i],
        ) by {
            if i > 0 {
                assert(ws.drop_first()[i - 1] == ws[i]);
                assert(es.drop_first()[i - 1] == es[i]);
            }
        }
    }
}

/// Build `wires_match` from equal lengths and element-wise `wire_matches`.
pub proof fn lemma_wires_match_from_forall(ws: Seq<WireEntry>, es: Seq<Entry>)
    requires
        ws.len() == es.len(),
        forall|i: int| 0 <= i < ws.len() ==> wire_matches(#[trigger] ws[i], es[i]),
    ensures
        wires_match(ws, es),
    decreases ws.len(),
{
    if ws.len() > 0 {
        assert forall|i: int| 0 <= i < ws.drop_first().len() implies wire_matches(
            #[trigger] ws.drop_first()[i],
            es.drop_first()[i],
        ) by {
            assert(ws.drop_first()[i] == ws[i + 1]);
            assert(es.drop_first()[i] == es[i + 1]);
        }
        lemma_wires_match_from_forall(ws.drop_first(), es.drop_first());
    }
}

/// A matching wire node and entry bear the same name and kind.
pub proof fn lemma_wire_matches_name(w: WireEntry, e: Entry)
    requires
        wire_matches(w, e),
    ensures
        w.spec_name() == e.spec_name(),
        (w is Dir) == (e is Dir),
{
    if w is Dir {
    }
}

/// The serialized children are strictly sorted by name at every level.
pub open spec fn wire_sorted(w: WireEntry) -> bool
    decreases w,
{
    match w {
        WireEntry::Dir(wd) => {
            &&& forall|i: int, j: int|
                0 <= i < j < wd.children@.len() ==> lex_lt(
                    wd.children@[i].spec_name(),
                    wd.children@[j].spec_name(),
                )
            &&& wires_all_sorted(wd.children@)
        },
        WireEntry::File(_) => true,
    }
}

/// Every serialized node of the sequence is sorted throughout.
pub open spec fn wires_all_sorted(ws: Seq<WireEntry>) -> bool
    decreases ws,
{
    if ws.len() == 0 {
        true
    } else {
        wire_sorted(ws[0]) && wires_all_sorted(ws.drop_first())
    }
}

/// `wires_all_sorted` holds of every element.
pub proof fn lemma_wires_all_sorted_index(ws: Seq<WireEntry>, i: int)
    requires
        wires_all_sorted(ws),
        0 <= i < ws.len(),
    ensures
        wire_sorted(ws[i]),
    decreases i,
{
    if i > 0 {
        lemma_wires_all_sorted_index(ws.drop_first(), i - 1);
        assert(ws.drop_first()[i - 1] == ws[i]);
    }
}

/// Build `wires_all_sorted` from element-wise facts.
pub proof fn lemma_wires_all_sorted_from_forall(ws: Seq<WireEntry>)
    requires
        forall|i: int| 0 <= i < ws.len() ==> wire_sorted(#[trigger] ws[i]),
    ensures
        wires_all_sorted(ws),
    decreases ws.len(),
{
    if ws.len() > 0 {
        assert forall|i: int| 0 <= i < ws.drop_first().len() implies wire_sorted(
            #[trigger] ws.drop_first()[i],
        ) by {
            assert(ws.drop_first()[i] == ws[i + 1]);
        }
        lemma_wires_all_sorted_from_forall(ws.drop_first());
    }
}

/// Source of process-local identities: deserialized entries draw a fresh one
/// here, never reusing a persisted identity.
pub struct IdGenerator {
    pub next_id: EntryId,
}

impl IdGenerator {
    /// A generator whose first identity is zero.
    pub fn new() -> (g: IdGenerator)
        ensures
            g.next_id == 0,
    {
        IdGenerator { next_id: 0 }
    }

    /// Hand out the next identity. Identities increase until the id space
    /// is exhausted.
    pub fn fresh(&mut self) -> (id: EntryId)
        ensures
            id == old(self).next_id,
            final(self).next_id == if old(self).next_id == usize::MAX {
                usize::MAX
            } else {
                (old(self).next_id + 1) as usize
            },
    {
        let id = self.next_id;
        if self.next_id < usize::MAX {
            self.next_id = self.next_id + 1;
        }
        id
    }
}

/// Serialize a children sequence element by element.
fn encode_children(children: &Vec<Entry>) -> (ws: Vec<WireEntry>)
    ensures
        ws@.len() == children@.len(),
        forall|k: int| 0 <= k < ws@.len() ==> wire_matches(#[trigger] ws@[k], children@[k]),
        wires_match(ws@, children@),
    decreases children,
{
    let mut kids: Vec<WireEntry> = Vec::new();
    let mut j: usize = 0;
    while j < children.len()
        invariant
            j <= children@.len(),
            kids@.len() == j,
            forall|k: int| 0 <= k < j ==> wire_matches(#[trigger] kids@[k], children@[k]),
        decreases children@.len() - j,
    {
        let c = encode(&children[j]);
        kids.push(c);
        j += 1;
    }
    proof {
        lemma_wires_match_from_forall(kids@, children@);
    }
    kids
}

/// Serialize a tree to its wire form, dropping the derived name cache and
/// the process-local identity.
pub fn encode(e: &Entry) -> (w: WireEntry)
    ensures
        wire_matches(w, *e),
    decreases *e,
{
    match e {
        Entry::File(f) => WireEntry::File(
            WireFile { name: f.name.clone(), symlink: f.symlink, ignored: f.ignored },
        ),
        Entry::Dir(d) => {
            let kids = encode_children(&d.children);
            WireEntry::Dir(
                WireDir {
                    name: d.name.clone(),
                    children: kids,
                    symlink: d.symlink,
                    ignored: d.ignored,
                },
            )
        },
    }
}

/// Deserialize a children sequence element by element, keeping its order.
fn decode_children(ws: &Vec<WireEntry>, ids: &mut IdGenerator) -> (es: Vec<Entry>)
    ensures
        es@.len() == ws@.len(),
        forall|k: int| 0 <= k < ws@.len() ==> wire_matches(ws@[k], #[trigger] es@[k]),
        forall|k: int| 0 <= k < ws@.len() ==> (#[trigger] es@[k]).caches_ok(),
        forall|k: int|
            0 <= k < ws@.len() ==> (wire_sorted(ws@[k]) ==> (#[trigger] es@[k]).sorted_ok()),
        wires_match(ws@, es@),
    decreases ws,
{
    let mut kids: Vec<Entry> = Vec::new();
    let mut j: usize = 0;
    while j < ws.len()
        invariant
            j <= ws@.len(),
            kids@.len() == j,
            forall|k: int| 0 <= k < j ==> wire_matches(ws@[k], #[trigger] kids@[k]),
            forall|k: int| 0 <= k < j ==> (#[trigger] kids@[k]).caches_ok(),
            forall|k: int|
                0 <= k < j ==> (wire_sorted(ws@[k]) ==> (#[trigger] kids@[k]).sorted_ok()),
        decreases ws@.len() - j,
    {
        let c = decode(&ws[j], ids);
        kids.push(c);
        j += 1;
    }
    proof {
        lemma_wires_match_from_forall(ws@, kids@);
    }
    kids
}

/// Deserialize a wire node into a tree, recomputing the derived name cache
/// at every node and drawing a fresh identity for each one. The wire order
/// of children is kept as it stands; when the wire is sorted at every level,
/// the result is fully well-formed.
pub fn decode(w: &WireEntry, ids: &mut IdGenerator) -> (e: Entry)
    ensures
        wire_matches(*w, e),
        e.caches_ok(),
        wire_sorted(*w) ==> e.sorted_ok(),
    decreases *w,
{
    match w {
        WireEntry::File(f) => Entry::file(ids.fresh(), f.name.clone(), f.symlink, f.ignored),
        WireEntry::Dir(wd) => {
            let id = ids.fresh();
            let name = wd.name.clone();
            let mut name_chars = chars_of(name.as_str());
            name_chars.push('/');
            let kids = decode_children(&wd.children, ids);
            let result = Entry::Dir(
                DirInner { id, name, name_chars, children: kids, symlink: wd.symlink, ignored: wd.ignored },
            );
            proof {
                let ks = result->Dir_0.children@;
                lemma_wires_match_from_forall(wd.children@, ks);
                lemma_entries_caches_from_forall(ks);
                if wire_sorted(*w) {
                    assert forall|k: int| 0 <= k < ks.len() implies (
                    #[trigger] ks[k]).sorted_ok() by {
                        lemma_wires_all_sorted_index(wd.children@, k);
                    }
                    lemma_entries_sorted_from_forall(ks);
                    assert forall|i: int, j2: int| 0 <= i < j2 < ks.len() implies lex_lt(
                        ks[i].spec_name(),
                        ks[j2].spec_name(),
                    ) by {
                        lemma_wire_matches_name(wd.children@[i], ks[i]);
                        lemma_wire_matches_name(wd.children@[j2], ks[j2]);
                    }
                    assert(sorted_by_name(ks));
                }
            }
            result
        },
    }
}

/// A sorted tree serializes to a sorted wire form.
pub proof fn lemma_encode_sorted(w: WireEntry, e: Entry)
    requires
        wire_matches(w, e),
        e.sorted_ok(),
    ensures
        wire_sorted(w),
    decreases w,
{
    if w is Dir {
        let wd = w->Dir_0;
        let d = e->Dir_0;
        lemma_wires_match_index(wd.children@, d.children@);
        assert forall|i: int| 0 <= i < wd.children@.len() implies wire_sorted(
            #[trigger] wd.children@[i],
        ) by {
            lemma_entries_ok_index(d.children@, i);
            lemma_encode_sorted(wd.children@[i], d.children@[i]);
        }
        lemma_wires_all_sorted_from_forall(wd.children@);
        assert forall|i: int, j: int| 0 <= i < j < wd.children@.len() implies lex_lt(
            wd.children@[i].spec_name(),
            wd.children@[j].spec_name(),
        ) by {
            lemma_wire_matches_name(wd.children@[i], d.children@[i]);
            lemma_wire_matches_name(wd.children@[j], d.children@[j]);
        }
    }
}


/// Two trees with correct derived caches that share one wire form are
/// structurally equal. Hence decoding the encoding of any well-formed tree,
/// however deeply nested and including empty directories, reproduces the
/// original: same name, same derived name cache, same kind, same ignored
/// flag, and recursively equal children; only the process-local identity
/// differs.
pub proof fn lemma_codec_round_trip(w: WireEntry, a: Entry, b: Entry)
    requires
        wire_matches(w, a),
        wire_matches(w, b),
        a.caches_ok(),
        b.caches_ok(),
    ensures
        structurally_equal(a, b),
    decreases w,
{
    if w is Dir {
        let ws = w->Dir_0.children@;
        let ca = a->Dir_0.children@;
        let cb = b->Dir_0.children@;
        lemma_wires_match_index(ws, ca);
        lemma_wires_match_index(ws, cb);
        assert forall|i: int| 0 <= i < ca.len() implies structurally_equal(
            #[trigger] ca[i],
            cb[i],
        ) by {
            lemma_entries_ok_index(ca, i);
            lemma_entries_ok_index(cb, i);
            lemma_codec_round_trip(ws[i], ca[i], cb[i]);
        }
        lemma_children_structural_from_forall(ca, cb);
    }
}

} // verus!
