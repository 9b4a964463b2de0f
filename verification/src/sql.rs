use vstd::prelude::*;
use vstd::string::StrSliceExecFns;
use vstd::string::StringExecFns;

use crate::errors::Errors;
use crate::errors::SecurityError;
use crate::security::boss_key_available;
use crate::security::decipher_of;
use crate::security::cipher_of;
use crate::security::decrypt_note;
use crate::security::encrypt_note;
use crate::security::new_uuid_string;
use crate::security::password_fingerprint_matches;
use crate::security::unwrapped_boss_key;
use crate::utils::lemma_dec_str_value;
use crate::utils::make_text_single_line;
use crate::utils::single_line_of;
use crate::utils::slice_text;
use crate::utils::concat_graphemes;
use crate::utils::graphemes_of;
use crate::utils::all_digits;
use crate::utils::dec_str;
use crate::utils::dec_value;
use crate::utils::parse_decimal;
use crate::utils::trim_spec;
use crate::utils::trim_str;
use crate::utils::str_eq;
use crate::utils::usize_to_string;

verus! {

/// One row of the note listing.
#[derive(Debug)]
pub struct NoteSummary {
    pub id: i32,
    pub title: String,
    pub updated: String,
}

/// A note as handed to callers: both content fields plus the reference and
/// protection flag needed to write changes back.
pub struct SimpleNoteView {
    pub title: String,
    pub body: String,
    pub content_id: String,
    pub protected: bool,
}

/// A note with its full row metadata, as used by dump and summary flows.
pub struct NoteView {
    pub title: String,
    pub body: String,
    pub note_id: i32,
    pub content_id: String,
    pub updated: String,
    pub created: String,
}

/// The largest note, by content size.
pub struct LargeNoteSummary {
    pub note_id: i32,
    pub title: String,
    pub content_id: String,
    pub content_size: i32,
}

/// Gross note counts.
pub struct DBStats {
    pub total: i32,
    pub trashed: i32,
}

/// Everything the summary report shows.
pub struct SummaryStats {
    pub db_stats: DBStats,
    pub large_note_stats: LargeNoteSummary,
    pub state_note_stats: NoteView,
    pub fresh_note_stats: NoteView,
}

/// One row of a key/value attribute table.
pub struct KeyValuePair {
    pub key: String,
    pub value: String,
}

/// The value stored under `key`, taking the first matching row.
pub open spec fn spec_get(rows: Seq<KeyValuePair>, key: Seq<char>) -> Option<Seq<char>>
    decreases rows.len(),
{
    if rows.len() == 0 {
        None
    } else if rows[0].key@ == key {
        Some(rows[0].value@)
    } else {
        spec_get(rows.drop_first(), key)
    }
}

proof fn lemma_spec_get_skip(rows: Seq<KeyValuePair>, key: Seq<char>, i: int)
    requires
        0 <= i <= rows.len(),
        forall|j: int| 0 <= j < i ==> (#[trigger] rows[j]).key@ != key,
    ensures
        spec_get(rows, key) == spec_get(rows.skip(i), key),
    decreases i,
{
    if i > 0 {
        assert(rows.skip(i - 1).drop_first() =~= rows.skip(i));
        assert(rows.skip(i - 1)[0] == rows[i - 1]);
        lemma_spec_get_skip(rows, key, i - 1);
        if rows.len() > 0 && i - 1 < rows.len() {
            assert(spec_get(rows.skip(i - 1), key) == spec_get(rows.skip(i), key));
        }
    } else {
        assert(rows.skip(0) =~= rows);
    }
}

proof fn lemma_spec_get_push(rows: Seq<KeyValuePair>, p: KeyValuePair, k: Seq<char>)
    ensures
        spec_get(rows.push(p), k) == (if spec_get(rows, k) is Some {
            spec_get(rows, k)
        } else if p.key@ == k {
            Some(p.value@)
        } else {
            None::<Seq<char>>
        }),
    decreases rows.len(),
{
    if rows.len() == 0 {
        assert(rows.push(p)[0] == p);
        assert(rows.push(p).drop_first() =~= Seq::<KeyValuePair>::empty());
    } else {
        assert(rows.push(p)[0] == rows[0]);
        assert(rows.push(p).drop_first() =~= rows.drop_first().push(p));
        lemma_spec_get_push(rows.drop_first(), p, k);
    }
}

proof fn lemma_spec_get_update(rows: Seq<KeyValuePair>, i: int, p: KeyValuePair, k: Seq<char>)
    requires
        0 <= i < rows.len(),
        p.key@ == rows[i].key@,
        forall|j: int| 0 <= j < i ==> (#[trigger] rows[j]).key@ != p.key@,
    ensures
        spec_get(rows.update(i, p), p.key@) == Some(p.value@),
        k != p.key@ ==> spec_get(rows.update(i, p), k) == spec_get(rows, k),
    decreases i,
{
    if i == 0 {
        assert(rows.update(0, p)[0] == p);
        assert(rows.update(0, p).drop_first() =~= rows.drop_first());
    } else {
        assert(rows.update(i, p)[0] == rows[0]);
        assert(rows.update(i, p).drop_first() =~= rows.drop_first().update(i - 1, p));
        assert(forall|j: int|
            0 <= j < i - 1 ==> (#[trigger] rows.drop_first()[j]).key@ != p.key@);
        lemma_spec_get_update(rows.drop_first(), i - 1, p, k);
    }
}

/// A key/value persistence façade: the in-memory image of one attribute
/// table, holding all credential material and the last-touched pointer.
/// Rows are looked up by key, first match first, as a keyed table would.
pub struct AttrStore {
    rows: Vec<KeyValuePair>,
}

impl View for AttrStore {
    type V = Seq<KeyValuePair>;

    closed spec fn view(&self) -> Seq<KeyValuePair> {
        self.rows@
    }
}

impl AttrStore {
    /// An empty table.
    pub fn new() -> (r: AttrStore)
        ensures
            r@ =~= Seq::<KeyValuePair>::empty(),
    {
        AttrStore { rows: Vec::new() }
    }

    /// The value stored under `key`, if any.
    pub fn get_value(&self, key: &str) -> (r: Option<String>)
        ensures
            match r {
                Some(v) => spec_get(self@, key@) == Some(v@),
                None => spec_get(self@, key@) is None,
            },
    {
        let n = self.rows.len();
        let mut i: usize = 0;
        while i < n
            invariant
                n == self@.len(),
                0 <= i <= n,
                forall|j: int| 0 <= j < i ==> (#[trigger] self@[j]).key@ != key@,
            decreases n - i,
        {
            if str_eq(self.rows[i].key.as_str(), key) {
                proof {
                    lemma_spec_get_skip(self@, key@, i as int);
                    assert(self@.skip(i as int)[0] == self@[i as int]);
                }
                return Some(self.rows[i].value.clone());
            }
            i += 1;
        }
        proof {
            lemma_spec_get_skip(self@, key@, n as int);
            assert(self@.skip(n as int) =~= Seq::<KeyValuePair>::empty());
        }
        None
    }

    /// Inserts a fresh row.  Reports failure, and changes nothing, where the
    /// key is already present, as a primary-key insert would.
    pub fn add_key_value(&mut self, key: &str, value: &str) -> (r: bool)
        ensures
            r == (spec_get(old(self)@, key@) is None),
            !r ==> final(self)@ == old(self)@,
            r ==> spec_get(final(self)@, key@) == Some(value@),
            forall|k: Seq<char>|
                k != key@ ==> #[trigger] spec_get(final(self)@, k) == spec_get(old(self)@, k),
    {
        match self.get_value(key) {
            Some(_) => false,
            None => {
                let pair = KeyValuePair { key: String::from_str(key), value: String::from_str(value) };
                proof {
                    lemma_spec_get_push(self@, pair, key@);
                }
                assert(forall|k: Seq<char>|
                    k != key@ ==> #[trigger] spec_get(self@.push(pair), k) == spec_get(self@, k))
                    by {
                    assert forall|k: Seq<char>| k != key@ implies #[trigger] spec_get(
                        self@.push(pair),
                        k,
                    ) == spec_get(self@, k) by {
                        lemma_spec_get_push(self@, pair, k);
                    }
                }
                self.rows.push(pair);
                true
            },
        }
    }

    /// Overwrites the value under `key`.  Reports failure, and changes
    /// nothing, where the key is absent, as a zero-row update would.
    pub fn update_key_value(&mut self, key: &str, value: &str) -> (r: bool)
        ensures
            r == (spec_get(old(self)@, key@) is Some),
            !r ==> final(self)@ == old(self)@,
            r ==> spec_get(final(self)@, key@) == Some(value@),
            forall|k: Seq<char>|
                k != key@ ==> #[trigger] spec_get(final(self)@, k) == spec_get(old(self)@, k),
    {
        let n = self.rows.len();
        let mut i: usize = 0;
        while i < n
            invariant
                self@ == old(self)@,
                n == self@.len(),
                0 <= i <= n,
                forall|j: int| 0 <= j < i ==> (#[trigger] self@[j]).key@ != key@,
            decreases n - i,
        {
            if str_eq(self.rows[i].key.as_str(), key) {
                proof {
                    lemma_spec_get_skip(self@, key@, i as int);
                    assert(self@.skip(i as int)[0] == self@[i as int]);
                }
                let old_pair = self.rows.remove(i);
                let new_pair = KeyValuePair { key: old_pair.key, value: String::from_str(value) };
                self.rows.insert(i, new_pair);
                proof {
                    assert(self@ =~= old(self)@.update(i as int, new_pair));
                    lemma_spec_get_update(old(self)@, i as int, new_pair, key@);
                    assert forall|k: Seq<char>| k != key@ implies #[trigger] spec_get(self@, k)
                        == spec_get(old(self)@, k) by {
                        lemma_spec_get_update(old(self)@, i as int, new_pair, k);
                    }
                }
                return true;
            }
            i += 1;
        }
        proof {
            lemma_spec_get_skip(self@, key@, n as int);
            assert(self@.skip(n as int) =~= Seq::<KeyValuePair>::empty());
        }
        false
    }
}

/// One note as the storage layer holds it: the `notes` row and its `content`
/// row joined.  `content_id` is the opaque reference tying the two together.
pub struct StoredNote {
    pub note_id: usize,
    pub title: String,
    pub body: String,
    pub protected: bool,
    pub trashed: bool,
    pub content_id: String,
}

/// The position of the first note with the given id, or -1.
pub open spec fn note_idx(notes: Seq<StoredNote>, id: int) -> int
    decreases notes.len(),
{
    if notes.len() == 0 {
        -1
    } else if notes[0].note_id as int == id {
        0
    } else {
        let r = note_idx(notes.drop_first(), id);
        if r < 0 {
            -1
        } else {
            r + 1
        }
    }
}

/// The position of the first note with the given content reference, or -1.
pub open spec fn content_idx(notes: Seq<StoredNote>, cid: Seq<char>) -> int
    decreases notes.len(),
{
    if notes.len() == 0 {
        -1
    } else if notes[0].content_id@ == cid {
        0
    } else {
        let r = content_idx(notes.drop_first(), cid);
        if r < 0 {
            -1
        } else {
            r + 1
        }
    }
}

pub proof fn lemma_note_idx_props(notes: Seq<StoredNote>, id: int)
    ensures
        note_idx(notes, id) >= -1,
        note_idx(notes, id) == -1 ==> forall|j: int|
            0 <= j < notes.len() ==> (#[trigger] notes[j]).note_id as int != id,
        note_idx(notes, id) >= 0 ==> note_idx(notes, id) < notes.len() && notes[note_idx(
            notes,
            id,
        )].note_id as int == id && forall|j: int|
            0 <= j < note_idx(notes, id) ==> (#[trigger] notes[j]).note_id as int != id,
    decreases notes.len(),
{
    if notes.len() > 0 && notes[0].note_id as int != id {
        lemma_note_idx_props(notes.drop_first(), id);
        let d = notes.drop_first();
        if note_idx(notes, id) == -1 {
            assert forall|j: int| 0 <= j < notes.len() implies (#[trigger] notes[j]).note_id as int
                != id by {
                if j > 0 {
                    assert(notes[j] == d[j - 1]);
                }
            }
        } else {
            let i = note_idx(notes, id);
            assert(notes[i] == d[i - 1]);
            assert forall|j: int| 0 <= j < i implies (#[trigger] notes[j]).note_id as int != id by {
                if j > 0 {
                    assert(notes[j] == d[j - 1]);
                }
            }
        }
    }
}

pub proof fn lemma_content_idx_props(notes: Seq<StoredNote>, cid: Seq<char>)
    ensures
        content_idx(notes, cid) >= -1,
        content_idx(notes, cid) == -1 ==> forall|j: int|
            0 <= j < notes.len() ==> (#[trigger] notes[j]).content_id@ != cid,
        content_idx(notes, cid) >= 0 ==> content_idx(notes, cid) < notes.len() && notes[content_idx(
            notes,
            cid,
        )].content_id@ == cid && forall|j: int|
            0 <= j < content_idx(notes, cid) ==> (#[trigger] notes[j]).content_id@ != cid,
    decreases notes.len(),
{
    if notes.len() > 0 && notes[0].content_id@ != cid {
        lemma_content_idx_props(notes.drop_first(), cid);
        let d = notes.drop_first();
        if content_idx(notes, cid) == -1 {
            assert forall|j: int| 0 <= j < notes.len() implies (#[trigger] notes[j]).content_id@
                != cid by {
                if j > 0 {
                    assert(notes[j] == d[j - 1]);
                }
            }
        } else {
            let i = content_idx(notes, cid);
            assert(notes[i] == d[i - 1]);
            assert forall|j: int| 0 <= j < i implies (#[trigger] notes[j]).content_id@ != cid by {
                if j > 0 {
                    assert(notes[j] == d[j - 1]);
                }
            }
        }
    }
}

/// The notes that remain once every trashed note is removed, in order.
pub open spec fn untrashed(s: Seq<StoredNote>) -> Seq<StoredNote>
    decreases s.len(),
{
    if s.len() == 0 {
        Seq::empty()
    } else if !s.last().trashed {
        untrashed(s.drop_last()).push(s.last())
    } else {
        untrashed(s.drop_last())
    }
}

proof fn lemma_untrashed_pairs(s: Seq<StoredNote>)
    ensures
        untrashed(s).len() <= s.len(),
        forall|a: int|
            0 <= a < untrashed(s).len() ==> exists|j: int|
                0 <= j < s.len() && #[trigger] untrashed(s)[a] == s[j],
        forall|a: int, b: int|
            #![trigger untrashed(s)[a], untrashed(s)[b]]
            0 <= a < b < untrashed(s).len() ==> exists|j: int, k: int|
                0 <= j < k < s.len() && untrashed(s)[a] == s[j] && untrashed(s)[b] == s[k],
    decreases s.len(),
{
    if s.len() > 0 {
        let d = s.drop_last();
        lemma_untrashed_pairs(d);
        assert(forall|j: int| 0 <= j < d.len() ==> #[trigger] d[j] == s[j]);
        let u = untrashed(s);
        assert forall|a: int| 0 <= a < u.len() implies exists|j: int|
            0 <= j < s.len() && #[trigger] u[a] == s[j] by {
            if a < untrashed(d).len() {
                let j0 = choose|j0: int| 0 <= j0 < d.len() && untrashed(d)[a] == d[j0];
                assert(0 <= j0 < s.len() && u[a] == s[j0]);
            } else {
                assert(u[a] == s[s.len() - 1]);
            }
        }
        assert forall|a: int, b: int|
            #![trigger u[a], u[b]]
            0 <= a < b < u.len() implies exists|j: int, k: int|
            0 <= j < k < s.len() && u[a] == s[j] && u[b] == s[k] by {
            if b < untrashed(d).len() {
                let (j0, k0) = choose|j0: int, k0: int|
                    0 <= j0 < k0 < d.len() && untrashed(d)[a] == d[j0] && untrashed(d)[b] == d[k0];
                assert(0 <= j0 < k0 < s.len() && u[a] == s[j0] && u[b] == s[k0]);
            } else {
                let j0 = choose|j0: int| 0 <= j0 < d.len() && untrashed(d)[a] == d[j0];
                assert(0 <= j0 < s.len() - 1 && u[a] == s[j0] && u[b] == s[s.len() - 1]);
            }
        }
    }
}

/// Rows that a [`NoteStore`] accepts back from the backing tables: every
/// note id positive and below the largest id, ids pairwise distinct, and
/// content references pairwise distinct.
pub open spec fn rows_loadable(rows: Seq<StoredNote>) -> bool {
    &&& forall|j: int|
        0 <= j < rows.len() ==> 1 <= (#[trigger] rows[j]).note_id < usize::MAX
    &&& forall|j: int, k: int|
        0 <= j < k < rows.len() ==> (#[trigger] rows[j]).note_id != (#[trigger] rows[k]).note_id
    &&& forall|j: int, k: int|
        0 <= j < k < rows.len() ==> (#[trigger] rows[j]).content_id@ != (
        #[trigger] rows[k]).content_id@
}

/// The in-memory image of the note table pair: each entry joins a `notes`
/// row with its `content` row.  Note ids are assigned once, in insertion
/// order, and never reused; content references are unique.
pub struct NoteStore {
    notes: Vec<StoredNote>,
    next_id: usize,
}

impl View for NoteStore {
    type V = Seq<StoredNote>;

    closed spec fn view(&self) -> Seq<StoredNote> {
        self.notes@
    }
}

impl NoteStore {
    /// The id the next inserted note will receive.
    pub closed spec fn spec_next_id(&self) -> int {
        self.next_id as int
    }

    /// Note ids are unique, positive and below the next free id, and content
    /// references are unique: each note owns exactly one content row.
    pub closed spec fn wf(&self) -> bool {
        &&& self.next_id >= 1
        &&& forall|j: int|
            0 <= j < self.notes@.len() ==> 1 <= (#[trigger] self.notes@[j]).note_id
                < self.next_id
        &&& forall|j: int, k: int|
            0 <= j < k < self.notes@.len() ==> (#[trigger] self.notes@[j]).note_id != (
            #[trigger] self.notes@[k]).note_id
        &&& forall|j: int, k: int|
            0 <= j < k < self.notes@.len() ==> (#[trigger] self.notes@[j]).content_id@ != (
            #[trigger] self.notes@[k]).content_id@
    }

    /// The uniqueness facts that `wf` guarantees, stated over the view.
    pub proof fn lemma_wf_unique(&self)
        requires
            self.wf(),
        ensures
            forall|j: int, k: int|
                0 <= j < k < self@.len() ==> (#[trigger] self@[j]).note_id != (
                #[trigger] self@[k]).note_id,
            forall|j: int, k: int|
                0 <= j < k < self@.len() ==> (#[trigger] self@[j]).content_id@ != (
                #[trigger] self@[k]).content_id@,
    {
    }

    /// An empty store; the first note will get id 1.
    pub fn new() -> (r: NoteStore)
        ensures
            r@ =~= Seq::<StoredNote>::empty(),
            r.wf(),
            r.spec_next_id() == 1,
    {
        NoteStore { notes: Vec::new(), next_id: 1 }
    }

    fn idx_by_note_id(&self, id: usize) -> (r: Option<usize>)
        ensures
            match r {
                Some(i) => i < self@.len() && note_idx(self@, id as int) == i as int,
                None => note_idx(self@, id as int) == -1,
            },
    {
        proof {
            lemma_note_idx_props(self@, id as int);
        }
        let n = self.notes.len();
        let mut i: usize = 0;
        while i < n
            invariant
                n == self@.len(),
                0 <= i <= n,
                forall|j: int| 0 <= j < i ==> (#[trigger] self@[j]).note_id != id,
            decreases n - i,
        {
            if self.notes[i].note_id == id {
                proof {
                    lemma_note_idx_props(self@, id as int);
                    assert(note_idx(self@, id as int) == i as int);
                }
                return Some(i);
            }
            i += 1;
        }
        proof {
            lemma_note_idx_props(self@, id as int);
            assert(note_idx(self@, id as int) == -1);
        }
        None
    }

    fn idx_by_content_id(&self, cid: &str) -> (r: Option<usize>)
        ensures
            match r {
                Some(i) => i < self@.len() && content_idx(self@, cid@) == i as int,
                None => content_idx(self@, cid@) == -1,
            },
    {
        let n = self.notes.len();
        let mut i: usize = 0;
        while i < n
            invariant
                n == self@.len(),
                0 <= i <= n,
                forall|j: int| 0 <= j < i ==> (#[trigger] self@[j]).content_id@ != cid@,
            decreases n - i,
        {
            if str_eq(self.notes[i].content_id.as_str(), cid) {
                proof {
                    lemma_content_idx_props(self@, cid@);
                    assert(content_idx(self@, cid@) == i as int);
                }
                return Some(i);
            }
            i += 1;
        }
        proof {
            lemma_content_idx_props(self@, cid@);
            assert(content_idx(self@, cid@) == -1);
        }
        None
    }

    fn replace_at(&mut self, i: usize, n: StoredNote)
        requires
            i < old(self)@.len(),
        ensures
            final(self)@ == old(self)@.update(i as int, n),
            final(self).spec_next_id() == old(self).spec_next_id(),
    {
        self.notes.remove(i);
        self.notes.insert(i, n);
        proof {
            assert(self@ =~= old(self)@.update(i as int, n));
        }
    }

    /// The note with the given id: both content fields, the protection flag
    /// and the content reference, as the protection engine needs them.
    pub fn read_fields(&self, id: usize) -> (r: Option<SimpleNoteView>)
        ensures
            match r {
                Some(v) => ({
                    let i = note_idx(self@, id as int);
                    &&& i >= 0
                    &&& v.title@ == self@[i].title@
                    &&& v.body@ == self@[i].body@
                    &&& v.protected == self@[i].protected
                    &&& v.content_id@ == self@[i].content_id@
                }),
                None => note_idx(self@, id as int) == -1,
            },
    {
        match self.idx_by_note_id(id) {
            None => None,
            Some(i) => {
                let n = &self.notes[i];
                Some(
                    SimpleNoteView {
                        title: n.title.clone(),
                        body: n.body.clone(),
                        content_id: n.content_id.clone(),
                        protected: n.protected,
                    },
                )
            },
        }
    }

    /// Overwrites the body of the note with the given id.  Reports whether a
    /// row was hit; everything else is left unchanged.
    pub fn update_note_by_note_id(&mut self, id: usize, text: &str) -> (r: bool)
        ensures
            old(self).wf() ==> final(self).wf(),
            final(self).spec_next_id() == old(self).spec_next_id(),
            r == (note_idx(old(self)@, id as int) >= 0),
            !r ==> final(self)@ == old(self)@,
            r ==> ({
                let i = note_idx(old(self)@, id as int);
                &&& final(self)@.len() == old(self)@.len()
                &&& (forall|j: int|
                    0 <= j < old(self)@.len() && j != i ==> final(self)@[j] == old(self)@[j])
                &&& final(self)@[i].note_id == old(self)@[i].note_id
                &&& final(self)@[i].title == old(self)@[i].title
                &&& final(self)@[i].body@ == text@
                &&& final(self)@[i].protected == old(self)@[i].protected
                &&& final(self)@[i].trashed == old(self)@[i].trashed
                &&& final(self)@[i].content_id == old(self)@[i].content_id
            }),
    {
        match self.idx_by_note_id(id) {
            None => false,
            Some(i) => {
                let old_n = self.notes.remove(i);
                let new_n = StoredNote {
                    note_id: old_n.note_id,
                    title: old_n.title,
                    body: String::from_str(text),
                    protected: old_n.protected,
                    trashed: old_n.trashed,
                    content_id: old_n.content_id,
                };
                self.notes.insert(i, new_n);
                proof {
                    assert(self@ =~= old(self)@.update(i as int, new_n));
                }
                true
            },
        }
    }

    /// Overwrites the body of the note owning the given content reference.
    pub fn update_note_by_content_id(&mut self, cid: &str, text: &str) -> (r: bool)
        ensures
            old(self).wf() ==> final(self).wf(),
            final(self).spec_next_id() == old(self).spec_next_id(),
            r == (content_idx(old(self)@, cid@) >= 0),
            !r ==> final(self)@ == old(self)@,
            r ==> ({
                let i = content_idx(old(self)@, cid@);
                &&& final(self)@.len() == old(self)@.len()
                &&& (forall|j: int|
                    0 <= j < old(self)@.len() && j != i ==> final(self)@[j] == old(self)@[j])
                &&& final(self)@[i].note_id == old(self)@[i].note_id
                &&& final(self)@[i].title == old(self)@[i].title
                &&& final(self)@[i].body@ == text@
                &&& final(self)@[i].protected == old(self)@[i].protected
                &&& final(self)@[i].trashed == old(self)@[i].trashed
                &&& final(self)@[i].content_id == old(self)@[i].content_id
            }),
    {
        match self.idx_by_content_id(cid) {
            None => false,
            Some(i) => {
                let old_n = self.notes.remove(i);
                let new_n = StoredNote {
                    note_id: old_n.note_id,
                    title: old_n.title,
                    body: String::from_str(text),
                    protected: old_n.protected,
                    trashed: old_n.trashed,
                    content_id: old_n.content_id,
                };
                self.notes.insert(i, new_n);
                proof {
                    assert(self@ =~= old(self)@.update(i as int, new_n));
                }
                true
            },
        }
    }

    /// Overwrites the title of the note owning the given content reference.
    /// The text is stored exactly as given — deliberately: flattening a
    /// title to one line is the calling flow's policy (see
    /// [`crate::utils::make_text_single_line`]), not the storage layer's.
    pub fn update_title_by_content_id(&mut self, cid: &str, text: &str) -> (r: bool)
        ensures
            old(self).wf() ==> final(self).wf(),
            final(self).spec_next_id() == old(self).spec_next_id(),
            r == (content_idx(old(self)@, cid@) >= 0),
            !r ==> final(self)@ == old(self)@,
            r ==> ({
                let i = content_idx(old(self)@, cid@);
                &&& final(self)@.len() == old(self)@.len()
                &&& (forall|j: int|
                    0 <= j < old(self)@.len() && j != i ==> final(self)@[j] == old(self)@[j])
                &&& final(self)@[i].note_id == old(self)@[i].note_id
                &&& final(self)@[i].title@ == text@
                &&& final(self)@[i].body == old(self)@[i].body
                &&& final(self)@[i].protected == old(self)@[i].protected
                &&& final(self)@[i].trashed == old(self)@[i].trashed
                &&& final(self)@[i].content_id == old(self)@[i].content_id
            }),
    {
        match self.idx_by_content_id(cid) {
            None => false,
            Some(i) => {
                let old_n = self.notes.remove(i);
                let new_n = StoredNote {
                    note_id: old_n.note_id,
                    title: String::from_str(text),
                    body: old_n.body,
                    protected: old_n.protected,
                    trashed: old_n.trashed,
                    content_id: old_n.content_id,
                };
                self.notes.insert(i, new_n);
                proof {
                    assert(self@ =~= old(self)@.update(i as int, new_n));
                }
                true
            },
        }
    }

    /// Sets the protection flag of the note with the given id.
    pub fn update_protected_flag(&mut self, id: usize, protected: bool) -> (r: bool)
        ensures
            old(self).wf() ==> final(self).wf(),
            final(self).spec_next_id() == old(self).spec_next_id(),
            r == (note_idx(old(self)@, id as int) >= 0),
            !r ==> final(self)@ == old(self)@,
            r ==> ({
                let i = note_idx(old(self)@, id as int);
                &&& final(self)@.len() == old(self)@.len()
                &&& (forall|j: int|
                    0 <= j < old(self)@.len() && j != i ==> final(self)@[j] == old(self)@[j])
                &&& final(self)@[i].note_id == old(self)@[i].note_id
                &&& final(self)@[i].title == old(self)@[i].title
                &&& final(self)@[i].body == old(self)@[i].body
                &&& final(self)@[i].protected == protected
                &&& final(self)@[i].trashed == old(self)@[i].trashed
                &&& final(self)@[i].content_id == old(self)@[i].content_id
            }),
    {
        match self.idx_by_note_id(id) {
            None => false,
            Some(i) => {
                let old_n = self.notes.remove(i);
                let new_n = StoredNote {
                    note_id: old_n.note_id,
                    title: old_n.title,
                    body: old_n.body,
                    protected,
                    trashed: old_n.trashed,
                    content_id: old_n.content_id,
                };
                self.notes.insert(i, new_n);
                proof {
                    assert(self@ =~= old(self)@.update(i as int, new_n));
                }
                true
            },
        }
    }

    /// Sets or clears the trashed flag of the note with the given id.
    pub fn set_note_trash(&mut self, id: usize, trash_state: bool) -> (r: bool)
        ensures
            old(self).wf() ==> final(self).wf(),
            final(self).spec_next_id() == old(self).spec_next_id(),
            r == (note_idx(old(self)@, id as int) >= 0),
            !r ==> final(self)@ == old(self)@,
            r ==> ({
                let i = note_idx(old(self)@, id as int);
                &&& final(self)@.len() == old(self)@.len()
                &&& (forall|j: int|
                    0 <= j < old(self)@.len() && j != i ==> final(self)@[j] == old(self)@[j])
                &&& final(self)@[i].note_id == old(self)@[i].note_id
                &&& final(self)@[i].title == old(self)@[i].title
                &&& final(self)@[i].body == old(self)@[i].body
                &&& final(self)@[i].protected == old(self)@[i].protected
                &&& final(self)@[i].trashed == trash_state
                &&& final(self)@[i].content_id == old(self)@[i].content_id
            }),
    {
        match self.idx_by_note_id(id) {
            None => false,
            Some(i) => {
                let old_n = self.notes.remove(i);
                let new_n = StoredNote {
                    note_id: old_n.note_id,
                    title: old_n.title,
                    body: old_n.body,
                    protected: old_n.protected,
                    trashed: trash_state,
                    content_id: old_n.content_id,
                };
                self.notes.insert(i, new_n);
                proof {
                    assert(self@ =~= old(self)@.update(i as int, new_n));
                }
                true
            },
        }
    }

    /// Soft-deletes the note: hidden from listings, kept in the store.
    pub fn trash_note(&mut self, id: usize) -> (r: bool)
        ensures
            old(self).wf() ==> final(self).wf(),
            final(self).spec_next_id() == old(self).spec_next_id(),
            r == (note_idx(old(self)@, id as int) >= 0),
            !r ==> final(self)@ == old(self)@,
            r ==> ({
                let i = note_idx(old(self)@, id as int);
                &&& final(self)@.len() == old(self)@.len()
                &&& (forall|j: int|
                    0 <= j < old(self)@.len() && j != i ==> final(self)@[j] == old(self)@[j])
                &&& final(self)@[i].note_id == old(self)@[i].note_id
                &&& final(self)@[i].title == old(self)@[i].title
                &&& final(self)@[i].body == old(self)@[i].body
                &&& final(self)@[i].protected == old(self)@[i].protected
                &&& final(self)@[i].trashed == true
                &&& final(self)@[i].content_id == old(self)@[i].content_id
            }),
    {
        self.set_note_trash(id, true)
    }

    /// Restores a soft-deleted note.
    pub fn restore_note(&mut self, id: usize) -> (r: bool)
        ensures
            old(self).wf() ==> final(self).wf(),
            final(self).spec_next_id() == old(self).spec_next_id(),
            r == (note_idx(old(self)@, id as int) >= 0),
            !r ==> final(self)@ == old(self)@,
            r ==> ({
                let i = note_idx(old(self)@, id as int);
                &&& final(self)@.len() == old(self)@.len()
                &&& (forall|j: int|
                    0 <= j < old(self)@.len() && j != i ==> final(self)@[j] == old(self)@[j])
                &&& final(self)@[i].note_id == old(self)@[i].note_id
                &&& final(self)@[i].title == old(self)@[i].title
                &&& final(self)@[i].body == old(self)@[i].body
                &&& final(self)@[i].protected == old(self)@[i].protected
                &&& final(self)@[i].trashed == false
                &&& final(self)@[i].content_id == old(self)@[i].content_id
            }),
    {
        self.set_note_trash(id, false)
    }

    /// Removes the note with the given id, and with it its content row.  A
    /// protected note is only removed when `force` is set.
    pub fn delete_note_by_id(&mut self, id: usize, force: bool) -> (r: bool)
        ensures
            old(self).wf() ==> final(self).wf(),
            final(self).spec_next_id() == old(self).spec_next_id(),
            r == (note_idx(old(self)@, id as int) >= 0 && (force || !old(self)@[note_idx(
                old(self)@,
                id as int,
            )].protected)),
            !r ==> final(self)@ == old(self)@,
            r ==> final(self)@ == old(self)@.remove(note_idx(old(self)@, id as int)),
    {
        match self.idx_by_note_id(id) {
            None => false,
            Some(i) => {
                if force || !self.notes[i].protected {
                    self.notes.remove(i);
                    proof {
                        assert(self@ =~= old(self)@.remove(i as int));
                    }
                    true
                } else {
                    false
                }
            },
        }
    }

    /// How many notes the store holds.
    pub fn len(&self) -> (r: usize)
        ensures
            r == self@.len(),
    {
        self.notes.len()
    }

    /// The note at a position, in storage order.
    pub fn get_row(&self, i: usize) -> (r: &StoredNote)
        requires
            i < self@.len(),
        ensures
            *r == self@[i as int],
    {
        &self.notes[i]
    }

    /// Rebuilds a store from rows read back from the backing tables.  The
    /// rows are accepted exactly when they respect the store's invariants:
    /// positive unique note ids with room above them, and unique content
    /// references.  The next free id becomes one past the largest id present.
    pub fn load(rows: Vec<StoredNote>) -> (r: Option<NoteStore>)
        ensures
            r is Some <==> rows_loadable(rows@),
            match r {
                Some(store) => store.wf() && store@ == rows@,
                None => true,
            },
    {
        let n = rows.len();
        let mut max_id: usize = 0;
        let mut i: usize = 0;
        while i < n
            invariant
                n == rows@.len(),
                0 <= i <= n,
                max_id < usize::MAX,
                forall|j: int| 0 <= j < i ==> 1 <= (#[trigger] rows@[j]).note_id <= max_id,
                forall|j: int, k: int|
                    0 <= j < k < i ==> (#[trigger] rows@[j]).note_id != (
                    #[trigger] rows@[k]).note_id,
                forall|j: int, k: int|
                    0 <= j < k < i ==> (#[trigger] rows@[j]).content_id@ != (
                    #[trigger] rows@[k]).content_id@,
            decreases n - i,
        {
            let row = &rows[i];
            if row.note_id == 0 || row.note_id == usize::MAX {
                proof {
                    assert(!(1 <= rows@[i as int].note_id < usize::MAX));
                }
                return None;
            }
            let mut j: usize = 0;
            while j < i
                invariant
                    0 <= j <= i < n,
                    n == rows@.len(),
                    forall|k: int|
                        0 <= k < j ==> (#[trigger] rows@[k]).note_id != rows@[i as int].note_id
                            && (#[trigger] rows@[k]).content_id@ != rows@[i as int].content_id@,
                decreases i - j,
            {
                if rows[j].note_id == rows[i].note_id {
                    proof {
                        assert(rows@[j as int].note_id == rows@[i as int].note_id);
                        assert(!rows_loadable(rows@));
                    }
                    return None;
                }
                if str_eq(rows[j].content_id.as_str(), rows[i].content_id.as_str()) {
                    proof {
                        assert(rows@[j as int].content_id@ == rows@[i as int].content_id@);
                        assert(!rows_loadable(rows@));
                    }
                    return None;
                }
                j += 1;
            }
            if row.note_id > max_id {
                max_id = row.note_id;
            }
            i += 1;
        }
        assert(rows_loadable(rows@));
        Some(NoteStore { notes: rows, next_id: max_id + 1 })
    }

    /// Creates a note under a caller-supplied content reference: accepted
    /// exactly when an id is still free and the reference is not yet taken.
    /// On success the content row and the notes row are written and the
    /// last-touched pointer moves to the new id (where that attribute row
    /// exists); on refusal both stores are left exactly as they were.
    pub fn insert_note_with_content_id(
        &mut self,
        attrs: &mut AttrStore,
        title: &str,
        note: &str,
        protected: bool,
        content_id: &str,
    ) -> (r: Option<usize>)
        requires
            old(self).wf(),
        ensures
            final(self).wf(),
            r is Some <==> (old(self).spec_next_id() < usize::MAX && content_idx(
                old(self)@,
                content_id@,
            ) == -1),
            match r {
                Some(id) => {
                    &&& id as int == old(self).spec_next_id()
                    &&& final(self).spec_next_id() == old(self).spec_next_id() + 1
                    &&& note_idx(old(self)@, id as int) == -1
                    &&& final(self)@.len() == old(self)@.len() + 1
                    &&& (forall|j: int|
                        0 <= j < old(self)@.len() ==> final(self)@[j] == old(self)@[j])
                    &&& final(self)@.last().note_id == id
                    &&& final(self)@.last().title@ == title@
                    &&& final(self)@.last().body@ == note@
                    &&& final(self)@.last().protected == protected
                    &&& final(self)@.last().trashed == false
                    &&& final(self)@.last().content_id@ == content_id@
                    &&& (spec_get(old(attrs)@, "last_touched"@) is Some ==> spec_get(
                        final(attrs)@,
                        "last_touched"@,
                    ) == Some(dec_str(id as nat)))
                    &&& (spec_get(old(attrs)@, "last_touched"@) is None ==> final(attrs)@ == old(
                        attrs,
                    )@)
                    &&& (forall|k: Seq<char>|
                        k != "last_touched"@ ==> #[trigger] spec_get(final(attrs)@, k) == spec_get(
                            old(attrs)@,
                            k,
                        ))
                },
                None => {
                    &&& final(self)@ == old(self)@
                    &&& final(self).spec_next_id() == old(self).spec_next_id()
                    &&& final(attrs)@ == old(attrs)@
                },
            },
    {
        if self.next_id == usize::MAX {
            proof {
                lemma_content_idx_props(self@, content_id@);
            }
            return None;
        }
        match self.idx_by_content_id(content_id) {
            Some(_) => None,
            None => {
                proof {
                    lemma_content_idx_props(self@, content_id@);
                }
                let id = self.next_id;
                proof {
                    lemma_note_idx_props(self@, id as int);
                    if note_idx(self@, id as int) >= 0 {
                        assert(self@[note_idx(self@, id as int)].note_id == id);
                    }
                }
                let n = StoredNote {
                    note_id: id,
                    title: String::from_str(title),
                    body: String::from_str(note),
                    protected,
                    trashed: false,
                    content_id: String::from_str(content_id),
                };
                self.notes.push(n);
                self.next_id = id + 1;
                let rendered = usize_to_string(id);
                let _updated = attrs.update_key_value("last_touched", rendered.as_str());
                Some(id)
            },
        }
    }

    /// Creates a note: a content reference is drawn at random and the note is
    /// stored under it through [`NoteStore::insert_note_with_content_id`].
    /// Refusal is possible only where the id space is exhausted or the drawn
    /// reference collides with a stored one — on an empty store with an id
    /// free, creation is guaranteed.
    pub fn insert_note(
        &mut self,
        attrs: &mut AttrStore,
        title: &str,
        note: &str,
        protected: bool,
    ) -> (r: Option<usize>)
        requires
            old(self).wf(),
        ensures
            final(self).wf(),
            old(self).spec_next_id() == usize::MAX ==> r is None,
            old(self)@.len() == 0 && old(self).spec_next_id() < usize::MAX ==> r is Some,
            match r {
                Some(id) => {
                    &&& id as int == old(self).spec_next_id()
                    &&& final(self).spec_next_id() == old(self).spec_next_id() + 1
                    &&& note_idx(old(self)@, id as int) == -1
                    &&& final(self)@.len() == old(self)@.len() + 1
                    &&& (forall|j: int|
                        0 <= j < old(self)@.len() ==> final(self)@[j] == old(self)@[j])
                    &&& final(self)@.last().note_id == id
                    &&& final(self)@.last().title@ == title@
                    &&& final(self)@.last().body@ == note@
                    &&& final(self)@.last().protected == protected
                    &&& final(self)@.last().trashed == false
                    &&& (spec_get(old(attrs)@, "last_touched"@) is Some ==> spec_get(
                        final(attrs)@,
                        "last_touched"@,
                    ) == Some(dec_str(id as nat)))
                    &&& (spec_get(old(attrs)@, "last_touched"@) is None ==> final(attrs)@ == old(
                        attrs,
                    )@)
                    &&& (forall|k: Seq<char>|
                        k != "last_touched"@ ==> #[trigger] spec_get(final(attrs)@, k) == spec_get(
                            old(attrs)@,
                            k,
                        ))
                },
                None => {
                    &&& final(self)@ == old(self)@
                    &&& final(self).spec_next_id() == old(self).spec_next_id()
                    &&& final(attrs)@ == old(attrs)@
                },
            },
    {
        let content_id = new_uuid_string();
        self.insert_note_with_content_id(attrs, title, note, protected, content_id.as_str())
    }

    /// Permanently removes every trashed note, keeping the others in order.
    pub fn empty_trash(&mut self) -> (r: bool)
        ensures
            old(self).wf() ==> final(self).wf(),
            final(self).spec_next_id() == old(self).spec_next_id(),
            final(self)@ == untrashed(old(self)@),
            r == (untrashed(old(self)@).len() != old(self)@.len()),
    {
        let n = self.notes.len();
        let mut kept: Vec<StoredNote> = Vec::new();
        let mut i: usize = 0;
        while i < n
            invariant
                self@ == old(self)@,
                self.spec_next_id() == old(self).spec_next_id(),
                n == self@.len(),
                0 <= i <= n,
                kept@ =~= untrashed(self@.take(i as int)),
            decreases n - i,
        {
            proof {
                assert(self@.take(i as int + 1).drop_last() =~= self@.take(i as int));
                assert(self@.take(i as int + 1).last() == self@[i as int]);
            }
            if !self.notes[i].trashed {
                let src = &self.notes[i];
                let note = StoredNote {
                    note_id: src.note_id,
                    title: src.title.clone(),
                    body: src.body.clone(),
                    protected: src.protected,
                    trashed: src.trashed,
                    content_id: src.content_id.clone(),
                };
                assert(note == self@[i as int]);
                kept.push(note);
            }
            i += 1;
        }
        proof {
            assert(self@.take(n as int) =~= self@);
        }
        let removed = kept.len() != self.notes.len();
        self.notes = kept;
        proof {
            if old(self).wf() {
                lemma_untrashed_pairs(old(self)@);
                assert forall|a: int|
                    0 <= a < self@.len() implies 1 <= (#[trigger] self@[a]).note_id
                    < self.next_id by {
                    let j0 = choose|j0: int| 0 <= j0 < old(self)@.len() && self@[a] == old(self)@[j0];
                    assert(1 <= old(self)@[j0].note_id < self.next_id);
                }
                assert forall|a: int, b: int| 0 <= a < b < self@.len() implies (
                #[trigger] self@[a]).note_id != (#[trigger] self@[b]).note_id && self@[a].content_id@
                    != self@[b].content_id@ by {
                    let (j0, k0) = choose|j0: int, k0: int|
                        0 <= j0 < k0 < old(self)@.len() && self@[a] == old(self)@[j0] && self@[b]
                            == old(self)@[k0];
                    assert(old(self)@[j0].note_id != old(self)@[k0].note_id);
                    assert(old(self)@[j0].content_id@ != old(self)@[k0].content_id@);
                }
            }
        }
        removed
    }
}

/// Points the last-touched row at the given note id.  The id must be a plain
/// decimal that a 32-bit row id can hold; anything else is malformed input.
/// Reports whether the row existed to be updated, as the table write would.
pub fn update_last_touched(attrs: &mut AttrStore, note_id: &str) -> (r: Result<bool, Errors>)
    ensures
        match r {
            Ok(b) => {
                &&& all_digits(note_id@) && dec_value(note_id@) <= i32::MAX
                &&& b == (spec_get(old(attrs)@, "last_touched"@) is Some)
                &&& (b ==> spec_get(final(attrs)@, "last_touched"@) == Some(note_id@))
                &&& (!b ==> final(attrs)@ == old(attrs)@)
                &&& (forall|k: Seq<char>|
                    k != "last_touched"@ ==> #[trigger] spec_get(final(attrs)@, k) == spec_get(
                        old(attrs)@,
                        k,
                    ))
            },
            Err(e) => {
                &&& e == Errors::NoteIdMalformedErr
                &&& final(attrs)@ == old(attrs)@
                &&& !(all_digits(note_id@) && dec_value(note_id@) <= i32::MAX)
            },
        },
{
    match parse_decimal(note_id) {
        Some(v) => {
            if v <= 2147483647 {
                Ok(attrs.update_key_value("last_touched", note_id))
            } else {
                Err(Errors::NoteIdMalformedErr)
            }
        },
        None => Err(Errors::NoteIdMalformedErr),
    }
}

/// The insert statement for a key/value table.
pub fn get_key_val_insert_sql(table: &str) -> (r: String)
    ensures
        r@ == "INSERT INTO "@ + table@ + " (key, value) VALUES (:key, :value);"@,
{
    let mut s = String::from_str("INSERT INTO ");
    s.append(table);
    s.append(" (key, value) VALUES (:key, :value);");
    s
}

/// The select statement for a key/value table.
pub fn get_key_val_select_sql(table: &str) -> (r: String)
    ensures
        r@ == "SELECT value from "@ + table@ + " WHERE key = :key;"@,
{
    let mut s = String::from_str("SELECT value from ");
    s.append(table);
    s.append(" WHERE key = :key;");
    s
}

/// The update statement for a key/value table.
pub fn get_key_val_update_sql(table: &str) -> (r: String)
    ensures
        r@ == "UPDATE "@ + table@ + " SET value = :value WHERE key = :key;"@,
{
    let mut s = String::from_str("UPDATE ");
    s.append(table);
    s.append(" SET value = :value WHERE key = :key;");
    s
}


/// The title a plain note is stored under: flattened to one line and
/// sampled down to its first 128 grapheme clusters where it is longer.
pub open spec fn formatted_title(title: Seq<char>) -> Seq<char> {
    let f = single_line_of(title);
    let gs = graphemes_of(f);
    if 128 < gs.len() {
        concat_graphemes(gs.subrange(0, 128))
    } else {
        f
    }
}

/// Creates an encrypted note: the password is verified against the stored
/// fingerprint, the title is flattened to one line, and both fields are
/// encrypted under the unwrapped boss key before they are stored.
pub fn insert_encrypted_note(
    notes: &mut NoteStore,
    attrs: &mut AttrStore,
    password: &str,
    title: &str,
    note: &str,
) -> (r: Result<Option<usize>, SecurityError>)
    requires
        old(notes).wf(),
    ensures
        final(notes).wf(),
        old(notes).spec_next_id() == usize::MAX ==> !(r matches Ok(Some(_))),
        (old(notes)@.len() == 0 && old(notes).spec_next_id() < usize::MAX
            && password_fingerprint_matches(old(attrs)@, password@) && boss_key_available(
            old(attrs)@,
            password@,
        )) ==> r matches Ok(Some(_)),
        match r {
            Ok(outcome) => {
                &&& password_fingerprint_matches(old(attrs)@, password@)
                &&& boss_key_available(old(attrs)@, password@)
                &&& match outcome {
                    Some(id) => {
                        let bk = unwrapped_boss_key(old(attrs)@, password@);
                        &&& final(notes)@.len() == old(notes)@.len() + 1
                        &&& (forall|j: int|
                            0 <= j < old(notes)@.len() ==> final(notes)@[j] == old(notes)@[j])
                        &&& final(notes)@.last().note_id == id
                        &&& final(notes)@.last().title@ == cipher_of(bk, single_line_of(title@))
                        &&& decipher_of(bk, final(notes)@.last().title@) == Some(
                            single_line_of(title@),
                        )
                        &&& final(notes)@.last().body@ == cipher_of(bk, note@)
                        &&& decipher_of(bk, final(notes)@.last().body@) == Some(note@)
                        &&& final(notes)@.last().protected == true
                        &&& final(notes)@.last().trashed == false
                        &&& (spec_get(old(attrs)@, "last_touched"@) is Some ==> spec_get(
                            final(attrs)@,
                            "last_touched"@,
                        ) == Some(dec_str(id as nat)))
                        &&& (forall|k: Seq<char>|
                            k != "last_touched"@ ==> #[trigger] spec_get(final(attrs)@, k)
                                == spec_get(old(attrs)@, k))
                    },
                    None => final(notes)@ == old(notes)@ && final(attrs)@ == old(attrs)@,
                }
            },
            Err(e) => {
                &&& final(notes)@ == old(notes)@
                &&& final(attrs)@ == old(attrs)@
                &&& if !password_fingerprint_matches(old(attrs)@, password@) {
                    e == SecurityError::AuthenticationExhausted
                } else {
                    &&& e == SecurityError::DecryptionFailure
                    &&& !boss_key_available(old(attrs)@, password@)
                }
            },
        },
{
    let formatted = make_text_single_line(title);
    match encrypt_note(attrs, password, formatted.as_str(), note) {
        Err(e) => Err(e),
        Ok(enc) => Ok(notes.insert_note(attrs, enc.title.as_str(), enc.body.as_str(), true)),
    }
}

/// Creates a note.  A plain note gets its title flattened and sampled down
/// to 128 clusters; a protected one goes through [`insert_encrypted_note`].
pub fn add_note(
    notes: &mut NoteStore,
    attrs: &mut AttrStore,
    password: &str,
    title: &str,
    note: &str,
    protected: bool,
) -> (r: Result<Option<usize>, SecurityError>)
    requires
        old(notes).wf(),
    ensures
        final(notes).wf(),
        old(notes).spec_next_id() == usize::MAX ==> !(r matches Ok(Some(_))),
        (old(notes)@.len() == 0 && old(notes).spec_next_id() < usize::MAX && (protected
            ==> password_fingerprint_matches(old(attrs)@, password@) && boss_key_available(
            old(attrs)@,
            password@,
        ))) ==> r matches Ok(Some(_)),
        match r {
            Ok(outcome) => match outcome {
                Some(id) => {
                    &&& final(notes)@.len() == old(notes)@.len() + 1
                    &&& (forall|j: int|
                        0 <= j < old(notes)@.len() ==> final(notes)@[j] == old(notes)@[j])
                    &&& final(notes)@.last().note_id == id
                    &&& final(notes)@.last().protected == protected
                    &&& final(notes)@.last().trashed == false
                    &&& (!protected ==> final(notes)@.last().title@ == formatted_title(title@)
                        && final(notes)@.last().body@ == note@)
                    &&& (protected ==> ({
                        let bk = unwrapped_boss_key(old(attrs)@, password@);
                        &&& password_fingerprint_matches(old(attrs)@, password@)
                        &&& boss_key_available(old(attrs)@, password@)
                        &&& final(notes)@.last().title@ == cipher_of(bk, single_line_of(title@))
                        &&& decipher_of(bk, final(notes)@.last().title@) == Some(
                            single_line_of(title@),
                        )
                        &&& final(notes)@.last().body@ == cipher_of(bk, note@)
                        &&& decipher_of(bk, final(notes)@.last().body@) == Some(note@)
                    }))
                    &&& (spec_get(old(attrs)@, "last_touched"@) is Some ==> spec_get(
                        final(attrs)@,
                        "last_touched"@,
                    ) == Some(dec_str(id as nat)))
                    &&& (forall|k: Seq<char>|
                        k != "last_touched"@ ==> #[trigger] spec_get(final(attrs)@, k)
                            == spec_get(old(attrs)@, k))
                },
                None => final(notes)@ == old(notes)@ && final(attrs)@ == old(attrs)@,
            },
            Err(e) => {
                &&& protected
                &&& final(notes)@ == old(notes)@
                &&& final(attrs)@ == old(attrs)@
                &&& if !password_fingerprint_matches(old(attrs)@, password@) {
                    e == SecurityError::AuthenticationExhausted
                } else {
                    &&& e == SecurityError::DecryptionFailure
                    &&& !boss_key_available(old(attrs)@, password@)
                }
            },
        },
{
    if protected {
        insert_encrypted_note(notes, attrs, password, title, note)
    } else {
        let formatted = make_text_single_line(title);
        let truncated = slice_text(0, 128, formatted.as_str());
        Ok(notes.insert_note(attrs, truncated.as_str(), note, false))
    }
}

/// The view handed back for the note at `id`: the stored fields, decrypted
/// under the unwrapped boss key where the note is protected.
pub open spec fn read_note_view_ok(
    notes: Seq<StoredNote>,
    attrs: Seq<KeyValuePair>,
    pw: Seq<char>,
    id: int,
    v: SimpleNoteView,
) -> bool {
    let i = note_idx(notes, id);
    let bk = unwrapped_boss_key(attrs, pw);
    &&& i >= 0
    &&& v.content_id@ == notes[i].content_id@
    &&& v.protected == notes[i].protected
    &&& (!notes[i].protected ==> v.title@ == notes[i].title@ && v.body@ == notes[i].body@)
    &&& (notes[i].protected ==> password_fingerprint_matches(attrs, pw) && boss_key_available(
        attrs,
        pw,
    ) && decipher_of(bk, notes[i].title@) == Some(v.title@) && decipher_of(bk, notes[i].body@)
        == Some(v.body@))
}

/// Why a note at `id` cannot be handed back: missing, or protected and the
/// password or a stored ciphertext lets the decryption chain down.
pub open spec fn read_note_view_err(
    notes: Seq<StoredNote>,
    attrs: Seq<KeyValuePair>,
    pw: Seq<char>,
    id: int,
    e: SecurityError,
) -> bool {
    let i = note_idx(notes, id);
    let bk = unwrapped_boss_key(attrs, pw);
    if i == -1 {
        e == SecurityError::NoteNotFound
    } else {
        &&& notes[i].protected
        &&& if !password_fingerprint_matches(attrs, pw) {
            e == SecurityError::AuthenticationExhausted
        } else {
            &&& e == SecurityError::DecryptionFailure
            &&& !(boss_key_available(attrs, pw) && decipher_of(bk, notes[i].title@) is Some
                && decipher_of(bk, notes[i].body@) is Some)
        }
    }
}

/// Reading the note at `id` fails: it is missing, or it is protected and the
/// password or a stored ciphertext lets the decryption chain down.
pub open spec fn read_note_fails(
    notes: Seq<StoredNote>,
    attrs: Seq<KeyValuePair>,
    pw: Seq<char>,
    id: int,
) -> bool {
    let i = note_idx(notes, id);
    let bk = unwrapped_boss_key(attrs, pw);
    i == -1 || (notes[i].protected && !(password_fingerprint_matches(attrs, pw)
        && boss_key_available(attrs, pw) && decipher_of(bk, notes[i].title@) is Some
        && decipher_of(bk, notes[i].body@) is Some))
}

/// The last-touched pointer after an operation touched note `id`: moved to
/// the id where the pointer row exists and the id fits the 32-bit row it is
/// kept in, untouched otherwise; no other attribute row changes.
pub open spec fn last_touched_updated(
    pre: Seq<KeyValuePair>,
    post: Seq<KeyValuePair>,
    id: int,
) -> bool {
    &&& (id <= 2147483647 ==> {
        &&& (spec_get(pre, "last_touched"@) is Some ==> spec_get(post, "last_touched"@) == Some(
            dec_str(id as nat),
        ))
        &&& (spec_get(pre, "last_touched"@) is None ==> post == pre)
    })
    &&& (id > 2147483647 ==> post == pre)
    &&& (forall|k: Seq<char>|
        k != "last_touched"@ ==> #[trigger] spec_get(post, k) == spec_get(pre, k))
}

/// Reads a note by id, decrypting it first where it is protected, and
/// records it as the last-touched note (where its id fits the 32-bit row the
/// pointer is kept in; an id beyond that row is still returned, the pointer
/// deliberately left where it was).
pub fn get_note_by_id(
    notes: &NoteStore,
    attrs: &mut AttrStore,
    password: &str,
    id: usize,
) -> (r: Result<SimpleNoteView, SecurityError>)
    ensures
        r is Ok <==> !read_note_fails(notes@, old(attrs)@, password@, id as int),
        match r {
            Ok(v) => read_note_view_ok(notes@, old(attrs)@, password@, id as int, v)
                && last_touched_updated(old(attrs)@, final(attrs)@, id as int),
            Err(e) => final(attrs)@ == old(attrs)@ && read_note_view_err(
                notes@,
                old(attrs)@,
                password@,
                id as int,
                e,
            ),
        },
{
    let view = match notes.read_fields(id) {
        None => {
            return Err(SecurityError::NoteNotFound);
        },
        Some(v) => v,
    };
    let result = if view.protected {
        match decrypt_note(attrs, password, view.title.as_str(), view.body.as_str()) {
            Ok(d) => SimpleNoteView {
                title: d.title,
                body: d.body,
                content_id: view.content_id,
                protected: true,
            },
            Err(e) => {
                return Err(e);
            },
        }
    } else {
        view
    };
    proof {
        lemma_dec_str_value(id as nat);
    }
    if id <= 2147483647 {
        let rendered = usize_to_string(id);
        let _updated = update_last_touched(attrs, rendered.as_str());
    }
    Ok(result)
}

/// Reads the note the last-touched pointer names, decrypting it first where
/// it is protected.  The pointer itself is left as it is.
pub fn get_last_touched_note(notes: &NoteStore, attrs: &AttrStore, password: &str) -> (r: Result<
    SimpleNoteView,
    SecurityError,
>)
    ensures
        match r {
            Ok(v) => ({
                let lt = spec_get(attrs@, "last_touched"@);
                &&& lt is Some
                &&& all_digits(lt->Some_0)
                &&& dec_value(lt->Some_0) <= usize::MAX
                &&& read_note_view_ok(notes@, attrs@, password@, dec_value(lt->Some_0), v)
            }),
            Err(e) => ({
                let lt = spec_get(attrs@, "last_touched"@);
                if lt is None || !all_digits(lt->Some_0) || dec_value(lt->Some_0) > usize::MAX {
                    e == SecurityError::NoteNotFound
                } else {
                    read_note_view_err(notes@, attrs@, password@, dec_value(lt->Some_0), e)
                }
            }),
        },
{
    let value = match attrs.get_value("last_touched") {
        None => {
            return Err(SecurityError::NoteNotFound);
        },
        Some(v) => v,
    };
    let id64 = match parse_decimal(value.as_str()) {
        None => {
            return Err(SecurityError::NoteNotFound);
        },
        Some(v) => v,
    };
    if id64 > usize::MAX as u64 {
        return Err(SecurityError::NoteNotFound);
    }
    let id = id64 as usize;
    let view = match notes.read_fields(id) {
        None => {
            return Err(SecurityError::NoteNotFound);
        },
        Some(v) => v,
    };
    if view.protected {
        match decrypt_note(attrs, password, view.title.as_str(), view.body.as_str()) {
            Ok(d) => Ok(
                SimpleNoteView {
                    title: d.title,
                    body: d.body,
                    content_id: view.content_id,
                    protected: true,
                },
            ),
            Err(e) => Err(e),
        }
    } else {
        Ok(view)
    }
}


/// The note id named by one row of the printed menu: the row's first nine
/// character columns, surrounding whitespace dropped, read as a decimal
/// that a 32-bit row id can hold.  Anything else is malformed input.
pub fn parse_menu_line_id(line: &str) -> (r: Option<usize>)
    ensures
        match r {
            Some(id) => {
                &&& line@.len() >= 9
                &&& all_digits(trim_spec(line@.take(9)))
                &&& id as int == dec_value(trim_spec(line@.take(9)))
                &&& id <= 2147483647
            },
            None => !(line@.len() >= 9 && all_digits(trim_spec(line@.take(9))) && dec_value(
                trim_spec(line@.take(9)),
            ) <= 2147483647),
        },
{
    let len = line.unicode_len();
    if len < 9 {
        return None;
    }
    let segment = line.substring_char(0, 9);
    proof {
        assert(segment@ =~= line@.take(9));
    }
    let trimmed = trim_str(segment);
    match parse_decimal(trimmed.as_str()) {
        Some(v) => {
            if v <= 2147483647 {
                Some(v as usize)
            } else {
                None
            }
        },
        None => None,
    }
}

/// Looks a note up from a pasted menu row: the id is parsed from the row's
/// first columns and the note is read as [`get_note_by_id`] reads it,
/// last-touched pointer included.
pub fn get_note_from_menu_line_by_id(
    notes: &NoteStore,
    attrs: &mut AttrStore,
    password: &str,
    line: &str,
) -> (r: Result<SimpleNoteView, Errors>)
    ensures
        ({
            let seg = trim_spec(line@.take(9));
            let parsed = line@.len() >= 9 && all_digits(seg) && dec_value(seg) <= 2147483647;
            let id = dec_value(seg);
            &&& (r is Ok <==> parsed && !read_note_fails(notes@, old(attrs)@, password@, id))
            &&& match r {
                Ok(v) => read_note_view_ok(notes@, old(attrs)@, password@, id, v)
                    && last_touched_updated(old(attrs)@, final(attrs)@, id),
                Err(e) => {
                    &&& final(attrs)@ == old(attrs)@
                    &&& (e == Errors::MenuLineMalformedErr <==> !parsed)
                    &&& (parsed ==> e == Errors::NoteIdErr && read_note_fails(
                        notes@,
                        old(attrs)@,
                        password@,
                        id,
                    ))
                },
            }
        }),
{
    match parse_menu_line_id(line) {
        None => Err(Errors::MenuLineMalformedErr),
        Some(id) => match get_note_by_id(notes, attrs, password, id) {
            Ok(v) => Ok(v),
            Err(_) => Err(Errors::NoteIdErr),
        },
    }
}

} // verus!
