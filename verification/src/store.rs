//! The note store: the in-memory collection, its invariants (unique
//! identifiers, well-formed metadata, sorted under the current mode) and
//! the save/delete transitions.  File-system work happens outside: a
//! save is planned here, carried out there, and committed here only when
//! every write succeeded, so a failed operation leaves the store as it
//! was.

use vstd::prelude::*;

use crate::clock::{rfc3339_instant, rfc3339_instant_of};
use crate::codec::{spec_decode, wf_meta, MetaV, NoteMeta};
use crate::draft::{draft_tags_ok, has_title, parse_title_and_tags, spec_title};
use crate::naming::{
    date_of, date_prefix, file_location, loc_of, max_seq, next_id, seq_limit, slug_of, slugify,
    spec_next_id,
};
use crate::text::{is_prefix, lemma_lex_le_total, lemma_lex_le_trans, lex_le, lex_le_str,
    seg_has_no_nl, str_eq};

verus! {

/// A live note: its metadata, body and current file location.
pub struct Note {
    pub meta: NoteMeta,
    pub body: String,
    pub location: String,
}

/// The mathematical shadow of `Note`.
pub ghost struct NoteV {
    pub meta: MetaV,
    pub body: Seq<char>,
    pub location: Seq<char>,
}

impl View for Note {
    type V = NoteV;

    open spec fn view(&self) -> NoteV {
        NoteV { meta: self.meta@, body: self.body@, location: self.location@ }
    }
}

impl DeepView for Note {
    type V = NoteV;

    open spec fn deep_view(&self) -> NoteV {
        self.view()
    }
}

impl Note {
    pub fn duplicate(&self) -> (r: Note)
        ensures
            r@ == self@,
    {
        Note {
            meta: self.meta.duplicate(),
            body: self.body.clone(),
            location: self.location.clone(),
        }
    }
}

#[derive(Clone, Copy, PartialEq, Eq, Structural, Debug)]
pub enum SortMode {
    Recent,
    Title,
}

#[derive(Debug)]
pub enum SaveError {
    EmptyTitle,
    RenameFailed(String),
    WriteFailed(String),
}

#[derive(Debug)]
pub enum DeleteError {
    NotFound,
    IoError(String),
}

/// The order the collection is kept in: most recent creation first,
/// notes whose timestamp does not parse after all that do, ordered among
/// themselves by their raw text descending; or titles ascending.
pub open spec fn note_le(mode: SortMode, a: NoteV, b: NoteV) -> bool {
    match mode {
        SortMode::Recent => match (
            rfc3339_instant(a.meta.created_at),
            rfc3339_instant(b.meta.created_at),
        ) {
            (Some(x), Some(y)) => x.0 > y.0 || (x.0 == y.0 && x.1 >= y.1),
            (Some(x), None) => true,
            (None, Some(y)) => false,
            (None, None) => lex_le(b.meta.created_at, a.meta.created_at),
        },
        SortMode::Title => lex_le(a.meta.title, b.meta.title),
    }
}

pub open spec fn sorted_by_mode(mode: SortMode, ns: Seq<NoteV>) -> bool {
    forall|i: int, j: int| 0 <= i < j < ns.len() ==> note_le(mode, #[trigger] ns[i], #[trigger] ns[j])
}

pub proof fn lemma_note_le_total(mode: SortMode, a: NoteV, b: NoteV)
    ensures
        note_le(mode, a, b) || note_le(mode, b, a),
{
    lemma_lex_le_total(a.meta.title, b.meta.title);
    lemma_lex_le_total(b.meta.created_at, a.meta.created_at);
}

pub proof fn lemma_note_le_trans(mode: SortMode, a: NoteV, b: NoteV, c: NoteV)
    requires
        note_le(mode, a, b),
        note_le(mode, b, c),
    ensures
        note_le(mode, a, c),
{
    match mode {
        SortMode::Recent => {
            if rfc3339_instant(a.meta.created_at) is None && rfc3339_instant(
                c.meta.created_at,
            ) is None {
                lemma_lex_le_trans(
                    c.meta.created_at,
                    b.meta.created_at,
                    a.meta.created_at,
                );
            }
        },
        SortMode::Title => {
            lemma_lex_le_trans(a.meta.title, b.meta.title, c.meta.title);
        },
    }
}

/// Exactly one note per identifier.
pub open spec fn ids_unique(ns: Seq<NoteV>) -> bool {
    forall|i: int, j: int| 0 <= i < j < ns.len() ==> (#[trigger] ns[i]).meta.id != (#[trigger] ns[j]).meta.id
}

pub open spec fn notes_wf(ns: Seq<NoteV>) -> bool {
    forall|i: int| 0 <= i < ns.len() ==> wf_meta((#[trigger] ns[i]).meta)
}

/// The first index holding the identifier, from `i` on.
pub open spec fn find_id_from(ns: Seq<NoteV>, id: Seq<char>, i: int) -> Option<int>
    decreases ns.len() - i when 0 <= i <= ns.len()
{
    if i >= ns.len() {
        None
    } else if ns[i].meta.id == id {
        Some(i)
    } else {
        find_id_from(ns, id, i + 1)
    }
}

pub open spec fn find_id(ns: Seq<NoteV>, id: Seq<char>) -> Option<int> {
    find_id_from(ns, id, 0)
}

pub open spec fn has_id(ns: Seq<NoteV>, id: Seq<char>) -> bool {
    find_id(ns, id) is Some
}

pub proof fn lemma_find_id_properties(ns: Seq<NoteV>, id: Seq<char>, i: int)
    requires
        0 <= i <= ns.len(),
    ensures
        (match find_id_from(ns, id, i) {
            Some(k) => i <= k < ns.len() && ns[k].meta.id == id,
            None => forall|j: int| i <= j < ns.len() ==> (#[trigger] ns[j]).meta.id != id,
        }),
    decreases ns.len() - i,
{
    if i < ns.len() && ns[i].meta.id != id {
        lemma_find_id_properties(ns, id, i + 1);
    }
}

/// The identifiers of the collection, in order.
pub open spec fn ids_of(ns: Seq<NoteV>) -> Seq<Seq<char>> {
    Seq::new(ns.len(), |i: int| ns[i].meta.id)
}

/// The store: the live collection, the active sort mode, and the
/// non-fatal diagnostics collected while loading.
pub struct Store {
    pub notes: Vec<Note>,
    pub sort_mode: SortMode,
    pub diagnostics: Vec<String>,
}

impl Store {
    /// The store's invariant: well-formed metadata, unique identifiers,
    /// and the collection sorted under the current mode.
    pub open spec fn wf(&self) -> bool {
        &&& notes_wf(self.notes.deep_view())
        &&& ids_unique(self.notes.deep_view())
        &&& sorted_by_mode(self.sort_mode, self.notes.deep_view())
    }
}

fn note_le_exec(mode: SortMode, a: &Note, b: &Note) -> (r: bool)
    ensures
        r == note_le(mode, a@, b@),
{
    match mode {
        SortMode::Recent => {
            let ka = rfc3339_instant_of(a.meta.created_at.as_str());
            let kb = rfc3339_instant_of(b.meta.created_at.as_str());
            match (ka, kb) {
                (Some(x), Some(y)) => x.0 > y.0 || (x.0 == y.0 && x.1 >= y.1),
                (Some(_), None) => true,
                (None, Some(_)) => false,
                (None, None) => lex_le_str(
                    b.meta.created_at.as_str(),
                    a.meta.created_at.as_str(),
                ),
            }
        },
        SortMode::Title => lex_le_str(a.meta.title.as_str(), b.meta.title.as_str()),
    }
}

proof fn lemma_insert_multiset(s: Seq<NoteV>, k: int, x: NoteV)
    requires
        0 <= k <= s.len(),
    ensures
        s.insert(k, x).to_multiset() =~= s.to_multiset().insert(x),
{
    broadcast use vstd::seq_lib::group_to_multiset_ensures;

    let a = s.take(k);
    let b = s.skip(k);
    assert(s =~= a + b);
    assert(s.insert(k, x) =~= a + (seq![x] + b));
    vstd::seq_lib::lemma_multiset_commutative(a, b);
    vstd::seq_lib::lemma_multiset_commutative(a, seq![x] + b);
    vstd::seq_lib::lemma_multiset_commutative(seq![x], b);
    assert(seq![x] =~= Seq::<NoteV>::empty().push(x));
    assert(Seq::<NoteV>::empty().push(x).to_multiset() =~= vstd::multiset::Multiset::<NoteV>::empty().insert(x));
}

/// Inserts a note into a mode-sorted collection, keeping it sorted.
fn insert_note_sorted(v: &mut Vec<Note>, mode: SortMode, x: Note)
    requires
        sorted_by_mode(mode, old(v).deep_view()),
    ensures
        sorted_by_mode(mode, final(v).deep_view()),
        final(v).deep_view().to_multiset() == old(v).deep_view().to_multiset().insert(x@),
{
    let ghost odv = v.deep_view();
    let mut k: usize = 0;
    while k < v.len() && note_le_exec(mode, &v[k], &x)
        invariant
            k <= v.len(),
            v.deep_view() == odv,
            sorted_by_mode(mode, odv),
            forall|j: int| 0 <= j < k ==> note_le(mode, #[trigger] odv[j], x@),
        decreases v.len() - k,
    {
        k += 1;
    }
    proof {
        if k < v.len() {
            lemma_note_le_total(mode, odv[k as int], x@);
        }
    }
    let ghost prev = v@;
    let ghost xv = x@;
    v.insert(k, x);
    proof {
        let dv = v.deep_view();
        assert forall|j: int| 0 <= j < dv.len() implies #[trigger] dv[j] == (if j < k {
            odv[j]
        } else if j == k {
            xv
        } else {
            odv[j - 1]
        }) by {
            assert(v@[j] == (if j < k {
                prev[j]
            } else if j == k {
                v@[k as int]
            } else {
                prev[j - 1]
            }));
        }
        assert forall|p: int, q: int| 0 <= p < q < dv.len() implies note_le(
            mode,
            #[trigger] dv[p],
            #[trigger] dv[q],
        ) by {
            let kk = k as int;
            if p < kk && q == kk {
            } else if p == kk && q > kk {
                if kk < odv.len() {
                    if q - 1 > kk {
                        lemma_note_le_trans(mode, xv, odv[kk], odv[q - 1]);
                    }
                }
            } else if p < kk && q > kk {
                if p != q - 1 {
                }
            }
        }
        assert(v.deep_view() =~= odv.insert(k as int, xv));
        lemma_insert_multiset(odv, k as int, xv);
    }
}

/// Re-sorts the collection under the given mode.
pub fn sort_notes(notes: &mut Vec<Note>, mode: SortMode)
    ensures
        sorted_by_mode(mode, final(notes).deep_view()),
        final(notes).deep_view().to_multiset() == old(notes).deep_view().to_multiset(),
{
    broadcast use vstd::seq_lib::group_to_multiset_ensures;

    let ghost odv = notes.deep_view();
    let mut out: Vec<Note> = Vec::new();
    let mut i: usize = 0;
    proof {
        assert(odv.take(0) =~= Seq::<NoteV>::empty());
        assert(out.deep_view() =~= Seq::<NoteV>::empty());
        assert(Seq::<NoteV>::empty().to_multiset() =~= vstd::multiset::Multiset::<NoteV>::empty());
    }
    while i < notes.len()
        invariant
            i <= notes.len(),
            odv == notes.deep_view(),
            sorted_by_mode(mode, out.deep_view()),
            out.deep_view().to_multiset() == odv.take(i as int).to_multiset(),
        decreases notes.len() - i,
    {
        let x = notes[i].duplicate();
        proof {
            assert(x@ == odv[i as int]);
        }
        insert_note_sorted(&mut out, mode, x);
        proof {
            assert(odv.take(i as int + 1).drop_last() =~= odv.take(i as int));
            assert(odv.take(i as int + 1) =~= odv.take(i as int).push(odv[i as int]));
            vstd::seq_lib::to_multiset_build(odv.take(i as int), odv[i as int]);
            assert(out.deep_view().to_multiset() =~= odv.take(i as int + 1).to_multiset());
        }
        i += 1;
    }
    proof {
        assert(odv.take(notes.len() as int) =~= odv);
    }
    *notes = out;
}

/// Finds the index of the note carrying `id`.
pub fn find_index_of_id(notes: &Vec<Note>, id: &str) -> (r: Option<usize>)
    ensures
        (match r {
            Some(k) => k < notes.len() && find_id(notes.deep_view(), id@) == Some(k as int),
            None => find_id(notes.deep_view(), id@) is None,
        }),
{
    let ghost dv = notes.deep_view();
    let mut k: usize = 0;
    while k < notes.len() && !str_eq(notes[k].meta.id.as_str(), id)
        invariant
            k <= notes.len(),
            dv == notes.deep_view(),
            find_id(dv, id@) == find_id_from(dv, id@, k as int),
        decreases notes.len() - k,
    {
        k += 1;
    }
    if k < notes.len() {
        Some(k)
    } else {
        None
    }
}

/// Collects the identifiers of the collection.
fn collect_ids(notes: &Vec<Note>) -> (r: Vec<String>)
    ensures
        r.deep_view() == ids_of(notes.deep_view()),
{
    let ghost target = ids_of(notes.deep_view());
    let mut r: Vec<String> = Vec::new();
    let mut i: usize = 0;
    proof {
        assert(r.deep_view() =~= target.take(0));
    }
    while i < notes.len()
        invariant
            i <= notes.len(),
            target == ids_of(notes.deep_view()),
            r.len() == i,
            r.deep_view() == target.take(i as int),
        decreases notes.len() - i,
    {
        let ghost prev_dv = r.deep_view();
        let idc = notes[i].meta.id.clone();
        proof {
            assert(idc@ == notes.deep_view()[i as int].meta.id);
        }
        let ghost idv = idc@;
        r.push(idc);
        proof {
            assert(r.deep_view() =~= prev_dv.push(idv));
            assert(target.take(i as int + 1) =~= target.take(i as int).push(target[i as int]));
        }
        i += 1;
    }
    proof {
        assert(target.take(notes.len() as int) =~= target);
    }
    r
}

/// What loading a list of raw files yields, in file order: each file
/// that decodes and does not repeat an already-loaded identifier becomes
/// a note; every other file is left out (and recorded as a diagnostic).
pub open spec fn load_notes(files: Seq<(Seq<char>, Seq<char>)>) -> Seq<NoteV>
    decreases files.len(),
{
    if files.len() == 0 {
        Seq::empty()
    } else {
        let prev = load_notes(files.drop_last());
        let f = files.last();
        match spec_decode(f.1) {
            Err(_) => prev,
            Ok(p) => if has_id(prev, p.0.id) {
                prev
            } else {
                prev.push(NoteV { meta: p.0, body: p.1, location: f.0 })
            },
        }
    }
}

/// Metadata read back by the codec is always well-formed: every field
/// came from a single line.
pub proof fn lemma_decode_wf(s: Seq<char>)
    requires
        spec_decode(s) is Ok,
    ensures
        wf_meta(spec_decode(s)->Ok_0.0),
{
    crate::text::lemma_split_nl_no_nl(s);
    let ls = crate::text::split_nl(s);
    let k = crate::codec::find_delim(ls, 1)->Some_0;
    lemma_find_delim_in_range(ls, 1);
    let bl = ls.subrange(1, k);
    let m = spec_decode(s)->Ok_0.0;
    assert(crate::codec::parse_block(bl) is Some);
    assert(m == crate::codec::parse_block(bl)->Some_0);
    let e = crate::codec::tag_run(bl, 3);
    lemma_tag_run_in_range(bl, 3);
    assert(bl.len() >= 5);
    assert(e + 2 == bl.len());
    assert(m.tags == crate::codec::strip_items(bl.subrange(3, e)));
    assert forall|i: int| 0 <= i < m.tags.len() implies seg_has_no_nl(#[trigger] m.tags[i]) by {
        crate::codec::lemma_tag_run_all_items(bl, 3, 3 + i);
        assert(bl[3 + i].len() >= 2);
        assert(m.tags[i] == bl.subrange(3, e)[i].skip(2));
        assert(bl.subrange(3, e)[i] == ls[4 + i]);
        assert(seg_has_no_nl(ls[4 + i]));
        assert forall|t: int| 0 <= t < m.tags[i].len() implies m.tags[i][t] != '\n' by {
            assert(m.tags[i][t] == ls[4 + i][t + 2]);
        }
    }
    assert(m.id == ls[1].skip(4));
    assert(m.title == ls[2].skip(7));
    assert(m.created_at == ls[1 + e].skip(12));
    assert(m.updated_at == ls[2 + e].skip(12));
}

proof fn lemma_find_delim_in_range(ls: Seq<Seq<char>>, i: int)
    requires
        0 <= i <= ls.len(),
        crate::codec::find_delim(ls, i) is Some,
    ensures
        i <= crate::codec::find_delim(ls, i)->Some_0 < ls.len(),
    decreases ls.len() - i,
{
    if i < ls.len() && ls[i] != crate::codec::delim() {
        lemma_find_delim_in_range(ls, i + 1);
    }
}

proof fn lemma_tag_run_in_range(bl: Seq<Seq<char>>, i: int)
    requires
        0 <= i <= bl.len(),
    ensures
        i <= crate::codec::tag_run(bl, i) <= bl.len(),
    decreases bl.len() - i,
{
    if i < bl.len() && is_prefix(crate::codec::item_prefix(), bl[i]) {
        lemma_tag_run_in_range(bl, i + 1);
    }
}

impl Store {
    /// Builds the store from the raw files of the notes directory (and
    /// any directory-level diagnostics collected while listing it).
    /// Files that do not decode, or that repeat an identifier, are
    /// excluded and recorded, never silently dropped; the collection
    /// comes back sorted, most recent first.
    pub fn load_store(files: &Vec<(String, String)>, dir_diagnostics: Vec<String>) -> (s: Store)
        ensures
            s.wf(),
            s.sort_mode == SortMode::Recent,
            s.notes.deep_view().to_multiset() == load_notes(files.deep_view()).to_multiset(),
            s.diagnostics.len() == dir_diagnostics.len() + files.len() - load_notes(
                files.deep_view(),
            ).len(),
    {
        let ghost fv = files.deep_view();
        let mut notes: Vec<Note> = Vec::new();
        let mut diagnostics: Vec<String> = dir_diagnostics;
        let ghost base = diagnostics.len() as int;
        let mut i: usize = 0;
        proof {
            assert(fv.take(0) =~= Seq::<(Seq<char>, Seq<char>)>::empty());
            assert(notes.deep_view() =~= Seq::<NoteV>::empty());
        }
        while i < files.len()
            invariant
                i <= files.len(),
                fv == files.deep_view(),
                notes.deep_view() == load_notes(fv.take(i as int)),
                notes_wf(notes.deep_view()),
                ids_unique(notes.deep_view()),
                diagnostics.len() == base + i - load_notes(fv.take(i as int)).len(),
                load_notes(fv.take(i as int)).len() <= i,
            decreases files.len() - i,
        {
            proof {
                assert(fv.take(i as int + 1).drop_last() =~= fv.take(i as int));
                assert(fv.take(i as int + 1).last() == fv[i as int]);
                assert(fv[i as int].1 == files@[i as int].1@);
                assert(fv[i as int].0 == files@[i as int].0@);
            }
            let ghost prevn = notes.deep_view();
            match crate::codec::decode(files[i].1.as_str()) {
                Err(_) => {
                    diagnostics.push(load_failure_note(&files[i].0));
                },
                Ok(p) => {
                    match find_index_of_id(&notes, p.0.id.as_str()) {
                        Some(_) => {
                            proof {
                                assert(has_id(prevn, p.0@.id));
                            }
                            diagnostics.push(load_failure_note(&files[i].0));
                        },
                        None => {
                            let note = Note {
                                meta: p.0,
                                body: p.1,
                                location: files[i].0.clone(),
                            };
                            proof {
                                lemma_decode_wf(fv[i as int].1);
                                lemma_find_id_properties(prevn, note@.meta.id, 0);
                            }
                            let ghost prevv = notes@;
                            notes.push(note);
                            proof {
                                assert forall|j: int| 0 <= j < prevn.len() + 1 implies #[trigger] notes.deep_view()[j]
                                    == prevn.push(notes@[prevn.len() as int]@)[j] by {
                                    if j < prevn.len() {
                                        assert(notes@[j] == prevv[j]);
                                    }
                                }
                                assert(notes.deep_view() =~= prevn.push(
                                    notes@[prevn.len() as int]@,
                                ));
                                assert(notes.deep_view() =~= load_notes(fv.take(i as int + 1)));
                            }
                        },
                    }
                },
            }
            i += 1;
        }
        proof {
            assert(fv.take(files.len() as int) =~= fv);
        }
        sort_notes(&mut notes, SortMode::Recent);
        proof {
            lemma_sorted_multiset_keeps_wf(notes.deep_view(), load_notes(fv));
        }
        Store { notes, sort_mode: SortMode::Recent, diagnostics }
    }
}

/// Unique identifiers and well-formed metadata carry over any
/// permutation of the collection.
proof fn lemma_sorted_multiset_keeps_wf(a: Seq<NoteV>, b: Seq<NoteV>)
    requires
        a.to_multiset() == b.to_multiset(),
        notes_wf(b),
        ids_unique(b),
    ensures
        notes_wf(a),
        ids_unique(a),
{
    broadcast use vstd::seq_lib::group_to_multiset_ensures;

    assert forall|i: int| 0 <= i < a.len() implies wf_meta((#[trigger] a[i]).meta) by {
        assert(a.to_multiset().contains(a[i]));
        assert(b.contains(a[i]));
    }
    assert forall|i: int, j: int| 0 <= i < j < a.len() implies (#[trigger] a[i]).meta.id
        != (#[trigger] a[j]).meta.id by {
        if a[i].meta.id == a[j].meta.id {
            if a[i] == a[j] {
                lemma_dup_count(a, i, j);
                lemma_count_unique(b, a[i]);
            } else {
                assert(a.to_multiset().contains(a[i]));
                assert(a.to_multiset().contains(a[j]));
                assert(b.contains(a[i]));
                assert(b.contains(a[j]));
                let p = choose|p: int| 0 <= p < b.len() && b[p] == a[i];
                let q = choose|q: int| 0 <= q < b.len() && b[q] == a[j];
            }
        }
    }
}

/// A value sitting at two indices counts at least twice.
proof fn lemma_dup_count(s: Seq<NoteV>, i: int, j: int)
    requires
        0 <= i < j < s.len(),
        s[i] == s[j],
    ensures
        s.to_multiset().count(s[i]) >= 2,
{
    broadcast use vstd::seq_lib::group_to_multiset_ensures;

    let r = s.remove(j);
    assert(r.to_multiset() =~= s.to_multiset().remove(s[j]));
    assert(r[i] == s[i]);
    assert(r.contains(s[i]));
    assert(r.to_multiset().count(s[i]) > 0);
}

/// In a collection with unique identifiers no value counts twice.
proof fn lemma_count_unique(s: Seq<NoteV>, x: NoteV)
    requires
        ids_unique(s),
    ensures
        s.to_multiset().count(x) <= 1,
    decreases s.len(),
{
    broadcast use vstd::seq_lib::group_to_multiset_ensures;

    if s.len() > 0 {
        assert(s =~= s.drop_last().push(s.last()));
        assert(s.to_multiset() =~= s.drop_last().to_multiset().insert(s.last()));
        assert forall|i: int, j: int| 0 <= i < j < s.drop_last().len() implies (#[trigger] s.drop_last()[i]).meta.id
            != (#[trigger] s.drop_last()[j]).meta.id by {
            assert(s[i] == s.drop_last()[i] && s[j] == s.drop_last()[j]);
        }
        lemma_count_unique(s.drop_last(), x);
        if x == s.last() {
            if s.drop_last().to_multiset().count(x) > 0 {
                assert(s.drop_last().contains(x));
                let i = choose|i: int| 0 <= i < s.drop_last().len() && s.drop_last()[i] == x;
                assert(s[i].meta.id == s[s.len() - 1].meta.id);
            }
        }
    }
}

fn load_failure_note(location: &String) -> (r: String) {
    let mut r = location.clone();
    r.append(": not loaded");
    r
}

/// A planned save: the note content to persist, where it must live, and
/// whether the file must first be moved from an old location.  The plan
/// is computed against the live store; the caller performs the rename
/// and the write, and commits only when both succeeded.
pub struct SavePlan {
    pub meta: NoteMeta,
    pub body: String,
    pub location: String,
    pub rename_from: Option<String>,
    pub is_new: bool,
}

pub ghost struct SavePlanV {
    pub meta: MetaV,
    pub body: Seq<char>,
    pub location: Seq<char>,
    pub rename_from: Option<Seq<char>>,
    pub is_new: bool,
}

impl View for SavePlan {
    type V = SavePlanV;

    open spec fn view(&self) -> SavePlanV {
        SavePlanV {
            meta: self.meta@,
            body: self.body@,
            location: self.location@,
            rename_from: match self.rename_from {
                None => None,
                Some(l) => Some(l@),
            },
            is_new: self.is_new,
        }
    }
}

/// The note a committed plan puts in the collection.
pub open spec fn plan_note(p: SavePlanV) -> NoteV {
    NoteV { meta: p.meta, body: p.body, location: p.location }
}

/// What a save plan must say, given the store it was planned against:
/// title and tags from the draft, body the draft itself, the location
/// derived from the creation date and the title's slug; for an existing
/// note the identifier and creation time are kept and a rename is
/// planned exactly when the location changed; for a new note a fresh
/// identifier and the current time.
pub open spec fn plan_matches(
    ns: Seq<NoteV>,
    draft: Seq<char>,
    selected: Option<Seq<char>>,
    now: Seq<char>,
    p: SavePlanV,
) -> bool {
    &&& has_title(draft)
    &&& p.meta.title == spec_title(draft)
    &&& draft_tags_ok(draft, p.meta.tags)
    &&& p.body == draft
    &&& p.location == loc_of(date_of(p.meta.created_at), slug_of(p.meta.title))
    &&& p.meta.updated_at == now
    &&& match selected {
        Some(id) => {
            &&& find_id(ns, id) is Some
            &&& p.meta.id == id
            &&& p.meta.created_at == ns[find_id(ns, id)->Some_0].meta.created_at
            &&& p.is_new == false
            &&& p.rename_from == (if ns[find_id(ns, id)->Some_0].location == p.location {
                None::<Seq<char>>
            } else {
                Some(ns[find_id(ns, id)->Some_0].location)
            })
        },
        None => {
            &&& p.meta.id == spec_next_id(ids_of(ns), date_of(now))
            &&& p.meta.created_at == now
            &&& p.is_new == true
            &&& p.rename_from is None
        },
    }
}

pub open spec fn view_of_selected(selected: Option<&str>) -> Option<Seq<char>> {
    match selected {
        None => None,
        Some(id) => Some(id@),
    }
}

impl SavePlan {
    /// The exact text the caller must write to `location`.
    pub fn file_text(&self) -> (r: String)
        ensures
            r@ == crate::codec::spec_encode(self.meta@, self.body@),
    {
        crate::codec::encode(&self.meta, self.body.as_str())
    }
}

impl Store {
    /// Plans a save of the draft: extracts title and tags, refuses a
    /// draft with no heading line before anything is touched, keeps the
    /// identifier and creation time of the selected note or allocates a
    /// fresh identifier for a new one, and derives the file location.
    pub fn plan_save(&self, draft: &str, selected: Option<&str>, now: &str) -> (r: Result<
        SavePlan,
        SaveError,
    >)
        requires
            self.wf(),
            seg_has_no_nl(now@),
            (match selected {
                Some(id) => has_id(self.notes.deep_view(), id@),
                None => max_seq(ids_of(self.notes.deep_view()), date_of(now@)) < seq_limit(),
            }),
        ensures
            r is Ok <==> has_title(draft@),
            (match r {
                Ok(p) => {
                    &&& plan_matches(
                        self.notes.deep_view(),
                        draft@,
                        view_of_selected(selected),
                        now@,
                        p@,
                    )
                    &&& wf_meta(p@.meta)
                    &&& (p@.is_new ==> !has_id(self.notes.deep_view(), p@.meta.id))
                },
                Err(e) => e matches SaveError::EmptyTitle,
            }),
    {
        let ghost ns = self.notes.deep_view();
        let (title, tags) = parse_title_and_tags(draft);
        if title.as_str().is_empty() {
            proof {
                if has_title(draft@) {
                    crate::draft::lemma_title_nonempty(draft@);
                }
            }
            return Err(SaveError::EmptyTitle);
        }
        proof {
            assert(has_title(draft@));
            crate::draft::lemma_title_no_nl(draft@);
            crate::draft::lemma_draft_tags_no_nl(draft@, tags.deep_view());
        }
        match selected {
            Some(id) => {
                let k = match find_index_of_id(&self.notes, id) {
                    Some(k) => k,
                    None => {
                        proof {
                            assert(false);
                        }
                        0
                    },
                };
                proof {
                    lemma_find_id_properties(ns, id@, 0);
                    assert(self.notes@[k as int]@ == ns[k as int]);
                }
                let existing = &self.notes[k];
                let created = existing.meta.created_at.clone();
                let date = date_prefix(created.as_str());
                let slug = slugify(title.as_str());
                let location = file_location(date.as_str(), slug.as_str());
                let rename_from = if str_eq(existing.location.as_str(), location.as_str()) {
                    None
                } else {
                    Some(existing.location.clone())
                };
                let meta = NoteMeta {
                    id: id.to_owned(),
                    title,
                    tags,
                    created_at: created,
                    updated_at: now.to_owned(),
                };
                Ok(
                    SavePlan {
                        meta,
                        body: draft.to_owned(),
                        location,
                        rename_from,
                        is_new: false,
                    },
                )
            },
            None => {
                let ids = collect_ids(&self.notes);
                let date = date_prefix(now);
                let id = next_id(&ids, date.as_str());
                proof {
                    crate::naming::lemma_max_seq_bounds(ids_of(ns), date_of(now@));
                    crate::naming::lemma_next_id_fresh(ids_of(ns), date_of(now@));
                    crate::naming::lemma_next_id_no_nl(ids_of(ns), date_of(now@), now@);
                    if has_id(ns, id@) {
                        lemma_find_id_properties(ns, id@, 0);
                        let k = find_id(ns, id@)->Some_0;
                        assert(ids_of(ns)[k] == id@);
                    }
                }
                let slug = slugify(title.as_str());
                let location = file_location(date.as_str(), slug.as_str());
                let meta = NoteMeta {
                    id,
                    title,
                    tags,
                    created_at: now.to_owned(),
                    updated_at: now.to_owned(),
                };
                Ok(
                    SavePlan {
                        meta,
                        body: draft.to_owned(),
                        location,
                        rename_from: None,
                        is_new: true,
                    },
                )
            },
        }
    }

    /// Commits a planned save whose file work succeeded: the note is
    /// replaced (same identifier) or added, and the collection re-sorted
    /// under the current mode.  The diagnostics and mode are untouched.
    pub fn commit_save(&mut self, plan: SavePlan)
        requires
            old(self).wf(),
            wf_meta(plan@.meta),
            plan@.is_new ==> !has_id(old(self).notes.deep_view(), plan@.meta.id),
            !plan@.is_new ==> has_id(old(self).notes.deep_view(), plan@.meta.id),
        ensures
            final(self).wf(),
            final(self).sort_mode == old(self).sort_mode,
            final(self).diagnostics == old(self).diagnostics,
            plan@.is_new ==> final(self).notes.deep_view().to_multiset() == old(
                self,
            ).notes.deep_view().to_multiset().insert(plan_note(plan@)),
            !plan@.is_new ==> final(self).notes.deep_view().to_multiset() == old(
                self,
            ).notes.deep_view().to_multiset().remove(
                old(self).notes.deep_view()[find_id(
                    old(self).notes.deep_view(),
                    plan@.meta.id,
                )->Some_0],
            ).insert(plan_note(plan@)),
    {
        broadcast use vstd::seq_lib::group_to_multiset_ensures;

        let ghost ns = self.notes.deep_view();
        let mode = self.sort_mode;
        let SavePlan { meta, body, location, rename_from: _, is_new } = plan;
        if !is_new {
            let k = match find_index_of_id(&self.notes, meta.id.as_str()) {
                Some(k) => k,
                None => {
                    proof {
                        assert(false);
                    }
                    0
                },
            };
            let ghost kk = k as int;
            proof {
                lemma_find_id_properties(ns, meta@.id, 0);
            }
            let _removed = self.notes.remove(k);
            proof {
                assert(self.notes.deep_view() =~= ns.remove(kk));
                assert(ns.remove(kk).to_multiset() =~= ns.to_multiset().remove(ns[kk]));
                assert forall|p: int, q: int|
                    0 <= p < q < ns.remove(kk).len() implies note_le(
                    mode,
                    #[trigger] ns.remove(kk)[p],
                    #[trigger] ns.remove(kk)[q],
                ) by {
                    assert(ns.remove(kk)[p] == (if p < kk {
                        ns[p]
                    } else {
                        ns[p + 1]
                    }));
                    assert(ns.remove(kk)[q] == (if q < kk {
                        ns[q]
                    } else {
                        ns[q + 1]
                    }));
                }
            }
            let note = Note { meta, body, location };
            let ghost nv = note@;
            insert_note_sorted(&mut self.notes, mode, note);
            proof {
                lemma_commit_wf(ns.remove(kk), ns, kk, nv);
                vstd::seq_lib::to_multiset_build(ns.remove(kk), nv);
                lemma_sorted_multiset_keeps_wf(self.notes.deep_view(), ns.remove(kk).push(nv));
                assert(self.notes.deep_view().to_multiset() =~= ns.to_multiset().remove(
                    ns[kk],
                ).insert(nv));
            }
        } else {
            let note = Note { meta, body, location };
            let ghost nv = note@;
            proof {
                lemma_find_id_properties(ns, nv.meta.id, 0);
            }
            insert_note_sorted(&mut self.notes, mode, note);
            proof {
                lemma_new_wf(ns, nv);
                vstd::seq_lib::to_multiset_build(ns, nv);
                lemma_sorted_multiset_keeps_wf(self.notes.deep_view(), ns.push(nv));
            }
        }
    }

    /// The file location of the note carrying `id`, if any: what a
    /// delete must remove from disk.
    pub fn location_of_id(&self, id: &str) -> (r: Option<String>)
        ensures
            (match find_id(self.notes.deep_view(), id@) {
                Some(k) => (r matches Some(l) && l@ == self.notes.deep_view()[k].location),
                None => r is None,
            }),
    {
        match find_index_of_id(&self.notes, id) {
            Some(k) => Some(self.notes[k].location.clone()),
            None => None,
        }
    }

    /// Commits a delete whose file removal succeeded: the note leaves
    /// the collection; everything else, including the order, stays.
    pub fn commit_delete(&mut self, id: &str)
        requires
            old(self).wf(),
            has_id(old(self).notes.deep_view(), id@),
        ensures
            final(self).wf(),
            final(self).sort_mode == old(self).sort_mode,
            final(self).diagnostics == old(self).diagnostics,
            final(self).notes.deep_view() == old(self).notes.deep_view().remove(
                find_id(old(self).notes.deep_view(), id@)->Some_0,
            ),
    {
        let ghost ns = self.notes.deep_view();
        let k = match find_index_of_id(&self.notes, id) {
            Some(k) => k,
            None => {
                proof {
                    assert(false);
                }
                0
            },
        };
        let ghost kk = k as int;
        let _removed = self.notes.remove(k);
        proof {
            assert(self.notes.deep_view() =~= ns.remove(kk));
            assert forall|p: int, q: int| 0 <= p < q < ns.remove(kk).len() implies note_le(
                self.sort_mode,
                #[trigger] ns.remove(kk)[p],
                #[trigger] ns.remove(kk)[q],
            ) && (#[trigger] ns.remove(kk)[p]).meta.id != (#[trigger] ns.remove(kk)[q]).meta.id
                && wf_meta(ns.remove(kk)[p].meta) by {
                assert(ns.remove(kk)[p] == (if p < kk {
                    ns[p]
                } else {
                    ns[p + 1]
                }));
                assert(ns.remove(kk)[q] == (if q < kk {
                    ns[q]
                } else {
                    ns[q + 1]
                }));
            }
            assert forall|p: int| 0 <= p < ns.remove(kk).len() implies wf_meta(
                (#[trigger] ns.remove(kk)[p]).meta,
            ) by {
                assert(ns.remove(kk)[p] == (if p < kk {
                    ns[p]
                } else {
                    ns[p + 1]
                }));
            }
        }
    }

    /// Switches the ordering and re-sorts the collection.
    pub fn set_sort_mode(&mut self, mode: SortMode)
        requires
            old(self).wf(),
        ensures
            final(self).wf(),
            final(self).sort_mode == mode,
            final(self).diagnostics == old(self).diagnostics,
            final(self).notes.deep_view().to_multiset() == old(
                self,
            ).notes.deep_view().to_multiset(),
    {
        self.sort_mode = mode;
        sort_notes(&mut self.notes, mode);
        proof {
            lemma_sorted_multiset_keeps_wf(self.notes.deep_view(), old(self).notes.deep_view());
        }
    }

    /// The body of the note carrying `id`, if any.
    pub fn get_body(&self, id: &str) -> (r: Option<String>)
        ensures
            (match find_id(self.notes.deep_view(), id@) {
                Some(k) => (r matches Some(b) && b@ == self.notes.deep_view()[k].body),
                None => r is None,
            }),
    {
        match find_index_of_id(&self.notes, id) {
            Some(k) => Some(self.notes[k].body.clone()),
            None => None,
        }
    }
}

/// The collection after an update commit keeps the invariants: the
/// replaced identifier appears exactly once again.
proof fn lemma_commit_wf(removed: Seq<NoteV>, ns: Seq<NoteV>, kk: int, nv: NoteV)
    requires
        0 <= kk < ns.len(),
        removed == ns.remove(kk),
        notes_wf(ns),
        ids_unique(ns),
        wf_meta(nv.meta),
        nv.meta.id == ns[kk].meta.id,
    ensures
        notes_wf(removed.push(nv)),
        ids_unique(removed.push(nv)),
{
    let b = removed.push(nv);
    assert forall|i: int| 0 <= i < b.len() implies wf_meta((#[trigger] b[i]).meta) by {
        if i < removed.len() {
            assert(removed[i] == (if i < kk {
                ns[i]
            } else {
                ns[i + 1]
            }));
        }
    }
    assert forall|i: int, j: int| 0 <= i < j < b.len() implies (#[trigger] b[i]).meta.id
        != (#[trigger] b[j]).meta.id by {
        if j < removed.len() {
            assert(b[i] == (if i < kk {
                ns[i]
            } else {
                ns[i + 1]
            }));
            assert(b[j] == (if j < kk {
                ns[j]
            } else {
                ns[j + 1]
            }));
        } else {
            assert(b[i] == (if i < kk {
                ns[i]
            } else {
                ns[i + 1]
            }));
            assert(b[j] == nv);
        }
    }
}

/// The collection after a new-note commit keeps the invariants: the
/// fresh identifier collides with none.
proof fn lemma_new_wf(ns: Seq<NoteV>, nv: NoteV)
    requires
        notes_wf(ns),
        ids_unique(ns),
        wf_meta(nv.meta),
        !has_id(ns, nv.meta.id),
    ensures
        notes_wf(ns.push(nv)),
        ids_unique(ns.push(nv)),
{
    lemma_find_id_properties(ns, nv.meta.id, 0);
    let b = ns.push(nv);
    assert forall|i: int| 0 <= i < b.len() implies wf_meta((#[trigger] b[i]).meta) by {
        if i < ns.len() {
            assert(b[i] == ns[i]);
        } else {
            assert(b[i] == nv);
        }
    }
    assert forall|i: int, j: int| 0 <= i < j < b.len() implies (#[trigger] b[i]).meta.id
        != (#[trigger] b[j]).meta.id by {
        assert(b[i] == ns[i]);
        if j < ns.len() {
            assert(b[j] == ns[j]);
        } else {
            assert(b[j] == nv);
        }
    }
}

/// Saving the same draft twice onto the same note changes nothing but
/// the update timestamp: title, tags, body, identifier, creation time
/// and location all come out the same.
pub proof fn lemma_save_idempotent(
    ns1: Seq<NoteV>,
    ns2: Seq<NoteV>,
    draft: Seq<char>,
    id: Seq<char>,
    t1: Seq<char>,
    t2: Seq<char>,
    p1: SavePlanV,
    p2: SavePlanV,
)
    requires
        ids_unique(ns1),
        plan_matches(ns1, draft, Some(id), t1, p1),
        plan_matches(ns2, draft, Some(id), t2, p2),
        ns2.to_multiset() == ns1.to_multiset().remove(
            ns1[find_id(ns1, id)->Some_0],
        ).insert(plan_note(p1)),
    ensures
        p2.meta.id == p1.meta.id,
        p2.meta.title == p1.meta.title,
        p2.meta.tags == p1.meta.tags,
        p2.body == p1.body,
        p2.meta.created_at == p1.meta.created_at,
        p2.meta.updated_at == t2,
        p2.location == p1.location,
{
    broadcast use vstd::seq_lib::group_to_multiset_ensures;
    broadcast use vstd::multiset::group_multiset_axioms;

    crate::draft::lemma_draft_tags_unique(draft, p1.meta.tags, p2.meta.tags);
    let k1 = find_id(ns1, id)->Some_0;
    let k2 = find_id(ns2, id)->Some_0;
    lemma_find_id_properties(ns1, id, 0);
    lemma_find_id_properties(ns2, id, 0);
    let v = ns2[k2];
    assert(ns2.contains(v));
    assert(ns2.to_multiset().count(v) > 0);
    if v != plan_note(p1) {
        assert(ns1.to_multiset().remove(ns1[k1]).count(v) > 0);
        assert(ns1.to_multiset().count(v) > 0);
        assert(ns1.contains(v));
        let j = choose|j: int| 0 <= j < ns1.len() && ns1[j] == v;
        assert(ns1[j].meta.id == id);
        if j != k1 {
            assert(ns1[k1].meta.id == id);
        }
        assert(j == k1);
        lemma_count_unique_pub(ns1, v);
        assert(ns1.to_multiset().remove(ns1[k1]).count(v) == ns1.to_multiset().count(v) - 1);
        assert(false);
    }
    assert(v.meta.created_at == p1.meta.created_at);
}

/// In a collection with unique identifiers no note value counts twice.
pub proof fn lemma_count_unique_pub(s: Seq<NoteV>, x: NoteV)
    requires
        ids_unique(s),
    ensures
        s.to_multiset().count(x) <= 1,
{
    lemma_count_unique(s, x);
}

/// A read-only summary of one live note.
pub struct NoteSummary {
    pub id: String,
    pub title: String,
    pub tags: Vec<String>,
    pub created_at: String,
}

impl Store {
    /// The live notes, in the current order, as summaries.
    pub fn list(&self) -> (r: Vec<NoteSummary>)
        ensures
            r@.len() == self.notes.deep_view().len(),
            forall|i: int|
                0 <= i < r@.len() ==> (#[trigger] r@[i]).id@ == self.notes.deep_view()[i].meta.id
                    && r@[i].title@ == self.notes.deep_view()[i].meta.title
                    && r@[i].tags.deep_view() == self.notes.deep_view()[i].meta.tags
                    && r@[i].created_at@ == self.notes.deep_view()[i].meta.created_at,
    {
        let ghost dv = self.notes.deep_view();
        let mut r: Vec<NoteSummary> = Vec::new();
        let mut i: usize = 0;
        while i < self.notes.len()
            invariant
                i <= self.notes.len(),
                dv == self.notes.deep_view(),
                r@.len() == i,
                forall|j: int|
                    0 <= j < i ==> (#[trigger] r@[j]).id@ == dv[j].meta.id && r@[j].title@
                        == dv[j].meta.title && r@[j].tags.deep_view() == dv[j].meta.tags
                        && r@[j].created_at@ == dv[j].meta.created_at,
            decreases self.notes.len() - i,
        {
            let n = &self.notes[i];
            proof {
                assert(self.notes@[i as int]@ == dv[i as int]);
            }
            let m = n.meta.duplicate();
            let ghost prev = r@;
            r.push(
                NoteSummary {
                    id: m.id,
                    title: m.title,
                    tags: m.tags,
                    created_at: m.created_at,
                },
            );
            proof {
                assert forall|j: int|
                    0 <= j < i + 1 implies (#[trigger] r@[j]).id@ == dv[j].meta.id && r@[j].title@
                    == dv[j].meta.title && r@[j].tags.deep_view() == dv[j].meta.tags
                    && r@[j].created_at@ == dv[j].meta.created_at by {
                    if j < i {
                        assert(r@[j] == prev[j]);
                    }
                }
            }
            i += 1;
        }
        r
    }
}

/// Retitling relocates: a save planned for an existing note derives the
/// location from the (possibly new) title, plans a move from the old
/// location exactly when the two differ, and plans none when they agree.
pub proof fn lemma_retitle_plans_rename(
    ns: Seq<NoteV>,
    draft: Seq<char>,
    id: Seq<char>,
    now: Seq<char>,
    p: SavePlanV,
)
    requires
        plan_matches(ns, draft, Some(id), now, p),
    ensures
        p.location == loc_of(date_of(p.meta.created_at), slug_of(spec_title(draft))),
        ns[find_id(ns, id)->Some_0].location != p.location ==> p.rename_from == Some(
            ns[find_id(ns, id)->Some_0].location,
        ),
        ns[find_id(ns, id)->Some_0].location == p.location ==> p.rename_from is None,
{
}

} // verus!
