//! Derived views over the live collection: title-reference backlinks
//! and the tag cloud.  Both are computed fresh from the collection on
//! every call and mutate nothing.

use vstd::prelude::*;

use crate::store::{Note, NoteV, Store};
use crate::text::{contains_sub, lex_le, spec_contains, str_eq};

verus! {

/// The literal text whose presence in a body links it to title `t`.
pub open spec fn link_needle(t: Seq<char>) -> Seq<char> {
    seq!['[', '['] + t + seq![']', ']']
}

/// The backlinks of a title, in collection order: the titles of the
/// notes whose body holds the bracketed reference -- except the note
/// carrying the title itself.
pub open spec fn backlinks_of(ns: Seq<NoteV>, t: Seq<char>) -> Seq<Seq<char>>
    decreases ns.len(),
{
    if ns.len() == 0 {
        Seq::empty()
    } else {
        let prev = backlinks_of(ns.drop_last(), t);
        let n = ns.last();
        if n.meta.title != t && spec_contains(n.body, link_needle(t)) {
            prev.push(n.meta.title)
        } else {
            prev
        }
    }
}

/// A note is never its own backlink, even when its body holds the
/// bracketed reference to its own title.
pub proof fn lemma_backlinks_exclude_self(ns: Seq<NoteV>, t: Seq<char>)
    ensures
        !backlinks_of(ns, t).contains(t),
    decreases ns.len(),
{
    if ns.len() > 0 {
        lemma_backlinks_exclude_self(ns.drop_last(), t);
        let prev = backlinks_of(ns.drop_last(), t);
        let n = ns.last();
        if n.meta.title != t && spec_contains(n.body, link_needle(t)) {
            if prev.push(n.meta.title).contains(t) {
                let j = choose|j: int|
                    0 <= j < prev.push(n.meta.title).len() && prev.push(n.meta.title)[j] == t;
                if j < prev.len() {
                    assert(prev.contains(t));
                }
            }
        }
    }
}

fn open_brackets_str() -> (r: &'static str)
    ensures
        r@ == seq!['[', '['],
{
    proof {
        reveal_strlit("[[");
        assert("[["@ =~= seq!['[', '[']);
    }
    "[["
}

fn close_brackets_str() -> (r: &'static str)
    ensures
        r@ == seq![']', ']'],
{
    proof {
        reveal_strlit("]]");
        assert("]]"@ =~= seq![']', ']']);
    }
    "]]"
}

/// How often `t` occurs in one note's tag list.
pub open spec fn count_in_tags(tags: Seq<Seq<char>>, t: Seq<char>) -> int
    decreases tags.len(),
{
    if tags.len() == 0 {
        0
    } else {
        count_in_tags(tags.drop_last(), t) + if tags.last() == t {
            1int
        } else {
            0int
        }
    }
}

/// How often `t` occurs across all notes' tag lists.
pub open spec fn tag_count(ns: Seq<NoteV>, t: Seq<char>) -> int
    decreases ns.len(),
{
    if ns.len() == 0 {
        0
    } else {
        tag_count(ns.drop_last(), t) + count_in_tags(ns.last().meta.tags, t)
    }
}

/// The total number of tag entries across the collection.
pub open spec fn total_tag_len(ns: Seq<NoteV>) -> int
    decreases ns.len(),
{
    if ns.len() == 0 {
        0
    } else {
        total_tag_len(ns.drop_last()) + ns.last().meta.tags.len()
    }
}

pub open spec fn has_key(dv: Seq<(Seq<char>, u64)>, t: Seq<char>) -> bool {
    exists|k: int| 0 <= k < dv.len() && (#[trigger] dv[k]).0 == t
}

proof fn lemma_count_in_nonneg(tags: Seq<Seq<char>>, t: Seq<char>)
    ensures
        0 <= count_in_tags(tags, t) <= tags.len(),
    decreases tags.len(),
{
    if tags.len() > 0 {
        lemma_count_in_nonneg(tags.drop_last(), t);
    }
}

proof fn lemma_tag_count_nonneg(ns: Seq<NoteV>, t: Seq<char>)
    ensures
        0 <= tag_count(ns, t) <= total_tag_len(ns),
    decreases ns.len(),
{
    if ns.len() > 0 {
        lemma_tag_count_nonneg(ns.drop_last(), t);
        lemma_count_in_nonneg(ns.last().meta.tags, t);
    }
}

proof fn lemma_total_nonneg(ns: Seq<NoteV>)
    ensures
        total_tag_len(ns) >= 0,
    decreases ns.len(),
{
    if ns.len() > 0 {
        lemma_total_nonneg(ns.drop_last());
    }
}

/// The entry total over a prefix never exceeds the whole.
proof fn lemma_total_take_le(ns: Seq<NoteV>, i: int)
    requires
        0 <= i <= ns.len(),
    ensures
        total_tag_len(ns.take(i)) <= total_tag_len(ns),
    decreases ns.len() - i,
{
    if i == ns.len() {
        assert(ns.take(i) =~= ns);
    } else {
        lemma_total_take_le(ns, i + 1);
        assert(ns.take(i + 1).drop_last() =~= ns.take(i));
        assert(ns.take(i + 1).last() == ns[i]);
    }
}

/// A positive count comes from some occurrence in some note.
proof fn lemma_count_pos_occurrence(ns: Seq<NoteV>, t: Seq<char>)
    requires
        tag_count(ns, t) > 0,
    ensures
        exists|a: int, b: int|
            0 <= a < ns.len() && 0 <= b < ns[a].meta.tags.len() && #[trigger] ns[a].meta.tags[b]
                == t,
    decreases ns.len(),
{
    lemma_tag_count_nonneg(ns.drop_last(), t);
    if count_in_tags(ns.last().meta.tags, t) > 0 {
        lemma_count_in_pos(ns.last().meta.tags, t);
        let b = choose|b: int|
            0 <= b < ns.last().meta.tags.len() && ns.last().meta.tags[b] == t;
        assert(ns[ns.len() - 1].meta.tags[b] == t);
    } else {
        lemma_count_pos_occurrence(ns.drop_last(), t);
        let (a, b) = choose|a: int, b: int|
            0 <= a < ns.drop_last().len() && 0 <= b < ns.drop_last()[a].meta.tags.len()
                && #[trigger] ns.drop_last()[a].meta.tags[b] == t;
        assert(ns[a].meta.tags[b] == t);
    }
}

proof fn lemma_count_in_pos(tags: Seq<Seq<char>>, t: Seq<char>)
    requires
        count_in_tags(tags, t) > 0,
    ensures
        exists|b: int| 0 <= b < tags.len() && tags[b] == t,
    decreases tags.len(),
{
    lemma_count_in_nonneg(tags.drop_last(), t);
    if tags.last() == t {
        assert(tags[tags.len() - 1] == t);
    } else {
        lemma_count_in_pos(tags.drop_last(), t);
        let b = choose|b: int| 0 <= b < tags.drop_last().len() && tags.drop_last()[b] == t;
        assert(tags[b] == t);
    }
}

/// An occurrence makes the count positive.
proof fn lemma_occurrence_count_pos(ns: Seq<NoteV>, t: Seq<char>, a: int, b: int)
    requires
        0 <= a < ns.len(),
        0 <= b < ns[a].meta.tags.len(),
        ns[a].meta.tags[b] == t,
    ensures
        tag_count(ns, t) > 0,
    decreases ns.len(),
{
    lemma_tag_count_nonneg(ns.drop_last(), t);
    lemma_count_in_nonneg(ns.last().meta.tags, t);
    if a == ns.len() - 1 {
        lemma_occurrence_in_count(ns.last().meta.tags, t, b);
    } else {
        lemma_occurrence_count_pos(ns.drop_last(), t, a, b);
    }
}

proof fn lemma_occurrence_in_count(tags: Seq<Seq<char>>, t: Seq<char>, b: int)
    requires
        0 <= b < tags.len(),
        tags[b] == t,
    ensures
        count_in_tags(tags, t) > 0,
    decreases tags.len(),
{
    lemma_count_in_nonneg(tags.drop_last(), t);
    if b < tags.len() - 1 {
        lemma_occurrence_in_count(tags.drop_last(), t, b);
    }
}

/// Counts the occurrences of one tag across the collection.
fn count_tag(notes: &Vec<Note>, t: &str) -> (c: u64)
    requires
        total_tag_len(notes.deep_view()) <= u64::MAX,
    ensures
        c as int == tag_count(notes.deep_view(), t@),
{
    let ghost dv = notes.deep_view();
    let mut c: u64 = 0;
    let mut i: usize = 0;
    proof {
        assert(dv.take(0) =~= Seq::<NoteV>::empty());
        lemma_total_nonneg(dv);
    }
    while i < notes.len()
        invariant
            i <= notes.len(),
            dv == notes.deep_view(),
            total_tag_len(dv) <= u64::MAX,
            c as int == tag_count(dv.take(i as int), t@),
            c as int <= total_tag_len(dv.take(i as int)),
        decreases notes.len() - i,
    {
        let tags = &notes[i].meta.tags;
        let ghost tg = dv[i as int].meta.tags;
        proof {
            assert(notes@[i as int]@ == dv[i as int]);
            assert(tags.deep_view() == tg);
            assert(tg.take(0) =~= Seq::<Seq<char>>::empty());
            assert(dv.take(i as int + 1).drop_last() =~= dv.take(i as int));
            assert(dv.take(i as int + 1).last() == dv[i as int]);
            lemma_total_take_le(dv, i as int + 1);
        }
        let mut j: usize = 0;
        while j < tags.len()
            invariant
                j <= tags.len(),
                i < notes.len(),
                dv == notes.deep_view(),
                tags.deep_view() == tg,
                tg == dv[i as int].meta.tags,
                total_tag_len(dv) <= u64::MAX,
                total_tag_len(dv.take(i as int)) + tg.len() <= total_tag_len(dv),
                c as int == tag_count(dv.take(i as int), t@) + count_in_tags(
                    tg.take(j as int),
                    t@,
                ),
                c as int <= total_tag_len(dv.take(i as int)) + j,
            decreases tags.len() - j,
        {
            proof {
                assert(tg.take(j as int + 1).drop_last() =~= tg.take(j as int));
                assert(tg.take(j as int + 1).last() == tg[j as int]);
                assert(tags.deep_view()[j as int] == tg[j as int]);
            }
            if str_eq(tags[j].as_str(), t) {
                c = c + 1;
            }
            j += 1;
        }
        proof {
            assert(tg.take(tags.len() as int) =~= tg);
        }
        i += 1;
    }
    proof {
        assert(dv.take(notes.len() as int) =~= dv);
    }
    c
}

/// Whether a key is already in the cloud under construction.
fn find_key(entries: &Vec<(String, u64)>, t: &str) -> (r: bool)
    ensures
        r == has_key(entries.deep_view(), t@),
{
    let ghost dv = entries.deep_view();
    let mut k: usize = 0;
    while k < entries.len()
        invariant
            k <= entries.len(),
            dv == entries.deep_view(),
            forall|j: int| 0 <= j < k ==> (#[trigger] dv[j]).0 != t@,
        decreases entries.len() - k,
    {
        if str_eq(entries[k].0.as_str(), t) {
            proof {
                assert(dv[k as int].0 == t@);
            }
            return true;
        }
        proof {
            assert(dv[k as int] == (entries@[k as int].0@, entries@[k as int].1));
        }
        k += 1;
    }
    false
}

pub open spec fn cloud_keys_sorted(dv: Seq<(Seq<char>, u64)>) -> bool {
    forall|i: int, j: int|
        0 <= i < j < dv.len() ==> lex_le((#[trigger] dv[i]).0, (#[trigger] dv[j]).0) && dv[i].0
            != dv[j].0
}

/// Inserts a fresh key at its sorted place.
fn insert_cloud_entry(entries: &mut Vec<(String, u64)>, key: String, val: u64)
    requires
        cloud_keys_sorted(old(entries).deep_view()),
        !has_key(old(entries).deep_view(), key@),
    ensures
        cloud_keys_sorted(final(entries).deep_view()),
        final(entries).deep_view().to_multiset() == old(entries).deep_view().to_multiset().insert(
            (key@, val),
        ),
        forall|t: Seq<char>|
            #[trigger] has_key(final(entries).deep_view(), t) <==> (has_key(
                old(entries).deep_view(),
                t,
            ) || t == key@),
{
    broadcast use vstd::seq_lib::group_to_multiset_ensures;

    let ghost odv = entries.deep_view();
    let mut k: usize = 0;
    while k < entries.len() && lex_le_entry(&entries[k], &key)
        invariant
            k <= entries.len(),
            entries.deep_view() == odv,
            cloud_keys_sorted(odv),
            !has_key(odv, key@),
            forall|j: int| 0 <= j < k ==> lex_le((#[trigger] odv[j]).0, key@),
        decreases entries.len() - k,
    {
        proof {
            assert((#[trigger] odv[k as int]).0 != key@);
        }
        k += 1;
    }
    proof {
        if k < entries.len() {
            crate::text::lemma_lex_le_total(odv[k as int].0, key@);
            assert(odv[k as int].0 != key@);
        }
    }
    let ghost prev = entries@;
    entries.insert(k, (key, val));
    proof {
        let dv = entries.deep_view();
        let kk = k as int;
        assert forall|j: int| 0 <= j < dv.len() implies #[trigger] dv[j] == (if j < kk {
            odv[j]
        } else if j == kk {
            dv[kk]
        } else {
            odv[j - 1]
        }) by {
            assert(entries@[j] == (if j < kk {
                prev[j]
            } else if j == kk {
                entries@[kk]
            } else {
                prev[j - 1]
            }));
        }
        assert forall|p: int, q: int| 0 <= p < q < dv.len() implies lex_le(
            (#[trigger] dv[p]).0,
            (#[trigger] dv[q]).0,
        ) && dv[p].0 != dv[q].0 by {
            if p < kk && q == kk {
                assert(dv[p] == odv[p]);
                if odv[p].0 == dv[kk].0 {
                    assert(has_key(odv, dv[kk].0));
                }
            } else if p == kk && q > kk {
                assert(dv[q] == odv[q - 1]);
                if kk < odv.len() {
                    if q - 1 > kk {
                        crate::text::lemma_lex_le_trans(dv[kk].0, odv[kk].0, odv[q - 1].0);
                    }
                    if dv[kk].0 == odv[q - 1].0 {
                        assert(has_key(odv, dv[kk].0));
                    }
                } else {
                    assert(false);
                }
            } else if p < kk && q > kk {
                assert(dv[p] == odv[p] && dv[q] == odv[q - 1]);
                if p != q - 1 {
                }
            }
        }
        assert(dv =~= odv.insert(kk, dv[kk]));
        lemma_insert_pair_multiset(odv, kk, dv[kk]);
        assert(dv[kk] == (key@, val));
        assert forall|t: Seq<char>| #[trigger] has_key(dv, t) implies (has_key(odv, t) || t
            == key@) by {
            let j = choose|j: int| 0 <= j < dv.len() && (#[trigger] dv[j]).0 == t;
            if j < kk {
                assert(odv[j].0 == t);
            } else if j > kk {
                assert(odv[j - 1].0 == t);
            }
        }
        assert forall|t: Seq<char>| (has_key(odv, t) || t == key@) implies #[trigger] has_key(
            dv,
            t,
        ) by {
            if has_key(odv, t) {
                let j = choose|j: int| 0 <= j < odv.len() && (#[trigger] odv[j]).0 == t;
                if j < kk {
                    assert(dv[j].0 == t);
                } else {
                    assert(dv[j + 1].0 == t);
                }
            } else {
                assert(dv[kk].0 == t);
            }
        }
    }
}

proof fn lemma_insert_pair_multiset(s: Seq<(Seq<char>, u64)>, k: int, x: (Seq<char>, u64))
    requires
        0 <= k <= s.len(),
    ensures
        s.insert(k, x).to_multiset() =~= s.to_multiset().insert(x),
{
    broadcast use vstd::seq_lib::group_to_multiset_ensures;

    let a = s.take(k);
    let b = s.skip(k);
    assert(s =~= a + b);
    assert(s.insert(k, x) =~= a + (seq![x] + b));
    vstd::seq_lib::lemma_multiset_commutative(a, b);
    vstd::seq_lib::lemma_multiset_commutative(a, seq![x] + b);
    vstd::seq_lib::lemma_multiset_commutative(seq![x], b);
    assert(seq![x] =~= Seq::<(Seq<char>, u64)>::empty().push(x));
}

fn lex_le_entry(e: &(String, u64), key: &String) -> (r: bool)
    ensures
        r == lex_le(e.0@, key@),
{
    crate::text::lex_le_str(e.0.as_str(), key.as_str())
}

impl Store {
    /// The titles of the notes linking to `title`, in collection order.
    pub fn backlinks(&self, title: &str) -> (r: Vec<String>)
        ensures
            r.deep_view() == backlinks_of(self.notes.deep_view(), title@),
    {
        let mut needle = open_brackets_str().to_owned();
        needle.append(title);
        needle.append(close_brackets_str());
        proof {
            assert(needle@ =~= link_needle(title@));
        }
        let ghost dv = self.notes.deep_view();
        let mut out: Vec<String> = Vec::new();
        let mut i: usize = 0;
        proof {
            assert(dv.take(0) =~= Seq::<NoteV>::empty());
            assert(out.deep_view() =~= Seq::<Seq<char>>::empty());
        }
        while i < self.notes.len()
            invariant
                i <= self.notes.len(),
                dv == self.notes.deep_view(),
                needle@ == link_needle(title@),
                out.deep_view() == backlinks_of(dv.take(i as int), title@),
            decreases self.notes.len() - i,
        {
            proof {
                assert(dv.take(i as int + 1).drop_last() =~= dv.take(i as int));
                assert(dv.take(i as int + 1).last() == dv[i as int]);
                assert(self.notes@[i as int]@ == dv[i as int]);
            }
            let n = &self.notes[i];
            if !str_eq(n.meta.title.as_str(), title) && contains_sub(
                n.body.as_str(),
                needle.as_str(),
            ) {
                let ghost pdv = out.deep_view();
                let tc = n.meta.title.clone();
                let ghost tv = tc@;
                out.push(tc);
                proof {
                    assert(out.deep_view() =~= pdv.push(tv));
                }
            }
            i += 1;
        }
        proof {
            assert(dv.take(self.notes.len() as int) =~= dv);
        }
        out
    }

    /// The tag cloud: every tag carried by some live note, with the
    /// number of times it occurs across the collection, keys unique and
    /// in ascending order.
    pub fn tag_cloud(&self) -> (r: Vec<(String, u64)>)
        requires
            total_tag_len(self.notes.deep_view()) <= u64::MAX,
        ensures
            cloud_keys_sorted(r.deep_view()),
            forall|k: int|
                0 <= k < r.deep_view().len() ==> (#[trigger] r.deep_view()[k]).1 as int
                    == tag_count(self.notes.deep_view(), r.deep_view()[k].0) && r.deep_view()[k].1
                    > 0,
            forall|t: Seq<char>|
                tag_count(self.notes.deep_view(), t) > 0 ==> has_key(r.deep_view(), t),
    {
        broadcast use vstd::seq_lib::group_to_multiset_ensures;
        broadcast use vstd::multiset::group_multiset_axioms;

        let ghost dv = self.notes.deep_view();
        let mut out: Vec<(String, u64)> = Vec::new();
        let mut i: usize = 0;
        while i < self.notes.len()
            invariant
                i <= self.notes.len(),
                dv == self.notes.deep_view(),
                total_tag_len(dv) <= u64::MAX,
                cloud_keys_sorted(out.deep_view()),
                forall|k: int|
                    0 <= k < out.deep_view().len() ==> (#[trigger] out.deep_view()[k]).1 as int
                        == tag_count(dv, out.deep_view()[k].0) && out.deep_view()[k].1 > 0,
                forall|a: int, b: int|
                    0 <= a < i && 0 <= b < dv[a].meta.tags.len() ==> has_key(
                        out.deep_view(),
                        #[trigger] dv[a].meta.tags[b],
                    ),
            decreases self.notes.len() - i,
        {
            proof {
                assert(self.notes@[i as int]@ == dv[i as int]);
            }
            let tag_total = self.notes[i].meta.tags.len();
            let mut j: usize = 0;
            while j < tag_total
                invariant
                    j <= tag_total,
                    i < self.notes.len(),
                    dv == self.notes.deep_view(),
                    tag_total == dv[i as int].meta.tags.len(),
                    total_tag_len(dv) <= u64::MAX,
                    cloud_keys_sorted(out.deep_view()),
                    forall|k: int|
                        0 <= k < out.deep_view().len() ==> (#[trigger] out.deep_view()[k]).1 as int
                            == tag_count(dv, out.deep_view()[k].0) && out.deep_view()[k].1 > 0,
                    forall|a: int, b: int|
                        0 <= a < i && 0 <= b < dv[a].meta.tags.len() ==> has_key(
                            out.deep_view(),
                            #[trigger] dv[a].meta.tags[b],
                        ),
                    forall|b: int|
                        0 <= b < j ==> has_key(out.deep_view(), dv[i as int].meta.tags[b]),
                decreases tag_total - j,
            {
                proof {
                    assert(self.notes@[i as int]@ == dv[i as int]);
                    assert(self.notes@[i as int].meta.tags.deep_view()[j as int] == dv[i as int].meta.tags[j as int]);
                }
                let t = &self.notes[i].meta.tags[j];
                if !find_key(&out, t.as_str()) {
                    let c = count_tag(&self.notes, t.as_str());
                    proof {
                        lemma_occurrence_count_pos(dv, t@, i as int, j as int);
                        lemma_tag_count_nonneg(dv, t@);
                    }
                    let ghost pre = out.deep_view();
                    let ghost tv = t@;
                    insert_cloud_entry(&mut out, t.clone(), c);
                    proof {
                        assert forall|k: int|
                            0 <= k < out.deep_view().len() implies (#[trigger] out.deep_view()[k]).1
                            as int == tag_count(dv, out.deep_view()[k].0) && out.deep_view()[k].1
                            > 0 by {
                            let e = out.deep_view()[k];
                            assert(out.deep_view().contains(e));
                            vstd::seq_lib::to_multiset_contains(out.deep_view(), e);
                            vstd::seq_lib::to_multiset_contains(pre, e);
                            assert(out.deep_view().to_multiset().count(e) > 0);
                            if e == (tv, c) {
                            } else {
                                assert(pre.to_multiset().count(e) > 0);
                                assert(pre.contains(e));
                                let k2 = choose|k2: int| 0 <= k2 < pre.len() && pre[k2] == e;
                            }
                        }
                    }
                }
                j += 1;
            }
            i += 1;
        }
        proof {
            assert forall|t: Seq<char>| tag_count(dv, t) > 0 implies has_key(out.deep_view(), t)
            by {
                lemma_count_pos_occurrence(dv, t);
            }
        }
        out
    }
}

} // verus!
