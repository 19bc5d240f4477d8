//! Draft-text conventions: the first heading line supplies the title,
//! the last `tags:` line supplies the tag list, parsed from a
//! comma-separated, optionally bracketed list, deduplicated and sorted.

use vstd::prelude::*;

use crate::codec::tags_label;
use crate::naming::lower_char;
use crate::text::{
    is_prefix, lex_le, lemma_lex_le_antisym, lemma_lex_le_total, lemma_lex_le_trans, lex_le_str,
    push_char, split_lines, split_nl, starts_with, str_eq, suffix_from, trim, trim_spec,
};

verus! {

/// Splitting on commas, mirroring line splitting.
pub open spec fn split_comma(s: Seq<char>) -> Seq<Seq<char>>
    decreases s.len(),
{
    if s.len() == 0 {
        seq![Seq::<char>::empty()]
    } else if s[0] == ',' {
        seq![Seq::<char>::empty()] + split_comma(s.skip(1))
    } else {
        let r = split_comma(s.skip(1));
        seq![seq![s[0]] + r[0]] + r.skip(1)
    }
}

/// The tags text with surrounding whitespace and one bracket pair
/// removed.
pub open spec fn clean_tags_text(s: Seq<char>) -> Seq<char> {
    let t = trim_spec(s);
    let t1 = if t.len() > 0 && t[0] == '[' {
        t.skip(1)
    } else {
        t
    };
    if t1.len() > 0 && t1.last() == ']' {
        t1.drop_last()
    } else {
        t1
    }
}

/// Whether `t` is one of the tags written in the raw tags text.
pub open spec fn tag_in(s: Seq<char>, t: Seq<char>) -> bool {
    let segs = split_comma(clean_tags_text(s));
    t.len() > 0 && exists|i: int| 0 <= i < segs.len() && trim_spec(#[trigger] segs[i]) == t
}

pub open spec fn strictly_sorted(ws: Seq<Seq<char>>) -> bool {
    forall|i: int, j: int|
        0 <= i < j < ws.len() ==> lex_le(#[trigger] ws[i], #[trigger] ws[j]) && ws[i] != ws[j]
}

/// What a parsed tag list must be: the set of written tags, each once,
/// in ascending order.
pub open spec fn tags_result_ok(src: Seq<char>, dv: Seq<Seq<char>>) -> bool {
    &&& strictly_sorted(dv)
    &&& forall|k: int| 0 <= k < dv.len() ==> tag_in(src, #[trigger] dv[k])
    &&& forall|t: Seq<char>| tag_in(src, t) ==> dv.contains(t)
}

/// Inserts `x` into a strictly sorted list, keeping it sorted and
/// duplicate-free.
fn insert_sorted_unique(v: &mut Vec<String>, x: String)
    requires
        strictly_sorted(old(v).deep_view()),
    ensures
        strictly_sorted(final(v).deep_view()),
        forall|t: Seq<char>|
            #[trigger] final(v).deep_view().contains(t) <==> (old(v).deep_view().contains(t) || t
                == x@),
{
    let ghost odv = v.deep_view();
    let mut i: usize = 0;
    while i < v.len() && lex_lt_str(&v[i], &x)
        invariant
            i <= v.len(),
            v.deep_view() == odv,
            strictly_sorted(odv),
            forall|j: int| 0 <= j < i ==> lex_le(#[trigger] odv[j], x@) && odv[j] != x@,
        decreases v.len() - i,
    {
        i += 1;
    }
    if i < v.len() && str_eq(v[i].as_str(), x.as_str()) {
        proof {
            assert(v.deep_view() == odv);
            assert(odv[i as int] == x@);
            assert(odv.contains(x@));
        }
        return ;
    }
    proof {
        if i < v.len() {
            lemma_lex_le_total(odv[i as int], x@);
        }
    }
    let ghost prev = v@;
    v.insert(i, x);
    proof {
        let dv = v.deep_view();
        assert(dv.len() == odv.len() + 1);
        assert forall|j: int| 0 <= j < dv.len() implies #[trigger] dv[j] == (if j < i {
            odv[j]
        } else if j == i {
            x@
        } else {
            odv[j - 1]
        }) by {
            assert(v@[j] == (if j < i {
                prev[j]
            } else if j == i {
                v@[i as int]
            } else {
                prev[j - 1]
            }));
        }
        assert forall|p: int, q: int| 0 <= p < q < dv.len() implies lex_le(
            #[trigger] dv[p],
            #[trigger] dv[q],
        ) && dv[p] != dv[q] by {
            let ii = i as int;
            if p < ii && q == ii {
            } else if p == ii && q > ii {
                assert(dv[q] == odv[q - 1]);
                if ii < odv.len() {
                    assert(lex_le(x@, odv[ii]) && x@ != odv[ii]);
                    if q - 1 > ii {
                        lemma_lex_le_trans(x@, odv[ii], odv[q - 1]);
                        if x@ == odv[q - 1] {
                            lemma_lex_le_antisym(x@, odv[ii]);
                        }
                    }
                }
            } else if p < ii && q > ii {
                assert(dv[p] == odv[p] && dv[q] == odv[q - 1]);
                if p == q - 1 {
                } else {
                    assert(lex_le(odv[p], odv[q - 1]) && odv[p] != odv[q - 1]);
                }
            }
        }
        assert forall|t: Seq<char>| #[trigger] dv.contains(t) implies (odv.contains(t) || t == x@)
        by {
            let j = choose|j: int| 0 <= j < dv.len() && dv[j] == t;
            if j < i {
                assert(odv[j] == t);
            } else if j > i {
                assert(odv[j - 1] == t);
            }
        }
        assert forall|t: Seq<char>| (odv.contains(t) || t == x@) implies #[trigger] dv.contains(t)
        by {
            if odv.contains(t) {
                let j = choose|j: int| 0 <= j < odv.len() && odv[j] == t;
                if j < i {
                    assert(dv[j] == t);
                } else {
                    assert(dv[j + 1] == t);
                }
            } else {
                assert(dv[i as int] == t);
            }
        }
    }
}

/// Strict lexicographic order on strings.
fn lex_lt_str(a: &String, b: &String) -> (r: bool)
    ensures
        r == (lex_le(a@, b@) && a@ != b@),
{
    if str_eq(a.as_str(), b.as_str()) {
        false
    } else {
        lex_le_str(a.as_str(), b.as_str())
    }
}

/// Splits text into its comma-separated segments.
fn split_comma_exec(s: &str) -> (r: Vec<String>)
    ensures
        r.deep_view() == split_comma(s@),
        r.len() >= 1,
{
    let len = s.unicode_len();
    let mut done: Vec<String> = Vec::new();
    let mut cur: String = String::new();
    let mut i: usize = 0;
    proof {
        lemma_split_comma_len(s@);
        assert(s@.skip(0) =~= s@);
        assert(done.deep_view() =~= Seq::<Seq<char>>::empty());
        assert(cur@ + split_comma(s@)[0] =~= split_comma(s@)[0]);
        assert(split_comma(s@) =~~= seq![split_comma(s@)[0]] + split_comma(s@).skip(1));
    }
    while i < len
        invariant
            i <= len,
            len == s@.len(),
            split_comma(s@.skip(i as int)).len() >= 1,
            split_comma(s@) =~~= done.deep_view() + seq![cur@ + split_comma(s@.skip(i as int))[0]]
                + split_comma(s@.skip(i as int)).skip(1),
        decreases len - i,
    {
        let c = s.get_char(i);
        proof {
            assert(s@.skip(i as int)[0] == c);
            assert(s@.skip(i as int).skip(1) =~= s@.skip(i as int + 1));
            lemma_split_comma_len(s@.skip(i as int + 1));
        }
        if c == ',' {
            let ghost old_done = done.deep_view();
            let ghost old_cur = cur@;
            done.push(cur);
            cur = String::new();
            proof {
                assert(done.deep_view() =~= old_done.push(old_cur));
                assert(old_cur + Seq::<char>::empty() =~= old_cur);
                assert(split_comma(s@) =~~= done.deep_view() + seq![cur@ + split_comma(s@.skip(
                    i as int + 1,
                ))[0]] + split_comma(s@.skip(i as int + 1)).skip(1));
            }
        } else {
            let ghost old_cur = cur@;
            push_char(&mut cur, c);
            proof {
                let r = split_comma(s@.skip(i as int + 1));
                assert(split_comma(s@.skip(i as int)) =~~= seq![seq![c] + r[0]] + r.skip(1));
                assert(old_cur + (seq![c] + r[0]) =~= cur@ + r[0]);
            }
        }
        i += 1;
    }
    proof {
        assert(s@.skip(len as int) =~= Seq::<char>::empty());
        assert(split_comma(Seq::<char>::empty()) =~~= seq![Seq::<char>::empty()]);
    }
    let ghost old_done = done.deep_view();
    let ghost last_cur = cur@;
    done.push(cur);
    proof {
        assert(done.deep_view() =~= old_done.push(last_cur));
        assert(last_cur + Seq::<char>::empty() =~= last_cur);
        assert(split_comma(s@) =~~= done.deep_view());
    }
    done
}

proof fn lemma_split_comma_len(s: Seq<char>)
    ensures
        split_comma(s).len() >= 1,
    decreases s.len(),
{
    if s.len() != 0 {
        lemma_split_comma_len(s.skip(1));
    }
}

/// Parses a raw tags text into the deduplicated, sorted tag list.
pub fn parse_tags(tags: &str) -> (r: Vec<String>)
    ensures
        tags_result_ok(tags@, r.deep_view()),
{
    let t = trim(tags);
    let tlen = t.as_str().unicode_len();
    let t1 = if tlen > 0 && t.as_str().get_char(0) == '[' {
        suffix_from(t.as_str(), 1)
    } else {
        t
    };
    let t1len = t1.as_str().unicode_len();
    let t2: String;
    if t1len > 0 && t1.as_str().get_char(t1len - 1) == ']' {
        t2 = t1.as_str().substring_char(0, t1len - 1).to_owned();
        proof {
            assert(t1@.last() == ']');
            assert(t1@.take(t1len - 1 as int) =~= t1@.drop_last());
            assert(t2@ == clean_tags_text(tags@));
        }
    } else {
        t2 = t1;
        proof {
            assert(t2@ == clean_tags_text(tags@));
        }
    }
    let segs = split_comma_exec(t2.as_str());
    let ghost sv = segs.deep_view();
    let mut out: Vec<String> = Vec::new();
    let mut i: usize = 0;
    while i < segs.len()
        invariant
            i <= segs.len(),
            sv == segs.deep_view(),
            sv == split_comma(clean_tags_text(tags@)),
            strictly_sorted(out.deep_view()),
            forall|k: int| 0 <= k < out.deep_view().len() ==> tag_in(tags@, #[trigger] out.deep_view()[k]),
            forall|j: int|
                0 <= j < i && trim_spec(#[trigger] sv[j]).len() > 0 ==> out.deep_view().contains(
                    trim_spec(sv[j]),
                ),
        decreases segs.len() - i,
    {
        let tr = trim(segs[i].as_str());
        if !tr.as_str().is_empty() {
            proof {
                assert(sv[i as int] == segs@[i as int]@);
                assert(trim_spec(split_comma(clean_tags_text(tags@))[i as int]) == tr@);
                assert(tag_in(tags@, tr@));
            }
            let ghost odv2 = out.deep_view();
            insert_sorted_unique(&mut out, tr);
            proof {
                assert forall|k: int|
                    0 <= k < out.deep_view().len() implies tag_in(
                    tags@,
                    #[trigger] out.deep_view()[k],
                ) by {
                    let dvv = out.deep_view();
                    assert(dvv.contains(dvv[k]));
                    if odv2.contains(dvv[k]) {
                        let j = choose|j: int| 0 <= j < odv2.len() && odv2[j] == dvv[k];
                        assert(tag_in(tags@, odv2[j]));
                    }
                }
            }
        }
        i += 1;
    }
    proof {
        assert forall|t0: Seq<char>| tag_in(tags@, t0) implies out.deep_view().contains(t0) by {
            let j = choose|j: int| 0 <= j < sv.len() && trim_spec(#[trigger] sv[j]) == t0;
        }
    }
    out
}

/// A line's trimmed text opens with the heading marker.
pub open spec fn is_title_line(line: Seq<char>) -> bool {
    is_prefix(seq!['#', ' '], trim_spec(line))
}

pub open spec fn title_from(line: Seq<char>) -> Seq<char> {
    trim_spec(trim_spec(line).skip(2))
}

/// A line's trimmed text opens, case-insensitively, with the tags label.
pub open spec fn is_tags_line(line: Seq<char>) -> bool {
    let t = trim_spec(line);
    t.len() >= 5 && Seq::new(5, |i: int| lower_char(t[i])) == tags_label()
}

pub open spec fn tags_text_from(line: Seq<char>) -> Seq<char> {
    trim_spec(trim_spec(line).skip(5))
}

/// The first title line at or after `i`.
pub open spec fn first_title(ls: Seq<Seq<char>>, i: int) -> Option<int>
    decreases ls.len() - i when 0 <= i <= ls.len()
{
    if i >= ls.len() {
        None
    } else if is_title_line(ls[i]) {
        Some(i)
    } else {
        first_title(ls, i + 1)
    }
}

/// The last tags line of the lines seen so far.
pub open spec fn last_tags(ls: Seq<Seq<char>>) -> Option<int>
    decreases ls.len(),
{
    if ls.len() == 0 {
        None
    } else if is_tags_line(ls.last()) {
        Some(ls.len() - 1)
    } else {
        last_tags(ls.drop_last())
    }
}

/// The title a draft yields: from its first heading line, or empty when
/// it has none.
pub open spec fn spec_title(body: Seq<char>) -> Seq<char> {
    let ls = split_nl(body);
    match first_title(ls, 0) {
        None => Seq::empty(),
        Some(i) => title_from(ls[i]),
    }
}

pub open spec fn has_title(body: Seq<char>) -> bool {
    first_title(split_nl(body), 0) is Some
}

/// The raw tags text a draft yields, from its last tags line.
pub open spec fn spec_tags_src(body: Seq<char>) -> Option<Seq<char>> {
    let ls = split_nl(body);
    match last_tags(ls) {
        None => None,
        Some(i) => Some(tags_text_from(ls[i])),
    }
}

/// What the tag list extracted from a draft must be.
pub open spec fn draft_tags_ok(body: Seq<char>, dv: Seq<Seq<char>>) -> bool {
    match spec_tags_src(body) {
        None => dv.len() == 0,
        Some(src) => tags_result_ok(src, dv),
    }
}

fn is_tags_line_exec(tr: &str) -> (r: bool)
    requires
        tr@ == trim_spec(tr@),
    ensures
        r == is_tags_line(tr@),
{
    let len = tr.unicode_len();
    if len < 5 {
        return false;
    }
    let ok = crate::naming::lower_char_exec(tr.get_char(0)) == 't'
        && crate::naming::lower_char_exec(tr.get_char(1)) == 'a'
        && crate::naming::lower_char_exec(tr.get_char(2)) == 'g'
        && crate::naming::lower_char_exec(tr.get_char(3)) == 's'
        && crate::naming::lower_char_exec(tr.get_char(4)) == ':';
    proof {
        if ok {
            assert(Seq::new(5, |i: int| lower_char(tr@[i])) =~= tags_label());
        } else {
            if Seq::new(5, |i: int| lower_char(tr@[i])) == tags_label() {
                assert(lower_char(tr@[0]) == 't' && lower_char(tr@[1]) == 'a' && lower_char(
                    tr@[2],
                ) == 'g' && lower_char(tr@[3]) == 's' && lower_char(tr@[4]) == ':');
            }
        }
    }
    ok
}

/// Extracts the title (first heading line wins) and the tag list (last
/// tags line wins) from a draft's text.
pub fn parse_title_and_tags(body: &str) -> (r: (String, Vec<String>))
    ensures
        r.0@ == spec_title(body@),
        draft_tags_ok(body@, r.1.deep_view()),
{
    let ls = split_lines(body);
    let ghost dv = ls.deep_view();
    let mut title = String::new();
    let mut have_title = false;
    let mut tags_txt: Option<String> = None;
    let mut i: usize = 0;
    proof {
        assert(dv.take(0) =~= Seq::<Seq<char>>::empty());
    }
    while i < ls.len()
        invariant
            i <= ls.len(),
            dv == ls.deep_view(),
            dv == split_nl(body@),
            have_title ==> (first_title(dv, 0) matches Some(k) && k < i && title@ == title_from(
                dv[k],
            )),
            !have_title ==> first_title(dv, 0) == first_title(dv, i as int) && title@
                == Seq::<char>::empty(),
            (match last_tags(dv.take(i as int)) {
                None => tags_txt is None,
                Some(k) => (tags_txt matches Some(t) && t@ == tags_text_from(dv[k])),
            }),
        decreases ls.len() - i,
    {
        let tr = trim(ls[i].as_str());
        proof {
            assert(trim_spec(tr@) == tr@) by {
                crate::text::lemma_trim_idempotent(ls[i as int]@);
            }
        }
        if !have_title && starts_with(tr.as_str(), title_marker_str()) {
            let rest = suffix_from(tr.as_str(), 2);
            title = trim(rest.as_str());
            have_title = true;
        }
        proof {
            assert(dv.take(i as int + 1).drop_last() =~= dv.take(i as int));
            assert(dv.take(i as int + 1).last() == dv[i as int]);
        }
        if is_tags_line_exec(tr.as_str()) {
            let rest = suffix_from(tr.as_str(), 5);
            tags_txt = Some(trim(rest.as_str()));
        }
        i += 1;
    }
    proof {
        assert(dv.take(ls.len() as int) =~= dv);
    }
    let tags = match tags_txt {
        None => Vec::new(),
        Some(t) => parse_tags(t.as_str()),
    };
    (title, tags)
}

fn title_marker_str() -> (r: &'static str)
    ensures
        r@ == seq!['#', ' '],
{
    proof {
        reveal_strlit("# ");
        assert("# "@ =~= seq!['#', ' ']);
    }
    "# "
}

/// A strictly sorted list is determined by its member set.
pub proof fn lemma_sorted_set_eq(a: Seq<Seq<char>>, b: Seq<Seq<char>>)
    requires
        strictly_sorted(a),
        strictly_sorted(b),
        forall|t: Seq<char>| a.contains(t) <==> b.contains(t),
    ensures
        a == b,
    decreases a.len(),
{
    if a.len() == 0 {
        if b.len() > 0 {
            assert(b.contains(b[0]));
            assert(a.contains(b[0]));
        }
        assert(a =~= b);
    } else {
        assert(a.contains(a[0]));
        assert(b.contains(a[0]));
        if b.len() == 0 {
            assert(false);
        }
        let k = choose|k: int| 0 <= k < b.len() && b[k] == a[0];
        let m = choose|m: int| 0 <= m < a.len() && a[m] == b[0];
        assert(b.contains(b[0]));
        assert(a.contains(b[0]));
        if k > 0 && m > 0 {
            assert(lex_le(b[0], b[k]) && b[0] != b[k]);
            assert(lex_le(a[0], a[m]) && a[0] != a[m]);
            lemma_lex_le_antisym(a[0], b[0]);
        }
        assert(a[0] == b[0]);
        let at = a.skip(1);
        let bt = b.skip(1);
        assert forall|p: int, q: int| 0 <= p < q < at.len() implies lex_le(
            #[trigger] at[p],
            #[trigger] at[q],
        ) && at[p] != at[q] by {
            assert(at[p] == a[p + 1] && at[q] == a[q + 1]);
        }
        assert forall|p: int, q: int| 0 <= p < q < bt.len() implies lex_le(
            #[trigger] bt[p],
            #[trigger] bt[q],
        ) && bt[p] != bt[q] by {
            assert(bt[p] == b[p + 1] && bt[q] == b[q + 1]);
        }
        assert forall|t: Seq<char>| at.contains(t) <==> bt.contains(t) by {
            lemma_tail_contains(a, t);
            lemma_tail_contains(b, t);
        }
        lemma_sorted_set_eq(at, bt);
        assert(a =~= seq![a[0]] + at);
        assert(b =~= seq![b[0]] + bt);
    }
}

/// In a strictly sorted list the tail holds exactly the members other
/// than the head.
proof fn lemma_tail_contains(a: Seq<Seq<char>>, t: Seq<char>)
    requires
        strictly_sorted(a),
        a.len() > 0,
    ensures
        a.skip(1).contains(t) <==> (a.contains(t) && t != a[0]),
{
    let at = a.skip(1);
    if at.contains(t) {
        let j = choose|j: int| 0 <= j < at.len() && at[j] == t;
        assert(at[j] == a[j + 1]);
        assert(a.contains(a[j + 1]));
        assert(lex_le(a[0], a[j + 1]) && a[0] != a[j + 1]);
    }
    if a.contains(t) && t != a[0] {
        let j = choose|j: int| 0 <= j < a.len() && a[j] == t;
        assert(j > 0);
        assert(at[j - 1] == t);
        assert(at.contains(t));
    }
}

/// Two tag lists extracted from the same draft are the same list.
pub proof fn lemma_draft_tags_unique(body: Seq<char>, dv1: Seq<Seq<char>>, dv2: Seq<Seq<char>>)
    requires
        draft_tags_ok(body, dv1),
        draft_tags_ok(body, dv2),
    ensures
        dv1 == dv2,
{
    match spec_tags_src(body) {
        None => {
            assert(dv1 =~= dv2);
        },
        Some(src) => {
            assert forall|t: Seq<char>| dv1.contains(t) <==> dv2.contains(t) by {
                if dv1.contains(t) {
                    let k = choose|k: int| 0 <= k < dv1.len() && dv1[k] == t;
                    assert(tag_in(src, dv1[k]));
                }
                if dv2.contains(t) {
                    let k = choose|k: int| 0 <= k < dv2.len() && dv2[k] == t;
                    assert(tag_in(src, dv2[k]));
                }
            }
            lemma_sorted_set_eq(dv1, dv2);
        },
    }
}

/// Every tag a draft yields is free of newlines: it came from one line.
pub proof fn lemma_draft_tags_no_nl(body: Seq<char>, dv: Seq<Seq<char>>)
    requires
        draft_tags_ok(body, dv),
    ensures
        forall|k: int| 0 <= k < dv.len() ==> crate::text::seg_has_no_nl(#[trigger] dv[k]),
{
    assert forall|k: int| 0 <= k < dv.len() implies crate::text::seg_has_no_nl(#[trigger] dv[k])
    by {
        let src = spec_tags_src(body)->Some_0;
        assert(tag_in(src, dv[k]));
        let ls = split_nl(body);
        let li = crate::draft::last_tags(ls)->Some_0;
        lemma_last_tags_in_range(ls);
        crate::text::lemma_split_nl_no_nl(body);
        assert(crate::text::seg_has_no_nl(ls[li]));
        let tr = trim_spec(ls[li]);
        crate::text::lemma_no_nl_trim(ls[li]);
        assert(tr.len() >= 5);
        assert(crate::text::seg_has_no_nl(tr.skip(5))) by {
            assert forall|u: int| 0 <= u < tr.skip(5).len() implies tr.skip(5)[u] != '\n' by {
                assert(tr.skip(5)[u] == tr[u + 5]);
            }
        }
        crate::text::lemma_no_nl_trim(tr.skip(5));
        assert(crate::text::seg_has_no_nl(src));
        lemma_no_nl_clean(src);
        lemma_no_nl_split_comma(clean_tags_text(src));
        let i = choose|i: int|
            0 <= i < split_comma(clean_tags_text(src)).len() && trim_spec(
                #[trigger] split_comma(clean_tags_text(src))[i],
            ) == dv[k];
        crate::text::lemma_no_nl_trim(split_comma(clean_tags_text(src))[i]);
    }
}

proof fn lemma_last_tags_in_range(ls: Seq<Seq<char>>)
    requires
        last_tags(ls) is Some,
    ensures
        0 <= last_tags(ls)->Some_0 < ls.len(),
        is_tags_line(ls[last_tags(ls)->Some_0]),
    decreases ls.len(),
{
    if ls.len() > 0 && !is_tags_line(ls.last()) {
        lemma_last_tags_in_range(ls.drop_last());
        assert(ls.drop_last()[last_tags(ls)->Some_0] == ls[last_tags(ls)->Some_0]);
    }
}

proof fn lemma_no_nl_clean(s: Seq<char>)
    requires
        crate::text::seg_has_no_nl(s),
    ensures
        crate::text::seg_has_no_nl(clean_tags_text(s)),
{
    crate::text::lemma_no_nl_trim(s);
    let t = trim_spec(s);
    let t1 = if t.len() > 0 && t[0] == '[' {
        t.skip(1)
    } else {
        t
    };
    assert(crate::text::seg_has_no_nl(t1)) by {
        assert forall|u: int| 0 <= u < t1.len() implies t1[u] != '\n' by {
            if t.len() > 0 && t[0] == '[' {
                assert(t1[u] == t[u + 1]);
            }
        }
    }
    assert forall|u: int| 0 <= u < clean_tags_text(s).len() implies clean_tags_text(s)[u] != '\n'
    by {
        assert(clean_tags_text(s)[u] == t1[u]);
    }
}

proof fn lemma_no_nl_split_comma(s: Seq<char>)
    requires
        crate::text::seg_has_no_nl(s),
    ensures
        forall|k: int|
            0 <= k < split_comma(s).len() ==> crate::text::seg_has_no_nl(
                #[trigger] split_comma(s)[k],
            ),
    decreases s.len(),
{
    if s.len() != 0 {
        assert(crate::text::seg_has_no_nl(s.skip(1)));
        lemma_no_nl_split_comma(s.skip(1));
        lemma_split_comma_len(s.skip(1));
    }
}

/// The title a draft yields is free of newlines.
pub proof fn lemma_title_no_nl(body: Seq<char>)
    ensures
        crate::text::seg_has_no_nl(spec_title(body)),
{
    let ls = split_nl(body);
    match first_title(ls, 0) {
        None => {},
        Some(i) => {
            lemma_first_title_in_range(ls, 0);
            crate::text::lemma_split_nl_no_nl(body);
            assert(crate::text::seg_has_no_nl(ls[i]));
            crate::text::lemma_no_nl_trim(ls[i]);
            let tr = trim_spec(ls[i]);
            assert(crate::text::seg_has_no_nl(tr.skip(2))) by {
                assert forall|u: int| 0 <= u < tr.skip(2).len() implies tr.skip(2)[u] != '\n' by {
                    assert(tr.skip(2)[u] == tr[u + 2]);
                }
            }
            crate::text::lemma_no_nl_trim(tr.skip(2));
        },
    }
}

proof fn lemma_first_title_in_range(ls: Seq<Seq<char>>, i: int)
    requires
        0 <= i <= ls.len(),
        first_title(ls, i) is Some,
    ensures
        i <= first_title(ls, i)->Some_0 < ls.len(),
        is_title_line(ls[first_title(ls, i)->Some_0]),
    decreases ls.len() - i,
{
    if i < ls.len() && !is_title_line(ls[i]) {
        lemma_first_title_in_range(ls, i + 1);
    }
}

/// A draft with a heading line never yields an empty title: the heading
/// marker is followed by at least one non-whitespace character on its
/// trimmed line.
pub proof fn lemma_title_nonempty(body: Seq<char>)
    requires
        has_title(body),
    ensures
        spec_title(body).len() > 0,
{
    let ls = split_nl(body);
    let i = first_title(ls, 0)->Some_0;
    lemma_first_title_in_range(ls, 0);
    let tr = trim_spec(ls[i]);
    assert(crate::text::is_prefix(seq!['#', ' '], tr));
    assert(tr.len() >= 2);
    assert(tr[1] == ' ') by {
        assert(tr.take(2)[1] == ' ');
    }
    crate::text::lemma_trim_end_no_trail(crate::text::trim_start_spec(ls[i]));
    assert(!crate::text::is_ws(tr.last()));
    if spec_title(body).len() == 0 {
        crate::text::lemma_trim_all_ws(tr.skip(2));
        if tr.len() > 2 {
            assert(tr.skip(2)[tr.len() - 3] == tr.last());
            assert(crate::text::is_ws(tr.last()));
        } else {
            assert(tr.last() == tr[1]);
            assert(crate::text::is_ws(' '));
        }
        assert(false);
    }
}

} // verus!
