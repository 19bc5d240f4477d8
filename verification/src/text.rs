//! Character-sequence utilities shared by the codec, naming and store
//! modules: whitespace trimming, line splitting and joining, prefix tests,
//! lexicographic ordering and substring search, each with an exact
//! sequence-level specification.

use vstd::prelude::*;

verus! {

/// The whitespace characters the engine strips: space, tab, carriage
/// return and newline.
pub open spec fn is_ws(c: char) -> bool {
    c == ' ' || c == '\t' || c == '\r' || c == '\n'
}

pub open spec fn trim_start_spec(s: Seq<char>) -> Seq<char>
    decreases s.len(),
{
    if s.len() == 0 {
        s
    } else if is_ws(s[0]) {
        trim_start_spec(s.skip(1))
    } else {
        s
    }
}

pub open spec fn trim_end_spec(s: Seq<char>) -> Seq<char>
    decreases s.len(),
{
    if s.len() == 0 {
        s
    } else if is_ws(s.last()) {
        trim_end_spec(s.drop_last())
    } else {
        s
    }
}

pub open spec fn trim_spec(s: Seq<char>) -> Seq<char> {
    trim_end_spec(trim_start_spec(s))
}

/// `p` is a prefix of `s`.
pub open spec fn is_prefix(p: Seq<char>, s: Seq<char>) -> bool {
    p.len() <= s.len() && s.take(p.len() as int) == p
}

/// Lexicographic (codepoint) order on character sequences.
pub open spec fn lex_le(a: Seq<char>, b: Seq<char>) -> bool
    decreases a.len(),
{
    if a.len() == 0 {
        true
    } else if b.len() == 0 {
        false
    } else if (a[0] as int) < (b[0] as int) {
        true
    } else if (a[0] as int) > (b[0] as int) {
        false
    } else {
        lex_le(a.skip(1), b.skip(1))
    }
}

pub proof fn lemma_lex_le_total(a: Seq<char>, b: Seq<char>)
    ensures
        lex_le(a, b) || lex_le(b, a),
    decreases a.len(),
{
    if a.len() != 0 && b.len() != 0 && a[0] == b[0] {
        lemma_lex_le_total(a.skip(1), b.skip(1));
    }
}

pub proof fn lemma_lex_le_antisym(a: Seq<char>, b: Seq<char>)
    requires
        lex_le(a, b),
        lex_le(b, a),
    ensures
        a == b,
    decreases a.len(),
{
    if a.len() == 0 {
        assert(b.len() == 0);
        assert(a =~= b);
    } else {
        assert(b.len() != 0);
        assert(a[0] == b[0]);
        lemma_lex_le_antisym(a.skip(1), b.skip(1));
        assert(a =~= seq![a[0]] + a.skip(1));
        assert(b =~= seq![b[0]] + b.skip(1));
    }
}

pub proof fn lemma_lex_le_trans(a: Seq<char>, b: Seq<char>, c: Seq<char>)
    requires
        lex_le(a, b),
        lex_le(b, c),
    ensures
        lex_le(a, c),
    decreases a.len(),
{
    if a.len() != 0 && b.len() != 0 && c.len() != 0 && a[0] == b[0] && b[0] == c[0] {
        lemma_lex_le_trans(a.skip(1), b.skip(1), c.skip(1));
    }
}

/// Splitting on `'\n'`: every newline separates two segments, so the
/// result always has one segment more than the text has newlines.
pub open spec fn split_nl(s: Seq<char>) -> Seq<Seq<char>>
    decreases s.len(),
{
    if s.len() == 0 {
        seq![Seq::<char>::empty()]
    } else if s[0] == '\n' {
        seq![Seq::<char>::empty()] + split_nl(s.skip(1))
    } else {
        let r = split_nl(s.skip(1));
        seq![seq![s[0]] + r[0]] + r.skip(1)
    }
}

/// Joining segments with `'\n'`; inverse of `split_nl` on newline-free
/// segments.
pub open spec fn joinl(segs: Seq<Seq<char>>) -> Seq<char>
    recommends
        segs.len() >= 1,
    decreases segs.len(),
{
    if segs.len() <= 1 {
        if segs.len() == 0 {
            Seq::empty()
        } else {
            segs[0]
        }
    } else {
        joinl(segs.drop_last()) + seq!['\n'] + segs.last()
    }
}

pub open spec fn seg_has_no_nl(seg: Seq<char>) -> bool {
    forall|i: int| 0 <= i < seg.len() ==> seg[i] != '\n'
}

pub proof fn lemma_split_nl_len(s: Seq<char>)
    ensures
        split_nl(s).len() >= 1,
    decreases s.len(),
{
    if s.len() != 0 {
        lemma_split_nl_len(s.skip(1));
    }
}

pub proof fn lemma_split_nl_no_nl(s: Seq<char>)
    ensures
        forall|k: int| 0 <= k < split_nl(s).len() ==> seg_has_no_nl(#[trigger] split_nl(s)[k]),
    decreases s.len(),
{
    if s.len() != 0 {
        lemma_split_nl_no_nl(s.skip(1));
        lemma_split_nl_len(s.skip(1));
    }
}

/// A newline-free text splits to the single segment holding it.
pub proof fn lemma_split_nl_single(s: Seq<char>)
    requires
        seg_has_no_nl(s),
    ensures
        split_nl(s) =~~= seq![s],
    decreases s.len(),
{
    if s.len() != 0 {
        lemma_split_nl_single(s.skip(1));
        lemma_split_nl_len(s.skip(1));
        assert(seq![s[0]] + s.skip(1) =~= s);
    }
}

/// A newline splices two texts' segment lists together.
pub proof fn lemma_split_nl_append(x: Seq<char>, y: Seq<char>)
    ensures
        split_nl(x + seq!['\n'] + y) =~~= split_nl(x) + split_nl(y),
    decreases x.len(),
{
    let s = x + seq!['\n'] + y;
    if x.len() == 0 {
        assert(s =~= seq!['\n'] + y);
        assert(s.skip(1) =~= y);
    } else {
        lemma_split_nl_append(x.skip(1), y);
        lemma_split_nl_len(x.skip(1) + seq!['\n'] + y);
        lemma_split_nl_len(x.skip(1));
        assert(s.skip(1) =~= x.skip(1) + seq!['\n'] + y);
        if x[0] == '\n' {
            assert(split_nl(s) =~~= seq![Seq::<char>::empty()] + split_nl(x.skip(1)) + split_nl(y));
        } else {
            let r = split_nl(x.skip(1) + seq!['\n'] + y);
            let rx = split_nl(x.skip(1));
            assert(r =~~= rx + split_nl(y));
            assert(rx.len() >= 1);
            assert(r[0] == rx[0]);
            assert(r.skip(1) =~~= rx.skip(1) + split_nl(y));
        }
    }
}

/// Joining the segments of a text restores the text.
pub proof fn lemma_joinl_split_nl(s: Seq<char>)
    ensures
        joinl(split_nl(s)) =~= s,
    decreases s.len(),
{
    lemma_split_nl_len(s);
    if s.len() == 0 {
    } else {
        lemma_joinl_split_nl(s.skip(1));
        lemma_split_nl_len(s.skip(1));
        if s[0] == '\n' {
            lemma_joinl_prepend_seg(Seq::<char>::empty(), split_nl(s.skip(1)));
            assert(s =~= seq!['\n'] + s.skip(1));
        } else {
            let r = split_nl(s.skip(1));
            lemma_joinl_prepend_first(s[0], r);
            assert(s =~= seq![s[0]] + s.skip(1));
        }
    }
}

/// Prepending a fresh empty segment prepends a newline to the join.
pub proof fn lemma_joinl_prepend_seg(seg: Seq<char>, segs: Seq<Seq<char>>)
    requires
        segs.len() >= 1,
    ensures
        joinl(seq![seg] + segs) =~= seg + seq!['\n'] + joinl(segs),
    decreases segs.len(),
{
    let whole = seq![seg] + segs;
    if segs.len() == 1 {
        assert(whole.drop_last() =~= seq![seg]);
        assert(whole.last() == segs[0]);
    } else {
        lemma_joinl_prepend_seg(seg, segs.drop_last());
        assert(whole.drop_last() =~= seq![seg] + segs.drop_last());
        assert(whole.last() == segs.last());
        assert(joinl(whole) == joinl(whole.drop_last()) + seq!['\n'] + whole.last());
        assert(joinl(whole) =~= seg + seq!['\n'] + (joinl(segs.drop_last()) + seq!['\n']
            + segs.last()));
        assert(joinl(segs) == joinl(segs.drop_last()) + seq!['\n'] + segs.last());
    }
}

/// Extending the first segment at its front extends the join the same way.
pub proof fn lemma_joinl_prepend_first(c: char, segs: Seq<Seq<char>>)
    requires
        segs.len() >= 1,
    ensures
        joinl(seq![seq![c] + segs[0]] + segs.skip(1)) =~= seq![c] + joinl(segs),
    decreases segs.len(),
{
    let whole = seq![seq![c] + segs[0]] + segs.skip(1);
    if segs.len() == 1 {
        assert(whole =~= seq![seq![c] + segs[0]]);
    } else {
        lemma_joinl_prepend_first(c, segs.drop_last());
        assert(segs.drop_last()[0] == segs[0]);
        assert(whole.drop_last() =~= seq![seq![c] + segs.drop_last()[0]] + segs.drop_last().skip(1));
        assert(whole.last() == segs.last());
        assert(joinl(whole) =~= joinl(whole.drop_last()) + seq!['\n'] + whole.last());
        assert(joinl(segs) =~= joinl(segs.drop_last()) + seq!['\n'] + segs.last());
    }
}

/// Splitting a join of newline-free segments restores the segments.
pub proof fn lemma_split_nl_joinl(segs: Seq<Seq<char>>)
    requires
        segs.len() >= 1,
        forall|k: int| 0 <= k < segs.len() ==> seg_has_no_nl(#[trigger] segs[k]),
    ensures
        split_nl(joinl(segs)) =~~= segs,
    decreases segs.len(),
{
    if segs.len() == 1 {
        lemma_split_nl_single(segs[0]);
        assert(split_nl(joinl(segs)) =~~= seq![segs[0]]);
    } else {
        lemma_split_nl_joinl(segs.drop_last());
        lemma_split_nl_append(joinl(segs.drop_last()), segs.last());
        lemma_split_nl_single(segs.last());
    }
}

// ---------------------------------------------------------------------
// Executable counterparts.
// ---------------------------------------------------------------------

/// Relies on `String::push`: appends one character to the string.
#[verifier::external_body]
pub fn push_char(s: &mut String, c: char)
    ensures
        final(s)@ == old(s)@.push(c),
{
    s.push(c);
}

/// Equality test on string slices at the character-sequence level.
pub fn str_eq(a: &str, b: &str) -> (r: bool)
    ensures
        r == (a@ == b@),
{
    let alen = a.unicode_len();
    let blen = b.unicode_len();
    if alen != blen {
        assert(a@ != b@);
        return false;
    }
    let mut i: usize = 0;
    while i < alen
        invariant
            i <= alen,
            alen == a@.len(),
            alen == b@.len(),
            forall|j: int| 0 <= j < i ==> a@[j] == b@[j],
        decreases alen - i,
    {
        if a.get_char(i) != b.get_char(i) {
            return false;
        }
        i += 1;
    }
    proof {
        assert(a@ =~= b@);
    }
    true
}

/// Prefix test at the character level.
pub fn starts_with(s: &str, p: &str) -> (r: bool)
    ensures
        r == is_prefix(p@, s@),
{
    let slen = s.unicode_len();
    let plen = p.unicode_len();
    if plen > slen {
        return false;
    }
    let mut i: usize = 0;
    while i < plen
        invariant
            i <= plen,
            plen <= slen,
            plen == p@.len(),
            slen == s@.len(),
            forall|j: int| 0 <= j < i ==> s@[j] == p@[j],
        decreases plen - i,
    {
        if s.get_char(i) != p.get_char(i) {
            assert(s@.take(p@.len() as int)[i as int] != p@[i as int]);
            return false;
        }
        i += 1;
    }
    proof {
        assert(s@.take(p@.len() as int) =~= p@);
    }
    true
}

/// The characters of `s` from position `k` on, as an owned string.
pub fn suffix_from(s: &str, k: usize) -> (r: String)
    requires
        k <= s@.len(),
    ensures
        r@ == s@.skip(k as int),
{
    let len = s.unicode_len();
    s.substring_char(k, len).to_owned()
}

/// Both-ends whitespace trim.
pub fn trim(s: &str) -> (r: String)
    ensures
        r@ == trim_spec(s@),
{
    let len = s.unicode_len();
    let mut a: usize = 0;
    proof {
        assert(s@.skip(0) =~= s@);
    }
    while a < len && is_ws_exec(s.get_char(a))
        invariant
            a <= len,
            len == s@.len(),
            trim_start_spec(s@) == trim_start_spec(s@.skip(a as int)),
        decreases len - a,
    {
        proof {
            assert(s@.skip(a as int).skip(1) =~= s@.skip(a as int + 1));
        }
        a += 1;
    }
    let start = s.substring_char(a, len);
    proof {
        if a < len {
            assert(trim_start_spec(s@.skip(a as int)) == s@.skip(a as int));
        } else {
            assert(s@.skip(a as int) =~= Seq::<char>::empty());
        }
        assert(start@ == trim_start_spec(s@));
    }
    let slen = start.unicode_len();
    let mut b: usize = slen;
    proof {
        assert(start@.take(slen as int) =~= start@);
    }
    while b > 0 && is_ws_exec(start.get_char(b - 1))
        invariant
            b <= slen,
            slen == start@.len(),
            trim_end_spec(start@) == trim_end_spec(start@.take(b as int)),
        decreases b,
    {
        proof {
            assert(start@.take(b as int).drop_last() =~= start@.take(b as int - 1));
        }
        b -= 1;
    }
    proof {
        if b > 0 {
            assert(trim_end_spec(start@.take(b as int)) == start@.take(b as int));
        } else {
            assert(start@.take(0) =~= Seq::<char>::empty());
        }
    }
    start.substring_char(0, b).to_owned()
}

pub fn is_ws_exec(c: char) -> (r: bool)
    ensures
        r == is_ws(c),
{
    c == ' ' || c == '\t' || c == '\r' || c == '\n'
}

/// Leading-whitespace trim.
pub fn trim_start(s: &str) -> (r: String)
    ensures
        r@ == trim_start_spec(s@),
{
    let len = s.unicode_len();
    let mut a: usize = 0;
    proof {
        assert(s@.skip(0) =~= s@);
    }
    while a < len && is_ws_exec(s.get_char(a))
        invariant
            a <= len,
            len == s@.len(),
            trim_start_spec(s@) == trim_start_spec(s@.skip(a as int)),
        decreases len - a,
    {
        proof {
            assert(s@.skip(a as int).skip(1) =~= s@.skip(a as int + 1));
        }
        a += 1;
    }
    proof {
        if a < len {
            assert(trim_start_spec(s@.skip(a as int)) == s@.skip(a as int));
        } else {
            assert(s@.skip(a as int) =~= Seq::<char>::empty());
        }
    }
    s.substring_char(a, len).to_owned()
}

/// Splits a text into its newline-separated segments.
pub fn split_lines(s: &str) -> (r: Vec<String>)
    ensures
        r.deep_view() == split_nl(s@),
        r.len() >= 1,
{
    let len = s.unicode_len();
    let mut done: Vec<String> = Vec::new();
    let mut cur: String = String::new();
    let mut i: usize = 0;
    proof {
        lemma_split_nl_len(s@);
        assert(s@.skip(0) =~= s@);
        assert(done.deep_view() =~= Seq::<Seq<char>>::empty());
        assert(cur@ + split_nl(s@)[0] =~= split_nl(s@)[0]);
        assert(split_nl(s@) =~~= seq![split_nl(s@)[0]] + split_nl(s@).skip(1));
    }
    while i < len
        invariant
            i <= len,
            len == s@.len(),
            split_nl(s@.skip(i as int)).len() >= 1,
            split_nl(s@) =~~= done.deep_view() + seq![cur@ + split_nl(s@.skip(i as int))[0]]
                + split_nl(s@.skip(i as int)).skip(1),
        decreases len - i,
    {
        let c = s.get_char(i);
        proof {
            assert(s@.skip(i as int)[0] == c);
            assert(s@.skip(i as int).skip(1) =~= s@.skip(i as int + 1));
            lemma_split_nl_len(s@.skip(i as int + 1));
        }
        if c == '\n' {
            let ghost old_done = done.deep_view();
            let ghost old_cur = cur@;
            done.push(cur);
            cur = String::new();
            proof {
                assert(done.deep_view() =~= old_done.push(old_cur));
                assert(old_cur + Seq::<char>::empty() =~= old_cur);
                assert(split_nl(s@) =~~= done.deep_view() + seq![cur@ + split_nl(s@.skip(
                    i as int + 1,
                ))[0]] + split_nl(s@.skip(i as int + 1)).skip(1));
            }
        } else {
            let ghost old_cur = cur@;
            push_char(&mut cur, c);
            proof {
                let r = split_nl(s@.skip(i as int + 1));
                assert(split_nl(s@.skip(i as int)) =~~= seq![seq![c] + r[0]] + r.skip(1));
                assert(old_cur + (seq![c] + r[0]) =~= cur@ + r[0]);
            }
        }
        i += 1;
    }
    proof {
        assert(s@.skip(len as int) =~= Seq::<char>::empty());
        assert(split_nl(Seq::<char>::empty()) =~~= seq![Seq::<char>::empty()]);
    }
    let ghost old_done = done.deep_view();
    let ghost last_cur = cur@;
    done.push(cur);
    proof {
        assert(done.deep_view() =~= old_done.push(last_cur));
        assert(last_cur + Seq::<char>::empty() =~= last_cur);
        assert(split_nl(s@) =~~= done.deep_view());
    }
    done
}

/// Joins segments with single newlines; inverse of `split_lines`.
pub fn join_lines(segs: &Vec<String>) -> (r: String)
    requires
        segs.len() >= 1,
    ensures
        r@ == joinl(segs.deep_view()),
{
    let mut out: String = segs[0].clone();
    let mut i: usize = 1;
    proof {
        assert(segs.deep_view().take(1).drop_last() =~= Seq::<Seq<char>>::empty());
        assert(segs.deep_view().take(1)[0] == segs[0]@);
        assert(out@ =~= joinl(segs.deep_view().take(1)));
    }
    while i < segs.len()
        invariant
            1 <= i <= segs.len(),
            out@ == joinl(segs.deep_view().take(i as int)),
        decreases segs.len() - i,
    {
        push_char(&mut out, '\n');
        let seg = &segs[i];
        out.append(seg.as_str());
        proof {
            let dv = segs.deep_view();
            assert(dv.take(i as int + 1).drop_last() =~= dv.take(i as int));
            assert(dv.take(i as int + 1).last() == dv[i as int]);
            assert(dv[i as int] == segs[i as int]@);
            assert(out@ =~= joinl(dv.take(i as int)) + seq!['\n'] + dv[i as int]);
        }
        i += 1;
    }
    proof {
        assert(segs.deep_view().take(segs.len() as int) =~= segs.deep_view());
    }
    out
}

/// Lexicographic comparison of string slices.
pub fn lex_le_str(a: &str, b: &str) -> (r: bool)
    ensures
        r == lex_le(a@, b@),
{
    let alen = a.unicode_len();
    let blen = b.unicode_len();
    let mut i: usize = 0;
    proof {
        assert(a@.skip(0) =~= a@);
        assert(b@.skip(0) =~= b@);
    }
    while i < alen && i < blen
        invariant
            i <= alen,
            i <= blen,
            alen == a@.len(),
            blen == b@.len(),
            lex_le(a@, b@) == lex_le(a@.skip(i as int), b@.skip(i as int)),
        decreases alen - i,
    {
        let ca = a.get_char(i);
        let cb = b.get_char(i);
        proof {
            assert(a@.skip(i as int)[0] == ca);
            assert(b@.skip(i as int)[0] == cb);
            assert(a@.skip(i as int).skip(1) =~= a@.skip(i as int + 1));
            assert(b@.skip(i as int).skip(1) =~= b@.skip(i as int + 1));
        }
        if (ca as u32) < (cb as u32) {
            return true;
        }
        if (ca as u32) > (cb as u32) {
            return false;
        }
        proof {
            assert(ca as int == cb as int);
        }
        i += 1;
    }
    proof {
        if i >= alen {
            assert(a@.skip(i as int).len() == 0);
        } else {
            assert(b@.skip(i as int).len() == 0);
            assert(a@.skip(i as int).len() != 0);
        }
    }
    alen <= blen
}

/// Whether `needle` occurs as a contiguous run inside `hay`.
pub open spec fn spec_contains(hay: Seq<char>, needle: Seq<char>) -> bool {
    exists|i: int|
        0 <= i && i + needle.len() <= hay.len() && #[trigger] hay.subrange(
            i,
            i + needle.len() as int,
        ) == needle
}

/// Literal substring search.
pub fn contains_sub(hay: &str, needle: &str) -> (r: bool)
    ensures
        r == spec_contains(hay@, needle@),
{
    let hlen = hay.unicode_len();
    let nlen = needle.unicode_len();
    if nlen > hlen {
        return false;
    }
    if nlen == 0 {
        proof {
            assert(hay@.subrange(0, 0 + needle@.len() as int) =~= needle@);
        }
        return true;
    }
    let bound = hlen - nlen;
    let mut i: usize = 0;
    while i <= bound
        invariant
            i <= bound + 1,
            bound == hlen - nlen,
            1 <= nlen <= hlen,
            hlen == hay@.len(),
            nlen == needle@.len(),
            forall|k: int|
                0 <= k < i ==> #[trigger] hay@.subrange(k, k + needle@.len() as int) != needle@,
        decreases bound + 1 - i,
    {
        let mut j: usize = 0;
        let mut matched = true;
        while j < nlen && matched
            invariant
                j <= nlen,
                i + nlen <= hlen,
                hlen == hay@.len(),
                nlen == needle@.len(),
                matched ==> forall|t: int| 0 <= t < j ==> hay@[i + t] == needle@[t],
                !matched ==> hay@.subrange(i as int, i + needle@.len() as int) != needle@,
            decreases nlen - j, (if matched { 1int } else { 0int }),
        {
            if hay.get_char(i + j) != needle.get_char(j) {
                proof {
                    assert(hay@.subrange(i as int, i + needle@.len() as int)[j as int]
                        != needle@[j as int]);
                }
                matched = false;
            } else {
                j += 1;
            }
        }
        if matched {
            proof {
                assert(hay@.subrange(i as int, i + needle@.len() as int) =~= needle@);
            }
            return true;
        }
        i += 1;
    }
    proof {
        assert forall|k: int| 0 <= k && k + needle@.len() <= hay@.len() implies #[trigger] hay@
            .subrange(k, k + needle@.len() as int) != needle@ by {
            assert(k < i);
        }
    }
    false
}

pub proof fn lemma_trim_start_no_lead(s: Seq<char>)
    ensures
        trim_start_spec(s).len() == 0 || !is_ws(trim_start_spec(s)[0]),
    decreases s.len(),
{
    if s.len() > 0 && is_ws(s[0]) {
        lemma_trim_start_no_lead(s.skip(1));
    }
}

pub proof fn lemma_trim_end_no_trail(s: Seq<char>)
    ensures
        trim_end_spec(s).len() == 0 || !is_ws(trim_end_spec(s).last()),
    decreases s.len(),
{
    if s.len() > 0 && is_ws(s.last()) {
        lemma_trim_end_no_trail(s.drop_last());
    }
}

/// Trimming the end keeps the text a prefix of what it was.
pub proof fn lemma_trim_end_prefix(s: Seq<char>)
    ensures
        trim_end_spec(s).len() <= s.len(),
        forall|i: int| 0 <= i < trim_end_spec(s).len() ==> trim_end_spec(s)[i] == s[i],
    decreases s.len(),
{
    if s.len() > 0 && is_ws(s.last()) {
        lemma_trim_end_prefix(s.drop_last());
        assert(trim_end_spec(s) == trim_end_spec(s.drop_last()));
        assert forall|i: int| 0 <= i < trim_end_spec(s).len() implies trim_end_spec(s)[i] == s[i]
        by {
            assert(trim_end_spec(s.drop_last())[i] == s.drop_last()[i]);
            assert(s.drop_last()[i] == s[i]);
        }
    }
}

/// Trimming trims nothing further the second time.
pub proof fn lemma_trim_idempotent(s: Seq<char>)
    ensures
        trim_spec(trim_spec(s)) == trim_spec(s),
{
    let a = trim_start_spec(s);
    let t = trim_end_spec(a);
    lemma_trim_start_no_lead(s);
    lemma_trim_end_prefix(a);
    lemma_trim_end_no_trail(a);
    if t.len() > 0 {
        assert(t[0] == a[0]);
    }
    assert(trim_start_spec(t) == t);
    assert(trim_end_spec(t) == t);
}

pub proof fn lemma_no_nl_trim_start(s: Seq<char>)
    requires
        seg_has_no_nl(s),
    ensures
        seg_has_no_nl(trim_start_spec(s)),
    decreases s.len(),
{
    if s.len() > 0 && is_ws(s[0]) {
        assert(seg_has_no_nl(s.skip(1)));
        lemma_no_nl_trim_start(s.skip(1));
    }
}

pub proof fn lemma_no_nl_trim_end(s: Seq<char>)
    requires
        seg_has_no_nl(s),
    ensures
        seg_has_no_nl(trim_end_spec(s)),
    decreases s.len(),
{
    if s.len() > 0 && is_ws(s.last()) {
        assert(seg_has_no_nl(s.drop_last()));
        lemma_no_nl_trim_end(s.drop_last());
    }
}

pub proof fn lemma_no_nl_trim(s: Seq<char>)
    requires
        seg_has_no_nl(s),
    ensures
        seg_has_no_nl(trim_spec(s)),
{
    lemma_no_nl_trim_start(s);
    lemma_no_nl_trim_end(trim_start_spec(s));
}

/// A text whose trim is empty is all whitespace.
pub proof fn lemma_trim_start_all_ws(s: Seq<char>)
    requires
        trim_start_spec(s).len() == 0,
    ensures
        forall|i: int| 0 <= i < s.len() ==> is_ws(#[trigger] s[i]),
    decreases s.len(),
{
    if s.len() > 0 {
        assert(is_ws(s[0]));
        lemma_trim_start_all_ws(s.skip(1));
        assert forall|i: int| 0 <= i < s.len() implies is_ws(#[trigger] s[i]) by {
            if i > 0 {
                assert(s.skip(1)[i - 1] == s[i]);
            }
        }
    }
}

pub proof fn lemma_trim_end_all_ws(s: Seq<char>)
    requires
        trim_end_spec(s).len() == 0,
    ensures
        forall|i: int| 0 <= i < s.len() ==> is_ws(#[trigger] s[i]),
    decreases s.len(),
{
    if s.len() > 0 {
        assert(is_ws(s.last()));
        lemma_trim_end_all_ws(s.drop_last());
        assert forall|i: int| 0 <= i < s.len() implies is_ws(#[trigger] s[i]) by {
            if i < s.len() - 1 {
                assert(s.drop_last()[i] == s[i]);
            }
        }
    }
}

pub proof fn lemma_trim_all_ws(s: Seq<char>)
    requires
        trim_spec(s).len() == 0,
    ensures
        forall|i: int| 0 <= i < s.len() ==> is_ws(#[trigger] s[i]),
{
    lemma_trim_end_all_ws(trim_start_spec(s));
    if trim_start_spec(s).len() > 0 {
        lemma_trim_start_no_lead(s);
        assert(is_ws(trim_start_spec(s)[0]));
        assert(false);
    }
    lemma_trim_start_all_ws(s);
}

} // verus!
