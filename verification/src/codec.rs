//! The text codec: converts between a note's on-disk textual form (a
//! delimited metadata block followed by the body) and its structured
//! in-memory form, with an exact sequence-level specification and a
//! proved round trip.

use vstd::prelude::*;

use crate::text::{
    is_prefix, is_ws, joinl, lemma_joinl_prepend_seg, lemma_joinl_split_nl, lemma_split_nl_append,
    lemma_split_nl_joinl, push_char, seg_has_no_nl, split_lines, split_nl, starts_with, str_eq,
    suffix_from, trim_start, trim_start_spec,
};

verus! {

/// Structured note metadata: identity, title, tags and the two
/// timestamps, all as plain text fields.
pub struct NoteMeta {
    pub id: String,
    pub title: String,
    pub tags: Vec<String>,
    pub created_at: String,
    pub updated_at: String,
}

/// The mathematical shadow of `NoteMeta`.
pub ghost struct MetaV {
    pub id: Seq<char>,
    pub title: Seq<char>,
    pub tags: Seq<Seq<char>>,
    pub created_at: Seq<char>,
    pub updated_at: Seq<char>,
}

impl View for NoteMeta {
    type V = MetaV;

    open spec fn view(&self) -> MetaV {
        MetaV {
            id: self.id@,
            title: self.title@,
            tags: self.tags.deep_view(),
            created_at: self.created_at@,
            updated_at: self.updated_at@,
        }
    }
}

/// A metadata value the codec can persist and read back: no field text
/// may span lines.
pub open spec fn wf_meta(m: MetaV) -> bool {
    &&& seg_has_no_nl(m.id)
    &&& seg_has_no_nl(m.title)
    &&& seg_has_no_nl(m.created_at)
    &&& seg_has_no_nl(m.updated_at)
    &&& forall|i: int| 0 <= i < m.tags.len() ==> seg_has_no_nl(#[trigger] m.tags[i])
}

#[derive(Clone, Copy, PartialEq, Eq, Structural, Debug)]
pub enum DecodeError {
    MissingBlockStart,
    MissingBlockEnd,
    MetadataParseError,
}

pub open spec fn delim() -> Seq<char> {
    seq!['-', '-', '-']
}

pub open spec fn id_prefix() -> Seq<char> {
    seq!['i', 'd', ':', ' ']
}

pub open spec fn title_prefix() -> Seq<char> {
    seq!['t', 'i', 't', 'l', 'e', ':', ' ']
}

pub open spec fn tags_label() -> Seq<char> {
    seq!['t', 'a', 'g', 's', ':']
}

pub open spec fn item_prefix() -> Seq<char> {
    seq!['-', ' ']
}

pub open spec fn created_prefix() -> Seq<char> {
    seq!['c', 'r', 'e', 'a', 't', 'e', 'd', '_', 'a', 't', ':', ' ']
}

pub open spec fn updated_prefix() -> Seq<char> {
    seq!['u', 'p', 'd', 'a', 't', 'e', 'd', '_', 'a', 't', ':', ' ']
}

pub fn delim_str() -> (r: &'static str)
    ensures
        r@ == delim(),
{
    proof {
        reveal_strlit("---");
        assert("---"@ =~= delim());
    }
    "---"
}

pub fn id_prefix_str() -> (r: &'static str)
    ensures
        r@ == id_prefix(),
{
    proof {
        reveal_strlit("id: ");
        assert("id: "@ =~= id_prefix());
    }
    "id: "
}

pub fn title_prefix_str() -> (r: &'static str)
    ensures
        r@ == title_prefix(),
{
    proof {
        reveal_strlit("title: ");
        assert("title: "@ =~= title_prefix());
    }
    "title: "
}

pub fn tags_label_str() -> (r: &'static str)
    ensures
        r@ == tags_label(),
{
    proof {
        reveal_strlit("tags:");
        assert("tags:"@ =~= tags_label());
    }
    "tags:"
}

pub fn item_prefix_str() -> (r: &'static str)
    ensures
        r@ == item_prefix(),
{
    proof {
        reveal_strlit("- ");
        assert("- "@ =~= item_prefix());
    }
    "- "
}

pub fn created_prefix_str() -> (r: &'static str)
    ensures
        r@ == created_prefix(),
{
    proof {
        reveal_strlit("created_at: ");
        assert("created_at: "@ =~= created_prefix());
    }
    "created_at: "
}

pub fn updated_prefix_str() -> (r: &'static str)
    ensures
        r@ == updated_prefix(),
{
    proof {
        reveal_strlit("updated_at: ");
        assert("updated_at: "@ =~= updated_prefix());
    }
    "updated_at: "
}

/// The tag lines of the block, one per tag, each with the item prefix.
pub open spec fn tag_lines(tags: Seq<Seq<char>>) -> Seq<Seq<char>> {
    Seq::new(tags.len(), |j: int| item_prefix() + tags[j])
}

/// The tag lines with the item prefix stripped back off.
pub open spec fn strip_items(bl: Seq<Seq<char>>) -> Seq<Seq<char>> {
    Seq::new(bl.len(), |j: int| bl[j].skip(2))
}

/// The lines of the metadata block, in their one canonical order.
pub open spec fn block_lines(m: MetaV) -> Seq<Seq<char>> {
    seq![id_prefix() + m.id, title_prefix() + m.title, tags_label()] + tag_lines(m.tags)
        + seq![created_prefix() + m.created_at, updated_prefix() + m.updated_at]
}

/// All lines of an encoded note's head: the block wrapped in delimiter
/// lines.
pub open spec fn enc_lines(m: MetaV) -> Seq<Seq<char>> {
    seq![delim()] + block_lines(m) + seq![delim()]
}

/// The full encoded text: head lines, a blank separator line, the body,
/// and a trailing newline.
pub open spec fn spec_encode(m: MetaV, b: Seq<char>) -> Seq<char> {
    joinl(enc_lines(m)) + seq!['\n', '\n'] + b + seq!['\n']
}

/// The first line at or after `k` that is exactly the delimiter.
pub open spec fn find_delim(ls: Seq<Seq<char>>, k: int) -> Option<int>
    decreases ls.len() - k when 0 <= k <= ls.len()
{
    if k >= ls.len() {
        None
    } else if ls[k] == delim() {
        Some(k)
    } else {
        find_delim(ls, k + 1)
    }
}

/// First index at or after `i` whose line does not carry the tag-item
/// prefix.
pub open spec fn tag_run(bl: Seq<Seq<char>>, i: int) -> int
    decreases bl.len() - i when 0 <= i <= bl.len()
{
    if i >= bl.len() {
        i
    } else if is_prefix(item_prefix(), bl[i]) {
        tag_run(bl, i + 1)
    } else {
        i
    }
}

/// Parses the metadata block's lines; `None` when they do not follow the
/// canonical schema.
pub open spec fn parse_block(bl: Seq<Seq<char>>) -> Option<MetaV> {
    if bl.len() < 5 {
        None
    } else if !is_prefix(id_prefix(), bl[0]) || !is_prefix(title_prefix(), bl[1]) || bl[2]
        != tags_label() {
        None
    } else {
        let e = tag_run(bl, 3);
        if e + 2 != bl.len() {
            None
        } else if !is_prefix(created_prefix(), bl[e]) || !is_prefix(updated_prefix(), bl[e + 1]) {
            None
        } else {
            Some(
                MetaV {
                    id: bl[0].skip(4),
                    title: bl[1].skip(7),
                    tags: strip_items(bl.subrange(3, e)),
                    created_at: bl[e].skip(12),
                    updated_at: bl[e + 1].skip(12),
                },
            )
        }
    }
}

/// The decode function: delimiter checks, block parse, and leading
/// whitespace stripped from the body.
pub open spec fn spec_decode(s: Seq<char>) -> Result<(MetaV, Seq<char>), DecodeError> {
    let ls = split_nl(s);
    if !(ls.len() >= 2 && ls[0] == delim()) {
        Err(DecodeError::MissingBlockStart)
    } else {
        match find_delim(ls, 1) {
            None => Err(DecodeError::MissingBlockEnd),
            Some(k) => {
                match parse_block(ls.subrange(1, k)) {
                    None => Err(DecodeError::MetadataParseError),
                    Some(m) => Ok((m, trim_start_spec(joinl(ls.subrange(k + 1, ls.len() as int))))),
                }
            },
        }
    }
}

/// The raw metadata block text and the body, split apart but not parsed.
pub open spec fn spec_split_frontmatter(s: Seq<char>) -> Result<
    (Seq<char>, Seq<char>),
    DecodeError,
> {
    let ls = split_nl(s);
    if !(ls.len() >= 2 && ls[0] == delim()) {
        Err(DecodeError::MissingBlockStart)
    } else {
        match find_delim(ls, 1) {
            None => Err(DecodeError::MissingBlockEnd),
            Some(k) => Ok(
                (
                    joinl(ls.subrange(1, k)),
                    trim_start_spec(joinl(ls.subrange(k + 1, ls.len() as int))),
                ),
            ),
        }
    }
}

fn clone_string_vec(v: &Vec<String>) -> (r: Vec<String>)
    ensures
        r.deep_view() == v.deep_view(),
{
    let mut r: Vec<String> = Vec::new();
    let mut i: usize = 0;
    while i < v.len()
        invariant
            i <= v.len(),
            r.len() == i,
            forall|j: int| 0 <= j < i ==> r.deep_view()[j] == v.deep_view()[j],
        decreases v.len() - i,
    {
        r.push(v[i].clone());
        i += 1;
    }
    proof {
        assert(r.deep_view() =~~= v.deep_view());
    }
    r
}

impl NoteMeta {
    /// A field-for-field copy.
    pub fn duplicate(&self) -> (r: NoteMeta)
        ensures
            r@ == self@,
    {
        NoteMeta {
            id: self.id.clone(),
            title: self.title.clone(),
            tags: clone_string_vec(&self.tags),
            created_at: self.created_at.clone(),
            updated_at: self.updated_at.clone(),
        }
    }
}

/// Serializes metadata and body into the canonical on-disk text.
pub fn encode(meta: &NoteMeta, body: &str) -> (r: String)
    ensures
        r@ == spec_encode(meta@, body@),
{
    let ghost el = enc_lines(meta@);
    let mut lines: Vec<String> = Vec::new();
    lines.push(delim_str().to_owned());
    let mut l = id_prefix_str().to_owned();
    l.append(meta.id.as_str());
    lines.push(l);
    let mut l = title_prefix_str().to_owned();
    l.append(meta.title.as_str());
    lines.push(l);
    lines.push(tags_label_str().to_owned());
    proof {
        assert(lines.deep_view() =~~= el.take(4));
    }
    let mut i: usize = 0;
    while i < meta.tags.len()
        invariant
            i <= meta.tags.len(),
            lines.len() == 4 + i,
            el == enc_lines(meta@),
            lines.deep_view() == el.take(4 + i as int),
        decreases meta.tags.len() - i,
    {
        let mut l = item_prefix_str().to_owned();
        l.append(meta.tags[i].as_str());
        lines.push(l);
        proof {
            assert(el[4 + i as int] == item_prefix() + meta@.tags[i as int]);
            assert(lines.deep_view() =~~= el.take(4 + i as int + 1));
        }
        i += 1;
    }
    let ghost tlen = meta@.tags.len() as int;
    let mut l = created_prefix_str().to_owned();
    l.append(meta.created_at.as_str());
    lines.push(l);
    proof {
        assert(el[4 + tlen] == created_prefix() + meta@.created_at);
        assert(lines.deep_view() =~~= el.take(5 + tlen));
    }
    let mut l = updated_prefix_str().to_owned();
    l.append(meta.updated_at.as_str());
    lines.push(l);
    proof {
        assert(el[5 + tlen] == updated_prefix() + meta@.updated_at);
        assert(lines.deep_view() =~~= el.take(6 + tlen));
    }
    lines.push(delim_str().to_owned());
    proof {
        assert(el.len() == 7 + tlen);
        assert(el[6 + tlen] == delim());
        assert(el.take(7 + tlen) =~~= el);
        assert(lines.deep_view() =~~= el.take(7 + tlen));
    }
    let mut out = crate::text::join_lines(&lines);
    push_char(&mut out, '\n');
    push_char(&mut out, '\n');
    out.append(body);
    push_char(&mut out, '\n');
    proof {
        assert(out@ =~= spec_encode(meta@, body@));
    }
    out
}

/// Parses the lines between the delimiters into metadata.
pub fn parse_block_exec(bl: &Vec<String>) -> (r: Option<NoteMeta>)
    ensures
        (match (r, parse_block(bl.deep_view())) {
            (Some(m), Some(ms)) => m@ == ms,
            (None, None) => true,
            _ => false,
        }),
{
    let ghost dv = bl.deep_view();
    let n = bl.len();
    if n < 5 {
        return None;
    }
    if !starts_with(bl[0].as_str(), id_prefix_str()) {
        return None;
    }
    if !starts_with(bl[1].as_str(), title_prefix_str()) {
        return None;
    }
    if !str_eq(bl[2].as_str(), tags_label_str()) {
        return None;
    }
    let mut e: usize = 3;
    while e < n && starts_with(bl[e].as_str(), item_prefix_str())
        invariant
            3 <= e <= n,
            n == dv.len(),
            dv == bl.deep_view(),
            tag_run(dv, 3) == tag_run(dv, e as int),
        decreases n - e,
    {
        e += 1;
    }
    proof {
        assert(tag_run(dv, 3) == e as int);
    }
    if n - e != 2 {
        return None;
    }
    if !starts_with(bl[e].as_str(), created_prefix_str()) {
        return None;
    }
    if !starts_with(bl[e + 1].as_str(), updated_prefix_str()) {
        return None;
    }
    let id = suffix_from(bl[0].as_str(), 4);
    let title = suffix_from(bl[1].as_str(), 7);
    let created_at = suffix_from(bl[e].as_str(), 12);
    let updated_at = suffix_from(bl[e + 1].as_str(), 12);
    let mut tags: Vec<String> = Vec::new();
    let mut i: usize = 3;
    while i < e
        invariant
            3 <= i <= e,
            e < n,
            n == dv.len(),
            dv == bl.deep_view(),
            tag_run(dv, 3) == e as int,
            tags.len() == i - 3,
            tags.deep_view() =~~= strip_items(dv.subrange(3, i as int)),
        decreases e - i,
    {
        proof {
            lemma_tag_run_all_items(dv, 3, i as int);
        }
        let t = suffix_from(bl[i].as_str(), 2);
        proof {
            assert(t@ == dv[i as int].skip(2));
        }
        let ghost prev = tags@;
        tags.push(t);
        proof {
            assert(tags@.len() == i - 3 + 1);
            assert forall|j: int| 0 <= j < i - 3 implies #[trigger] tags.deep_view()[j]
                == strip_items(dv.subrange(3, i as int))[j] by {
                assert(tags@[j] == prev[j]);
                assert(tags.deep_view()[j] == prev[j]@);
            }
            assert(tags.deep_view()[i - 3] == dv[i as int].skip(2));
            assert(strip_items(dv.subrange(3, i as int + 1))[i - 3] == dv[i as int].skip(2));
            assert(tags.deep_view() =~~= strip_items(dv.subrange(3, i as int + 1)));
        }
        i += 1;
    }
    proof {
        assert(tags.deep_view() =~~= strip_items(dv.subrange(3, e as int)));
    }
    Some(NoteMeta { id, title, tags, created_at, updated_at })
}

/// Every line inside a tag run carries the item prefix.
pub proof fn lemma_tag_run_all_items(bl: Seq<Seq<char>>, s: int, i: int)
    requires
        0 <= s <= i < tag_run(bl, s),
        s <= bl.len(),
    ensures
        is_prefix(item_prefix(), bl[i]),
    decreases i - s,
{
    if s < i {
        lemma_tag_run_all_items(bl, s + 1, i);
    }
}

/// Splits raw text into its metadata-block text and its body.
pub fn split_frontmatter(contents: &str) -> (r: Result<(String, String), DecodeError>)
    ensures
        (match (r, spec_split_frontmatter(contents@)) {
            (Ok((fm, body)), Ok((fms, bodys))) => fm@ == fms && body@ == bodys,
            (Err(e1), Err(e2)) => e1 == e2,
            _ => false,
        }),
{
    let ls = split_lines(contents);
    let ghost dv = ls.deep_view();
    if ls.len() < 2 || !str_eq(ls[0].as_str(), delim_str()) {
        return Err(DecodeError::MissingBlockStart);
    }
    match find_close(&ls) {
        None => Err(DecodeError::MissingBlockEnd),
        Some(k) => {
            let block = copy_range(&ls, 1, k);
            let fm = if block.len() == 0 {
                String::new()
            } else {
                crate::text::join_lines(&block)
            };
            let tail = copy_range(&ls, k + 1, ls.len());
            let body_raw = if tail.len() == 0 {
                String::new()
            } else {
                crate::text::join_lines(&tail)
            };
            let body = trim_start(body_raw.as_str());
            Ok((fm, body))
        },
    }
}

/// Scans for the closing delimiter line, from line 1 on.
fn find_close(ls: &Vec<String>) -> (r: Option<usize>)
    requires
        ls.len() >= 1,
    ensures
        (match r {
            Some(k) => 1 <= k < ls.len() && find_delim(ls.deep_view(), 1) == Some(k as int),
            None => find_delim(ls.deep_view(), 1) is None,
        }),
{
    let ghost dv = ls.deep_view();
    let mut k: usize = 1;
    while k < ls.len() && !str_eq(ls[k].as_str(), delim_str())
        invariant
            1 <= k <= ls.len(),
            dv == ls.deep_view(),
            find_delim(dv, 1) == find_delim(dv, k as int),
        decreases ls.len() - k,
    {
        k += 1;
    }
    if k < ls.len() {
        Some(k)
    } else {
        None
    }
}

/// Clones the elements of `ls` in positions `[from, to)`.
fn copy_range(ls: &Vec<String>, from: usize, to: usize) -> (r: Vec<String>)
    requires
        from <= to <= ls.len(),
    ensures
        r.deep_view() == ls.deep_view().subrange(from as int, to as int),
{
    let mut r: Vec<String> = Vec::new();
    let mut i: usize = from;
    while i < to
        invariant
            from <= i <= to <= ls.len(),
            r.len() == i - from,
            r.deep_view() =~~= ls.deep_view().subrange(from as int, i as int),
        decreases to - i,
    {
        r.push(ls[i].clone());
        proof {
            assert(r.deep_view() =~~= ls.deep_view().subrange(from as int, i as int + 1));
        }
        i += 1;
    }
    r
}

/// Decodes raw text into metadata and body.
pub fn decode(s: &str) -> (r: Result<(NoteMeta, String), DecodeError>)
    ensures
        (match (r, spec_decode(s@)) {
            (Ok((m, b)), Ok(p)) => m@ == p.0 && b@ == p.1,
            (Err(e1), Err(e2)) => e1 == e2,
            _ => false,
        }),
{
    let ls = split_lines(s);
    let ghost dv = ls.deep_view();
    if ls.len() < 2 || !str_eq(ls[0].as_str(), delim_str()) {
        return Err(DecodeError::MissingBlockStart);
    }
    match find_close(&ls) {
        None => Err(DecodeError::MissingBlockEnd),
        Some(k) => {
            let block = copy_range(&ls, 1, k);
            match parse_block_exec(&block) {
                None => Err(DecodeError::MetadataParseError),
                Some(meta) => {
                    let tail = copy_range(&ls, k + 1, ls.len());
                    let body_raw = if tail.len() == 0 {
                        String::new()
                    } else {
                        crate::text::join_lines(&tail)
                    };
                    let body = trim_start(body_raw.as_str());
                    Ok((meta, body))
                },
            }
        },
    }
}

/// Every line of an encoded head is newline-free, given well-formed
/// metadata.
pub proof fn lemma_enc_lines_no_nl(m: MetaV)
    requires
        wf_meta(m),
    ensures
        forall|k: int| 0 <= k < enc_lines(m).len() ==> seg_has_no_nl(#[trigger] enc_lines(m)[k]),
{
    let el = enc_lines(m);
    assert forall|k: int| 0 <= k < el.len() implies seg_has_no_nl(#[trigger] el[k]) by {
        let bl = block_lines(m);
        if k == 0 || k == el.len() - 1 {
            assert(el[k] == delim());
        } else {
            assert(el[k] == bl[k - 1]);
            lemma_block_line_no_nl(m, k - 1);
        }
    }
}

proof fn lemma_block_line_no_nl(m: MetaV, j: int)
    requires
        wf_meta(m),
        0 <= j < block_lines(m).len(),
    ensures
        seg_has_no_nl(block_lines(m)[j]),
{
    let bl = block_lines(m);
    let t = m.tags.len() as int;
    if j == 0 {
        assert(bl[j] == id_prefix() + m.id);
    } else if j == 1 {
        assert(bl[j] == title_prefix() + m.title);
    } else if j == 2 {
        assert(bl[j] == tags_label());
    } else if j < 3 + t {
        assert(bl[j] == item_prefix() + m.tags[j - 3]);
    } else if j == 3 + t {
        assert(bl[j] == created_prefix() + m.created_at);
    } else {
        assert(bl[j] == updated_prefix() + m.updated_at);
    }
}

/// No line of the metadata block is itself the delimiter line.
proof fn lemma_block_line_not_delim(m: MetaV, j: int)
    requires
        0 <= j < block_lines(m).len(),
    ensures
        block_lines(m)[j] != delim(),
{
    let bl = block_lines(m);
    let t = m.tags.len() as int;
    if bl[j] == delim() {
        if j == 0 {
            assert(bl[j][0] == 'i');
        } else if j == 1 {
            assert(bl[j][0] == 't');
        } else if j == 2 {
            assert(bl[j][0] == 't');
        } else if j < 3 + t {
            assert(bl[j][1] == ' ');
        } else if j == 3 + t {
            assert(bl[j][0] == 'c');
        } else {
            assert(bl[j][0] == 'u');
        }
        assert(delim()[0] == '-' && delim()[1] == '-');
    }
}

/// The line list of an encoded note: head lines, a blank line, the
/// body's lines, and the final empty segment from the trailing newline.
pub proof fn lemma_encode_split(m: MetaV, b: Seq<char>)
    requires
        wf_meta(m),
    ensures
        split_nl(spec_encode(m, b)) =~~= enc_lines(m) + seq![Seq::<char>::empty()] + split_nl(b)
            + seq![Seq::<char>::empty()],
{
    let el = enc_lines(m);
    let tail = seq!['\n'] + b + seq!['\n'];
    assert(spec_encode(m, b) =~= joinl(el) + seq!['\n'] + tail);
    lemma_split_nl_append(joinl(el), tail);
    lemma_enc_lines_no_nl(m);
    lemma_split_nl_joinl(el);
    assert(tail =~= Seq::<char>::empty() + seq!['\n'] + (b + seq!['\n']));
    lemma_split_nl_append(Seq::<char>::empty(), b + seq!['\n']);
    assert(b + seq!['\n'] =~= b + seq!['\n'] + Seq::<char>::empty());
    lemma_split_nl_append(b, Seq::<char>::empty());
    assert(split_nl(Seq::<char>::empty()) =~~= seq![Seq::<char>::empty()]);
    assert(split_nl(tail) =~~= seq![Seq::<char>::empty()] + split_nl(b) + seq![
        Seq::<char>::empty(),
    ]);
}

proof fn lemma_find_delim_from(ls: Seq<Seq<char>>, s: int, k: int)
    requires
        0 <= s <= k < ls.len(),
        forall|j: int| s <= j < k ==> ls[j] != delim(),
        ls[k] == delim(),
    ensures
        find_delim(ls, s) == Some(k),
    decreases k - s,
{
    if s < k {
        lemma_find_delim_from(ls, s + 1, k);
    }
}

proof fn lemma_tag_run_val(bl: Seq<Seq<char>>, s: int, e: int)
    requires
        0 <= s <= e <= bl.len(),
        forall|j: int| s <= j < e ==> is_prefix(item_prefix(), #[trigger] bl[j]),
        e == bl.len() || !is_prefix(item_prefix(), bl[e]),
    ensures
        tag_run(bl, s) == e,
    decreases e - s,
{
    if s < e {
        lemma_tag_run_val(bl, s + 1, e);
    }
}

/// A concatenation starts with its left part, which strips back off.
proof fn lemma_prefix_concat(p: Seq<char>, x: Seq<char>)
    ensures
        is_prefix(p, p + x),
        (p + x).skip(p.len() as int) =~= x,
{
    assert((p + x).take(p.len() as int) =~= p);
}

/// Parsing the canonical block of a well-formed metadata value restores
/// the value.
pub proof fn lemma_parse_block_inverse(m: MetaV)
    requires
        wf_meta(m),
    ensures
        parse_block(block_lines(m)) == Some(m),
{
    let bl = block_lines(m);
    let t = m.tags.len() as int;
    assert(bl.len() == 5 + t);
    lemma_prefix_concat(id_prefix(), m.id);
    lemma_prefix_concat(title_prefix(), m.title);
    lemma_prefix_concat(created_prefix(), m.created_at);
    lemma_prefix_concat(updated_prefix(), m.updated_at);
    assert(bl[0] == id_prefix() + m.id);
    assert(bl[1] == title_prefix() + m.title);
    assert(bl[2] == tags_label());
    assert(bl[3 + t] == created_prefix() + m.created_at);
    assert(bl[4 + t] == updated_prefix() + m.updated_at);
    assert forall|j: int| 3 <= j < 3 + t implies is_prefix(item_prefix(), #[trigger] bl[j]) by {
        assert(bl[j] == item_prefix() + m.tags[j - 3]);
        lemma_prefix_concat(item_prefix(), m.tags[j - 3]);
    }
    assert(!is_prefix(item_prefix(), bl[3 + t])) by {
        if is_prefix(item_prefix(), bl[3 + t]) {
            assert(bl[3 + t].take(2)[0] == item_prefix()[0]);
            assert(bl[3 + t][0] == 'c');
        }
    }
    lemma_tag_run_val(bl, 3, 3 + t);
    assert(bl[0].skip(4) =~= m.id);
    assert(bl[1].skip(7) =~= m.title);
    assert(bl[3 + t].skip(12) =~= m.created_at);
    assert(bl[4 + t].skip(12) =~= m.updated_at);
    assert(strip_items(bl.subrange(3, 3 + t)) =~~= m.tags) by {
        assert forall|j: int| 0 <= j < t implies strip_items(bl.subrange(3, 3 + t))[j] =~= m.tags[j]
        by {
            assert(bl.subrange(3, 3 + t)[j] == item_prefix() + m.tags[j]);
            lemma_prefix_concat(item_prefix(), m.tags[j]);
        }
    }
    let parsed = parse_block(bl)->Some_0;
    assert(parsed.id == m.id && parsed.title == m.title && parsed.tags == m.tags
        && parsed.created_at == m.created_at && parsed.updated_at == m.updated_at);
}

/// The round trip: decoding an encoded note restores the metadata
/// exactly, and the body up to the codec's whitespace rule -- leading
/// whitespace goes, and the trailing newline that `encode` appends
/// stays.
pub proof fn lemma_encode_decode(m: MetaV, b: Seq<char>)
    requires
        wf_meta(m),
    ensures
        spec_decode(spec_encode(m, b)) == Ok::<(MetaV, Seq<char>), DecodeError>(
            (m, trim_start_spec(b + seq!['\n'])),
        ),
{
    let el = enc_lines(m);
    let bl = block_lines(m);
    let t = m.tags.len() as int;
    lemma_encode_split(m, b);
    let ls = split_nl(spec_encode(m, b));
    let empty = Seq::<char>::empty();
    assert(ls =~~= el + seq![empty] + split_nl(b) + seq![empty]);
    assert(el.len() == bl.len() + 2);
    assert(ls[0] == delim());
    assert(ls.len() >= 2);
    let k = 1 + bl.len() as int;
    assert(ls[k] == el[k] && el[k] == delim());
    assert forall|j: int| 1 <= j < k implies ls[j] != delim() by {
        assert(ls[j] == bl[j - 1]);
        lemma_block_line_not_delim(m, j - 1);
    }
    lemma_find_delim_from(ls, 1, k);
    assert(ls.subrange(1, k) =~~= bl);
    lemma_parse_block_inverse(m);
    let rest = ls.subrange(k + 1, ls.len() as int);
    assert(rest =~~= seq![empty] + (split_nl(b) + seq![empty]));
    let inner = split_nl(b) + seq![empty];
    crate::text::lemma_split_nl_len(b);
    lemma_joinl_prepend_seg(empty, inner);
    assert(inner.drop_last() =~~= split_nl(b));
    assert(joinl(inner) =~= joinl(split_nl(b)) + seq!['\n'] + empty);
    lemma_joinl_split_nl(b);
    assert(joinl(inner) =~= b + seq!['\n']);
    assert(joinl(rest) =~= empty + seq!['\n'] + joinl(inner));
    assert(joinl(rest) =~= seq!['\n'] + (b + seq!['\n']));
    assert(is_ws(joinl(rest)[0]));
    assert(joinl(rest).skip(1) =~= b + seq!['\n']);
    assert(trim_start_spec(joinl(rest)) == trim_start_spec(b + seq!['\n']));
}

} // verus!
