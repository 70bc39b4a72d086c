//! A whole manifest: aligned lines in byte order, and reading them back.
use vstd::prelude::*;
use rayon::slice::ParallelSliceMut;
use vstd::relations::sorted_by;
use unicode_width::UnicodeWidthStr;
use crate::entry::{
    holds_entry, lenient_entry, parses_to, line_holds, line_split, link_text, mode_text, push_record, record_text, size_text, tail_link,
    tail_mode, tail_mtime, tail_size, tail_ty, EntryView, ManifestEntry, MetaView,
};
use crate::decimal::{decimal, lemma_decimal_shape, signed_decimal};
use crate::error::ManifestError;
use crate::json::{json_quoted, lemma_quoted_no_newline, quote};
use crate::text::{
    chars_le, chars_le_exec, chars_of, lemma_chars_le_connected, lemma_chars_le_total,
    lemma_chars_le_transitive, push_all, string_of, all_ws,
};

verus! {

broadcast use vstd::seq_lib::group_to_multiset_ensures;

/// The display columns that a text takes in a monospaced terminal.
pub uninterp spec fn text_width(s: Seq<char>) -> nat;

/// Relies on unicode-width's `UnicodeWidthStr::width`: the display width
/// of a text, which depends on its characters alone.
#[verifier::external_body]
fn width_of(s: &str) -> (r: usize)
    ensures
        r == text_width(s@),
{
    UnicodeWidthStr::width(s)
}

pub open spec fn key_views(v: Seq<ManifestEntry>) -> Seq<EntryView> {
    v.map_values(|e: ManifestEntry| e@)
}

pub open spec fn line_views(v: Seq<Vec<char>>) -> Seq<Seq<char>> {
    v.map_values(|l: Vec<char>| l@)
}

/// The widest key literal of the entries (0 where there are none).
pub open spec fn max_key_width(es: Seq<EntryView>) -> nat
    decreases es.len(),
{
    if es.len() == 0 {
        0
    } else {
        let w = text_width(json_quoted(es.last().key));
        let m = max_key_width(es.drop_last());
        if w > m {
            w
        } else {
            m
        }
    }
}

/// The column where every record starts: two past the widest key literal.
pub open spec fn pad_width(es: Seq<EntryView>) -> nat {
    max_key_width(es) + 2
}

pub open spec fn spaces(n: int) -> Seq<char> {
    Seq::new(n as nat, |i: int| ' ')
}

/// One line: the key literal, spaces up to column `pad`, the record object.
pub open spec fn line_text(e: EntryView, pad: nat) -> Seq<char> {
    let k = json_quoted(e.key);
    k + spaces(pad - text_width(k)) + record_text(e.record)
}

/// The largest of the widths (0 where there are none).
pub open spec fn max_width(ws: Seq<usize>) -> nat
    decreases ws.len(),
{
    if ws.len() == 0 {
        0
    } else {
        let m = max_width(ws.drop_last());
        if ws.last() > m {
            ws.last() as nat
        } else {
            m
        }
    }
}

/// Lines of keys padded to two columns past the widest, then records.
pub open spec fn aligned_lines(keys: Seq<Seq<char>>, ws: Seq<usize>, recs: Seq<Seq<char>>) -> Seq<
    Seq<char>,
> {
    Seq::new(keys.len(), |i: int| keys[i] + spaces(max_width(ws) + 2 - ws[i]) + recs[i])
}

pub open spec fn aligned_text(keys: Seq<Seq<char>>, ws: Seq<usize>, recs: Seq<Seq<char>>) -> Seq<
    char,
> {
    join_lines(aligned_lines(keys, ws, recs).sort_by(lines_order()))
}

proof fn lemma_max_width(ws: Seq<usize>)
    ensures
        forall|j: int| 0 <= j < ws.len() ==> #[trigger] ws[j] <= max_width(ws),
    decreases ws.len(),
{
    if ws.len() > 0 {
        lemma_max_width(ws.drop_last());
        assert forall|j: int| 0 <= j < ws.len() implies #[trigger] ws[j] <= max_width(ws) by {
            if j < ws.len() - 1 {
                assert(ws[j] == ws.drop_last()[j]);
            }
        }
    }
}

proof fn lemma_max_width_eq(ws: Seq<usize>, es: Seq<EntryView>)
    requires
        ws.len() == es.len(),
        forall|j: int| 0 <= j < ws.len() ==> #[trigger] ws[j] == text_width(json_quoted(es[j].key)),
    ensures
        max_width(ws) == max_key_width(es),
    decreases ws.len(),
{
    if ws.len() > 0 {
        lemma_max_width_eq(ws.drop_last(), es.drop_last());
        assert(ws.last() == ws[ws.len() - 1]);
    }
}

pub open spec fn rendered_lines(es: Seq<EntryView>) -> Seq<Seq<char>> {
    es.map_values(|e: EntryView| line_text(e, pad_width(es)))
}

pub open spec fn lines_order() -> spec_fn(Seq<char>, Seq<char>) -> bool {
    |a: Seq<char>, b: Seq<char>| chars_le(a, b)
}

/// Lines joined with newlines between them.
pub open spec fn join_lines(ls: Seq<Seq<char>>) -> Seq<char>
    decreases ls.len(),
{
    if ls.len() == 0 {
        seq![]
    } else if ls.len() == 1 {
        ls[0]
    } else {
        join_lines(ls.drop_last()) + seq!['\n'] + ls.last()
    }
}

/// The text of a manifest: its rendered lines in byte order, joined.
pub open spec fn manifest_text(es: Seq<EntryView>) -> Seq<char> {
    join_lines(rendered_lines(es).sort_by(lines_order()))
}

fn push_spaces(out: &mut Vec<char>, n: u128)
    ensures
        final(out)@ == old(out)@ + spaces(n as int),
{
    let mut k: u128 = 0;
    while k < n
        invariant
            k <= n,
            out@ == old(out)@ + spaces(k as int),
        decreases n - k,
    {
        out.push(' ');
        k = k + 1;
        assert(out@ =~= old(out)@ + spaces(k as int));
    }
}

/// Relies on rayon's `par_sort_unstable` on `Vec<char>` items: it orders
/// them by std's `Ord` for vectors, which is lexicographic with characters
/// compared by code point (the order `chars_le`), and keeps the items.
#[verifier::external_body]
fn sort_lines(v: &mut Vec<Vec<char>>)
    ensures
        sorted_by(line_views(final(v)@), lines_order()),
        line_views(final(v)@).to_multiset() == line_views(old(v)@).to_multiset(),
{
    v.par_sort_unstable();
}

/// Lines joined with newlines between them.
fn join(ls: &Vec<Vec<char>>) -> (r: Vec<char>)
    ensures
        r@ == join_lines(line_views(ls@)),
{
    let mut out: Vec<char> = Vec::new();
    let mut k: usize = 0;
    while k < ls.len()
        invariant
            k <= ls@.len(),
            out@ == join_lines(line_views(ls@).take(k as int)),
        decreases ls@.len() - k,
    {
        proof {
            let t = line_views(ls@).take(k + 1);
            assert(t.drop_last() =~= line_views(ls@).take(k as int));
        }
        if k > 0 {
            out.push('\n');
        }
        push_all(&mut out, &ls[k]);
        k = k + 1;
    }
    assert(line_views(ls@).take(k as int) =~= line_views(ls@));
    out
}

proof fn lemma_max_key_width(es: Seq<EntryView>)
    ensures
        forall|j: int| 0 <= j < es.len() ==> text_width(json_quoted(#[trigger] es[j].key))
            <= max_key_width(es),
        es.len() > 0 ==> exists|j: int| 0 <= j < es.len() && text_width(json_quoted(#[trigger] es[j].key))
            == max_key_width(es),
    decreases es.len(),
{
    if es.len() > 0 {
        lemma_max_key_width(es.drop_last());
        assert forall|j: int| 0 <= j < es.len() - 1 implies #[trigger] es[j] == es.drop_last()[j] by {}
        if es.len() > 1 && max_key_width(es) == max_key_width(es.drop_last()) {
            let j = choose|j: int| 0 <= j < es.drop_last().len() && text_width(json_quoted(#[trigger] es.drop_last()[j].key))
                == max_key_width(es.drop_last());
            assert(es[j] == es.drop_last()[j]);
        } else {
            assert(text_width(json_quoted(es[es.len() - 1].key)) == max_key_width(es));
        }
    }
}

/// The sorted rendered lines are the lines in `lines_order`.
proof fn lemma_sorted_is_sort_by(ls: Seq<Seq<char>>, sorted: Seq<Seq<char>>)
    requires
        sorted_by(sorted, lines_order()),
        sorted.to_multiset() == ls.to_multiset(),
    ensures
        sorted == ls.sort_by(lines_order()),
{
    lemma_chars_le_total();
    ls.lemma_sort_by_ensures(lines_order());
    vstd::seq_lib::lemma_sorted_unique(sorted, ls.sort_by(lines_order()), lines_order());
}

/// The text between newlines, in order (one more piece than newlines).
pub open spec fn pieces(c: Seq<char>) -> Seq<Seq<char>>
    decreases c.len(),
{
    if c.len() == 0 {
        seq![seq![]]
    } else {
        let p = pieces(c.drop_last());
        if c.last() == '\n' {
            p.push(seq![])
        } else {
            p.update(p.len() - 1, p.last().push(c.last()))
        }
    }
}

pub open spec fn strip_cr(l: Seq<char>) -> Seq<char> {
    if l.len() > 0 && l.last() == '\r' {
        l.drop_last()
    } else {
        l
    }
}

/// The pieces without a final carriage return, empty ones left out.
pub open spec fn kept(ps: Seq<Seq<char>>) -> Seq<Seq<char>>
    decreases ps.len(),
{
    if ps.len() == 0 {
        seq![]
    } else {
        let l = strip_cr(ps.last());
        if l.len() > 0 {
            kept(ps.drop_last()).push(l)
        } else {
            kept(ps.drop_last())
        }
    }
}

/// The non-empty lines of a text, each without its line ending.
pub open spec fn content_lines(c: Seq<char>) -> Seq<Seq<char>> {
    kept(pieces(c))
}

/// Line `l` gives entry `e`: in the writer's form it holds `e` and nothing
/// else; in any other form serde_json reads `e` from it.
pub open spec fn line_gives(l: Seq<char>, e: EntryView) -> bool {
    if holds_entry(l) {
        parses_to(l, e)
    } else {
        lenient_entry(l) == Some(e)
    }
}

/// Line `l` gives no entry in either form.
pub open spec fn line_fails(l: Seq<char>) -> bool {
    !holds_entry(l) && lenient_entry(l) is None
}

pub open spec fn lines_parse_to(ls: Seq<Seq<char>>, es: Seq<EntryView>) -> bool {
    &&& es.len() == ls.len()
    &&& forall|i: int| 0 <= i < ls.len() ==> #[trigger] line_gives(ls[i], es[i])
}

pub open spec fn key_order() -> spec_fn(EntryView, EntryView) -> bool {
    |a: EntryView, b: EntryView| chars_le(a.key, b.key)
}

proof fn lemma_pieces_nonempty(c: Seq<char>)
    ensures
        pieces(c).len() >= 1,
    decreases c.len(),
{
    if c.len() > 0 {
        lemma_pieces_nonempty(c.drop_last());
    }
}

/// Splits a text into its non-empty lines.
fn split_lines(t: &Vec<char>) -> (r: Vec<Vec<char>>)
    ensures
        line_views(r@) == content_lines(t@),
{
    let mut out: Vec<Vec<char>> = Vec::new();
    let mut cur: Vec<char> = Vec::new();
    let ghost mut done: Seq<Seq<char>> = seq![];
    let mut i: usize = 0;
    assert(t@.take(0) =~= Seq::<char>::empty());
    while i < t.len()
        invariant
            i <= t@.len(),
            pieces(t@.take(i as int)) == done.push(cur@),
            line_views(out@) == kept(done),
        decreases t@.len() - i,
    {
        let c = t[i];
        proof {
            assert(t@.take(i + 1).drop_last() =~= t@.take(i as int));
            assert(t@.take(i + 1).last() == c);
        }
        if c == '\n' {
            let mut line = cur;
            let n = line.len();
            if n > 0 && line[n - 1] == '\r' {
                line.pop();
            }
            proof {
                assert(line@ == strip_cr(done.push(cur@).last()));
                assert(done.push(cur@).drop_last() =~= done);
            }
            if line.len() > 0 {
                let ghost out0 = out@;
                out.push(line);
                assert(line_views(out@) =~= line_views(out0).push(line@));
            }
            proof {
                done = done.push(cur@);
            }
            cur = Vec::new();
        } else {
            let ghost cur0 = cur@;
            cur.push(c);
            proof {
                assert(done.push(cur0).update(done.len() as int, cur0.push(c)) =~= done.push(cur@));
            }
        }
        i = i + 1;
    }
    assert(t@.take(i as int) =~= t@);
    let mut line = cur;
    let n = line.len();
    if n > 0 && line[n - 1] == '\r' {
        line.pop();
    }
    proof {
        assert(line@ == strip_cr(done.push(cur@).last()));
        assert(done.push(cur@).drop_last() =~= done);
    }
    if line.len() > 0 {
        let ghost out0 = out@;
        out.push(line);
        assert(line_views(out@) =~= line_views(out0).push(line@));
    }
    out
}

/// Relies on rayon's `par_sort_unstable_by`: given a comparator that is a
/// total order on keys (`ManifestEntry::key_cmp`), the entries come out in
/// that order, the same entries; equal keys in no particular order.
#[verifier::external_body]
pub(crate) fn sort_by_key(v: &mut Vec<ManifestEntry>)
    ensures
        sorted_by(key_views(final(v)@), key_order()),
        key_views(final(v)@).to_multiset() == key_views(old(v)@).to_multiset(),
{
    v.par_sort_unstable_by(ManifestEntry::key_cmp);
}

/// Renders lines from key literals, their display widths and record
/// objects: each key is padded with spaces to two columns past the widest,
/// then its record follows; the lines are sorted in byte order and joined
/// by newlines.
pub fn render_aligned(keys: &Vec<Vec<char>>, widths: &Vec<usize>, records: &Vec<Vec<char>>) -> (r: String)
    requires
        keys@.len() == widths@.len(),
        keys@.len() == records@.len(),
    ensures
        r@ == aligned_text(line_views(keys@), widths@, line_views(records@)),
{
    let ghost al = aligned_lines(line_views(keys@), widths@, line_views(records@));
    let mut maxw: usize = 0;
    let mut i: usize = 0;
    while i < widths.len()
        invariant
            i <= widths@.len(),
            maxw == max_width(widths@.take(i as int)),
        decreases widths@.len() - i,
    {
        proof {
            assert(widths@.take(i + 1).drop_last() =~= widths@.take(i as int));
        }
        if widths[i] > maxw {
            maxw = widths[i];
        }
        i = i + 1;
    }
    assert(widths@.take(i as int) =~= widths@);
    let pad: u128 = maxw as u128 + 2;
    proof {
        lemma_max_width(widths@);
    }
    let mut lines: Vec<Vec<char>> = Vec::new();
    let mut i: usize = 0;
    while i < keys.len()
        invariant
            i <= keys@.len(),
            keys@.len() == widths@.len(),
            keys@.len() == records@.len(),
            al == aligned_lines(line_views(keys@), widths@, line_views(records@)),
            pad == max_width(widths@) + 2,
            forall|j: int| 0 <= j < widths@.len() ==> #[trigger] widths@[j] <= max_width(widths@),
            line_views(lines@) == al.take(i as int),
        decreases keys@.len() - i,
    {
        let mut line: Vec<char> = Vec::new();
        push_all(&mut line, &keys[i]);
        push_spaces(&mut line, pad - widths[i] as u128);
        push_all(&mut line, &records[i]);
        let ghost lines0 = lines@;
        lines.push(line);
        proof {
            assert(line@ =~= al[i as int]);
            assert(line_views(lines@) =~= line_views(lines0).push(line@));
            assert(al.take(i + 1) =~= al.take(i as int).push(al[i as int]));
        }
        i = i + 1;
    }
    assert(al.take(i as int) =~= al);
    let mut sorted = lines;
    sort_lines(&mut sorted);
    proof {
        lemma_sorted_is_sort_by(al, line_views(sorted@));
    }
    let joined = join(&sorted);
    string_of(&joined)
}

impl ManifestEntry {
    /// Renders entries as aligned lines: the key literal, spaces up to one
    /// column for all lines (two past the widest key, in display columns), the
    /// record object. The lines are sorted in byte order and joined by newlines.
    pub fn serialize_manifests(entries: &[ManifestEntry]) -> (r: String)
        ensures
            r@ == manifest_text(key_views(entries@)),
    {
        let ghost kv = key_views(entries@);
        let mut keys: Vec<Vec<char>> = Vec::new();
        let mut widths: Vec<usize> = Vec::new();
        let mut records: Vec<Vec<char>> = Vec::new();
        let mut i: usize = 0;
        while i < entries.len()
            invariant
                i <= entries@.len(),
                kv == key_views(entries@),
                keys@.len() == i,
                widths@.len() == i,
                records@.len() == i,
                forall|j: int| 0 <= j < i ==> (#[trigger] keys@[j])@ == json_quoted(kv[j].key),
                forall|j: int| 0 <= j < i ==> #[trigger] widths@[j] == text_width(json_quoted(kv[j].key)),
                forall|j: int| 0 <= j < i ==> (#[trigger] records@[j])@ == record_text(kv[j].record),
            decreases entries@.len() - i,
        {
            let q = quote(entries[i].path_key());
            let w = width_of(q.as_str());
            keys.push(chars_of(q.as_str()));
            widths.push(w);
            let mut rec: Vec<char> = Vec::new();
            push_record(&mut rec, entries[i].record());
            proof {
                assert(kv[i as int] == entries@[i as int]@);
                assert(rec@ =~= record_text(kv[i as int].record));
            }
            records.push(rec);
            i = i + 1;
        }
        proof {
            lemma_max_width_eq(widths@, kv);
            assert(aligned_lines(line_views(keys@), widths@, line_views(records@)) =~= rendered_lines(kv));
        }
        render_aligned(&keys, &widths, &records)
    }

    /// Reads a manifest: each non-empty line as `deserialize_line` does, then
    /// the entries sorted by key (equal keys in no particular order). Fails
    /// where one line gives no entry.
    pub fn deserialize_manifests(content: &str) -> (r: Result<Vec<ManifestEntry>, ManifestError>)
        ensures
            r matches Ok(v) ==> sorted_by(key_views(v@), key_order()) && exists|es: Seq<EntryView>|
                lines_parse_to(content_lines(content@), es) && #[trigger] key_views(v@).to_multiset()
                    == es.to_multiset(),
            r is Err <==> exists|i: int|
                0 <= i < content_lines(content@).len() && line_fails(
                    #[trigger] content_lines(content@)[i],
                ),
            r is Err ==> r == Err::<Vec<ManifestEntry>, ManifestError>(ManifestError::MalformedLine),
    {
        let t = chars_of(content);
        let lines = split_lines(&t);
        let ghost ls = content_lines(content@);
        let mut parsed: Vec<ManifestEntry> = Vec::new();
        let mut i: usize = 0;
        while i < lines.len()
            invariant
                i <= lines@.len(),
                line_views(lines@) == ls,
                ls == content_lines(content@),
                lines_parse_to(ls.take(i as int), key_views(parsed@)),
            decreases lines@.len() - i,
        {
            let l = string_of(&lines[i]);
            match ManifestEntry::deserialize_line(l.as_str()) {
                Ok(e) => {
                    let ghost prev = key_views(parsed@);
                    parsed.push(e);
                    proof {
                        assert(key_views(parsed@) =~= prev.push(e@));
                        assert(ls[i as int] == l@);
                        assert(ls.take(i + 1) =~= ls.take(i as int).push(ls[i as int]));
                        assert(line_gives(ls[i as int], e@));
                        assert forall|j: int| 0 <= j < i + 1 implies #[trigger] line_gives(
                            ls.take(i + 1)[j],
                            key_views(parsed@)[j],
                        ) by {
                            if j < i {
                                assert(line_gives(ls.take(i as int)[j], prev[j]));
                            }
                        }
                    }
                },
                Err(_) => {
                    proof {
                        assert(ls[i as int] == l@);
                        assert(line_fails(ls[i as int]));
                    }
                    return Err(ManifestError::MalformedLine);
                },
            }
            i = i + 1;
        }
        proof {
            assert(ls.take(i as int) =~= ls);
        }
        let mut sorted = parsed;
        sort_by_key(&mut sorted);
        proof {
            assert forall|k: int| 0 <= k < ls.len() implies !line_fails(#[trigger] ls[k]) by {
                assert(line_gives(ls.take(i as int)[k], key_views(parsed@)[k]));
            }
        }
        Ok(sorted)
    }
}

proof fn lemma_map_multiset<A, B>(a: Seq<A>, b: Seq<A>, f: spec_fn(A) -> B)
    requires
        a.to_multiset() == b.to_multiset(),
    ensures
        a.map_values(f).to_multiset() == b.map_values(f).to_multiset(),
    decreases a.len(),
{
    if a.len() == 0 {
        assert(b.to_multiset().len() == 0);
        assert(b.len() == 0);
        assert(a.map_values(f) =~= b.map_values(f));
    } else {
        let x = a.last();
        assert(a.to_multiset().contains(x));
        assert(b.to_multiset().contains(x));
        let j = choose|j: int| 0 <= j < b.len() && b[j] == x;
        let b2 = b.remove(j);
        assert(a.drop_last().to_multiset() == a.to_multiset().remove(x)) by {
            assert(a =~= a.drop_last().push(x));
        }
        assert(b2.to_multiset() == b.to_multiset().remove(x));
        lemma_map_multiset(a.drop_last(), b2, f);
        assert(a.map_values(f) =~= a.drop_last().map_values(f).push(f(x)));
        assert(b.map_values(f) =~= b2.map_values(f).insert(j, f(x)));
    }
}

proof fn lemma_max_key_width_same(a: Seq<EntryView>, b: Seq<EntryView>)
    requires
        forall|x: EntryView| a.contains(x) ==> b.contains(x),
        forall|x: EntryView| b.contains(x) ==> a.contains(x),
    ensures
        max_key_width(a) == max_key_width(b),
{
    lemma_max_key_width(a);
    lemma_max_key_width(b);
    if a.len() > 0 {
        let i = choose|i: int| 0 <= i < a.len() && text_width(json_quoted(#[trigger] a[i].key))
            == max_key_width(a);
        assert(a.contains(a[i]));
        let j = choose|j: int| 0 <= j < b.len() && b[j] == a[i];
        assert(text_width(json_quoted(b[j].key)) <= max_key_width(b));
    }
    if b.len() > 0 {
        let i = choose|i: int| 0 <= i < b.len() && text_width(json_quoted(#[trigger] b[i].key))
            == max_key_width(b);
        assert(b.contains(b[i]));
        let j = choose|j: int| 0 <= j < a.len() && a[j] == b[i];
        assert(text_width(json_quoted(a[j].key)) <= max_key_width(a));
    }
    if a.len() == 0 && b.len() > 0 {
        assert(b.contains(b[0]));
    }
    if b.len() == 0 && a.len() > 0 {
        assert(a.contains(a[0]));
    }
}

proof fn lemma_sort_same(a: Seq<Seq<char>>, b: Seq<Seq<char>>)
    requires
        a.to_multiset() == b.to_multiset(),
    ensures
        a.sort_by(lines_order()) == b.sort_by(lines_order()),
{
    lemma_chars_le_total();
    a.lemma_sort_by_ensures(lines_order());
    b.lemma_sort_by_ensures(lines_order());
    vstd::seq_lib::lemma_sorted_unique(a.sort_by(lines_order()), b.sort_by(lines_order()), lines_order());
}

proof fn lemma_same_elements<A>(a: Seq<A>, b: Seq<A>)
    requires
        a.to_multiset() == b.to_multiset(),
    ensures
        forall|x: A| a.contains(x) ==> b.contains(x),
        forall|x: A| b.contains(x) ==> a.contains(x),
{
    assert forall|x: A| a.contains(x) implies b.contains(x) by {
        assert(a.to_multiset().contains(x));
    }
    assert forall|x: A| b.contains(x) implies a.contains(x) by {
        assert(b.to_multiset().contains(x));
    }
}

/// The text of a manifest does not depend on the order of its entries:
/// the same entries, listed in any order, give the same bytes.
pub proof fn lemma_order_independent(a: Seq<EntryView>, b: Seq<EntryView>)
    requires
        a.to_multiset() == b.to_multiset(),
    ensures
        manifest_text(a) == manifest_text(b),
{
    lemma_same_elements(a, b);
    lemma_max_key_width_same(a, b);
    let f = |e: EntryView| line_text(e, pad_width(a));
    lemma_map_multiset(a, b, f);
    assert(rendered_lines(a) =~= a.map_values(f));
    assert(rendered_lines(b) =~= b.map_values(f));
    lemma_sort_same(rendered_lines(a), rendered_lines(b));
}

pub open spec fn no_newline(s: Seq<char>) -> bool {
    forall|j: int| 0 <= j < s.len() ==> #[trigger] s[j] != '\n'
}

proof fn lemma_no_newline_concat(a: Seq<char>, b: Seq<char>)
    requires
        no_newline(a),
        no_newline(b),
    ensures
        no_newline(a + b),
{
    assert forall|j: int| 0 <= j < (a + b).len() implies #[trigger] (a + b)[j] != '\n' by {
        if j < a.len() {
            assert((a + b)[j] == a[j]);
        } else {
            assert((a + b)[j] == b[j - a.len()]);
        }
    }
}

proof fn lemma_decimal_no_newline(n: nat)
    ensures
        no_newline(decimal(n)),
        no_newline(signed_decimal(n as int)),
        no_newline(signed_decimal(-(n as int))),
{
    lemma_decimal_shape(n);
    assert forall|j: int| 0 <= j < decimal(n).len() implies #[trigger] decimal(n)[j] != '\n' by {
        assert(crate::decimal::is_digit(decimal(n)[j]));
    }
    assert(no_newline(seq!['-']));
    lemma_no_newline_concat(seq!['-'], decimal(n));
    if n > 0 {
        assert(signed_decimal(-(n as int)) == seq!['-'] + decimal(n));
    }
}

proof fn lemma_quoted_nl(s: Seq<char>)
    ensures
        no_newline(json_quoted(s)),
{
    lemma_quoted_no_newline(s);
}

/// A record object is one line, ending in a closing brace.
proof fn lemma_record_shape(m: MetaView)
    ensures
        no_newline(record_text(m)),
        record_text(m).len() > 0,
        record_text(m).last() == '}',
{
    reveal_strlit("{\"path_b64\":");
    reveal_strlit(",\"ty\":");
    reveal_strlit(",\"size\":");
    reveal_strlit(",\"mtime_ns\":");
    reveal_strlit(",\"mode\":");
    reveal_strlit(",\"link_target\":");
    reveal_strlit("}");
    let close = "}"@;
    assert(no_newline(close));
    let lt = link_text(m.link_target);
    if m.link_target is Some {
        lemma_quoted_nl(m.link_target->Some_0);
        assert(no_newline(",\"link_target\":"@));
        lemma_no_newline_concat(",\"link_target\":"@, json_quoted(m.link_target->Some_0));
    } else {
        assert(no_newline(lt));
    }
    lemma_no_newline_concat(lt, close);
    let mt = mode_text(m.mode);
    if m.mode is Some {
        lemma_decimal_no_newline(m.mode->Some_0 as nat);
        assert(no_newline(",\"mode\":"@));
        lemma_no_newline_concat(",\"mode\":"@, decimal(m.mode->Some_0 as nat));
    } else {
        assert(no_newline(mt));
    }
    lemma_no_newline_concat(mt, tail_link(m.link_target));
    let v = m.mtime_ns as int;
    if v >= 0 {
        lemma_decimal_no_newline(v as nat);
    } else {
        lemma_decimal_no_newline((-v) as nat);
    }
    assert(no_newline(",\"mtime_ns\":"@));
    lemma_no_newline_concat(",\"mtime_ns\":"@, signed_decimal(v));
    lemma_no_newline_concat(",\"mtime_ns\":"@ + signed_decimal(v), tail_mode(m.mode, m.link_target));
    let st = size_text(m.size);
    if m.size is Some {
        lemma_decimal_no_newline(m.size->Some_0 as nat);
        assert(no_newline(",\"size\":"@));
        lemma_no_newline_concat(",\"size\":"@, decimal(m.size->Some_0 as nat));
    } else {
        assert(no_newline(st));
    }
    lemma_no_newline_concat(st, tail_mtime(m.mtime_ns, m.mode, m.link_target));
    lemma_quoted_nl(crate::entry::ty_name(m.ty));
    assert(no_newline(",\"ty\":"@));
    lemma_no_newline_concat(",\"ty\":"@, json_quoted(crate::entry::ty_name(m.ty)));
    lemma_no_newline_concat(",\"ty\":"@ + json_quoted(crate::entry::ty_name(m.ty)), tail_size(m));
    lemma_quoted_nl(m.path_b64);
    assert(no_newline("{\"path_b64\":"@));
    lemma_no_newline_concat("{\"path_b64\":"@, json_quoted(m.path_b64));
    lemma_no_newline_concat("{\"path_b64\":"@ + json_quoted(m.path_b64), tail_ty(m));
    assert(record_text(m).last() == tail_link(m.link_target).last());
}

proof fn lemma_line_shape(e: EntryView, pad: nat)
    ensures
        no_newline(line_text(e, pad)),
        line_text(e, pad).len() > 0,
        line_text(e, pad).last() == '}',
        line_holds(line_text(e, pad), e),
{
    let k = json_quoted(e.key);
    let sp = spaces(pad - text_width(k));
    lemma_record_shape(e.record);
    lemma_quoted_nl(e.key);
    assert(no_newline(sp));
    lemma_no_newline_concat(k, sp);
    lemma_no_newline_concat(k + sp, record_text(e.record));
    assert(all_ws(sp));
    assert(all_ws(Seq::<char>::empty()));
    let w = (Seq::<char>::empty(), sp, Seq::<char>::empty());
    assert(line_text(e, pad) =~= w.0 + k + w.1 + record_text(e.record) + w.2);
    assert(line_split(line_text(e, pad), e, w));
}

proof fn lemma_pieces_append(x: Seq<char>, y: Seq<char>)
    requires
        no_newline(y),
    ensures
        pieces(x).len() >= 1,
        pieces(x + y) == pieces(x).update(pieces(x).len() - 1, pieces(x).last() + y),
    decreases y.len(),
{
    lemma_pieces_nonempty(x);
    let p = pieces(x);
    if y.len() == 0 {
        assert(x + y =~= x);
        assert(p.update(p.len() - 1, p.last() + y) =~= p);
    } else {
        let y1 = y.drop_last();
        let c = y.last();
        assert(no_newline(y1));
        lemma_pieces_append(x, y1);
        assert((x + y).drop_last() =~= x + y1);
        assert((x + y).last() == c);
        assert(c != '\n');
        assert((p.last() + y1).push(c) =~= p.last() + y);
        assert(pieces(x + y) =~= p.update(p.len() - 1, p.last() + y));
    }
}

proof fn lemma_pieces_join(ls: Seq<Seq<char>>)
    requires
        ls.len() >= 1,
        forall|i: int| 0 <= i < ls.len() ==> no_newline(#[trigger] ls[i]),
    ensures
        pieces(join_lines(ls)) == ls,
    decreases ls.len(),
{
    if ls.len() == 1 {
        lemma_pieces_append(seq![], ls[0]);
        assert(Seq::<char>::empty() + ls[0] =~= ls[0]);
        assert(pieces(Seq::<char>::empty()).update(0, Seq::<char>::empty() + ls[0]) =~= ls);
    } else {
        let front = ls.drop_last();
        lemma_pieces_join(front);
        let x = join_lines(front).push('\n');
        assert(x.drop_last() =~= join_lines(front));
        assert(pieces(x) == front.push(seq![]));
        lemma_pieces_append(x, ls.last());
        assert(join_lines(ls) =~= x + ls.last());
        assert(Seq::<char>::empty() + ls.last() =~= ls.last());
        assert(front.push(seq![]).update(front.len() as int, ls.last()) =~= ls);
    }
}

proof fn lemma_kept_all(ls: Seq<Seq<char>>)
    requires
        forall|i: int| 0 <= i < ls.len() ==> (#[trigger] ls[i]).len() > 0 && ls[i].last()
            != '\r',
    ensures
        kept(ls) == ls,
    decreases ls.len(),
{
    if ls.len() > 0 {
        lemma_kept_all(ls.drop_last());
        assert(ls.drop_last().push(ls.last()) =~= ls);
    }
}

/// Reading back the text of a manifest succeeds, and rendering what was
/// read gives the same text again.
pub proof fn lemma_round_trip(es: Seq<EntryView>, read: Seq<EntryView>)
    requires
        exists|p: Seq<EntryView>|
            lines_parse_to(content_lines(manifest_text(es)), p) && #[trigger] read.to_multiset()
                == p.to_multiset(),
    ensures
        manifest_text(read) == manifest_text(es),
{
    let p = choose|p: Seq<EntryView>|
        lines_parse_to(content_lines(manifest_text(es)), p) && #[trigger] read.to_multiset()
            == p.to_multiset();
    lemma_text_lines(es);
    lemma_chars_le_total();
    rendered_lines(es).lemma_sort_by_ensures(lines_order());
    let ls = rendered_lines(es).sort_by(lines_order());
    let pad = pad_width(es);
    let f = |e: EntryView| line_text(e, pad);
    assert forall|i: int| 0 <= i < p.len() implies #[trigger] p[i] == es[line_source(es, ls[i])]
        && ls[i] == f(p[i]) && 0 <= line_source(es, ls[i]) < es.len() by {
        let j = line_source(es, ls[i]);
        lemma_line_shape(es[j], pad);
        assert(line_gives(ls[i], p[i]));
        assert(parses_to(ls[i], p[i]));
    }
    assert(p.map_values(f) =~= ls);
    assert forall|x: EntryView| p.contains(x) implies es.contains(x) by {
        let i = choose|i: int| 0 <= i < p.len() && p[i] == x;
        let j = line_source(es, ls[i]);
        assert(es[j] == x);
    }
    assert forall|x: EntryView| es.contains(x) implies p.contains(x) by {
        let j = choose|j: int| 0 <= j < es.len() && es[j] == x;
        assert(rendered_lines(es)[j] == f(x));
        assert(rendered_lines(es).to_multiset().contains(f(x)));
        assert(ls.to_multiset().contains(f(x)));
        let i = choose|i: int| 0 <= i < ls.len() && ls[i] == f(x);
        lemma_line_shape(x, pad);
        assert(line_gives(ls[i], p[i]));
        assert(parses_to(ls[i], p[i]));
        assert(p[i] == x);
    }
    lemma_same_elements(read, p);
    lemma_max_key_width_same(read, es);
    lemma_map_multiset(read, p, f);
    assert(rendered_lines(read) =~= read.map_values(f));
    lemma_sort_same(rendered_lines(read), rendered_lines(es));
}

/// The index of an entry whose line is `l`, where there is one.
pub open spec fn line_source(es: Seq<EntryView>, l: Seq<char>) -> int {
    choose|j: int| 0 <= j < es.len() && line_text(es[j], pad_width(es)) == l
}

/// The lines of a manifest's text are its rendered lines in byte order; each
/// is the line of one of its entries.
pub proof fn lemma_text_lines(es: Seq<EntryView>)
    ensures
        content_lines(manifest_text(es)) == rendered_lines(es).sort_by(lines_order()),
        forall|i: int| 0 <= i < content_lines(manifest_text(es)).len() ==> ({
            let j = line_source(es, content_lines(manifest_text(es))[i]);
            &&& 0 <= j < es.len()
            &&& #[trigger] content_lines(manifest_text(es))[i] == line_text(es[j], pad_width(es))
        }),
{
    lemma_chars_le_total();
    let rl = rendered_lines(es);
    rl.lemma_sort_by_ensures(lines_order());
    let ls = rl.sort_by(lines_order());
    assert forall|i: int| 0 <= i < ls.len() implies ({
        let j = line_source(es, #[trigger] ls[i]);
        &&& 0 <= j < es.len()
        &&& ls[i] == line_text(es[j], pad_width(es))
    }) by {
        assert(ls.to_multiset().contains(ls[i]));
        assert(rl.to_multiset().contains(ls[i]));
        let j = choose|j: int| 0 <= j < rl.len() && rl[j] == ls[i];
        assert(line_text(es[j], pad_width(es)) == ls[i]);
    }
    assert forall|i: int| 0 <= i < ls.len() implies no_newline(#[trigger] ls[i]) && ls[i].len() > 0
        && ls[i].last() != '\r' by {
        let j = line_source(es, ls[i]);
        lemma_line_shape(es[j], pad_width(es));
    }
    if ls.len() == 0 {
        assert(join_lines(ls) =~= Seq::<char>::empty());
        let ps = pieces(Seq::<char>::empty());
        assert(ps =~= seq![Seq::<char>::empty()]);
        assert(ps.drop_last() =~= Seq::<Seq<char>>::empty());
        assert(kept(ps.drop_last()) =~= Seq::<Seq<char>>::empty());
        assert(ps.last() =~= Seq::<char>::empty());
        assert(strip_cr(ps.last()).len() == 0);
        assert(kept(ps) =~= Seq::<Seq<char>>::empty());
        assert(content_lines(manifest_text(es)) =~= ls);
    } else {
        lemma_pieces_join(ls);
        lemma_kept_all(ls);
    }
}

/// Every line of a manifest's text holds an entry, so reading the text
/// back never fails.
pub proof fn lemma_text_reads_back(es: Seq<EntryView>)
    ensures
        forall|i: int| 0 <= i < content_lines(manifest_text(es)).len() ==> holds_entry(
            #[trigger] content_lines(manifest_text(es))[i],
        ),
{
    lemma_text_lines(es);
    assert forall|i: int| 0 <= i < content_lines(manifest_text(es)).len() implies holds_entry(
        #[trigger] content_lines(manifest_text(es))[i],
    ) by {
        let l = content_lines(manifest_text(es))[i];
        let j = line_source(es, l);
        lemma_line_shape(es[j], pad_width(es));
    }
}

/// In a manifest's text every record starts at the same display column:
/// each line is a key literal, spaces, a record object, and the key's width
/// plus the spaces is the same for all lines.
pub proof fn lemma_aligned(es: Seq<EntryView>)
    ensures
        forall|i: int| 0 <= i < content_lines(manifest_text(es)).len() ==> exists|j: int, n: int|
            0 <= j < es.len() && n >= 2 && #[trigger] content_lines(manifest_text(es))[i]
                == json_quoted(es[j].key) + spaces(n) + record_text(es[j].record) && text_width(
                json_quoted(es[j].key),
            ) + n == pad_width(es),
{
    lemma_text_lines(es);
    lemma_max_key_width(es);
    assert forall|i: int| 0 <= i < content_lines(manifest_text(es)).len() implies exists|
        j: int,
        n: int,
    |
        0 <= j < es.len() && n >= 2 && #[trigger] content_lines(manifest_text(es))[i]
            == json_quoted(es[j].key) + spaces(n) + record_text(es[j].record) && text_width(
            json_quoted(es[j].key),
        ) + n == pad_width(es) by {
        let l = content_lines(manifest_text(es))[i];
        let j = line_source(es, l);
        let n = pad_width(es) - text_width(json_quoted(es[j].key));
        assert(text_width(json_quoted(es[j].key)) <= max_key_width(es));
        assert(l == json_quoted(es[j].key) + spaces(n) + record_text(es[j].record));
    }
}

} // verus!
