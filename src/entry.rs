//! One manifest record: the types, their text form, and reading it back.
use vstd::prelude::*;
use crate::decimal::{
    decimal, is_digit, lemma_decimal_injective, number_at, push_decimal, push_signed_decimal, read_decimal,
    read_signed_decimal, signed_decimal,
};
use crate::json::{
    field_views, fields_view, json_fields, json_leading, json_quoted, quote, quoted_at, read_leading_string, read_object_fields,
    read_quoted, JsonValue, JsonView,
};
use crate::codec::{b64_text, encode_path, lossy_text, lossy_utf8};
use vstd::utf8::{decode_utf8, valid_utf8};
use crate::error::ManifestError;
use crate::text::{
    all_ws, chars_at, chars_of, is_ws, lemma_seq_at_concat, lemma_skip_lands, push_all, push_char, push_str,
    seq_at, skip_ws, string_of, chars_le, chars_le_exec, lemma_chars_le_connected,
    lemma_chars_le_antisymmetric, lemma_chars_le_reflexive,
};

verus! {

/// What kind of node an entry is, seen at the link itself.
#[derive(Clone, Copy, Debug, PartialEq, Eq, Structural)]
pub enum NodeType {
    File,
    Dir,
    Symlink,
    Other,
}

/// The metadata stored for one entry.
#[derive(Clone, Debug)]
pub struct FileMeta {
    /// Base64 (no padding) of the raw relative path bytes.
    pub path_b64: String,
    pub ty: NodeType,
    /// Byte count; present for files only.
    pub size: Option<u64>,
    /// Modification time in nanoseconds since the Unix epoch.
    pub mtime_ns: i128,
    /// Permission bits, masked to `0o7777`, where the platform has them.
    pub mode: Option<u32>,
    /// Target of a symlink (lossy UTF-8); present for symlinks only.
    pub link_target: Option<String>,
}

/// What a record holds, as mathematical values.
pub struct MetaView {
    pub path_b64: Seq<char>,
    pub ty: NodeType,
    pub size: Option<u64>,
    pub mtime_ns: i128,
    pub mode: Option<u32>,
    pub link_target: Option<Seq<char>>,
}

impl View for FileMeta {
    type V = MetaView;

    open spec fn view(&self) -> MetaView {
        MetaView {
            path_b64: self.path_b64@,
            ty: self.ty,
            size: self.size,
            mtime_ns: self.mtime_ns,
            mode: self.mode,
            link_target: opt_view(self.link_target),
        }
    }
}

/// The JSON name of a node type.
pub open spec fn ty_name(t: NodeType) -> Seq<char> {
    match t {
        NodeType::File => "file"@,
        NodeType::Dir => "dir"@,
        NodeType::Symlink => "symlink"@,
        NodeType::Other => "other"@,
    }
}

pub open spec fn size_text(size: Option<u64>) -> Seq<char> {
    match size {
        Some(n) => ",\"size\":"@ + decimal(n as nat),
        None => seq![],
    }
}

pub open spec fn mode_text(mode: Option<u32>) -> Seq<char> {
    match mode {
        Some(n) => ",\"mode\":"@ + decimal(n as nat),
        None => seq![],
    }
}

pub open spec fn link_text(link: Option<Seq<char>>) -> Seq<char> {
    match link {
        Some(s) => ",\"link_target\":"@ + json_quoted(s),
        None => seq![],
    }
}

pub open spec fn tail_link(link: Option<Seq<char>>) -> Seq<char> {
    link_text(link) + "}"@
}

pub open spec fn tail_mode(mode: Option<u32>, link: Option<Seq<char>>) -> Seq<char> {
    mode_text(mode) + tail_link(link)
}

pub open spec fn tail_mtime(mtime: i128, mode: Option<u32>, link: Option<Seq<char>>) -> Seq<
    char,
> {
    ",\"mtime_ns\":"@ + signed_decimal(mtime as int) + tail_mode(mode, link)
}

pub open spec fn tail_size(m: MetaView) -> Seq<char> {
    size_text(m.size) + tail_mtime(m.mtime_ns, m.mode, m.link_target)
}

pub open spec fn tail_ty(m: MetaView) -> Seq<char> {
    ",\"ty\":"@ + json_quoted(ty_name(m.ty)) + tail_size(m)
}

/// The JSON object of a record: its fields in a fixed order, absent optional
/// fields left out, no whitespace.
pub open spec fn record_text(m: MetaView) -> Seq<char> {
    "{\"path_b64\":"@ + json_quoted(m.path_b64) + tail_ty(m)
}

pub open spec fn opt_view(o: Option<String>) -> Option<Seq<char>> {
    match o {
        Some(s) => Some(s@),
        None => None,
    }
}

fn ty_str(t: NodeType) -> (r: &'static str)
    ensures
        r@ == ty_name(t),
{
    match t {
        NodeType::File => "file",
        NodeType::Dir => "dir",
        NodeType::Symlink => "symlink",
        NodeType::Other => "other",
    }
}

fn push_quoted(out: &mut Vec<char>, s: &str)
    ensures
        final(out)@ == old(out)@ + json_quoted(s@),
{
    let q = quote(s);
    push_str(out, q.as_str());
}

fn push_tail_link(out: &mut Vec<char>, m: &FileMeta)
    ensures
        final(out)@ == old(out)@ + tail_link(m@.link_target),
{
    let ghost start = out@;
    match &m.link_target {
        Some(s) => {
            push_str(out, ",\"link_target\":");
            push_quoted(out, s.as_str());
        },
        None => {},
    }
    push_str(out, "}");
    assert(out@ =~= start + tail_link(m@.link_target));
}

fn push_tail_mode(out: &mut Vec<char>, m: &FileMeta)
    ensures
        final(out)@ == old(out)@ + tail_mode(m@.mode, m@.link_target),
{
    let ghost start = out@;
    match m.mode {
        Some(n) => {
            push_str(out, ",\"mode\":");
            push_decimal(out, n as u128);
        },
        None => {},
    }
    let ghost mid = out@;
    assert(mid =~= start + mode_text(m@.mode));
    push_tail_link(out, m);
    assert(out@ =~= start + tail_mode(m@.mode, m@.link_target));
}

fn push_tail_size(out: &mut Vec<char>, m: &FileMeta)
    ensures
        final(out)@ == old(out)@ + tail_size(m@),
{
    let ghost start = out@;
    match m.size {
        Some(n) => {
            push_str(out, ",\"size\":");
            push_decimal(out, n as u128);
        },
        None => {},
    }
    let ghost mid = out@;
    assert(mid =~= start + size_text(m@.size));
    push_str(out, ",\"mtime_ns\":");
    push_signed_decimal(out, m.mtime_ns);
    push_tail_mode(out, m);
    assert(out@ =~= start + tail_size(m@));
}

/// Appends the JSON object of a record.
pub fn push_record(out: &mut Vec<char>, m: &FileMeta)
    ensures
        final(out)@ == old(out)@ + record_text(m@),
{
    let ghost start = out@;
    push_str(out, "{\"path_b64\":");
    push_quoted(out, m.path_b64.as_str());
    push_str(out, ",\"ty\":");
    push_quoted(out, ty_str(m.ty));
    push_tail_size(out, m);
    assert(out@ =~= start + record_text(m@));
}

proof fn lemma_quoted_at_is_seq_at(t: Seq<char>, p: int, v: Seq<char>)
    ensures
        quoted_at(t, p, v) == seq_at(t, p, json_quoted(v)),
{
}

/// Two texts that differ at position `k` cannot both stand at `j`.
proof fn lemma_not_both_at(t: Seq<char>, j: int, a: Seq<char>, b: Seq<char>, k: int)
    requires
        0 <= k < a.len(),
        k < b.len(),
        a[k] != b[k],
        seq_at(t, j, a),
    ensures
        !seq_at(t, j, b),
{
    assert(t[j + k] == t.subrange(j, j + a.len())[k]);
    if seq_at(t, j, b) {
        assert(t[j + k] == t.subrange(j, j + b.len())[k]);
    }
}

fn read_tail_link(t: &Vec<char>, j: usize) -> (r: Option<(Option<String>, usize)>)
    ensures
        r matches Some((l, e)) ==> e == j + tail_link(opt_view(l)).len() && seq_at(
            t@,
            j as int,
            tail_link(opt_view(l)),
        ),
        forall|l: Option<Seq<char>>| #[trigger]
            seq_at(t@, j as int, tail_link(l)) ==> (r matches Some((x, e)) && opt_view(x) == l),
{
    let _n = t.len();
    let lit = chars_of(",\"link_target\":");
    let close = chars_of("}");
    proof {
        reveal_strlit(",\"link_target\":");
        reveal_strlit("}");
    }
    if chars_at(t, j, &lit) {
        let p = j + lit.len();
        proof {
            assert forall|l: Option<Seq<char>>| #[trigger] seq_at(t@, j as int, tail_link(l)) implies (
            l matches Some(v) && quoted_at(t@, p as int, v) && seq_at(
                t@,
                p + json_quoted(v).len(),
                "}"@,
            )) by {
                if l is None {
                    assert(tail_link(l) =~= "}"@);
                    lemma_not_both_at(t@, j as int, "}"@, lit@, 0);
                } else {
                    let v = l->Some_0;
                    assert(tail_link(l) == lit@ + json_quoted(v) + "}"@);
                    lemma_seq_at_concat(t@, j as int, lit@ + json_quoted(v), "}"@);
                    lemma_seq_at_concat(t@, j as int, lit@, json_quoted(v));
                    lemma_quoted_at_is_seq_at(t@, p as int, v);
                }
            }
        }
        match read_quoted(t, p) {
            Some((v, e)) => {
                if chars_at(t, e, &close) {
                    let s = string_of(&v);
                    proof {
                        lemma_seq_at_concat(t@, j as int, lit@, json_quoted(v@));
                        lemma_seq_at_concat(t@, j as int, lit@ + json_quoted(v@), "}"@);
                        assert(tail_link(Some(v@)) == lit@ + json_quoted(v@) + "}"@);
                    }
                    Some((Some(s), e + 1))
                } else {
                    None
                }
            },
            None => None,
        }
    } else {
        if chars_at(t, j, &close) {
            proof {
                assert(tail_link(None) =~= "}"@);
                assert forall|l: Option<Seq<char>>| #[trigger]
                    seq_at(t@, j as int, tail_link(l)) implies l is None by {
                    if l is Some {
                        let v = l->Some_0;
                        assert(tail_link(l) == lit@ + (json_quoted(v) + "}"@));
                        lemma_seq_at_concat(t@, j as int, lit@, json_quoted(v) + "}"@);
                    }
                }
            }
            Some((None, j + 1))
        } else {
            proof {
                assert forall|l: Option<Seq<char>>| #[trigger]
                    seq_at(t@, j as int, tail_link(l)) implies false by {
                    if l is Some {
                        let v = l->Some_0;
                        assert(tail_link(l) == lit@ + (json_quoted(v) + "}"@));
                        lemma_seq_at_concat(t@, j as int, lit@, json_quoted(v) + "}"@);
                    } else {
                        assert(tail_link(l) =~= "}"@);
                    }
                }
            }
            None
        }
    }
}

proof fn lemma_tail_link_first(l: Option<Seq<char>>)
    ensures
        tail_link(l).len() >= 1,
        tail_link(l)[0] == ',' || tail_link(l)[0] == '}',
        tail_link(l)[0] == ',' ==> tail_link(l).len() >= 3 && tail_link(l)[2] == 'l',
{
    reveal_strlit(",\"link_target\":");
    reveal_strlit("}");
    if l is Some {
        assert(tail_link(l) == ",\"link_target\":"@ + (json_quoted(l->Some_0) + "}"@));
    }
}

proof fn lemma_tail_mode_first(mo: Option<u32>, l: Option<Seq<char>>)
    ensures
        tail_mode(mo, l).len() >= 1,
        tail_mode(mo, l)[0] == ',' || tail_mode(mo, l)[0] == '}',
{
    reveal_strlit(",\"mode\":");
    lemma_tail_link_first(l);
    if mo is Some {
        assert(tail_mode(mo, l) == ",\"mode\":"@ + (decimal(mo->Some_0 as nat) + tail_link(l)));
    } else {
        assert(tail_mode(mo, l) =~= tail_link(l));
    }
}

fn read_tail_mode(t: &Vec<char>, j: usize) -> (r: Option<(Option<u32>, Option<String>, usize)>)
    ensures
        r matches Some((mo, l, e)) ==> e == j + tail_mode(mo, opt_view(l)).len() && seq_at(
            t@,
            j as int,
            tail_mode(mo, opt_view(l)),
        ),
        forall|mo: Option<u32>, l: Option<Seq<char>>| #[trigger]
            seq_at(t@, j as int, tail_mode(mo, l)) ==> (r matches Some((x, y, e)) && x == mo
                && opt_view(y) == l),
{
    let _n = t.len();
    let lit = chars_of(",\"mode\":");
    proof {
        reveal_strlit(",\"mode\":");
    }
    if chars_at(t, j, &lit) {
        let p = j + lit.len();
        proof {
            assert forall|mo: Option<u32>, l: Option<Seq<char>>| #[trigger]
                seq_at(t@, j as int, tail_mode(mo, l)) implies (mo matches Some(n) && number_at(
                t@,
                p as int,
                decimal(n as nat),
            ) && seq_at(t@, p + decimal(n as nat).len(), tail_link(l))) by {
                lemma_tail_link_first(l);
                if mo is None {
                    assert(tail_mode(mo, l) =~= tail_link(l));
                    if tail_link(l)[0] == ',' {
                        lemma_not_both_at(t@, j as int, tail_link(l), lit@, 2);
                    } else {
                        lemma_not_both_at(t@, j as int, tail_link(l), lit@, 0);
                    }
                } else {
                    let n = mo->Some_0;
                    assert(tail_mode(mo, l) == lit@ + decimal(n as nat) + tail_link(l));
                    lemma_seq_at_concat(t@, j as int, lit@ + decimal(n as nat), tail_link(l));
                    lemma_seq_at_concat(t@, j as int, lit@, decimal(n as nat));
                    let q = p + decimal(n as nat).len();
                    assert(t@[q] == tail_link(l)[0]);
                }
            }
        }
        match read_decimal(t, p, 0xffff_ffff) {
            Some((v, q)) => {
                match read_tail_link(t, q) {
                    Some((l, e)) => {
                        proof {
                            assert(tail_mode(Some(v as u32), opt_view(l)) == lit@ + decimal(v as nat)
                                + tail_link(opt_view(l)));
                            lemma_seq_at_concat(t@, j as int, lit@, decimal(v as nat));
                            lemma_seq_at_concat(
                                t@,
                                j as int,
                                lit@ + decimal(v as nat),
                                tail_link(opt_view(l)),
                            );
                        }
                        Some((Some(v as u32), l, e))
                    },
                    None => None,
                }
            },
            None => None,
        }
    } else {
        proof {
            assert forall|mo: Option<u32>, l: Option<Seq<char>>| #[trigger]
                seq_at(t@, j as int, tail_mode(mo, l)) implies mo is None && seq_at(
                t@,
                j as int,
                tail_link(l),
            ) by {
                if mo is Some {
                    let n = mo->Some_0;
                    assert(tail_mode(mo, l) == lit@ + (decimal(n as nat) + tail_link(l)));
                    lemma_seq_at_concat(t@, j as int, lit@, decimal(n as nat) + tail_link(l));
                } else {
                    assert(tail_mode(mo, l) =~= tail_link(l));
                }
            }
        }
        match read_tail_link(t, j) {
            Some((l, e)) => {
                proof {
                    assert(tail_mode(None, opt_view(l)) =~= tail_link(opt_view(l)));
                }
                Some((None, l, e))
            },
            None => None,
        }
    }
}

fn read_tail_mtime(t: &Vec<char>, j: usize) -> (r: Option<
    (i128, Option<u32>, Option<String>, usize),
>)
    ensures
        r matches Some((mt, mo, l, e)) ==> e == j + tail_mtime(mt, mo, opt_view(l)).len()
            && seq_at(t@, j as int, tail_mtime(mt, mo, opt_view(l))),
        forall|mt: i128, mo: Option<u32>, l: Option<Seq<char>>| #[trigger]
            seq_at(t@, j as int, tail_mtime(mt, mo, l)) ==> (r matches Some((x, y, z, e)) && x
                == mt && y == mo && opt_view(z) == l),
{
    let _n = t.len();
    let lit = chars_of(",\"mtime_ns\":");
    if !chars_at(t, j, &lit) {
        proof {
            assert forall|mt: i128, mo: Option<u32>, l: Option<Seq<char>>| #[trigger]
                seq_at(t@, j as int, tail_mtime(mt, mo, l)) implies false by {
                lemma_seq_at_concat(t@, j as int, lit@, signed_decimal(mt as int) + tail_mode(mo, l));
                assert(tail_mtime(mt, mo, l) == lit@ + (signed_decimal(mt as int) + tail_mode(mo, l)));
            }
        }
        return None;
    }
    let p = j + lit.len();
    proof {
        assert forall|mt: i128, mo: Option<u32>, l: Option<Seq<char>>| #[trigger]
            seq_at(t@, j as int, tail_mtime(mt, mo, l)) implies number_at(
            t@,
            p as int,
            signed_decimal(mt as int),
        ) && seq_at(t@, p + signed_decimal(mt as int).len(), tail_mode(mo, l)) by {
            let sd = signed_decimal(mt as int);
            assert(tail_mtime(mt, mo, l) == lit@ + sd + tail_mode(mo, l));
            lemma_seq_at_concat(t@, j as int, lit@ + sd, tail_mode(mo, l));
            lemma_seq_at_concat(t@, j as int, lit@, sd);
            lemma_tail_mode_first(mo, l);
            assert(t@[p + sd.len()] == tail_mode(mo, l)[0]);
        }
    }
    match read_signed_decimal(t, p) {
        Some((v, q)) => {
            match read_tail_mode(t, q) {
                Some((mo, l, e)) => {
                    proof {
                        let sd = signed_decimal(v as int);
                        assert(tail_mtime(v, mo, opt_view(l)) == lit@ + sd + tail_mode(mo, opt_view(l)));
                        lemma_seq_at_concat(t@, j as int, lit@, sd);
                        lemma_seq_at_concat(t@, j as int, lit@ + sd, tail_mode(mo, opt_view(l)));
                    }
                    Some((v, mo, l, e))
                },
                None => None,
            }
        },
        None => None,
    }
}

fn read_tail_size(t: &Vec<char>, j: usize) -> (r: Option<
    (Option<u64>, i128, Option<u32>, Option<String>, usize),
>)
    ensures
        r matches Some((sz, mt, mo, l, e)) ==> ({
            let tail = size_text(sz) + tail_mtime(mt, mo, opt_view(l));
            e == j + tail.len() && seq_at(t@, j as int, tail)
        }),
        forall|sz: Option<u64>, mt: i128, mo: Option<u32>, l: Option<Seq<char>>| #[trigger]
            seq_at(t@, j as int, size_text(sz) + tail_mtime(mt, mo, l)) ==> (r matches Some(
                (w, x, y, z, e),
            ) && w == sz && x == mt && y == mo && opt_view(z) == l),
{
    let _n = t.len();
    let lit = chars_of(",\"size\":");
    proof {
        reveal_strlit(",\"size\":");
        reveal_strlit(",\"mtime_ns\":");
    }
    if chars_at(t, j, &lit) {
        let p = j + lit.len();
        proof {
            assert forall|sz: Option<u64>, mt: i128, mo: Option<u32>, l: Option<Seq<char>>| #[trigger]
                seq_at(t@, j as int, size_text(sz) + tail_mtime(mt, mo, l)) implies (sz matches Some(
                n,
            ) && number_at(t@, p as int, decimal(n as nat)) && seq_at(
                t@,
                p + decimal(n as nat).len(),
                tail_mtime(mt, mo, l),
            )) by {
                let tm = tail_mtime(mt, mo, l);
                assert(tm == ",\"mtime_ns\":"@ + (signed_decimal(mt as int) + tail_mode(mo, l)));
                if sz is None {
                    assert(size_text(sz) + tm =~= tm);
                    lemma_not_both_at(t@, j as int, tm, lit@, 2);
                } else {
                    let n = sz->Some_0;
                    assert(size_text(sz) + tm == lit@ + decimal(n as nat) + tm);
                    lemma_seq_at_concat(t@, j as int, lit@ + decimal(n as nat), tm);
                    lemma_seq_at_concat(t@, j as int, lit@, decimal(n as nat));
                    assert(t@[p + decimal(n as nat).len()] == tm[0]);
                }
            }
        }
        match read_decimal(t, p, 0xffff_ffff_ffff_ffff) {
            Some((v, q)) => {
                match read_tail_mtime(t, q) {
                    Some((mt, mo, l, e)) => {
                        proof {
                            let tm = tail_mtime(mt, mo, opt_view(l));
                            assert(size_text(Some(v as u64)) + tm == lit@ + decimal(v as nat) + tm);
                            lemma_seq_at_concat(t@, j as int, lit@, decimal(v as nat));
                            lemma_seq_at_concat(t@, j as int, lit@ + decimal(v as nat), tm);
                        }
                        Some((Some(v as u64), mt, mo, l, e))
                    },
                    None => None,
                }
            },
            None => None,
        }
    } else {
        proof {
            assert forall|sz: Option<u64>, mt: i128, mo: Option<u32>, l: Option<Seq<char>>| #[trigger]
                seq_at(t@, j as int, size_text(sz) + tail_mtime(mt, mo, l)) implies sz is None
                && seq_at(t@, j as int, tail_mtime(mt, mo, l)) by {
                let tm = tail_mtime(mt, mo, l);
                if sz is Some {
                    let n = sz->Some_0;
                    assert(size_text(sz) + tm == lit@ + (decimal(n as nat) + tm));
                    lemma_seq_at_concat(t@, j as int, lit@, decimal(n as nat) + tm);
                } else {
                    assert(size_text(sz) + tm =~= tm);
                }
            }
        }
        match read_tail_mtime(t, j) {
            Some((mt, mo, l, e)) => {
                proof {
                    assert(size_text(None) + tail_mtime(mt, mo, opt_view(l)) =~= tail_mtime(
                        mt,
                        mo,
                        opt_view(l),
                    ));
                }
                Some((None, mt, mo, l, e))
            },
            None => None,
        }
    }
}

fn same_chars(a: &Vec<char>, b: &Vec<char>) -> (r: bool)
    ensures
        r == (a@ == b@),
{
    if a.len() != b.len() {
        return false;
    }
    let r = chars_at(a, 0, b);
    assert(a@.subrange(0, b@.len() as int) =~= a@);
    r
}

fn ty_of_name(v: &Vec<char>) -> (r: Option<NodeType>)
    ensures
        r matches Some(ty) ==> ty_name(ty) == v@,
        forall|ty: NodeType| #[trigger] ty_name(ty) == v@ ==> r == Some(ty),
{
    proof {
        reveal_strlit("file");
        reveal_strlit("dir");
        reveal_strlit("symlink");
        reveal_strlit("other");
        assert("file"@.len() == 4 && "dir"@.len() == 3 && "symlink"@.len() == 7 && "other"@.len() == 5);
        assert forall|ty: NodeType| #[trigger] ty_name(ty).len() == match ty {
            NodeType::File => 4int,
            NodeType::Dir => 3,
            NodeType::Symlink => 7,
            NodeType::Other => 5,
        } by {}
    }
    if same_chars(v, &chars_of("file")) {
        Some(NodeType::File)
    } else if same_chars(v, &chars_of("dir")) {
        Some(NodeType::Dir)
    } else if same_chars(v, &chars_of("symlink")) {
        Some(NodeType::Symlink)
    } else if same_chars(v, &chars_of("other")) {
        Some(NodeType::Other)
    } else {
        None
    }
}

/// Reads the JSON object of a record at `i`, in the form `record_text`
/// gives. Returns the record and the position after it.
pub fn read_record(t: &Vec<char>, i: usize) -> (r: Option<(FileMeta, usize)>)
    ensures
        r matches Some((f, e)) ==> e == i + record_text(f@).len() && seq_at(
            t@,
            i as int,
            record_text(f@),
        ),
        forall|m: MetaView| #[trigger]
            seq_at(t@, i as int, record_text(m)) ==> (r matches Some((f, e)) && f@ == m),
{
    let _n = t.len();
    let lit0 = chars_of("{\"path_b64\":");
    let lit1 = chars_of(",\"ty\":");
    proof {
        assert forall|m: MetaView| #[trigger] seq_at(t@, i as int, record_text(m)) implies ({
            let p = i + lit0@.len();
            let q = p + json_quoted(m.path_b64).len();
            let q1 = q + lit1@.len();
            &&& seq_at(t@, i as int, lit0@)
            &&& quoted_at(t@, p, m.path_b64)
            &&& seq_at(t@, q, lit1@)
            &&& quoted_at(t@, q1, ty_name(m.ty))
            &&& seq_at(t@, q1 + json_quoted(ty_name(m.ty)).len(), tail_size(m))
        }) by {
            let a = json_quoted(m.path_b64);
            let b = json_quoted(ty_name(m.ty));
            let p = i + lit0@.len();
            let q = p + a.len();
            let q1 = q + lit1@.len();
            assert(record_text(m) == lit0@ + (a + (lit1@ + (b + tail_size(m)))));
            lemma_seq_at_concat(t@, i as int, lit0@, a + (lit1@ + (b + tail_size(m))));
            lemma_seq_at_concat(t@, p, a, lit1@ + (b + tail_size(m)));
            lemma_seq_at_concat(t@, q, lit1@, b + tail_size(m));
            lemma_seq_at_concat(t@, q1, b, tail_size(m));
            lemma_quoted_at_is_seq_at(t@, p, m.path_b64);
            lemma_quoted_at_is_seq_at(t@, q1, ty_name(m.ty));
        }
    }
    if !chars_at(t, i, &lit0) {
        return None;
    }
    let p = i + lit0.len();
    let (pv, q) = match read_quoted(t, p) {
        Some(x) => x,
        None => {
            return None;
        },
    };
    if !chars_at(t, q, &lit1) {
        return None;
    }
    let q1 = q + lit1.len();
    let (tv, q2) = match read_quoted(t, q1) {
        Some(x) => x,
        None => {
            return None;
        },
    };
    let ty = match ty_of_name(&tv) {
        Some(x) => x,
        None => {
            return None;
        },
    };
    let (size, mtime_ns, mode, link_target, e) = match read_tail_size(t, q2) {
        Some(x) => x,
        None => {
            return None;
        },
    };
    let f = FileMeta { path_b64: string_of(&pv), ty, size, mtime_ns, mode, link_target };
    proof {
        let m = f@;
        let a = json_quoted(m.path_b64);
        let b = json_quoted(ty_name(m.ty));
        assert(tail_size(m) == size_text(size) + tail_mtime(mtime_ns, mode, opt_view(link_target)));
        lemma_seq_at_concat(t@, q1 as int, b, tail_size(m));
        lemma_seq_at_concat(t@, q as int, lit1@, b + tail_size(m));
        lemma_seq_at_concat(t@, p as int, a, lit1@ + (b + tail_size(m)));
        lemma_seq_at_concat(t@, i as int, lit0@, a + (lit1@ + (b + tail_size(m))));
        assert(record_text(m) == lit0@ + (a + (lit1@ + (b + tail_size(m)))));
    }
    Some((f, e))
}

/// One entry of a manifest: its display key and its record.
#[derive(Clone, Debug)]
pub struct ManifestEntry {
    /// Relative path used as the sort key (lossy UTF-8; `/` after a directory).
    path_key: String,
    record: FileMeta,
}

/// What an entry holds, as mathematical values.
pub struct EntryView {
    pub key: Seq<char>,
    pub record: MetaView,
}

impl View for ManifestEntry {
    type V = EntryView;

    closed spec fn view(&self) -> EntryView {
        EntryView { key: self.path_key@, record: self.record@ }
    }
}

/// `l` is `w.0`, the key literal of `e`, `w.1`, the record object of `e`
/// and `w.2`, where the `w` are whitespace.
pub open spec fn line_split(
    l: Seq<char>,
    e: EntryView,
    w: (Seq<char>, Seq<char>, Seq<char>),
) -> bool {
    &&& all_ws(w.0)
    &&& all_ws(w.1)
    &&& all_ws(w.2)
    &&& l == w.0 + json_quoted(e.key) + w.1 + record_text(e.record) + w.2
}

/// `l` is the key literal and the record object of `e`, with whitespace
/// before, between and after.
pub open spec fn line_holds(l: Seq<char>, e: EntryView) -> bool {
    exists|w: (Seq<char>, Seq<char>, Seq<char>)| #[trigger] line_split(l, e, w)
}

proof fn lemma_line_key(t: Seq<char>, ev: EntryView, w: (Seq<char>, Seq<char>, Seq<char>), i: int)
    requires
        line_split(t, ev, w),
        0 <= i <= t.len(),
        all_ws(t.subrange(0, i)),
        i < t.len() ==> !is_ws(t[i]),
    ensures
        i == w.0.len(),
        quoted_at(t, i, ev.key),
{
    let q = json_quoted(ev.key);
    let rest = w.1 + record_text(ev.record) + w.2;
    assert(t == w.0 + (q + rest));
    lemma_seq_at_concat(t, 0, w.0, q + rest);
    lemma_seq_at_concat(t, w.0.len() as int, q, rest);
    assert(t.subrange(0, t.len() as int) =~= t);
    assert(t[w.0.len() as int] == q[0]);
    lemma_skip_lands(t, 0, w.0, i);
    lemma_quoted_at_is_seq_at(t, i, ev.key);
}

proof fn lemma_line_record(
    t: Seq<char>,
    ev: EntryView,
    w: (Seq<char>, Seq<char>, Seq<char>),
    j: int,
    k: int,
)
    requires
        line_split(t, ev, w),
        j == w.0.len() + json_quoted(ev.key).len(),
        j <= k <= t.len(),
        all_ws(t.subrange(j, k)),
        k < t.len() ==> !is_ws(t[k]),
    ensures
        k == j + w.1.len(),
        seq_at(t, k, record_text(ev.record)),
        t.subrange(k + record_text(ev.record).len(), t.len() as int) == w.2,
{
    reveal_strlit("{\"path_b64\":");
    let q = json_quoted(ev.key);
    let rt = record_text(ev.record);
    assert(t == (w.0 + q) + (w.1 + (rt + w.2)));
    lemma_seq_at_concat(t, 0, w.0 + q, w.1 + (rt + w.2));
    lemma_seq_at_concat(t, j, w.1, rt + w.2);
    lemma_seq_at_concat(t, j + w.1.len(), rt, w.2);
    assert(t.subrange(0, t.len() as int) =~= t);
    assert(rt == "{\"path_b64\":"@ + (json_quoted(ev.record.path_b64) + tail_ty(ev.record)));
    assert(t[j + w.1.len()] == rt[0]);
    lemma_skip_lands(t, j, w.1, k);
    assert(t.subrange(j + w.1.len() + rt.len(), t.len() as int) =~= w.2);
}

pub open spec fn key_split(l: Seq<char>, key: Seq<char>, w: (Seq<char>, Seq<char>)) -> bool {
    &&& all_ws(w.0)
    &&& l == w.0 + json_quoted(key) + w.1
}

/// `l` holds `e` and nothing else.
pub open spec fn parses_to(l: Seq<char>, e: EntryView) -> bool {
    &&& line_holds(l, e)
    &&& forall|e2: EntryView| #[trigger] line_holds(l, e2) ==> e2 == e
}

/// Some entry stands in `l` in the writer's form.
pub open spec fn holds_entry(l: Seq<char>) -> bool {
    exists|e: EntryView| #[trigger] line_holds(l, e)
}

/// Some key literal begins `l` in the writer's form.
pub open spec fn starts_with_key(l: Seq<char>) -> bool {
    exists|key: Seq<char>| #[trigger] line_starts_with_key(l, key)
}

/// `l` begins, after whitespace, with the key literal of `key`.
pub open spec fn line_starts_with_key(l: Seq<char>, key: Seq<char>) -> bool {
    exists|w: (Seq<char>, Seq<char>)| #[trigger] key_split(l, key, w)
}

/// A point in time as the file system reports it: a duration before or
/// after the Unix epoch.
#[derive(Clone, Copy, Debug, PartialEq, Eq, Structural)]
pub struct FileTime {
    pub before_epoch: bool,
    pub secs: u64,
    /// Below one second.
    pub nanos: u32,
}

/// What was read of one node, at the link itself.
#[derive(Clone, Debug)]
pub struct NodeInfo {
    pub is_dir: bool,
    pub is_file: bool,
    pub is_symlink: bool,
    /// Length in bytes.
    pub len: u64,
    /// Modification time, where the platform reports one.
    pub modified: Option<FileTime>,
    /// Raw mode bits, where the platform has them.
    pub mode: Option<u32>,
    /// Raw bytes of a symlink's target, where it could be read.
    pub link_target: Option<Vec<u8>>,
}

/// Directory before file before symlink before anything else.
pub open spec fn classify(n: &NodeInfo) -> NodeType {
    if n.is_dir {
        NodeType::Dir
    } else if n.is_file {
        NodeType::File
    } else if n.is_symlink {
        NodeType::Symlink
    } else {
        NodeType::Other
    }
}

/// Nanoseconds since the epoch, negative before it.
pub open spec fn time_value(ft: FileTime) -> int {
    if ft.before_epoch {
        -(ft.secs * 1_000_000_000 + ft.nanos)
    } else {
        ft.secs * 1_000_000_000 + ft.nanos
    }
}

/// The text of raw path bytes: the bytes as UTF-8 where they are valid,
/// else their lossy reading.
pub open spec fn path_text(b: Seq<u8>) -> Seq<char> {
    if valid_utf8(b) {
        decode_utf8(b)
    } else {
        lossy_text(b)
    }
}

pub open spec fn link_display(n: &NodeInfo) -> Option<Seq<char>> {
    match n.link_target {
        Some(b) => Some(path_text(b@)),
        None => None,
    }
}

pub open spec fn ends_with_slash(s: Seq<char>) -> bool {
    s.len() > 0 && s.last() == '/'
}

/// What was read of a node does not make an entry: a symlink whose target
/// could not be read, no modification time, or a text that ends in `/` for
/// something that is not a directory.
pub open spec fn entry_fails(display: Seq<char>, n: &NodeInfo, link: Option<Seq<char>>) -> bool {
    ||| classify(n) == NodeType::Symlink && link is None
    ||| n.modified is None
    ||| classify(n) != NodeType::Dir && ends_with_slash(display)
}

/// The entry of a node: the key gets a `/` where the node is a directory;
/// size only for files, link target only for symlinks, mode masked to
/// `0o7777`.
pub open spec fn entry_of(
    display: Seq<char>,
    path_b64: Seq<char>,
    n: &NodeInfo,
    link: Option<Seq<char>>,
) -> EntryView {
    let ty = classify(n);
    EntryView {
        key: if ty == NodeType::Dir {
            display.push('/')
        } else {
            display
        },
        record: MetaView {
            path_b64,
            ty,
            size: if ty == NodeType::File {
                Some(n.len)
            } else {
                None
            },
            mtime_ns: time_value(n.modified->Some_0) as i128,
            mode: match n.mode {
                Some(m) => Some(m & 0o7777),
                None => None,
            },
            link_target: if ty == NodeType::Symlink {
                link
            } else {
                None
            },
        },
    }
}

fn node_type_of(n: &NodeInfo) -> (r: NodeType)
    ensures
        r == classify(n),
{
    if n.is_dir {
        NodeType::Dir
    } else if n.is_file {
        NodeType::File
    } else if n.is_symlink {
        NodeType::Symlink
    } else {
        NodeType::Other
    }
}

/// Nanoseconds since the Unix epoch of a modification time, negative
/// before the epoch.
pub fn mtime_ns(ft: FileTime) -> (r: i128)
    ensures
        r as int == time_value(ft),
{
    let d: i128 = ft.secs as i128 * 1_000_000_000 + ft.nanos as i128;
    if ft.before_epoch {
        -d
    } else {
        d
    }
}

proof fn lemma_rest_ws(t: Seq<char>, e: int, w: Seq<char>, r: int)
    requires
        0 <= e <= r <= t.len(),
        t.subrange(e, t.len() as int) == w,
        all_ws(w),
        r < t.len() ==> !is_ws(t[r]),
    ensures
        r == t.len(),
{
    if r < t.len() {
        assert(t[r] == w[r - e]);
    }
}

impl ManifestEntry {
    /// The display key.
    pub fn path_key(&self) -> (r: &str)
        ensures
            r@ == self@.key,
    {
        self.path_key.as_str()
    }

    /// The stored metadata.
    pub fn record(&self) -> (r: &FileMeta)
        ensures
            r@ == self@.record,
    {
        &self.record
    }

    /// Reads one line in the writer's form: the key literal, then the record
    /// object as `record_text` gives it, with whitespace before, between and
    /// after them.
    fn read_exact_line(line: &str) -> (r: Result<ManifestEntry, ManifestError>)
        ensures
            r matches Ok(e) ==> line_holds(line@, e@),
            r is Err ==> r == Err::<ManifestEntry, ManifestError>(ManifestError::MalformedLine),
            forall|ev: EntryView| #[trigger]
                line_holds(line@, ev) ==> (r matches Ok(e) && e@ == ev),
    {
        let t = chars_of(line);
        let i = skip_ws(&t, 0);
        proof {
            assert forall|ev: EntryView| #[trigger] line_holds(line@, ev) implies quoted_at(
                t@,
                i as int,
                ev.key,
            ) by {
                let w = choose|w: (Seq<char>, Seq<char>, Seq<char>)| line_split(line@, ev, w);
                lemma_line_key(t@, ev, w, i as int);
            }
        }
        let (key, j) = match read_quoted(&t, i) {
            Some(x) => x,
            None => {
                return Err(ManifestError::MalformedLine);
            },
        };
        let k = skip_ws(&t, j);
        proof {
            assert forall|ev: EntryView| #[trigger] line_holds(line@, ev) implies key@ == ev.key
                && seq_at(t@, k as int, record_text(ev.record)) && all_ws(
                t@.subrange(k + record_text(ev.record).len(), t@.len() as int),
            ) by {
                let w = choose|w: (Seq<char>, Seq<char>, Seq<char>)| line_split(line@, ev, w);
                lemma_line_key(t@, ev, w, i as int);
                lemma_line_record(t@, ev, w, j as int, k as int);
            }
        }
        let (record, e) = match read_record(&t, k) {
            Some(x) => x,
            None => {
                return Err(ManifestError::MalformedLine);
            },
        };
        let f = skip_ws(&t, e);
        proof {
            assert forall|ev: EntryView| #[trigger] line_holds(line@, ev) implies f == t@.len() by {
                lemma_rest_ws(t@, e as int, t@.subrange(e as int, t@.len() as int), f as int);
            }
        }
        if f != t.len() {
            return Err(ManifestError::MalformedLine);
        }
        let entry = ManifestEntry { path_key: string_of(&key), record };
        proof {
            let w = (
                t@.subrange(0, i as int),
                t@.subrange(j as int, k as int),
                t@.subrange(e as int, f as int),
            );
            assert(t@ =~= w.0 + json_quoted(key@) + w.1 + record_text(record@) + w.2);
            assert(line_split(line@, entry@, w));
        }
        Ok(entry)
    }

    /// Reads the leading key literal of a line in the writer's form.
    fn read_exact_key(line: &str) -> (r: Result<String, ManifestError>)
        ensures
            r matches Ok(k) ==> line_starts_with_key(line@, k@),
            r is Err ==> r == Err::<String, ManifestError>(ManifestError::MalformedLine),
            forall|key: Seq<char>| #[trigger]
                line_starts_with_key(line@, key) ==> (r matches Ok(k) && k@ == key),
    {
        let t = chars_of(line);
        let i = skip_ws(&t, 0);
        proof {
            assert forall|key: Seq<char>| #[trigger] line_starts_with_key(line@, key) implies quoted_at(
                t@,
                i as int,
                key,
            ) by {
                let w = choose|w: (Seq<char>, Seq<char>)| key_split(line@, key, w);
                let q = json_quoted(key);
                lemma_seq_at_concat(t@, 0, w.0, q + w.1);
                lemma_seq_at_concat(t@, w.0.len() as int, q, w.1);
                assert(t@ == w.0 + (q + w.1));
                assert(t@.subrange(0, t@.len() as int) =~= t@);
                assert(t@[w.0.len() as int] == q[0]);
                lemma_skip_lands(t@, 0, w.0, i as int);
                lemma_quoted_at_is_seq_at(t@, i as int, key);
            }
        }
        match read_quoted(&t, i) {
            Some((key, j)) => {
                proof {
                    let w = (t@.subrange(0, i as int), t@.subrange(j as int, t@.len() as int));
                    assert(t@ =~= w.0 + json_quoted(key@) + w.1);
                    assert(key_split(line@, key@, w));
                }
                Ok(string_of(&key))
            },
            None => Err(ManifestError::MalformedLine),
        }
    }

    /// Reads one manifest line strictly: a JSON string (the key), then one
    /// JSON object (the record), with nothing but whitespace around and
    /// between them. A line in the writer's form is read exactly; any other
    /// line is read as serde_json reads it (`lenient_entry`: fields in any
    /// order, whitespace, any escapes, `null` for absent optional fields,
    /// other fields ignored). Trailing content makes it a malformed line.
    pub fn deserialize_line(line: &str) -> (r: Result<ManifestEntry, ManifestError>)
        ensures
            forall|ev: EntryView| #[trigger]
                line_holds(line@, ev) ==> (r matches Ok(e) && e@ == ev),
            !holds_entry(line@) ==> match r {
                Ok(e) => lenient_entry(line@) == Some(e@),
                Err(_) => lenient_entry(line@) is None,
            },
            r is Err ==> r == Err::<ManifestEntry, ManifestError>(ManifestError::MalformedLine),
    {
        match ManifestEntry::read_exact_line(line) {
            Ok(e) => Ok(e),
            Err(_) => match read_lenient(line) {
                Some(e) => Ok(e),
                None => Err(ManifestError::MalformedLine),
            },
        }
    }

    /// Reads only the leading JSON string (the key) of a line; whatever
    /// follows it is ignored. A key literal in the writer's form is read
    /// exactly; any other is read as serde_json reads it.
    pub fn deserialize_path_key(line: &str) -> (r: Result<String, ManifestError>)
        ensures
            forall|key: Seq<char>| #[trigger]
                line_starts_with_key(line@, key) ==> (r matches Ok(k) && k@ == key),
            !starts_with_key(line@) ==> match r {
                Ok(k) => json_leading(line@) matches Some(p) && p.0 == k@,
                Err(_) => json_leading(line@) is None,
            },
            r is Err ==> r == Err::<String, ManifestError>(ManifestError::MalformedLine),
    {
        match ManifestEntry::read_exact_key(line) {
            Ok(k) => Ok(k),
            Err(_) => match read_leading_string(line) {
                Some((k, _)) => Ok(k),
                None => Err(ManifestError::MalformedLine),
            },
        }
    }

    /// Builds an entry from what was read of a node: `display` is the text
    /// of its relative path, `path_b64` the stored text of the raw path,
    /// `link` the text of a symlink's target. Fails where the target or the
    /// modification time could not be read, and where the text of something
    /// other than a directory ends in `/` (only directory keys do).
    pub fn from_display(
        display: String,
        path_b64: String,
        node: &NodeInfo,
        link: Option<String>,
    ) -> (r: Result<ManifestEntry, ManifestError>)
        ensures
            r is Err <==> entry_fails(display@, node, opt_view(link)),
            r is Err ==> r == Err::<ManifestEntry, ManifestError>(
                ManifestError::MetadataUnavailable,
            ),
            r matches Ok(e) ==> e@ == entry_of(display@, path_b64@, node, opt_view(link)),
            r matches Ok(e) ==> (ends_with_slash(e@.key) <==> e@.record.ty == NodeType::Dir),
    {
        let ty = node_type_of(node);
        if ty == NodeType::Symlink && link.is_none() {
            return Err(ManifestError::MetadataUnavailable);
        }
        let ft = match node.modified {
            Some(ft) => ft,
            None => {
                return Err(ManifestError::MetadataUnavailable);
            },
        };
        if ty != NodeType::Dir {
            let dv = chars_of(display.as_str());
            let n = dv.len();
            if n > 0 && dv[n - 1] == '/' {
                return Err(ManifestError::MetadataUnavailable);
            }
        }
        let mut key = display;
        if ty == NodeType::Dir {
            push_char(&mut key, '/');
        }
        let size = if ty == NodeType::File {
            Some(node.len)
        } else {
            None
        };
        let mode = match node.mode {
            Some(m) => Some(m & 0o7777),
            None => None,
        };
        let link_target = if ty == NodeType::Symlink {
            link
        } else {
            None
        };
        let record = FileMeta { path_b64, ty, size, mtime_ns: mtime_ns(ft), mode, link_target };
        Ok(ManifestEntry { path_key: key, record })
    }

    /// Builds the entry of the node at relative path `rel` (raw bytes) from
    /// what was read of it. Fails where a symlink's target or the
    /// modification time could not be read (and where a path that is not a
    /// directory's ends in `/`).
    pub fn from_rel_path(rel: &[u8], node: &NodeInfo) -> (r: Result<ManifestEntry, ManifestError>)
        requires
            rel@.len() <= usize::MAX / 2,
        ensures
            r is Err <==> entry_fails(path_text(rel@), node, link_display(node)),
            r is Err ==> r == Err::<ManifestEntry, ManifestError>(
                ManifestError::MetadataUnavailable,
            ),
            r matches Ok(e) ==> e@ == entry_of(
                path_text(rel@),
                b64_text(rel@),
                node,
                link_display(node),
            ),
            r matches Ok(e) ==> (ends_with_slash(e@.key) <==> e@.record.ty == NodeType::Dir),
    {
        let display = lossy_utf8(rel);
        let path_b64 = encode_path(rel);
        let link = match &node.link_target {
            Some(target) => Some(lossy_utf8(target.as_slice())),
            None => None,
        };
        ManifestEntry::from_display(display, path_b64, node, link)
    }
}

/// The last field of that name.
pub open spec fn find_field(fs: Seq<(Seq<char>, JsonView)>, name: Seq<char>) -> Option<JsonView>
    decreases fs.len(),
{
    if fs.len() == 0 {
        None
    } else if fs.last().0 == name {
        Some(fs.last().1)
    } else {
        find_field(fs.drop_last(), name)
    }
}

/// The number that a decimal text (no sign, no leading zero) stands for,
/// where it is at most `max`.
pub open spec fn nat_value(t: Seq<char>, max: nat) -> Option<nat> {
    if exists|n: nat| n <= max && decimal(n) == t {
        Some(choose|n: nat| n <= max && decimal(n) == t)
    } else {
        None
    }
}

/// The `i128` that a decimal text (minus sign allowed) stands for.
pub open spec fn int_value(t: Seq<char>) -> Option<i128> {
    if exists|n: i128| signed_decimal(n as int) == t {
        Some(choose|n: i128| signed_decimal(n as int) == t)
    } else {
        None
    }
}

/// An optional number field: absent or `null` is `None`; the outer `None`
/// means the field is not valid.
pub open spec fn opt_number(v: Option<JsonView>, max: nat) -> Option<Option<nat>> {
    match v {
        None => Some(None),
        Some(JsonView::Null) => Some(None),
        Some(JsonView::Number(t)) => match nat_value(t, max) {
            Some(n) => Some(Some(n)),
            None => None,
        },
        _ => None,
    }
}

/// An optional text field: absent or `null` is `None`; the outer `None`
/// means the field is not valid.
pub open spec fn opt_text(v: Option<JsonView>) -> Option<Option<Seq<char>>> {
    match v {
        None => Some(None),
        Some(JsonView::Null) => Some(None),
        Some(JsonView::Str(t)) => Some(Some(t)),
        _ => None,
    }
}

pub open spec fn ty_of(v: Option<JsonView>) -> Option<NodeType> {
    match v {
        Some(JsonView::Str(t)) => if exists|ty: NodeType| ty_name(ty) == t {
            Some(choose|ty: NodeType| ty_name(ty) == t)
        } else {
            None
        },
        _ => None,
    }
}

pub open spec fn mtime_of(v: Option<JsonView>) -> Option<i128> {
    match v {
        Some(JsonView::Number(t)) => int_value(t),
        _ => None,
    }
}

pub open spec fn text_of(v: Option<JsonView>) -> Option<Seq<char>> {
    match v {
        Some(JsonView::Str(t)) => Some(t),
        _ => None,
    }
}

/// The record that the fields of a JSON object give: `path_b64`, `ty` and
/// `mtime_ns` present and of their types; `size`, `mode` and `link_target`
/// absent, `null` or of their types; other fields ignored.
pub open spec fn record_of_fields(fs: Seq<(Seq<char>, JsonView)>) -> Option<MetaView> {
    let p = text_of(find_field(fs, "path_b64"@));
    let ty = ty_of(find_field(fs, "ty"@));
    let size = opt_number(find_field(fs, "size"@), 0xffff_ffff_ffff_ffff);
    let mt = mtime_of(find_field(fs, "mtime_ns"@));
    let mode = opt_number(find_field(fs, "mode"@), 0xffff_ffff);
    let link = opt_text(find_field(fs, "link_target"@));
    if p is Some && ty is Some && size is Some && mt is Some && mode is Some && link is Some {
        Some(
            MetaView {
                path_b64: p->0,
                ty: ty->0,
                size: match size->0 {
                    Some(n) => Some(n as u64),
                    None => None,
                },
                mtime_ns: mt->0,
                mode: match mode->0 {
                    Some(n) => Some(n as u32),
                    None => None,
                },
                link_target: link->0,
            },
        )
    } else {
        None
    }
}

/// The entry that serde_json reads from a line: a leading JSON string, then
/// exactly one JSON object whose fields give a record.
pub open spec fn lenient_entry(l: Seq<char>) -> Option<EntryView> {
    match json_leading(l) {
        Some((k, rest)) => match json_fields(rest) {
            Some(fs) => match record_of_fields(fs) {
                Some(m) => Some(EntryView { key: k, record: m }),
                None => None,
            },
            None => None,
        },
        None => None,
    }
}

/// The index of the last field named `name`.
fn find_field_index(fs: &Vec<(String, JsonValue)>, name: &str) -> (r: Option<usize>)
    ensures
        ({
            let fv = field_views(fs@);
            match r {
                Some(j) => j < fs@.len() && find_field(fv, name@) == Some(fv[j as int].1),
                None => find_field(fv, name@) is None,
            }
        }),
{
    let ghost fv = field_views(fs@);
    let nv = chars_of(name);
    let mut k: usize = fs.len();
    assert(fv.take(k as int) =~= fv);
    while k > 0
        invariant
            k <= fs@.len(),
            fv == field_views(fs@),
            nv@ == name@,
            find_field(fv.take(k as int), name@) == find_field(fv, name@),
        decreases k,
    {
        let ghost t = fv.take(k as int);
        assert(t.drop_last() =~= fv.take(k - 1));
        assert(t.last() == fv[k - 1]);
        if same_chars(&chars_of(fs[k - 1].0.as_str()), &nv) {
            return Some(k - 1);
        }
        k = k - 1;
    }
    None
}

fn nat_of_text(t: &String, max: u128) -> (r: Option<u128>)
    ensures
        match r {
            Some(n) => nat_value(t@, max as nat) == Some(n as nat),
            None => nat_value(t@, max as nat) is None,
        },
{
    let tv = chars_of(t.as_str());
    match read_decimal(&tv, 0, max) {
        Some((n, e)) => {
            if e == tv.len() {
                proof {
                    assert(tv@.subrange(0, e as int) =~= tv@);
                    let m = choose|m: nat| m <= max && decimal(m) == t@;
                    lemma_decimal_injective(m, n as nat);
                }
                Some(n)
            } else {
                proof {
                    if exists|m: nat| m <= max && decimal(m) == t@ {
                        let m = choose|m: nat| m <= max && decimal(m) == t@;
                        assert(tv@.subrange(0, decimal(m).len() as int) =~= tv@);
                        assert(number_at(tv@, 0, decimal(m)));
                    }
                }
                None
            }
        },
        None => {
            proof {
                if exists|m: nat| m <= max && decimal(m) == t@ {
                    let m = choose|m: nat| m <= max && decimal(m) == t@;
                    assert(tv@.subrange(0, decimal(m).len() as int) =~= tv@);
                    assert(number_at(tv@, 0, decimal(m)));
                }
            }
            None
        },
    }
}

fn int_of_text(t: &String) -> (r: Option<i128>)
    ensures
        match r {
            Some(n) => int_value(t@) == Some(n),
            None => int_value(t@) is None,
        },
{
    let tv = chars_of(t.as_str());
    match read_signed_decimal(&tv, 0) {
        Some((n, e)) => {
            if e == tv.len() {
                proof {
                    assert(tv@.subrange(0, e as int) =~= tv@);
                    let m = choose|m: i128| signed_decimal(m as int) == t@;
                    assert(number_at(tv@, 0, signed_decimal(m as int)));
                }
                Some(n)
            } else {
                proof {
                    if exists|m: i128| signed_decimal(m as int) == t@ {
                        let m = choose|m: i128| signed_decimal(m as int) == t@;
                        assert(tv@.subrange(0, signed_decimal(m as int).len() as int) =~= tv@);
                        assert(number_at(tv@, 0, signed_decimal(m as int)));
                    }
                }
                None
            }
        },
        None => {
            proof {
                if exists|m: i128| signed_decimal(m as int) == t@ {
                    let m = choose|m: i128| signed_decimal(m as int) == t@;
                    assert(tv@.subrange(0, signed_decimal(m as int).len() as int) =~= tv@);
                    assert(number_at(tv@, 0, signed_decimal(m as int)));
                }
            }
            None
        },
    }
}

fn opt_number_field(fs: &Vec<(String, JsonValue)>, name: &str, max: u128) -> (r: Option<
    Option<u128>,
>)
    ensures
        match r {
            Some(Some(n)) => opt_number(find_field(field_views(fs@), name@), max as nat) == Some(
                Some(n as nat),
            ),
            Some(None) => opt_number(find_field(field_views(fs@), name@), max as nat) == Some(
                None::<nat>,
            ),
            None => opt_number(find_field(field_views(fs@), name@), max as nat) is None,
        },
{
    match find_field_index(fs, name) {
        None => Some(None),
        Some(j) => match &fs[j].1 {
            JsonValue::Null => Some(None),
            JsonValue::Number(t) => match nat_of_text(t, max) {
                Some(n) => Some(Some(n)),
                None => None,
            },
            _ => None,
        },
    }
}

fn opt_text_field(fs: &Vec<(String, JsonValue)>, name: &str) -> (r: Option<Option<String>>)
    ensures
        match r {
            Some(Some(t)) => opt_text(find_field(field_views(fs@), name@)) == Some(Some(t@)),
            Some(None) => opt_text(find_field(field_views(fs@), name@)) == Some(None::<Seq<char>>),
            None => opt_text(find_field(field_views(fs@), name@)) is None,
        },
{
    match find_field_index(fs, name) {
        None => Some(None),
        Some(j) => match &fs[j].1 {
            JsonValue::Null => Some(None),
            JsonValue::Str(t) => Some(Some(t.clone())),
            _ => None,
        },
    }
}

/// The record that the fields of a JSON object give (see `record_of_fields`).
fn record_from_fields(fs: &Vec<(String, JsonValue)>) -> (r: Option<FileMeta>)
    ensures
        match r {
            Some(f) => record_of_fields(field_views(fs@)) == Some(f@),
            None => record_of_fields(field_views(fs@)) is None,
        },
{
    let ghost fv = field_views(fs@);
    let path_b64 = match find_field_index(fs, "path_b64") {
        Some(j) => match &fs[j].1 {
            JsonValue::Str(t) => t.clone(),
            _ => {
                return None;
            },
        },
        None => {
            return None;
        },
    };
    let ty = match find_field_index(fs, "ty") {
        Some(j) => match &fs[j].1 {
            JsonValue::Str(t) => match ty_of_name(&chars_of(t.as_str())) {
                Some(ty) => ty,
                None => {
                    return None;
                },
            },
            _ => {
                return None;
            },
        },
        None => {
            return None;
        },
    };
    let size = match opt_number_field(fs, "size", 0xffff_ffff_ffff_ffff) {
        Some(Some(n)) => Some(n as u64),
        Some(None) => None,
        None => {
            return None;
        },
    };
    let mtime_ns = match find_field_index(fs, "mtime_ns") {
        Some(j) => match &fs[j].1 {
            JsonValue::Number(t) => match int_of_text(t) {
                Some(n) => n,
                None => {
                    return None;
                },
            },
            _ => {
                return None;
            },
        },
        None => {
            return None;
        },
    };
    let mode = match opt_number_field(fs, "mode", 0xffff_ffff) {
        Some(Some(n)) => Some(n as u32),
        Some(None) => None,
        None => {
            return None;
        },
    };
    let link_target = match opt_text_field(fs, "link_target") {
        Some(l) => l,
        None => {
            return None;
        },
    };
    let f = FileMeta { path_b64, ty, size, mtime_ns, mode, link_target };
    proof {
        assert(record_of_fields(fv) =~= Some(f@));
    }
    Some(f)
}

/// Reads a line as serde_json does (see `lenient_entry`).
fn read_lenient(line: &str) -> (r: Option<ManifestEntry>)
    ensures
        match r {
            Some(e) => lenient_entry(line@) == Some(e@),
            None => lenient_entry(line@) is None,
        },
{
    let (key, rest) = match read_leading_string(line) {
        Some(x) => x,
        None => {
            return None;
        },
    };
    let fs = match read_object_fields(rest.as_str()) {
        Some(fs) => fs,
        None => {
            return None;
        },
    };
    match record_from_fields(&fs) {
        Some(record) => Some(ManifestEntry { path_key: key, record }),
        None => None,
    }
}

impl ManifestEntry {
    /// Compares two entries by key, in the order `chars_le`.
    pub fn key_cmp(a: &ManifestEntry, b: &ManifestEntry) -> (r: core::cmp::Ordering)
        ensures
            (r == core::cmp::Ordering::Less) <==> !chars_le(b@.key, a@.key),
            (r == core::cmp::Ordering::Equal) <==> a@.key == b@.key,
            (r == core::cmp::Ordering::Greater) <==> !chars_le(a@.key, b@.key),
    {
        let ka = chars_of(a.path_key.as_str());
        let kb = chars_of(b.path_key.as_str());
        let le = chars_le_exec(&ka, &kb);
        let ge = chars_le_exec(&kb, &ka);
        proof {
            lemma_chars_le_connected(ka@, kb@);
            if le && ge {
                lemma_chars_le_antisymmetric(ka@, kb@);
            }
            if ka@ == kb@ {
                lemma_chars_le_reflexive(ka@);
            }
        }
        if le && ge {
            core::cmp::Ordering::Equal
        } else if le {
            core::cmp::Ordering::Less
        } else {
            core::cmp::Ordering::Greater
        }
    }
}

} // verus!
