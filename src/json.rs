//! JSON string literals as the manifest writes them, and a reader that
//! accepts exactly those.
use vstd::prelude::*;

verus! {

/// Lower-case hexadecimal digit of a value below 16.
pub open spec fn hex_digit(v: int) -> char {
    if v < 10 {
        (v + 48) as u8 as char
    } else {
        (v + 87) as u8 as char
    }
}

/// How one character stands inside a JSON string literal: quote, backslash
/// and control characters are escaped, everything else stands as itself.
pub open spec fn json_escape(c: char) -> Seq<char> {
    if c == '"' {
        seq!['\\', '"']
    } else if c == '\\' {
        seq!['\\', '\\']
    } else if c == '\u{8}' {
        seq!['\\', 'b']
    } else if c == '\u{c}' {
        seq!['\\', 'f']
    } else if c == '\n' {
        seq!['\\', 'n']
    } else if c == '\r' {
        seq!['\\', 'r']
    } else if c == '\t' {
        seq!['\\', 't']
    } else if (c as int) < 32 {
        seq!['\\', 'u', '0', '0', hex_digit((c as int) / 16), hex_digit((c as int) % 16)]
    } else {
        seq![c]
    }
}

pub open spec fn json_escaped(s: Seq<char>) -> Seq<char>
    decreases s.len(),
{
    if s.len() == 0 {
        seq![]
    } else {
        json_escape(s[0]) + json_escaped(s.drop_first())
    }
}

/// The JSON string literal of a text.
pub open spec fn json_quoted(s: Seq<char>) -> Seq<char> {
    seq!['"'] + json_escaped(s) + seq!['"']
}

/// `t` holds the literal of `v` from position `p` on.
pub open spec fn quoted_at(t: Seq<char>, p: int, v: Seq<char>) -> bool {
    &&& 0 <= p
    &&& p + json_quoted(v).len() <= t.len()
    &&& t.subrange(p, p + json_quoted(v).len()) == json_quoted(v)
}

/// Relies on `serde_json::to_string` on a `str`: a quote, each character
/// escaped as `json_escape` says (serde_json's escape table), a quote. It
/// cannot fail on a string.
#[verifier::external_body]
pub(crate) fn quote(s: &str) -> (r: String)
    ensures
        r@ == json_quoted(s@),
{
    serde_json::to_string(s).unwrap_or_default()
}

pub proof fn lemma_escaped_concat(a: Seq<char>, b: Seq<char>)
    ensures
        json_escaped(a + b) == json_escaped(a) + json_escaped(b),
    decreases a.len(),
{
    if a.len() == 0 {
        assert(a + b =~= b);
        assert(json_escaped(a) + json_escaped(b) =~= json_escaped(b));
    } else {
        assert((a + b).drop_first() =~= a.drop_first() + b);
        lemma_escaped_concat(a.drop_first(), b);
        assert(json_escaped(a + b) =~= json_escaped(a) + json_escaped(b));
    }
}

proof fn lemma_escape_shape(c: char)
    ensures
        json_escape(c).len() >= 1,
        json_escape(c)[0] != '"',
        json_escape(c)[0] == '\\' <==> (c == '"' || c == '\\' || (c as int) < 32),
        json_escape(c)[0] != '\\' ==> json_escape(c) == seq![c],
{
}

proof fn lemma_escaped_split(v: Seq<char>, k: int)
    requires
        0 <= k < v.len(),
    ensures
        json_escaped(v) == json_escaped(v.take(k)) + json_escape(v[k]) + json_escaped(v.skip(k + 1)),
{
    lemma_escaped_concat(v.take(k), v.skip(k));
    assert(v =~= v.take(k) + v.skip(k));
    assert(v.skip(k).drop_first() =~= v.skip(k + 1));
    assert(json_escaped(v.skip(k)) == json_escape(v[k]) + json_escaped(v.skip(k + 1)));
}

proof fn lemma_escaped_push(s: Seq<char>, c: char)
    ensures
        json_escaped(s.push(c)) == json_escaped(s) + json_escape(c),
{
    lemma_escaped_concat(s, seq![c]);
    assert(s.push(c) =~= s + seq![c]);
    let one = seq![c];
    assert(one[0] == c);
    assert(one.drop_first() =~= Seq::<char>::empty());
    assert(json_escaped(one.drop_first()) =~= Seq::<char>::empty());
    assert(json_escaped(one) == json_escape(c) + json_escaped(one.drop_first()));
    assert(json_escaped(one) =~= json_escape(c));
}

/// Where `t` holds the literal of `v` from `p` on, after the characters
/// `v.take(k)` comes the escape of `v[k]`.
proof fn lemma_quoted_next(t: Seq<char>, p: int, v: Seq<char>, k: int)
    requires
        quoted_at(t, p, v),
        0 <= k < v.len(),
    ensures
        ({
            let q = p + 1 + json_escaped(v.take(k)).len();
            let e = json_escape(v[k]);
            &&& q + e.len() < t.len()
            &&& t.subrange(q, q + e.len()) == e
        }),
{
    lemma_escaped_split(v, k);
    let q = p + 1 + json_escaped(v.take(k)).len();
    let e = json_escape(v[k]);
    let lit = json_quoted(v);
    assert forall|j: int| 0 <= j < e.len() implies t[q + j] == e[j] by {
        assert(t[q + j] == t.subrange(p, p + lit.len())[q + j - p]);
        assert(lit[q + j - p] == e[j]);
    }
    assert(t.subrange(q, q + e.len()) =~= e);
}

proof fn lemma_quoted_end(t: Seq<char>, p: int, v: Seq<char>)
    requires
        quoted_at(t, p, v),
    ensures
        t[p + 1 + json_escaped(v).len()] == '"',
        p + json_quoted(v).len() == p + 2 + json_escaped(v).len(),
{
    let lit = json_quoted(v);
    let n = json_escaped(v).len() as int;
    assert(t[p + 1 + n] == t.subrange(p, p + lit.len())[1 + n]);
}

proof fn lemma_control_escape(c: char)
    requires
        json_escape(c).len() >= 2,
        json_escape(c)[1] == 'u',
    ensures
        0 <= (c as int) < 32,
        0 <= (c as int) / 16 < 2,
        0 <= (c as int) % 16 < 16,
        c != '\u{8}' && c != '\u{c}' && c != '\n' && c != '\r' && c != '\t',
        json_escape(c) == seq!['\\', 'u', '0', '0', hex_digit((c as int) / 16), hex_digit((c as int) % 16)],
        (c as int) / 16 < 2,
{
}

proof fn lemma_hex_injective(a: int, b: int)
    requires
        0 <= a < 16,
        0 <= b < 16,
        hex_digit(a) == hex_digit(b),
    ensures
        a == b,
{
}

/// No escape is a proper prefix of another: the characters at `i` tell
/// which character was escaped there.
proof fn lemma_escape_unique(a: char, b: char, t: Seq<char>, i: int)
    requires
        0 <= i,
        i + json_escape(a).len() <= t.len(),
        i + json_escape(b).len() <= t.len(),
        t.subrange(i, i + json_escape(a).len()) == json_escape(a),
        t.subrange(i, i + json_escape(b).len()) == json_escape(b),
    ensures
        a == b,
{
    let ea = json_escape(a);
    let eb = json_escape(b);
    lemma_escape_shape(a);
    lemma_escape_shape(b);
    assert(ea[0] == t[i]);
    assert(eb[0] == t[i]);
    if ea.len() >= 2 && eb.len() >= 2 {
        assert(ea[1] == t[i + 1]);
        assert(eb[1] == t[i + 1]);
        if ea[1] == 'u' {
            lemma_control_escape(a);
            lemma_control_escape(b);
            assert(ea[4] == t[i + 4]);
            assert(eb[4] == t[i + 4]);
            assert(ea[5] == t[i + 5]);
            assert(eb[5] == t[i + 5]);
            lemma_hex_injective((a as int) / 16, (b as int) / 16);
            lemma_hex_injective((a as int) % 16, (b as int) % 16);
            assert((a as int) == (b as int));
        }
    }
}

/// The value of a lower-case hexadecimal digit.
fn hex_value(c: char) -> (r: Option<u32>)
    ensures
        r matches Some(v) ==> v < 16 && hex_digit(v as int) == c,
        forall|v: int| 0 <= v < 16 && #[trigger] hex_digit(v) == c ==> r == Some(v as u32),
{
    if '0' <= c && c <= '9' {
        Some(c as u32 - 48)
    } else if 'a' <= c && c <= 'f' {
        Some(c as u32 - 87)
    } else {
        None
    }
}

/// Reads the JSON string literal that starts at `start`, in the form
/// `json_quoted` gives. Returns the text and the position after the literal.
pub fn read_quoted(t: &Vec<char>, start: usize) -> (r: Option<(Vec<char>, usize)>)
    ensures
        r matches Some((v, e)) ==> start < e <= t@.len() && t@.subrange(start as int, e as int)
            == json_quoted(v@),
        forall|v: Seq<char>| #[trigger]
            quoted_at(t@, start as int, v) ==> (r matches Some((w, e)) && w@ == v && e == start
                + json_quoted(v).len()),
{
    if start >= t.len() || t[start] != '"' {
        proof {
            assert forall|v: Seq<char>| #[trigger] quoted_at(t@, start as int, v) implies false by {
                assert(t@[start as int] == t@.subrange(start as int, start + json_quoted(v).len())[0]);
            }
        }
        return None;
    }
    let mut out: Vec<char> = Vec::new();
    let mut i: usize = start + 1;
    assert(t@.subrange(start as int, i as int) =~= seq!['"'] + json_escaped(out@));
    loop
        invariant
            start < i <= t@.len(),
            t@.subrange(start as int, i as int) == seq!['"'] + json_escaped(out@),
            forall|v: Seq<char>| #[trigger]
                quoted_at(t@, start as int, v) ==> out@.len() <= v.len() && out@ == v.take(
                    out@.len() as int,
                ),
        decreases t@.len() - i,
    {
        let ghost k = out@.len() as int;
        proof {
            assert(t@.subrange(start as int, i as int).len() == i - start);
            assert(i == start + 1 + json_escaped(out@).len());
            assert forall|v: Seq<char>| #[trigger] quoted_at(t@, start as int, v) implies (k
                < v.len() ==> i + json_escape(v[k]).len() < t@.len() && t@.subrange(
                i as int,
                i + json_escape(v[k]).len(),
            ) == json_escape(v[k])) && (k == v.len() ==> i < t@.len() && t@[i as int] == '"') by {
                if k < v.len() {
                    lemma_quoted_next(t@, start as int, v, k);
                } else {
                    assert(out@ =~= v);
                    lemma_quoted_end(t@, start as int, v);
                }
            }
        }
        if i >= t.len() {
            proof {
                assert forall|v: Seq<char>| #[trigger] quoted_at(t@, start as int, v) implies false by {
                    if k < v.len() {
                        lemma_escape_shape(v[k]);
                    }
                }
            }
            return None;
        }
        let c = t[i];
        let ghost before = out@;
        if c == '"' {
            proof {
                assert(t@.subrange(start as int, i + 1) =~= t@.subrange(start as int, i as int).push(
                    '"',
                ));
                assert forall|v: Seq<char>| #[trigger] quoted_at(t@, start as int, v) implies out@
                    == v && i + 1 == start + json_quoted(v).len() by {
                    if k < v.len() {
                        lemma_escape_shape(v[k]);
                        assert(t@.subrange(i as int, i + json_escape(v[k]).len())[0] == t@[i as int]);
                    }
                    assert(out@ =~= v);
                }
            }
            return Some((out, i + 1));
        }
        let mut adv: usize = 1;
        if c == '\\' {
            if i + 1 >= t.len() {
                proof {
                    assert forall|v: Seq<char>| #[trigger] quoted_at(t@, start as int, v) implies false by {
                        if k < v.len() {
                            lemma_escape_shape(v[k]);
                        }
                    }
                }
                return None;
            }
            let d = t[i + 1];
            let ch: char;
            if d == '"' {
                ch = '"';
                adv = 2;
            } else if d == '\\' {
                ch = '\\';
                adv = 2;
            } else if d == 'b' {
                ch = '\u{8}';
                adv = 2;
            } else if d == 'f' {
                ch = '\u{c}';
                adv = 2;
            } else if d == 'n' {
                ch = '\n';
                adv = 2;
            } else if d == 'r' {
                ch = '\r';
                adv = 2;
            } else if d == 't' {
                ch = '\t';
                adv = 2;
            } else if d == 'u' && t.len() - i > 5 && t[i + 2] == '0' && t[i + 3] == '0' {
                let hi = hex_value(t[i + 4]);
                let lo = hex_value(t[i + 5]);
                match (hi, lo) {
                    (Some(h), Some(l)) => {
                        let val: u32 = h * 16 + l;
                        if val >= 32 || val == 8 || val == 9 || val == 10 || val == 12 || val
                            == 13 {
                            proof {
                                assert forall|v: Seq<char>| #[trigger]
                                    quoted_at(t@, start as int, v) implies false by {
                                    if k < v.len() {
                                        lemma_escape_shape(v[k]);
                                        let e = json_escape(v[k]);
                                        assert(e[0] == t@[i as int]);
                                        assert(e[1] == t@[i + 1]);
                                        lemma_control_escape(v[k]);
                                        let cv = v[k] as int;
                                        assert(hex_digit(cv / 16) == t@[i + 4]);
                                        assert(hex_digit(cv % 16) == t@[i + 5]);
                                        lemma_hex_injective(h as int, cv / 16);
                                        lemma_hex_injective(l as int, cv % 16);
                                    }
                                }
                            }
                            return None;
                        }
                        ch = val as u8 as char;
                        adv = 6;
                        proof {
                            assert(h == val / 16 && l == val % 16);
                            assert(ch as int == val);
                        }
                    },
                    _ => {
                        proof {
                            assert forall|v: Seq<char>| #[trigger]
                                quoted_at(t@, start as int, v) implies false by {
                                if k < v.len() {
                                    lemma_escape_shape(v[k]);
                                    let e = json_escape(v[k]);
                                    assert(e[0] == t@[i as int]);
                                    assert(e[1] == t@[i + 1]);
                                    lemma_control_escape(v[k]);
                                    let cv = v[k] as int;
                                    assert(hex_digit(cv / 16) == t@[i + 4]);
                                    assert(hex_digit(cv % 16) == t@[i + 5]);
                                }
                            }
                        }
                        return None;
                    },
                }
            } else {
                proof {
                    assert forall|v: Seq<char>| #[trigger] quoted_at(t@, start as int, v) implies false by {
                        if k < v.len() {
                            lemma_escape_shape(v[k]);
                            let e = json_escape(v[k]);
                            assert(e[0] == t@[i as int]);
                            assert(e[1] == t@[i + 1]);
                            if e.len() == 6 {
                                assert(e[2] == t@[i + 2]);
                                assert(e[3] == t@[i + 3]);
                            }
                        }
                    }
                }
                return None;
            }
            proof {
                assert(t@.subrange(i as int, i + adv) =~= json_escape(ch));
            }
            out.push(ch);
        } else {
            if '\u{1f}' >= c {
                proof {
                    assert forall|v: Seq<char>| #[trigger] quoted_at(t@, start as int, v) implies false by {
                        if k < v.len() {
                            lemma_escape_shape(v[k]);
                            assert(json_escape(v[k])[0] == t@[i as int]);
                        }
                    }
                }
                return None;
            }
            proof {
                assert(t@.subrange(i as int, i + 1) =~= json_escape(c));
            }
            out.push(c);
        }
        proof {
            lemma_escaped_push(before, out@.last());
            assert(t@.subrange(start as int, i + adv) =~= t@.subrange(start as int, i as int)
                + t@.subrange(i as int, i + adv));
            assert forall|v: Seq<char>| #[trigger] quoted_at(t@, start as int, v) implies out@.len()
                <= v.len() && out@ == v.take(out@.len() as int) by {
                if k < v.len() {
                    lemma_escape_shape(v[k]);
                    let e = json_escape(v[k]);
                    assert(e[0] == t@[i as int]);
                    lemma_escape_unique(out@.last(), v[k], t@, i as int);
                    assert(out@.last() == v[k]);
                    assert(out@ =~= v.take(out@.len() as int));
                } else {
                    assert(t@[i as int] == '"');
                }
            }
        }
        i = i + adv;
    }
}

/// A JSON string literal holds no raw newline.
pub proof fn lemma_quoted_no_newline(s: Seq<char>)
    ensures
        forall|j: int| 0 <= j < json_quoted(s).len() ==> #[trigger] json_quoted(s)[j] != '\n',
{
    lemma_escaped_no_newline(s);
    let q = json_quoted(s);
    assert forall|j: int| 0 <= j < q.len() implies #[trigger] q[j] != '\n' by {
        if 1 <= j < q.len() - 1 {
            assert(q[j] == json_escaped(s)[j - 1]);
        }
    }
}

proof fn lemma_escape_no_newline(c: char)
    ensures
        forall|j: int| 0 <= j < json_escape(c).len() ==> #[trigger] json_escape(c)[j] != '\n',
{
    let e = json_escape(c);
    if e.len() == 6 {
        lemma_control_escape(c);
        let v = c as int;
        assert(hex_digit(v / 16) != '\n');
        assert(hex_digit(v % 16) != '\n');
        assert(e[4] == hex_digit(v / 16));
        assert(e[5] == hex_digit(v % 16));
    }
}

proof fn lemma_escaped_no_newline(s: Seq<char>)
    ensures
        forall|j: int| 0 <= j < json_escaped(s).len() ==> #[trigger] json_escaped(s)[j] != '\n',
    decreases s.len(),
{
    if s.len() > 0 {
        lemma_escaped_no_newline(s.drop_first());
        let e = json_escape(s[0]);
        let r = json_escaped(s.drop_first());
        assert forall|j: int| 0 <= j < json_escaped(s).len() implies #[trigger] json_escaped(s)[j]
            != '\n' by {
            if j < e.len() {
                lemma_escape_no_newline(s[0]);
                assert(json_escaped(s)[j] == e[j]);
            } else {
                assert(json_escaped(s)[j] == r[j - e.len()]);
            }
        }
    }
}

/// A JSON value, as much of it as a record needs: numbers keep their text.
#[derive(Clone, Debug)]
pub enum JsonValue {
    Null,
    Bool(bool),
    Number(String),
    Str(String),
    /// An array or an object.
    Other,
}

pub enum JsonView {
    Null,
    Bool(bool),
    Number(Seq<char>),
    Str(Seq<char>),
    Other,
}

impl View for JsonValue {
    type V = JsonView;

    open spec fn view(&self) -> JsonView {
        match self {
            JsonValue::Null => JsonView::Null,
            JsonValue::Bool(b) => JsonView::Bool(*b),
            JsonValue::Number(t) => JsonView::Number(t@),
            JsonValue::Str(t) => JsonView::Str(t@),
            JsonValue::Other => JsonView::Other,
        }
    }
}

/// The string that serde_json reads first from `line` (after whitespace),
/// and the text after it.
pub uninterp spec fn json_leading(line: Seq<char>) -> Option<(Seq<char>, Seq<char>)>;

/// The fields of the JSON object that `text` is (whitespace around it
/// allowed), as serde_json reads it; `None` where `text` is not one object.
pub uninterp spec fn json_fields(text: Seq<char>) -> Option<Seq<(Seq<char>, JsonView)>>;

pub open spec fn pair_view(r: Option<(String, String)>) -> Option<(Seq<char>, Seq<char>)> {
    match r {
        Some((a, b)) => Some((a@, b@)),
        None => None,
    }
}

pub open spec fn field_views(v: Seq<(String, JsonValue)>) -> Seq<(Seq<char>, JsonView)> {
    v.map_values(|p: (String, JsonValue)| (p.0@, p.1@))
}

pub open spec fn fields_view(r: Option<Vec<(String, JsonValue)>>) -> Option<
    Seq<(Seq<char>, JsonView)>,
> {
    match r {
        Some(v) => Some(field_views(v@)),
        None => None,
    }
}

/// Relies on serde_json's `StreamDeserializer` reading one `String`: the
/// string it reads first from the line and, by its byte offset, the rest
/// of the line. The result depends on the line alone.
#[verifier::external_body]
pub(crate) fn read_leading_string(line: &str) -> (r: Option<(String, String)>)
    ensures
        pair_view(r) == json_leading(line@),
{
    let mut it = serde_json::Deserializer::from_str(line).into_iter::<String>();
    match it.next() {
        Some(Ok(k)) => Some((k, line[it.byte_offset()..].to_string())),
        _ => None,
    }
}

/// Relies on `serde_json::from_str::<serde_json::Value>`: where the text is
/// one JSON object, its fields (in the map's order), each value told apart
/// by variant, numbers by their text. The result depends on the text alone.
#[verifier::external_body]
pub(crate) fn read_object_fields(text: &str) -> (r: Option<Vec<(String, JsonValue)>>)
    ensures
        fields_view(r) == json_fields(text@),
{
    let map = match serde_json::from_str::<serde_json::Value>(text) {
        Ok(serde_json::Value::Object(m)) => m,
        _ => return None,
    };
    let mut out = Vec::new();
    for (k, v) in map {
        out.push((k, match v {
            serde_json::Value::Null => JsonValue::Null,
            serde_json::Value::Bool(b) => JsonValue::Bool(b),
            serde_json::Value::Number(n) => JsonValue::Number(n.to_string()),
            serde_json::Value::String(t) => JsonValue::Str(t),
            _ => JsonValue::Other,
        }));
    }
    Some(out)
}

} // verus!
