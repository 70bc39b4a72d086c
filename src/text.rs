//! Character sequences: byte-wise ordering, conversion to and from `String`.
use vstd::prelude::*;
use vstd::relations::total_ordering;
use vstd::std_specs::iter::IteratorSpec;

verus! {

/// Lexicographic order on character sequences, by code point.
/// On UTF-8 text this is the same order as comparing the encoded bytes.
pub open spec fn chars_le(a: Seq<char>, b: Seq<char>) -> bool
    decreases a.len(),
{
    if a.len() == 0 {
        true
    } else if b.len() == 0 {
        false
    } else if a[0] != b[0] {
        (a[0] as int) < (b[0] as int)
    } else {
        chars_le(a.drop_first(), b.drop_first())
    }
}

pub proof fn lemma_chars_le_reflexive(a: Seq<char>)
    ensures
        chars_le(a, a),
    decreases a.len(),
{
    if a.len() > 0 {
        lemma_chars_le_reflexive(a.drop_first());
    }
}

pub proof fn lemma_chars_le_antisymmetric(a: Seq<char>, b: Seq<char>)
    requires
        chars_le(a, b),
        chars_le(b, a),
    ensures
        a == b,
    decreases a.len(),
{
    if a.len() > 0 && b.len() > 0 {
        assert(a[0] == b[0]);
        lemma_chars_le_antisymmetric(a.drop_first(), b.drop_first());
        assert(a =~= seq![a[0]] + a.drop_first());
        assert(b =~= seq![b[0]] + b.drop_first());
    }
}

pub proof fn lemma_chars_le_transitive(a: Seq<char>, b: Seq<char>, c: Seq<char>)
    requires
        chars_le(a, b),
        chars_le(b, c),
    ensures
        chars_le(a, c),
    decreases a.len(),
{
    if a.len() > 0 && b.len() > 0 && c.len() > 0 {
        if a[0] == b[0] && b[0] == c[0] {
            lemma_chars_le_transitive(a.drop_first(), b.drop_first(), c.drop_first());
        }
    }
}

pub proof fn lemma_chars_le_connected(a: Seq<char>, b: Seq<char>)
    ensures
        chars_le(a, b) || chars_le(b, a),
    decreases a.len(),
{
    if a.len() > 0 && b.len() > 0 {
        if a[0] == b[0] {
            lemma_chars_le_connected(a.drop_first(), b.drop_first());
        } else {
        }
    }
}

/// `chars_le` is a total order.
pub proof fn lemma_chars_le_total()
    ensures
        total_ordering(|a: Seq<char>, b: Seq<char>| chars_le(a, b)),
{
    assert forall|a: Seq<char>| #[trigger] chars_le(a, a) by {
        lemma_chars_le_reflexive(a);
    }
    assert forall|a: Seq<char>, b: Seq<char>| #[trigger]
        chars_le(a, b) && #[trigger] chars_le(b, a) implies a == b by {
        lemma_chars_le_antisymmetric(a, b);
    }
    assert forall|a: Seq<char>, b: Seq<char>, c: Seq<char>| #[trigger]
        chars_le(a, b) && #[trigger] chars_le(b, c) implies chars_le(a, c) by {
        lemma_chars_le_transitive(a, b, c);
    }
    assert forall|a: Seq<char>, b: Seq<char>| #[trigger]
        chars_le(a, b) || #[trigger] chars_le(b, a) by {
        lemma_chars_le_connected(a, b);
    }
}

proof fn lemma_chars_le_step(a: Seq<char>, b: Seq<char>, i: int)
    requires
        0 <= i < a.len(),
        i < b.len(),
        a[i] == b[i],
    ensures
        chars_le(a.skip(i), b.skip(i)) == chars_le(a.skip(i + 1), b.skip(i + 1)),
{
    assert(a.skip(i).drop_first() =~= a.skip(i + 1));
    assert(b.skip(i).drop_first() =~= b.skip(i + 1));
}

/// Compares two character sequences in the order `chars_le`.
pub fn chars_le_exec(a: &Vec<char>, b: &Vec<char>) -> (r: bool)
    ensures
        r == chars_le(a@, b@),
{
    let mut i: usize = 0;
    assert(a@.skip(0) =~= a@);
    assert(b@.skip(0) =~= b@);
    while i < a.len() && i < b.len() && a[i] == b[i]
        invariant
            i <= a.len(),
            i <= b.len(),
            chars_le(a@, b@) == chars_le(a@.skip(i as int), b@.skip(i as int)),
        decreases a.len() - i,
    {
        proof {
            lemma_chars_le_step(a@, b@, i as int);
        }
        i = i + 1;
    }
    if i == a.len() {
        true
    } else if i == b.len() {
        false
    } else {
        a[i] < b[i]
    }
}

/// The characters of a string, in order.
pub fn chars_of(s: &str) -> (r: Vec<char>)
    ensures
        r@ == s@,
{
    let mut out: Vec<char> = Vec::new();
    let mut it = s.chars();
    proof {
        vstd::string::axiom_spec_iter(s);
    }
    loop
        invariant
            out@ + it.remaining() == s@,
            it.decrease() is Some,
        ensures
            out@ == s@,
        decreases it.decrease()->0,
    {
        match it.next() {
            Some(c) => {
                out.push(c);
            },
            None => {
                assert(it.remaining().len() == 0);
                assert(out@ =~= out@ + it.remaining());
                assert(out@ == s@);
                break;
            },
        }
    }
    out
}

/// `t` holds `s` from position `i` on.
pub open spec fn seq_at(t: Seq<char>, i: int, s: Seq<char>) -> bool {
    &&& 0 <= i
    &&& i + s.len() <= t.len()
    &&& t.subrange(i, i + s.len()) == s
}

pub proof fn lemma_seq_at_concat(t: Seq<char>, i: int, a: Seq<char>, b: Seq<char>)
    ensures
        seq_at(t, i, a + b) <==> seq_at(t, i, a) && seq_at(t, i + a.len(), b),
{
    if seq_at(t, i, a + b) {
        assert((a + b).subrange(0, a.len() as int) =~= a);
        assert((a + b).subrange(a.len() as int, (a.len() + b.len()) as int) =~= b);
        assert(t.subrange(i, i + a.len()) =~= (a + b).subrange(0, a.len() as int));
        assert(t.subrange(i + a.len(), i + a.len() + b.len()) =~= (a + b).subrange(
            a.len() as int,
            (a.len() + b.len()) as int,
        ));
    }
    if seq_at(t, i, a) && seq_at(t, i + a.len(), b) {
        assert(t.subrange(i, i + (a + b).len()) =~= t.subrange(i, i + a.len()) + t.subrange(
            i + a.len(),
            i + a.len() + b.len(),
        ));
    }
}

/// Whether `t` holds `lit` from position `i` on.
pub fn chars_at(t: &Vec<char>, i: usize, lit: &Vec<char>) -> (r: bool)
    ensures
        r == seq_at(t@, i as int, lit@),
{
    if i > t.len() || t.len() - i < lit.len() {
        return false;
    }
    let n = t.len();
    let mut j: usize = 0;
    while j < lit.len()
        invariant
            n == t@.len(),
            i + lit@.len() <= n,
            j <= lit@.len(),
            t@.subrange(i as int, i + j) == lit@.subrange(0, j as int),
        decreases lit@.len() - j,
    {
        if t[i + j] != lit[j] {
            assert(t@.subrange(i as int, i + lit@.len())[j as int] != lit@[j as int]);
            return false;
        }
        assert(t@.subrange(i as int, i + j + 1) =~= t@.subrange(i as int, i + j).push(t@[i + j]));
        assert(lit@.subrange(0, j + 1) =~= lit@.subrange(0, j as int).push(lit@[j as int]));
        j = j + 1;
    }
    assert(lit@.subrange(0, j as int) =~= lit@);
    true
}

/// Appends `s`.
pub fn push_all(out: &mut Vec<char>, s: &Vec<char>)
    ensures
        final(out)@ == old(out)@ + s@,
{
    let mut j: usize = 0;
    while j < s.len()
        invariant
            j <= s@.len(),
            out@ == old(out)@ + s@.subrange(0, j as int),
        decreases s@.len() - j,
    {
        out.push(s[j]);
        assert(s@.subrange(0, j + 1) =~= s@.subrange(0, j as int).push(s@[j as int]));
        j = j + 1;
    }
    assert(s@.subrange(0, j as int) =~= s@);
}

/// Appends the characters of `s`.
pub fn push_str(out: &mut Vec<char>, s: &str)
    ensures
        final(out)@ == old(out)@ + s@,
{
    let v = chars_of(s);
    push_all(out, &v);
}

/// Relies on `String::push`, which appends one character.
#[verifier::external_body]
pub(crate) fn push_char(s: &mut String, c: char)
    ensures
        final(s)@ == old(s)@.push(c),
{
    s.push(c)
}

/// The string of a character sequence.
pub fn string_of(v: &Vec<char>) -> (r: String)
    ensures
        r@ == v@,
{
    let mut s = String::new();
    let mut j: usize = 0;
    while j < v.len()
        invariant
            j <= v@.len(),
            s@ == v@.subrange(0, j as int),
        decreases v@.len() - j,
    {
        push_char(&mut s, v[j]);
        assert(v@.subrange(0, j + 1) =~= v@.subrange(0, j as int).push(v@[j as int]));
        j = j + 1;
    }
    assert(v@.subrange(0, j as int) =~= v@);
    s
}

/// JSON whitespace.
pub open spec fn is_ws(c: char) -> bool {
    c == ' ' || c == '\t' || c == '\n' || c == '\r'
}

pub open spec fn all_ws(s: Seq<char>) -> bool {
    forall|j: int| 0 <= j < s.len() ==> #[trigger] is_ws(s[j])
}

/// The position of the first character at or after `i` that is not
/// whitespace (or the end).
pub fn skip_ws(t: &Vec<char>, i: usize) -> (r: usize)
    requires
        i <= t@.len(),
    ensures
        i <= r <= t@.len(),
        all_ws(t@.subrange(i as int, r as int)),
        r < t@.len() ==> !is_ws(t@[r as int]),
{
    let mut j: usize = i;
    while j < t.len() && (t[j] == ' ' || t[j] == '\t' || t[j] == '\n' || t[j] == '\r')
        invariant
            i <= j <= t@.len(),
            all_ws(t@.subrange(i as int, j as int)),
        decreases t@.len() - j,
    {
        assert(t@.subrange(i as int, j + 1) =~= t@.subrange(i as int, j as int).push(t@[j as int]));
        j = j + 1;
    }
    j
}

/// Whitespace followed by something that does not begin with whitespace:
/// skipping whitespace lands on that thing.
pub proof fn lemma_skip_lands(t: Seq<char>, i: int, w: Seq<char>, r: int)
    requires
        seq_at(t, i, w),
        all_ws(w),
        i <= r <= t.len(),
        all_ws(t.subrange(i, r)),
        r < t.len() ==> !is_ws(t[r]),
        i + w.len() < t.len() ==> !is_ws(t[i + w.len()]),
    ensures
        r == i + w.len(),
{
    if r < i + w.len() {
        assert(t[r] == w[r - i]);
    } else if r > i + w.len() {
        assert(t[i + w.len()] == t.subrange(i, r)[w.len() as int]);
    }
}

} // verus!
