//! The text form of a `Person` and its decoder:
//! `{"name":"...","age":N,"email":"..."}`, where the two strings escape
//! `"`, `\\`, newline, carriage return, tab, backspace and form feed.

use vstd::prelude::*;

use crate::person::{ParseError, Person, PersonView};

verus! {

/// The escape sequence that stands for one character inside a quoted string.
pub open spec fn esc_char(c: char) -> Seq<char> {
    if c == '"' {
        seq!['\\', '"']
    } else if c == '\\' {
        seq!['\\', '\\']
    } else if c == '\n' {
        seq!['\\', 'n']
    } else if c == '\r' {
        seq!['\\', 'r']
    } else if c == '\t' {
        seq!['\\', 't']
    } else if c == '\u{8}' {
        seq!['\\', 'b']
    } else if c == '\u{c}' {
        seq!['\\', 'f']
    } else {
        seq![c]
    }
}

/// The body of a quoted string: each character replaced by its escape sequence.
pub open spec fn esc_str(s: Seq<char>) -> Seq<char>
    decreases s.len(),
{
    if s.len() == 0 {
        Seq::empty()
    } else {
        esc_char(s[0]) + esc_str(s.drop_first())
    }
}

/// The decimal digit character for `d < 10`.
pub open spec fn digit(d: nat) -> char {
    ((d + 48) as u8) as char
}

/// `c` is one of the characters `0` to `9`.
pub open spec fn is_digit(c: char) -> bool {
    '0' <= c && c <= '9'
}

/// The value of a decimal digit character.
pub open spec fn digit_value(c: char) -> nat {
    (c as u32 - 48) as nat
}

/// The decimal notation of `n`, with no leading zeros.
pub open spec fn decimal(n: nat) -> Seq<char>
    decreases n,
{
    if n < 10 {
        seq![digit(n)]
    } else {
        decimal(n / 10).push(digit(n % 10))
    }
}

/// The number that a sequence of digits denotes.
pub open spec fn value_of(ds: Seq<char>) -> nat
    decreases ds.len(),
{
    if ds.len() == 0 {
        0
    } else {
        value_of(ds.drop_last()) * 10 + digit_value(ds.last())
    }
}

/// The fixed parts of the encoding, in order.
pub open spec fn lit_name() -> Seq<char> {
    seq!['{', '"', 'n', 'a', 'm', 'e', '"', ':', '"']
}

pub open spec fn lit_age() -> Seq<char> {
    seq!['"', ',', '"', 'a', 'g', 'e', '"', ':']
}

pub open spec fn lit_email() -> Seq<char> {
    seq![',', '"', 'e', 'm', 'a', 'i', 'l', '"', ':', '"']
}

pub open spec fn lit_end() -> Seq<char> {
    seq!['"', '}']
}

/// The text that encodes a record:
/// `{"name":"<name>","age":<age>,"email":"<email>"}`, with the two strings escaped.
pub open spec fn encoding(p: PersonView) -> Seq<char> {
    lit_name() + esc_str(p.name) + lit_age() + decimal(p.age as nat) + lit_email() + esc_str(
        p.email,
    ) + lit_end()
}

/// Relies on `String::push`: it appends one character at the end.
#[verifier::external_body]
fn push_char(s: &mut String, c: char)
    ensures
        final(s)@ == old(s)@.push(c),
{
    s.push(c)
}

proof fn lemma_esc_str_concat(a: Seq<char>, b: Seq<char>)
    ensures
        esc_str(a + b) == esc_str(a) + esc_str(b),
    decreases a.len(),
{
    if a.len() == 0 {
        assert(a + b =~= b);
        assert(esc_str(a) + esc_str(b) =~= esc_str(b));
    } else {
        assert((a + b).drop_first() =~= a.drop_first() + b);
        lemma_esc_str_concat(a.drop_first(), b);
        assert(esc_str(a + b) =~= esc_str(a) + esc_str(b));
    }
}

proof fn lemma_esc_str_single(c: char)
    ensures
        esc_str(seq![c]) == esc_char(c),
{
    assert(seq![c].drop_first() =~= Seq::<char>::empty());
    assert(seq![c][0] == c);
    assert(esc_str(Seq::<char>::empty()) == Seq::<char>::empty());
    assert(esc_char(c) + Seq::<char>::empty() =~= esc_char(c));
}

/// Appends the escape sequence of `c`.
fn push_escaped_char(out: &mut String, c: char)
    ensures
        final(out)@ == old(out)@ + esc_char(c),
{
    let ghost start = out@;
    if c == '"' {
        push_char(out, '\\');
        push_char(out, '"');
    } else if c == '\\' {
        push_char(out, '\\');
        push_char(out, '\\');
    } else if c == '\n' {
        push_char(out, '\\');
        push_char(out, 'n');
    } else if c == '\r' {
        push_char(out, '\\');
        push_char(out, 'r');
    } else if c == '\t' {
        push_char(out, '\\');
        push_char(out, 't');
    } else if c == '\u{8}' {
        push_char(out, '\\');
        push_char(out, 'b');
    } else if c == '\u{c}' {
        push_char(out, '\\');
        push_char(out, 'f');
    } else {
        push_char(out, c);
    }
    assert(out@ =~= start + esc_char(c));
}

/// Appends the escaped body of `s`.
fn push_escaped(out: &mut String, s: &str)
    ensures
        final(out)@ == old(out)@ + esc_str(s@),
{
    let ghost start = out@;
    let n = s.unicode_len();
    let mut i: usize = 0;
    assert(s@.take(0) =~= Seq::<char>::empty());
    assert(out@ =~= start + esc_str(s@.take(0)));
    while i < n
        invariant
            n == s@.len(),
            i <= n,
            out@ == start + esc_str(s@.take(i as int)),
        decreases n - i,
    {
        let c = s.get_char(i);
        proof {
            assert(s@.take(i + 1) =~= s@.take(i as int) + seq![c]);
            lemma_esc_str_concat(s@.take(i as int), seq![c]);
            lemma_esc_str_single(c);
        }
        push_escaped_char(out, c);
        assert(out@ =~= start + esc_str(s@.take(i + 1)));
        i += 1;
    }
    assert(s@.take(n as int) =~= s@);
}

/// The digit character for `d < 10`.
fn digit_char(d: u32) -> (c: char)
    requires
        d < 10,
    ensures
        c == digit(d as nat),
{
    ((d + 48) as u8) as char
}

/// Appends the decimal notation of `n`.
fn push_decimal(out: &mut String, n: u32)
    ensures
        final(out)@ == old(out)@ + decimal(n as nat),
    decreases n,
{
    let ghost start = out@;
    if n >= 10 {
        push_decimal(out, n / 10);
    }
    let c = digit_char(n % 10);
    push_char(out, c);
    assert(out@ =~= start + decimal(n as nat));
}

/// `w` occurs in `v` starting at position `pos`.
pub open spec fn is_prefix_at(v: Seq<char>, pos: int, w: Seq<char>) -> bool {
    0 <= pos && pos + w.len() <= v.len() && forall|i: int| 0 <= i < w.len() ==> v[pos + i] == w[i]
}

proof fn lemma_prefix_split(v: Seq<char>, pos: int, a: Seq<char>, b: Seq<char>)
    requires
        is_prefix_at(v, pos, a + b),
    ensures
        is_prefix_at(v, pos, a),
        is_prefix_at(v, pos + a.len(), b),
{
    assert forall|i: int| 0 <= i < a.len() implies v[pos + i] == a[i] by {
        assert((a + b)[i] == a[i]);
    }
    assert forall|i: int| 0 <= i < b.len() implies v[pos + a.len() + i] == b[i] by {
        assert((a + b)[a.len() + i] == b[i]);
    }
}

/// The characters of `t`, in order.
fn chars_of(t: &str) -> (v: Vec<char>)
    ensures
        v@ == t@,
{
    let n = t.unicode_len();
    let mut v: Vec<char> = Vec::new();
    let mut i: usize = 0;
    while i < n
        invariant
            n == t@.len(),
            i <= n,
            v@ == t@.take(i as int),
        decreases n - i,
    {
        let c = t.get_char(i);
        v.push(c);
        assert(v@ =~= t@.take(i + 1));
        i += 1;
    }
    assert(t@.take(n as int) =~= t@);
    v
}

/// Checks that `lit` occurs in `v` at `pos`, and gives the position after it.
fn expect(v: &Vec<char>, pos: usize, lit: &str) -> (r: Option<usize>)
    ensures
        r matches Some(e) ==> e == pos + lit@.len() && e <= v@.len(),
        is_prefix_at(v@, pos as int, lit@) ==> r == Some((pos + lit@.len()) as usize),
{
    let n = lit.unicode_len();
    let len = v.len();
    if pos > len || n > len - pos {
        return None;
    }
    let mut i: usize = 0;
    while i < n
        invariant
            n == lit@.len(),
            i <= n,
            len == v@.len(),
            pos + n <= len,
            forall|k: int| 0 <= k < i ==> v@[pos + k] == lit@[k],
        decreases n - i,
    {
        if v[pos + i] != lit.get_char(i) {
            return None;
        }
        i += 1;
    }
    Some(pos + n)
}

/// Reads the body of a quoted string starting at `pos`, up to the closing quote,
/// and gives the unescaped text and the position of that quote.
fn parse_string(v: &Vec<char>, pos: usize, Ghost(s): Ghost<Seq<char>>) -> (r: Option<
    (String, usize),
>)
    ensures
        r matches Some((_, e)) ==> e < v@.len(),
        is_prefix_at(v@, pos as int, esc_str(s).push('"')) ==> (r matches Some((out, e)) && out@
            == s && e == pos + esc_str(s).len()),
{
    let ghost canon = is_prefix_at(v@, pos as int, esc_str(s).push('"'));
    let mut out = String::new();
    let mut j: usize = pos;
    let ghost mut k: int = 0;
    proof {
        assert(s.take(0) =~= Seq::<char>::empty());
        assert(s.skip(0) =~= s);
    }
    while j < v.len()
        invariant
            pos <= j,
            canon == is_prefix_at(v@, pos as int, esc_str(s).push('"')),
            canon ==> (0 <= k <= s.len() && out@ == s.take(k) && j == pos + esc_str(s.take(k)).len()
                && is_prefix_at(v@, j as int, esc_str(s.skip(k)).push('"'))),
        decreases v@.len() - j,
    {
        let c = v[j];
        proof {
            if canon && k < s.len() {
                assert(s.skip(k).drop_first() =~= s.skip(k + 1));
                assert(s.skip(k)[0] == s[k]);
                assert(esc_str(s.skip(k)).push('"') =~= esc_char(s[k]) + esc_str(s.skip(k + 1)).push(
                    '"',
                ));
                lemma_prefix_split(v@, j as int, esc_char(s[k]), esc_str(s.skip(k + 1)).push('"'));
                assert(s.take(k + 1) =~= s.take(k) + seq![s[k]]);
                lemma_esc_str_concat(s.take(k), seq![s[k]]);
                lemma_esc_str_single(s[k]);
                assert(v@[j as int] == esc_char(s[k])[0]);
                if esc_char(s[k]).len() == 2 {
                    assert(v@[j + 1] == esc_char(s[k])[1]);
                }
                if c == '\\' {
                    assert(esc_char(s[k]).len() == 2);
                }
            }
            if canon && k == s.len() {
                assert(s.skip(k) =~= Seq::<char>::empty());
                assert(esc_str(s.skip(k)).push('"')[0] == '"');
                assert(c == '"');
            }
        }
        if c == '"' {
            proof {
                if canon {
                    assert(k == s.len());
                    assert(s.take(k) =~= s);
                }
            }
            return Some((out, j));
        }
        if c == '\\' {
            if j + 1 >= v.len() {
                return None;
            }
            let e = v[j + 1];
            let d = if e == '"' {
                '"'
            } else if e == '\\' {
                '\\'
            } else if e == 'n' {
                '\n'
            } else if e == 'r' {
                '\r'
            } else if e == 't' {
                '\t'
            } else if e == 'b' {
                '\u{8}'
            } else if e == 'f' {
                '\u{c}'
            } else {
                return None;
            };
            push_char(&mut out, d);
            j += 2;
        } else {
            push_char(&mut out, c);
            j += 1;
        }
        proof {
            if canon {
                k = k + 1;
                assert(out@ =~= s.take(k));
            }
        }
    }
    None
}

proof fn lemma_digit(d: nat)
    requires
        d < 10,
    ensures
        is_digit(digit(d)),
        digit_value(digit(d)) == d,
{
}

proof fn lemma_decimal_digits(n: nat)
    ensures
        decimal(n).len() >= 1,
        forall|i: int| 0 <= i < decimal(n).len() ==> is_digit(#[trigger] decimal(n)[i]),
    decreases n,
{
    if n < 10 {
        lemma_digit(n);
    } else {
        lemma_decimal_digits(n / 10);
        lemma_digit(n % 10);
    }
}

proof fn lemma_value_of_decimal(n: nat)
    ensures
        value_of(decimal(n)) == n,
    decreases n,
{
    lemma_decimal_digits(n);
    if n < 10 {
        lemma_digit(n);
        assert(decimal(n).drop_last() =~= Seq::<char>::empty());
        assert(value_of(Seq::<char>::empty()) == 0);
        assert(decimal(n).last() == digit(n));
    } else {
        lemma_value_of_decimal(n / 10);
        lemma_digit(n % 10);
        assert(decimal(n).drop_last() =~= decimal(n / 10));
        assert(decimal(n).last() == digit(n % 10));
        assert(value_of(decimal(n)) == value_of(decimal(n / 10)) * 10 + digit_value(digit(n % 10)));
        assert(n == (n / 10) * 10 + n % 10);
    }
}

proof fn lemma_value_of_step(ds: Seq<char>, k: int)
    requires
        0 <= k < ds.len(),
    ensures
        value_of(ds.take(k + 1)) == value_of(ds.take(k)) * 10 + digit_value(ds[k]),
{
    assert(ds.take(k + 1).drop_last() =~= ds.take(k));
}

proof fn lemma_value_of_prefix_le(ds: Seq<char>, k: int)
    requires
        0 <= k <= ds.len(),
    ensures
        value_of(ds.take(k)) <= value_of(ds),
    decreases ds.len() - k,
{
    if k < ds.len() {
        lemma_value_of_step(ds, k);
        lemma_value_of_prefix_le(ds, k + 1);
    } else {
        assert(ds.take(k) =~= ds);
    }
}

/// Reads a run of decimal digits starting at `pos`, and gives its value and the
/// position of the first character after it.
fn parse_decimal(v: &Vec<char>, pos: usize, Ghost(n): Ghost<nat>) -> (r: Option<(u32, usize)>)
    ensures
        r matches Some((_, e)) ==> e <= v@.len(),
        n <= u32::MAX && is_prefix_at(v@, pos as int, decimal(n).push(',')) ==> r == Some(
            (n as u32, (pos + decimal(n).len()) as usize),
        ),
{
    let ghost ds = decimal(n);
    let ghost canon = n <= u32::MAX && is_prefix_at(v@, pos as int, ds.push(','));
    proof {
        lemma_decimal_digits(n);
        lemma_value_of_decimal(n);
        assert(ds.take(0) =~= Seq::<char>::empty());
    }
    let len = v.len();
    if pos > len {
        return None;
    }
    let mut j: usize = pos;
    let mut acc: u64 = 0;
    while j < len && '0' <= v[j] && v[j] <= '9'
        invariant
            len == v@.len(),
            pos <= j <= len,
            acc <= u32::MAX,
            ds == decimal(n),
            value_of(ds) == n,
            canon == (n <= u32::MAX && is_prefix_at(v@, pos as int, ds.push(','))),
            canon ==> (j - pos <= ds.len() && acc == value_of(ds.take(j - pos))),
        decreases len - j,
    {
        let ghost k = j - pos;
        proof {
            if canon {
                assert(v@[pos + k] == ds.push(',')[k]);
                assert(k < ds.len());
                assert(ds.push(',')[k] == ds[k]);
                lemma_value_of_step(ds, k);
                lemma_value_of_prefix_le(ds, k + 1);
            }
        }
        let d = (v[j] as u32 - 48) as u64;
        let next = acc * 10 + d;
        assert(canon ==> next == value_of(ds.take(k + 1)));
        if next > 4294967295 {
            return None;
        }
        acc = next;
        j += 1;
    }
    proof {
        if canon && j - pos < ds.len() {
            assert(v@[pos + (j - pos)] == ds.push(',')[j - pos]);
            assert(is_digit(ds[j - pos]));
        }
        if canon {
            assert(ds.take(ds.len() as int) =~= ds);
        }
    }
    if j == pos {
        return None;
    }
    Some((acc as u32, j))
}

proof fn lemma_prefix_push(v: Seq<char>, pos: int, a: Seq<char>, b: Seq<char>)
    requires
        is_prefix_at(v, pos, a),
        is_prefix_at(v, pos + a.len(), b),
        b.len() > 0,
    ensures
        is_prefix_at(v, pos, a.push(b[0])),
{
    assert(v[pos + a.len() + 0] == b[0]);
}

/// Where each part of the encoding of `m` stands in that encoding.
proof fn lemma_encoding_layout(m: PersonView)
    ensures
        ({
            let v = encoding(m);
            let o1 = lit_name().len() as int;
            let o2 = o1 + esc_str(m.name).len();
            let o3 = o2 + lit_age().len();
            let o4 = o3 + decimal(m.age as nat).len();
            let o5 = o4 + lit_email().len();
            let o6 = o5 + esc_str(m.email).len();
            &&& is_prefix_at(v, 0, lit_name())
            &&& is_prefix_at(v, o1, esc_str(m.name).push('"'))
            &&& is_prefix_at(v, o2, lit_age())
            &&& is_prefix_at(v, o3, decimal(m.age as nat).push(','))
            &&& is_prefix_at(v, o4, lit_email())
            &&& is_prefix_at(v, o5, esc_str(m.email).push('"'))
            &&& is_prefix_at(v, o6, lit_end())
        }),
{
    let v = encoding(m);
    let a1 = lit_name();
    let e1 = esc_str(m.name);
    let d = decimal(m.age as nat);
    let e2 = esc_str(m.email);
    let a2 = a1 + e1;
    let a3 = a2 + lit_age();
    let a4 = a3 + d;
    let a5 = a4 + lit_email();
    let a6 = a5 + e2;
    assert(v == a6 + lit_end());
    assert(is_prefix_at(v, 0, a6 + lit_end()));
    lemma_prefix_split(v, 0, a6, lit_end());
    lemma_prefix_split(v, 0, a5, e2);
    lemma_prefix_split(v, 0, a4, lit_email());
    lemma_prefix_split(v, 0, a3, d);
    lemma_prefix_split(v, 0, a2, lit_age());
    lemma_prefix_split(v, 0, a1, e1);
    lemma_prefix_push(v, a1.len() as int, e1, lit_age());
    lemma_prefix_push(v, a3.len() as int, d, lit_email());
    lemma_prefix_push(v, a5.len() as int, e2, lit_end());
}

proof fn lemma_esc_str_unique(w: Seq<char>, pos: int, a: Seq<char>, b: Seq<char>)
    requires
        is_prefix_at(w, pos, esc_str(a).push('"')),
        is_prefix_at(w, pos, esc_str(b).push('"')),
    ensures
        a == b,
    decreases a.len(),
{
    if a.len() == 0 {
        assert(esc_str(a).push('"')[0] == '"');
        if b.len() > 0 {
            assert(esc_str(b).push('"') =~= esc_char(b[0]) + esc_str(b.drop_first()).push('"'));
            assert(w[pos + 0] == esc_str(b).push('"')[0]);
        }
        assert(a =~= b);
    } else {
        assert(esc_str(a).push('"') =~= esc_char(a[0]) + esc_str(a.drop_first()).push('"'));
        assert(w[pos + 0] == esc_str(a).push('"')[0]);
        if b.len() == 0 {
            assert(w[pos + 0] == esc_str(b).push('"')[0]);
        }
        assert(b.len() > 0);
        assert(esc_str(b).push('"') =~= esc_char(b[0]) + esc_str(b.drop_first()).push('"'));
        assert(w[pos + 0] == esc_str(b).push('"')[0]);
        lemma_prefix_split(w, pos, esc_char(a[0]), esc_str(a.drop_first()).push('"'));
        lemma_prefix_split(w, pos, esc_char(b[0]), esc_str(b.drop_first()).push('"'));
        if esc_char(a[0]).len() == 2 {
            assert(w[pos + 1] == esc_char(a[0])[1]);
            assert(w[pos + 1] == esc_char(b[0])[1]);
        }
        assert(a[0] == b[0]);
        lemma_esc_str_unique(w, pos + esc_char(a[0]).len(), a.drop_first(), b.drop_first());
        assert forall|i: int| 0 <= i < a.len() implies a[i] == b[i] by {
            if i > 0 {
                assert(a[i] == a.drop_first()[i - 1]);
                assert(b[i] == b.drop_first()[i - 1]);
            }
        }
        assert(a =~= b);
    }
}

proof fn lemma_decimal_unique(w: Seq<char>, pos: int, x: nat, y: nat)
    requires
        is_prefix_at(w, pos, decimal(x).push(',')),
        is_prefix_at(w, pos, decimal(y).push(',')),
    ensures
        x == y,
{
    let dx = decimal(x);
    let dy = decimal(y);
    lemma_decimal_digits(x);
    lemma_decimal_digits(y);
    if dx.len() < dy.len() {
        assert(w[pos + dx.len()] == dx.push(',')[dx.len() as int]);
        assert(w[pos + dx.len()] == dy.push(',')[dx.len() as int]);
        assert(is_digit(dy[dx.len() as int]));
    }
    if dy.len() < dx.len() {
        assert(w[pos + dy.len()] == dy.push(',')[dy.len() as int]);
        assert(w[pos + dy.len()] == dx.push(',')[dy.len() as int]);
        assert(is_digit(dx[dy.len() as int]));
    }
    assert forall|i: int| 0 <= i < dx.len() implies dx[i] == dy[i] by {
        assert(w[pos + i] == dx.push(',')[i]);
        assert(w[pos + i] == dy.push(',')[i]);
    }
    assert(dx =~= dy);
    lemma_value_of_decimal(x);
    lemma_value_of_decimal(y);
}

/// A text is the encoding of at most one record. With the contracts of `encode`
/// and `decode`, this is what makes decoding the encoding of a record give back
/// that same record, field by field.
pub proof fn lemma_encoding_injective(m1: PersonView, m2: PersonView)
    requires
        encoding(m1) == encoding(m2),
    ensures
        m1 == m2,
{
    let w = encoding(m1);
    lemma_encoding_layout(m1);
    lemma_encoding_layout(m2);
    let o1 = lit_name().len() as int;
    lemma_esc_str_unique(w, o1, m1.name, m2.name);
    let o3 = o1 + esc_str(m1.name).len() + lit_age().len();
    lemma_decimal_unique(w, o3, m1.age as nat, m2.age as nat);
    let o5 = o3 + decimal(m1.age as nat).len() + lit_email().len();
    lemma_esc_str_unique(w, o5, m1.email, m2.email);
}

/// Decoding the encoding of a record gives back that record, field by field.
pub proof fn lemma_round_trip(m: PersonView)
    ensures
        forall|m2: PersonView| #[trigger] encoding(m2) == encoding(m) ==> m2 == m,
{
    assert forall|m2: PersonView| #[trigger] encoding(m2) == encoding(m) implies m2 == m by {
        lemma_encoding_injective(m2, m);
    }
}

/// The key of the age field, with its quotes and colon: `"age":`.
pub open spec fn age_key() -> Seq<char> {
    seq!['"', 'a', 'g', 'e', '"', ':']
}

/// A text in which `"age":` occurs nowhere is the encoding of no record, so
/// `decode` refuses it with `ParseError` rather than filling in an age.
pub proof fn lemma_missing_age_refused(t: Seq<char>)
    requires
        forall|i: int| !is_prefix_at(t, i, age_key()),
    ensures
        forall|m: PersonView| #[trigger] encoding(m) != t,
{
    assert forall|m: PersonView| #[trigger] encoding(m) != t by {
        if encoding(m) == t {
            lemma_encoding_layout(m);
            let o2 = (lit_name().len() + esc_str(m.name).len()) as int;
            assert(lit_age() =~= seq!['"', ','] + age_key());
            lemma_prefix_split(t, o2, seq!['"', ','], age_key());
            assert(is_prefix_at(t, o2 + 2, age_key()));
        }
    }
}

impl Person {
    /// The text that encodes this record; the same record always gives the same text.
    pub fn encode(&self) -> (r: String)
        ensures
            r@ == encoding(self@),
    {
        let mut out = String::new();
        out.append("{\"name\":\"");
        push_escaped(&mut out, self.name.as_str());
        out.append("\",\"age\":");
        push_decimal(&mut out, self.age);
        out.append(",\"email\":\"");
        push_escaped(&mut out, self.email.as_str());
        out.append("\"}");
        proof {
            reveal_strlit("{\"name\":\"");
            reveal_strlit("\",\"age\":");
            reveal_strlit(",\"email\":\"");
            reveal_strlit("\"}");
            assert("{\"name\":\""@ =~= lit_name());
            assert("\",\"age\":"@ =~= lit_age());
            assert(",\"email\":\""@ =~= lit_email());
            assert("\"}"@ =~= lit_end());
        }
        out
    }

    /// Reads back a record from its encoding. Succeeds exactly when `text` is the
    /// encoding of some record, and then gives that record; every other text is
    /// refused with `ParseError`.
    pub fn decode(text: &str) -> (r: Result<Person, ParseError>)
        ensures
            r matches Ok(p) ==> encoding(p@) == text@,
            r is Ok <==> exists|m: PersonView| encoding(m) == text@,
            forall|m: PersonView| #[trigger] encoding(m) == text@ ==> (r matches Ok(p) && p@ == m),
    {
        let v = chars_of(text);
        let ghost m = choose|m: PersonView| encoding(m) == text@;
        let ghost canon = encoding(m) == text@;
        proof {
            reveal_strlit("{\"name\":\"");
            reveal_strlit("\",\"age\":");
            reveal_strlit(",\"email\":\"");
            assert("{\"name\":\""@ =~= lit_name());
            assert("\",\"age\":"@ =~= lit_age());
            assert(",\"email\":\""@ =~= lit_email());
            lemma_encoding_layout(m);
            assert forall|m2: PersonView| #[trigger] encoding(m2) == text@ implies m2 == m by {
                lemma_encoding_injective(m2, m);
            }
        }
        let p1 = match expect(&v, 0, "{\"name\":\"") {
            Some(e) => e,
            None => return Err(ParseError),
        };
        let (name, p2) = match parse_string(&v, p1, Ghost(m.name)) {
            Some(x) => x,
            None => return Err(ParseError),
        };
        let p3 = match expect(&v, p2, "\",\"age\":") {
            Some(e) => e,
            None => return Err(ParseError),
        };
        let (age, p4) = match parse_decimal(&v, p3, Ghost(m.age as nat)) {
            Some(x) => x,
            None => return Err(ParseError),
        };
        let p5 = match expect(&v, p4, ",\"email\":\"") {
            Some(e) => e,
            None => return Err(ParseError),
        };
        let (email, _p6) = match parse_string(&v, p5, Ghost(m.email)) {
            Some(x) => x,
            None => return Err(ParseError),
        };
        let p = Person { name, age, email };
        let e = p.encode();
        if e == text.to_owned() {
            Ok(p)
        } else {
            Err(ParseError)
        }
    }
}

} // verus!
