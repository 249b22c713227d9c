//! String helpers shared by the whole library: decimal rendering and parsing,
//! splitting and joining on a separator character, ASCII lower-casing, and the
//! lemmas that relate them.

use vstd::prelude::*;
use vstd::string::StrSliceExecFns;
use vstd::string::StringExecFns;

verus! {

// ---------------------------------------------------------------------------
// Decimal digits
// ---------------------------------------------------------------------------

/// The character for a single decimal digit value.
pub open spec fn digit_char(d: nat) -> char {
    if d == 0 {
        '0'
    } else if d == 1 {
        '1'
    } else if d == 2 {
        '2'
    } else if d == 3 {
        '3'
    } else if d == 4 {
        '4'
    } else if d == 5 {
        '5'
    } else if d == 6 {
        '6'
    } else if d == 7 {
        '7'
    } else if d == 8 {
        '8'
    } else {
        '9'
    }
}

pub open spec fn is_digit(c: char) -> bool {
    '0' <= c && c <= '9'
}

pub open spec fn digit_val(c: char) -> nat {
    (c as nat - '0' as nat) as nat
}

/// The canonical decimal rendering of a natural number (no sign, no leading
/// zeros except for zero itself).
pub open spec fn dec_str(n: nat) -> Seq<char>
    decreases n,
{
    if n < 10 {
        seq![digit_char(n)]
    } else {
        dec_str(n / 10) + seq![digit_char(n % 10)]
    }
}

/// The numeric value of a digit string, most significant digit first.
pub open spec fn dec_val(s: Seq<char>) -> nat
    decreases s.len(),
{
    if s.len() == 0 {
        0
    } else {
        dec_val(s.drop_last()) * 10 + digit_val(s.last())
    }
}

pub open spec fn all_digits(s: Seq<char>) -> bool {
    forall|i: int| 0 <= i < s.len() ==> is_digit(#[trigger] s[i])
}

pub proof fn lemma_dec_str_digits(n: nat)
    ensures
        dec_str(n).len() >= 1,
        all_digits(dec_str(n)),
    decreases n,
{
    if n >= 10 {
        lemma_dec_str_digits(n / 10);
        assert(dec_str(n) == dec_str(n / 10) + seq![digit_char(n % 10)]);
        assert forall|i: int| 0 <= i < dec_str(n).len() implies is_digit(#[trigger] dec_str(n)[i]) by {
            if i < dec_str(n / 10).len() {
                assert(dec_str(n)[i] == dec_str(n / 10)[i]);
            }
        }
    }
}

/// Rendering and then reading back a decimal number is the identity.
pub proof fn lemma_dec_round_trip(n: nat)
    ensures
        dec_val(dec_str(n)) == n,
    decreases n,
{
    if n < 10 {
        let s = seq![digit_char(n)];
        assert(dec_str(n) == s);
        assert(s.drop_last() =~= Seq::<char>::empty());
        assert(dec_val(s) == dec_val(s.drop_last()) * 10 + digit_val(s.last()));
    } else {
        lemma_dec_round_trip(n / 10);
        let s = dec_str(n);
        assert(s == dec_str(n / 10) + seq![digit_char(n % 10)]);
        assert(s.drop_last() == dec_str(n / 10));
        assert(s.last() == digit_char(n % 10));
        assert(digit_val(digit_char(n % 10)) == n % 10);
    }
}

/// A digit string never contains a non-digit character.
pub proof fn lemma_digits_free_of(s: Seq<char>, x: char)
    requires
        all_digits(s),
        !is_digit(x),
    ensures
        !s.contains(x),
{
    if s.contains(x) {
        let i = choose|i: int| 0 <= i < s.len() && s[i] == x;
        assert(is_digit(s[i]));
    }
}

/// Appending digits to a digit string never shrinks its value.
pub proof fn lemma_dec_val_extend(s: Seq<char>, t: Seq<char>)
    ensures
        dec_val(s + t) >= dec_val(s),
    decreases t.len(),
{
    if t.len() == 0 {
        assert(s + t =~= s);
    } else {
        lemma_dec_val_extend(s, t.drop_last());
        assert((s + t).drop_last() =~= s + t.drop_last());
        assert((s + t).len() > 0);
        assert(dec_val(s + t) == dec_val(s + t.drop_last()) * 10 + digit_val((s + t).last()));
    }
}

// ---------------------------------------------------------------------------
// Finding, splitting, joining
// ---------------------------------------------------------------------------

/// Index of the first occurrence of `c` in `s`, or `s.len()` when absent.
pub open spec fn find_char(s: Seq<char>, c: char) -> int
    decreases s.len(),
{
    if s.len() == 0 {
        0
    } else if s[0] == c {
        0
    } else {
        1 + find_char(s.drop_first(), c)
    }
}

pub proof fn lemma_find_char(s: Seq<char>, c: char)
    ensures
        0 <= find_char(s, c) <= s.len(),
        find_char(s, c) < s.len() ==> s[find_char(s, c)] == c,
        forall|j: int| 0 <= j < find_char(s, c) ==> s[j] != c,
    decreases s.len(),
{
    if s.len() > 0 && s[0] != c {
        lemma_find_char(s.drop_first(), c);
        assert forall|j: int| 0 <= j < find_char(s, c) implies s[j] != c by {
            if j > 0 {
                assert(s.drop_first()[j - 1] == s[j]);
            }
        }
    }
}

/// `find_char` returns exactly the position characterized by "no earlier hit".
pub proof fn lemma_find_char_at(s: Seq<char>, c: char, i: int)
    requires
        0 <= i <= s.len(),
        forall|j: int| 0 <= j < i ==> s[j] != c,
        i < s.len() ==> s[i] == c,
    ensures
        find_char(s, c) == i,
{
    lemma_find_char(s, c);
    let f = find_char(s, c);
    if f < i {
        assert(s[f] == c);
    }
    if i < f {
        assert(s[i] != c);
    }
}

pub proof fn lemma_find_char_absent(s: Seq<char>, c: char)
    requires
        !s.contains(c),
    ensures
        find_char(s, c) == s.len(),
{
    assert(forall|j: int| 0 <= j < s.len() ==> s[j] != c);
    lemma_find_char_at(s, c, s.len() as int);
}

/// The parts of `s` between occurrences of the separator `c`.
pub open spec fn split_char(s: Seq<char>, c: char) -> Seq<Seq<char>>
    decreases s.len(),
{
    let i = find_char(s, c);
    if 0 <= i < s.len() {
        seq![s.take(i)] + split_char(s.skip(i + 1), c)
    } else {
        seq![s]
    }
}

pub proof fn lemma_split_len(s: Seq<char>, c: char)
    ensures
        split_char(s, c).len() >= 1,
    decreases s.len(),
{
    lemma_find_char(s, c);
    let i = find_char(s, c);
    if i < s.len() {
        lemma_split_len(s.skip(i + 1), c);
    }
}

pub proof fn lemma_split_no_sep(s: Seq<char>, c: char)
    requires
        !s.contains(c),
    ensures
        split_char(s, c) == seq![s],
{
    lemma_find_char_absent(s, c);
}

/// Splitting `a + c + rest` where `a` is separator-free peels off `a`.
pub proof fn lemma_split_prefix(a: Seq<char>, rest: Seq<char>, c: char)
    requires
        !a.contains(c),
    ensures
        split_char(a + seq![c] + rest, c) == seq![a] + split_char(rest, c),
{
    let s = a + seq![c] + rest;
    assert(forall|j: int| 0 <= j < a.len() ==> s[j] == a[j]);
    assert(forall|j: int| 0 <= j < a.len() ==> s[j] != c);
    assert(s[a.len() as int] == c);
    lemma_find_char_at(s, c, a.len() as int);
    assert(s.take(a.len() as int) =~= a);
    assert(s.skip(a.len() as int + 1) =~= rest);
}

/// The parts joined back with the separator between them.
pub open spec fn join_char(parts: Seq<Seq<char>>, c: char) -> Seq<char>
    decreases parts.len(),
{
    if parts.len() == 0 {
        Seq::empty()
    } else if parts.len() == 1 {
        parts[0]
    } else {
        parts[0] + seq![c] + join_char(parts.drop_first(), c)
    }
}

/// Splitting a join of separator-free parts recovers the parts.
pub proof fn lemma_split_join(parts: Seq<Seq<char>>, c: char)
    requires
        parts.len() >= 1,
        forall|i: int| 0 <= i < parts.len() ==> !(#[trigger] parts[i]).contains(c),
    ensures
        split_char(join_char(parts, c), c) == parts,
    decreases parts.len(),
{
    if parts.len() == 1 {
        lemma_split_no_sep(parts[0], c);
        assert(seq![parts[0]] =~= parts);
    } else {
        let rest = parts.drop_first();
        assert(forall|i: int| 0 <= i < rest.len() ==> rest[i] == parts[i + 1]);
        lemma_split_join(rest, c);
        lemma_split_prefix(parts[0], join_char(rest, c), c);
        assert(seq![parts[0]] + rest =~= parts);
    }
}

/// A character other than the separator that occurs in no part does not occur
/// in the join either.
pub proof fn lemma_join_free_of(parts: Seq<Seq<char>>, c: char, x: char)
    requires
        x != c,
        forall|i: int| 0 <= i < parts.len() ==> !(#[trigger] parts[i]).contains(x),
    ensures
        !join_char(parts, c).contains(x),
    decreases parts.len(),
{
    if parts.len() == 0 {
    } else if parts.len() == 1 {
        assert(join_char(parts, c) == parts[0]);
    } else {
        let rest = parts.drop_first();
        assert(forall|i: int| 0 <= i < rest.len() ==> rest[i] == parts[i + 1]);
        lemma_join_free_of(rest, c, x);
        let j = join_char(parts, c);
        assert(j == parts[0] + seq![c] + join_char(rest, c));
        if j.contains(x) {
            let i = choose|i: int| 0 <= i < j.len() && j[i] == x;
            if i < parts[0].len() {
                assert(parts[0][i] == x);
            } else if i == parts[0].len() {
                assert(j[i] == c);
            } else {
                assert(join_char(rest, c)[i - parts[0].len() - 1] == x);
            }
        }
    }
}

// ---------------------------------------------------------------------------
// ASCII lower-casing
// ---------------------------------------------------------------------------

pub open spec fn lower_char(c: char) -> char {
    if 'A' <= c && c <= 'Z' {
        ((c as u32) + 32) as char
    } else {
        c
    }
}

pub open spec fn ascii_lower(s: Seq<char>) -> Seq<char> {
    s.map_values(|c: char| lower_char(c))
}

// ---------------------------------------------------------------------------
// Executable helpers
// ---------------------------------------------------------------------------

/// One-character string for a decimal digit.
fn digit_str(d: u64) -> (r: &'static str)
    requires
        d < 10,
    ensures
        r@ == seq![digit_char(d as nat)],
{
    proof {
        reveal_strlit("0");
        reveal_strlit("1");
        reveal_strlit("2");
        reveal_strlit("3");
        reveal_strlit("4");
        reveal_strlit("5");
        reveal_strlit("6");
        reveal_strlit("7");
        reveal_strlit("8");
        reveal_strlit("9");
    }
    if d == 0 {
        "0"
    } else if d == 1 {
        "1"
    } else if d == 2 {
        "2"
    } else if d == 3 {
        "3"
    } else if d == 4 {
        "4"
    } else if d == 5 {
        "5"
    } else if d == 6 {
        "6"
    } else if d == 7 {
        "7"
    } else if d == 8 {
        "8"
    } else {
        "9"
    }
}

/// Decimal rendering of an unsigned number.
pub fn u64_to_dec(n: u64) -> (r: String)
    ensures
        r@ == dec_str(n as nat),
    decreases n,
{
    if n < 10 {
        digit_str(n).to_owned()
    } else {
        let mut s = u64_to_dec(n / 10);
        s.append(digit_str(n % 10));
        proof {
            assert(dec_str(n as nat) == dec_str(n as nat / 10) + seq![digit_char(n as nat % 10)]);
        }
        s
    }
}

/// Appends one character to a string.
///
/// Relies on `String::push` from std: it appends the given character to the
/// end of the string.
#[verifier::external_body]
pub fn push_char(s: &mut String, c: char)
    ensures
        final(s)@ == old(s)@ + seq![c],
{
    s.push(c);
}

/// String equality by content.
pub fn str_eq(a: &str, b: &str) -> (r: bool)
    ensures
        r == (a@ == b@),
{
    let alen = a.unicode_len();
    let blen = b.unicode_len();
    if alen != blen {
        return false;
    }
    let mut i: usize = 0;
    while i < alen
        invariant
            0 <= i <= alen,
            alen == a@.len(),
            alen == b@.len(),
            forall|j: int| 0 <= j < i ==> a@[j] == b@[j],
        decreases alen - i,
    {
        if a.get_char(i) != b.get_char(i) {
            return false;
        }
        i += 1;
    }
    proof {
        assert(a@ =~= b@);
    }
    true
}

/// Case-insensitive comparison of `a` against an already lower-case `b`.
pub fn str_eq_lowered(a: &str, b: &str) -> (r: bool)
    ensures
        r == (ascii_lower(a@) == b@),
{
    let alen = a.unicode_len();
    let blen = b.unicode_len();
    if alen != blen {
        proof {
            assert(ascii_lower(a@).len() == a@.len());
        }
        return false;
    }
    let mut i: usize = 0;
    while i < alen
        invariant
            0 <= i <= alen,
            alen == a@.len(),
            alen == b@.len(),
            forall|j: int| 0 <= j < i ==> lower_char(a@[j]) == b@[j],
        decreases alen - i,
    {
        let ca = a.get_char(i);
        let cb = b.get_char(i);
        let matched: bool = if ca >= 'A' && ca <= 'Z' {
            (ca as u32) + 32 == (cb as u32)
        } else {
            ca == cb
        };
        if !matched {
            proof {
                assert(lower_char(a@[i as int]) != b@[i as int]);
                assert(ascii_lower(a@)[i as int] == lower_char(a@[i as int]));
            }
            return false;
        }
        i += 1;
    }
    proof {
        assert(ascii_lower(a@) =~= b@);
    }
    true
}

/// Index of the first occurrence of `c` in `s`, or the length when absent.
pub fn find_char_str(s: &str, c: char) -> (r: usize)
    ensures
        r as int == find_char(s@, c),
        r <= s@.len(),
{
    let len = s.unicode_len();
    let mut i: usize = 0;
    while i < len
        invariant
            0 <= i <= len,
            len == s@.len(),
            forall|j: int| 0 <= j < i ==> s@[j] != c,
        decreases len - i,
    {
        if s.get_char(i) == c {
            proof {
                lemma_find_char_at(s@, c, i as int);
            }
            return i;
        }
        i += 1;
    }
    proof {
        lemma_find_char_at(s@, c, len as int);
    }
    len
}

/// Whether `c` occurs in `s`.
pub fn str_contains_char(s: &str, c: char) -> (r: bool)
    ensures
        r == s@.contains(c),
{
    let i = find_char_str(s, c);
    proof {
        lemma_find_char(s@, c);
        if find_char(s@, c) < s@.len() {
            assert(s@.contains(c));
        } else {
            if s@.contains(c) {
                let j = choose|j: int| 0 <= j < s@.len() && s@[j] == c;
                assert(s@[j] != c);
            }
        }
    }
    i < s.unicode_len()
}

/// Splits `s` at every occurrence of `c`.
pub fn split_str(s: &str, c: char) -> (r: Vec<String>)
    ensures
        r.deep_view() == split_char(s@, c),
    decreases s@.len(),
{
    let len = s.unicode_len();
    let i = find_char_str(s, c);
    if i >= len {
        let part = s.to_owned();
        let r = vec![part];
        proof {
            assert(r.deep_view() =~= seq![s@]);
        }
        r
    } else {
        let head = s.substring_char(0, i);
        let tail = s.substring_char(i + 1, len);
        proof {
            assert(tail@ == s@.skip(i + 1));
        }
        let mut r = split_str(tail, c);
        let h = head.to_owned();
        r.insert(0, h);
        proof {
            assert(head@ == s@.subrange(0, i as int));
            assert(s@.subrange(0, i as int) =~= s@.take(i as int));
            assert(r.deep_view() =~= seq![s@.take(i as int)] + split_char(s@.skip(i + 1), c));
        }
        r
    }
}

/// Joins `parts[from..to]` with the one-character separator `sep`.
pub fn join_strs(parts: &Vec<String>, from: usize, to: usize, sep: &str) -> (r: String)
    requires
        sep@.len() == 1,
        from <= to <= parts@.len(),
    ensures
        r@ == join_char(parts.deep_view().subrange(from as int, to as int), sep@[0]),
    decreases to - from,
{
    let ghost sub = parts.deep_view().subrange(from as int, to as int);
    if from >= to {
        let r = String::new();
        proof {
            assert(sub.len() == 0);
        }
        r
    } else if from + 1 == to {
        let r = parts[from].clone();
        proof {
            assert(sub.len() == 1);
            assert(sub[0] == parts.deep_view()[from as int]);
        }
        r
    } else {
        let mut r = parts[from].clone();
        r.append(sep);
        let rest = join_strs(parts, from + 1, to, sep);
        r.append(rest.as_str());
        proof {
            let ghost subr = parts.deep_view().subrange(from + 1, to as int);
            assert(sub.drop_first() =~= subr);
            assert(sub[0] == parts.deep_view()[from as int]);
            assert(sep@ =~= seq![sep@[0]]);
            assert(join_char(sub, sep@[0]) == sub[0] + seq![sep@[0]] + join_char(subr, sep@[0]));
        }
        r
    }
}

/// Whether a string with the same content is among `v`.
pub fn vec_contains_str(v: &Vec<String>, s: &str) -> (r: bool)
    ensures
        r == v.deep_view().contains(s@),
{
    let n = v.len();
    let mut i: usize = 0;
    while i < n
        invariant
            0 <= i <= n,
            n == v@.len(),
            forall|j: int| 0 <= j < i ==> v.deep_view()[j] != s@,
        decreases n - i,
    {
        if str_eq(v[i].as_str(), s) {
            proof {
                assert(v.deep_view()[i as int] == s@);
            }
            return true;
        }
        i += 1;
    }
    proof {
        if v.deep_view().contains(s@) {
            let j = choose|j: int| 0 <= j < v.deep_view().len() && v.deep_view()[j] == s@;
            assert(v.deep_view()[j] != s@);
        }
    }
    false
}

/// Optional leading `+` sign removed.
pub open spec fn sign_stripped(s: Seq<char>) -> Seq<char> {
    if s.len() > 0 && s[0] == '+' {
        s.skip(1)
    } else {
        s
    }
}

/// Whether `s` is a decimal numeral (optionally `+`-signed) whose value fits
/// in sixteen bits.
pub open spec fn is_u16_numeral(s: Seq<char>) -> bool {
    let d = sign_stripped(s);
    d.len() > 0 && all_digits(d) && dec_val(d) <= 65535
}

/// Parses a sixteen-bit decimal numeral, as `u16::from_str` accepts it
/// (digits with an optional leading `+`).
pub fn parse_u16(s: &str) -> (r: Option<u16>)
    ensures
        r is Some <==> is_u16_numeral(s@),
        r matches Some(v) ==> v as nat == dec_val(sign_stripped(s@)),
{
    let len = s.unicode_len();
    if len == 0 {
        return None;
    }
    let start: usize = if s.get_char(0) == '+' {
        1
    } else {
        0
    };
    let ghost d = sign_stripped(s@);
    proof {
        assert(d =~= s@.subrange(start as int, len as int));
    }
    if start == len {
        return None;
    }
    let mut acc: u32 = 0;
    let mut i: usize = start;
    while i < len
        invariant
            start <= i <= len,
            len == s@.len(),
            d == sign_stripped(s@),
            d == s@.subrange(start as int, len as int),
            all_digits(s@.subrange(start as int, i as int)),
            acc as nat == dec_val(s@.subrange(start as int, i as int)),
            acc <= 65535,
        decreases len - i,
    {
        let c = s.get_char(i);
        if c < '0' || c > '9' {
            proof {
                assert(d[i - start] == s@[i as int]);
                assert(!is_digit(d[i - start]));
                assert(!all_digits(d)) by {
                    if all_digits(d) {
                        assert(is_digit(d[i - start]));
                        assert(false);
                    }
                }
                assert(!is_u16_numeral(s@));
            }
            return None;
        }
        let dv: u32 = (c as u32) - ('0' as u32);
        let next: u32 = acc * 10 + dv;
        proof {
            let p = s@.subrange(start as int, i as int);
            let q = s@.subrange(start as int, i + 1);
            assert(q =~= p.push(s@[i as int]));
            assert(q.drop_last() =~= p);
            assert(dec_val(q) == dec_val(p) * 10 + digit_val(s@[i as int]));
            assert(digit_val(s@[i as int]) == dv as nat);
        }
        if next > 65535 {
            proof {
                let q = s@.subrange(start as int, i + 1);
                let rest = s@.subrange(i + 1, len as int);
                assert(d =~= q + rest);
                lemma_dec_val_extend(q, rest);
                assert(dec_val(d) >= dec_val(q));
                assert(dec_val(q) == acc as nat * 10 + dv as nat);
                assert(dec_val(d) > 65535);
                assert(!is_u16_numeral(s@));
            }
            return None;
        }
        acc = next;
        i += 1;
    }
    proof {
        assert(s@.subrange(start as int, len as int) == d);
    }
    Some(acc as u16)
}

} // verus!
