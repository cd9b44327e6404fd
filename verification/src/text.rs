//! Character-level utilities shared by the parsers, the sorter and the
//! formatters: conversions between `&str` and `Vec<char>`, trimming,
//! ASCII case folding, substring extraction, decimal numbers and
//! lexicographic ordering of character sequences.

use vstd::prelude::*;
use vstd::string::*;

verus! {

/// The Unicode whitespace characters, the set `str::trim` removes: the
/// characters trimmed from configuration values and snippets.
pub open spec fn is_space_char(c: char) -> bool {
    let u = c as u32;
    u == 0x20 || (0x9 <= u && u <= 0xD) || u == 0x85 || u == 0xA0 || u == 0x1680 || (0x2000 <= u
        && u <= 0x200A) || u == 0x2028 || u == 0x2029 || u == 0x202F || u == 0x205F || u == 0x3000
}

fn is_space(c: char) -> (r: bool)
    ensures
        r == is_space_char(c),
{
    let u = c as u32;
    u == 0x20 || (0x9 <= u && u <= 0xD) || u == 0x85 || u == 0xA0 || u == 0x1680 || (0x2000 <= u
        && u <= 0x200A) || u == 0x2028 || u == 0x2029 || u == 0x202F || u == 0x205F || u == 0x3000
}

/// Relies on `String: FromIterator<&char>`: collecting characters yields the
/// string holding exactly those characters in order.
#[verifier::external_body]
pub fn chars_to_string(v: &Vec<char>) -> (s: String)
    ensures
        s@ == v@,
{
    v.iter().collect()
}

pub fn str_to_chars(s: &str) -> (v: Vec<char>)
    ensures
        v@ == s@,
{
    let n = s.unicode_len();
    let mut v: Vec<char> = Vec::new();
    let mut i: usize = 0;
    while i < n
        invariant
            i <= n,
            n == s@.len(),
            v@ == s@.take(i as int),
        decreases n - i,
    {
        let c = s.get_char(i);
        v.push(c);
        i = i + 1;
        assert(v@ =~= s@.take(i as int));
    }
    assert(v@ =~= s@);
    v
}

pub fn sub_chars(v: &Vec<char>, lo: usize, hi: usize) -> (r: Vec<char>)
    requires
        lo <= hi <= v@.len(),
    ensures
        r@ == v@.subrange(lo as int, hi as int),
{
    let mut r: Vec<char> = Vec::new();
    let mut i: usize = lo;
    while i < hi
        invariant
            lo <= i <= hi <= v@.len(),
            r@ == v@.subrange(lo as int, i as int),
        decreases hi - i,
    {
        r.push(v[i]);
        i = i + 1;
        assert(r@ =~= v@.subrange(lo as int, i as int));
    }
    r
}

pub fn append_chars(out: &mut Vec<char>, v: &Vec<char>)
    ensures
        final(out)@ == old(out)@ + v@,
{
    let mut i: usize = 0;
    while i < v.len()
        invariant
            i <= v@.len(),
            out@ == old(out)@ + v@.take(i as int),
        decreases v@.len() - i,
    {
        out.push(v[i]);
        i = i + 1;
        assert(out@ =~= old(out)@ + v@.take(i as int));
    }
    assert(out@ =~= old(out)@ + v@) by {
        assert(v@.take(v@.len() as int) =~= v@);
    }
}

pub fn chars_eq_str(v: &Vec<char>, s: &str) -> (r: bool)
    ensures
        r == (v@ == s@),
{
    let n = s.unicode_len();
    if v.len() != n {
        assert(v@ != s@) by {
            assert(v@.len() != s@.len());
        }
        return false;
    }
    let mut i: usize = 0;
    while i < n
        invariant
            i <= n,
            n == s@.len(),
            v@.len() == n,
            forall|k: int| 0 <= k < i ==> v@[k] == s@[k],
        decreases n - i,
    {
        if v[i] != s.get_char(i) {
            return false;
        }
        i = i + 1;
    }
    assert(v@ =~= s@);
    true
}

pub open spec fn trim_start_spec(s: Seq<char>) -> Seq<char>
    decreases s.len(),
{
    if s.len() > 0 && is_space_char(s[0]) {
        trim_start_spec(s.skip(1))
    } else {
        s
    }
}

pub open spec fn trim_end_spec(s: Seq<char>) -> Seq<char>
    decreases s.len(),
{
    if s.len() > 0 && is_space_char(s.last()) {
        trim_end_spec(s.drop_last())
    } else {
        s
    }
}

/// The value of a string with whitespace removed from both ends.
pub open spec fn trim_spec(s: Seq<char>) -> Seq<char> {
    trim_end_spec(trim_start_spec(s))
}

proof fn lemma_trim_start_range(s: Seq<char>, a: int)
    requires
        0 <= a <= s.len(),
        forall|k: int| 0 <= k < a ==> is_space_char(s[k]),
        a < s.len() ==> !is_space_char(s[a]),
    ensures
        trim_start_spec(s) == s.skip(a),
    decreases a,
{
    if a == 0 {
        if s.len() > 0 && is_space_char(s[0]) {
            assert(false);
        }
        assert(s.skip(0) =~= s);
    } else {
        assert(is_space_char(s[0]));
        let t = s.skip(1);
        assert(forall|k: int| 0 <= k < a - 1 ==> t[k] == s[k + 1]);
        lemma_trim_start_range(t, a - 1);
        assert(t.skip(a - 1) =~= s.skip(a));
    }
}

proof fn lemma_trim_end_range(s: Seq<char>, b: int)
    requires
        0 <= b <= s.len(),
        forall|k: int| b <= k < s.len() ==> is_space_char(s[k]),
        b > 0 ==> !is_space_char(s[b - 1]),
    ensures
        trim_end_spec(s) == s.take(b),
    decreases s.len() - b,
{
    if b == s.len() {
        if s.len() > 0 && is_space_char(s.last()) {
            assert(false);
        }
        assert(s.take(b) =~= s);
    } else {
        assert(is_space_char(s.last()));
        let t = s.drop_last();
        lemma_trim_end_range(t, b);
        assert(t.take(b) =~= s.take(b));
    }
}

pub fn trim_chars(v: &Vec<char>) -> (r: Vec<char>)
    ensures
        r@ == trim_spec(v@),
{
    let n = v.len();
    let mut a: usize = 0;
    while a < n && is_space(v[a])
        invariant
            a <= n,
            n == v@.len(),
            forall|k: int| 0 <= k < a ==> is_space_char(v@[k]),
        decreases n - a,
    {
        a = a + 1;
    }
    proof {
        lemma_trim_start_range(v@, a as int);
    }
    let mut b: usize = n;
    while b > a && is_space(v[b - 1])
        invariant
            a <= b <= n,
            n == v@.len(),
            forall|k: int| b <= k < n ==> is_space_char(v@[k]),
        decreases b,
    {
        b = b - 1;
    }
    let r = sub_chars(v, a, b);
    proof {
        let t = v@.skip(a as int);
        assert(forall|k: int| 0 <= k < t.len() ==> t[k] == v@[k + a]);
        if b == a {
            lemma_trim_end_range(t, 0);
        } else {
            lemma_trim_end_range(t, b - a);
        }
        assert(t.take(b - a) =~= v@.subrange(a as int, b as int));
    }
    r
}

/// ASCII-only case folding: `A` through `Z` map to the corresponding
/// lower-case letter, every other character is unchanged.
pub open spec fn lower_char_spec(c: char) -> char {
    if 65 <= c as u32 <= 90 {
        ((c as u32 + 32) as u8) as char
    } else {
        c
    }
}

pub open spec fn lower_spec(s: Seq<char>) -> Seq<char> {
    s.map_values(|c: char| lower_char_spec(c))
}

fn lower_char(c: char) -> (r: char)
    ensures
        r == lower_char_spec(c),
{
    let u = c as u32;
    if 65 <= u && u <= 90 {
        ((u + 32) as u8) as char
    } else {
        c
    }
}

pub fn lower_chars(v: &Vec<char>) -> (r: Vec<char>)
    ensures
        r@ == lower_spec(v@),
{
    let mut r: Vec<char> = Vec::new();
    let mut i: usize = 0;
    while i < v.len()
        invariant
            i <= v@.len(),
            r@ == lower_spec(v@.take(i as int)),
        decreases v@.len() - i,
    {
        r.push(lower_char(v[i]));
        i = i + 1;
        assert(r@ =~= lower_spec(v@.take(i as int)));
    }
    assert(v@.take(v@.len() as int) =~= v@);
    r
}

/// The index of the first occurrence of `c` in `s` at or after `from`, or
/// `s.len()` if there is none.
pub open spec fn find_char_spec(s: Seq<char>, c: char, from: int) -> int
    decreases s.len() - from,
{
    if from < 0 || from >= s.len() {
        s.len() as int
    } else if s[from] == c {
        from
    } else {
        find_char_spec(s, c, from + 1)
    }
}

pub proof fn lemma_find_char(s: Seq<char>, c: char, from: int)
    requires
        0 <= from <= s.len(),
    ensures
        from <= find_char_spec(s, c, from) <= s.len(),
        find_char_spec(s, c, from) < s.len() ==> s[find_char_spec(s, c, from)] == c,
        forall|k: int| from <= k < find_char_spec(s, c, from) ==> s[k] != c,
    decreases s.len() - from,
{
    if from < s.len() && s[from] != c {
        lemma_find_char(s, c, from + 1);
    }
}

pub fn find_char(v: &Vec<char>, c: char, from: usize) -> (r: usize)
    requires
        from <= v@.len(),
    ensures
        r == find_char_spec(v@, c, from as int),
{
    let mut i: usize = from;
    while i < v.len()
        invariant
            from <= i <= v@.len(),
            find_char_spec(v@, c, from as int) == find_char_spec(v@, c, i as int),
        decreases v@.len() - i,
    {
        if v[i] == c {
            return i;
        }
        i = i + 1;
    }
    v.len()
}

pub open spec fn is_digit_char(c: char) -> bool {
    48 <= c as u32 <= 57
}

pub open spec fn digit_val(c: char) -> nat {
    (c as u32 - 48) as nat
}

pub open spec fn all_digits(s: Seq<char>) -> bool {
    forall|k: int| 0 <= k < s.len() ==> is_digit_char(#[trigger] s[k])
}

/// The number denoted by a sequence of decimal digits.
pub open spec fn dec_value(s: Seq<char>) -> nat
    decreases s.len(),
{
    if s.len() == 0 {
        0
    } else {
        dec_value(s.drop_last()) * 10 + digit_val(s.last())
    }
}

proof fn lemma_dec_value_monotone(s: Seq<char>, i: int)
    requires
        0 <= i <= s.len(),
    ensures
        dec_value(s.take(i)) <= dec_value(s),
    decreases s.len() - i,
{
    if i < s.len() {
        lemma_dec_value_monotone(s, i + 1);
        let t = s.take(i + 1);
        assert(t.drop_last() =~= s.take(i));
        assert(dec_value(s.take(i)) * 10 + digit_val(t.last()) >= dec_value(s.take(i)))
            by (nonlinear_arith);
    } else {
        assert(s.take(i) =~= s);
    }
}

/// Parses a non-empty all-digit sequence as a decimal number; anything else,
/// or a value that does not fit in `usize`, yields `None`.
pub fn parse_usize_chars(v: &Vec<char>) -> (r: Option<usize>)
    ensures
        r is Some <==> (v@.len() > 0 && all_digits(v@) && dec_value(v@) <= usize::MAX),
        r is Some ==> r->Some_0 == dec_value(v@),
{
    if v.len() == 0 {
        return None;
    }
    let mut val: usize = 0;
    let mut i: usize = 0;
    while i < v.len()
        invariant
            i <= v@.len(),
            all_digits(v@.take(i as int)),
            val == dec_value(v@.take(i as int)),
        decreases v@.len() - i,
    {
        let c = v[i];
        let u = c as u32;
        if !(48 <= u && u <= 57) {
            assert(!all_digits(v@)) by {
                assert(!is_digit_char(v@[i as int]));
            }
            return None;
        }
        let d: usize = (u - 48) as usize;
        let next = match val.checked_mul(10) {
            Some(m) => m.checked_add(d),
            None => None,
        };
        match next {
            Some(nv) => {
                val = nv;
            },
            None => {
                proof {
                    let t = v@.take(i + 1);
                    assert(t.drop_last() =~= v@.take(i as int));
                    assert(dec_value(t) > usize::MAX);
                    lemma_dec_value_monotone(v@, i + 1);
                }
                return None;
            },
        }
        i = i + 1;
        proof {
            let t = v@.take(i as int);
            assert(t.drop_last() =~= v@.take(i - 1));
            assert(t.last() == v@[i - 1]);
            assert(all_digits(t)) by {
                assert(forall|k: int| 0 <= k < i ==> t[k] == v@[k]);
            }
        }
    }
    assert(v@.take(v@.len() as int) =~= v@);
    Some(val)
}

pub open spec fn digit_char(d: nat) -> char {
    ((d + 48) as u8) as char
}

/// The decimal representation of a number, most significant digit first.
pub open spec fn dec_digits(n: nat) -> Seq<char>
    decreases n,
{
    if n < 10 {
        seq![digit_char(n)]
    } else {
        dec_digits(n / 10).push(digit_char(n % 10))
    }
}

pub fn usize_to_chars(n: usize) -> (v: Vec<char>)
    ensures
        v@ == dec_digits(n as nat),
    decreases n,
{
    if n < 10 {
        let c = ((n as u8) + 48) as char;
        let mut v: Vec<char> = Vec::new();
        v.push(c);
        assert(v@ =~= dec_digits(n as nat));
        v
    } else {
        let mut v = usize_to_chars(n / 10);
        let c = (((n % 10) as u8) + 48) as char;
        v.push(c);
        v
    }
}

/// Left padding with spaces up to `width` characters.
pub open spec fn pad_left_spec(s: Seq<char>, width: int) -> Seq<char> {
    if s.len() >= width {
        s
    } else {
        Seq::new((width - s.len()) as nat, |i: int| ' ') + s
    }
}

pub fn pad_left(v: &Vec<char>, width: usize) -> (r: Vec<char>)
    ensures
        r@ == pad_left_spec(v@, width as int),
{
    let mut r: Vec<char> = Vec::new();
    if v.len() >= width {
        let mut i: usize = 0;
        while i < v.len()
            invariant
                i <= v@.len(),
                r@ == v@.take(i as int),
            decreases v@.len() - i,
        {
            r.push(v[i]);
            i = i + 1;
            assert(r@ =~= v@.take(i as int));
        }
        assert(r@ =~= v@);
    } else {
        let pad = width - v.len();
        let mut i: usize = 0;
        while i < pad
            invariant
                i <= pad,
                r@ == Seq::new(i as nat, |k: int| ' '),
            decreases pad - i,
        {
            r.push(' ');
            i = i + 1;
            assert(r@ =~= Seq::new(i as nat, |k: int| ' '));
        }
        let mut j: usize = 0;
        while j < v.len()
            invariant
                j <= v@.len(),
                r@ == Seq::new(pad as nat, |k: int| ' ') + v@.take(j as int),
            decreases v@.len() - j,
        {
            r.push(v[j]);
            j = j + 1;
            assert(r@ =~= Seq::new(pad as nat, |k: int| ' ') + v@.take(j as int));
        }
        assert(v@.take(v@.len() as int) =~= v@);
    }
    r
}

/// Lexicographic order on character sequences, by Unicode scalar value; this
/// agrees with the ordering of Rust strings.
pub open spec fn lex_le(a: Seq<char>, b: Seq<char>) -> bool
    decreases a.len(),
{
    if a.len() == 0 {
        true
    } else if b.len() == 0 {
        false
    } else if a[0] < b[0] {
        true
    } else if a[0] > b[0] {
        false
    } else {
        lex_le(a.skip(1), b.skip(1))
    }
}

pub proof fn lemma_lex_total(a: Seq<char>, b: Seq<char>)
    ensures
        lex_le(a, b) || lex_le(b, a),
    decreases a.len(),
{
    if a.len() > 0 && b.len() > 0 && a[0] == b[0] {
        lemma_lex_total(a.skip(1), b.skip(1));
    }
}

pub proof fn lemma_lex_antisym(a: Seq<char>, b: Seq<char>)
    requires
        lex_le(a, b),
        lex_le(b, a),
    ensures
        a == b,
    decreases a.len(),
{
    if a.len() == 0 {
        assert(b.len() == 0);
        assert(a =~= b);
    } else {
        assert(a[0] == b[0]);
        lemma_lex_antisym(a.skip(1), b.skip(1));
        assert(a =~= seq![a[0]] + a.skip(1));
        assert(b =~= seq![b[0]] + b.skip(1));
    }
}

pub proof fn lemma_lex_trans(a: Seq<char>, b: Seq<char>, c: Seq<char>)
    requires
        lex_le(a, b),
        lex_le(b, c),
    ensures
        lex_le(a, c),
    decreases a.len(),
{
    if a.len() == 0 {
    } else {
        assert(b.len() > 0);
        assert(c.len() > 0);
        if a[0] == b[0] && b[0] == c[0] {
            lemma_lex_trans(a.skip(1), b.skip(1), c.skip(1));
        }
    }
}

pub fn chars_lex_le(a: &Vec<char>, b: &Vec<char>) -> (r: bool)
    ensures
        r == lex_le(a@, b@),
{
    let mut i: usize = 0;
    proof {
        assert(a@.skip(0) =~= a@);
        assert(b@.skip(0) =~= b@);
    }
    loop
        invariant
            i <= a@.len(),
            i <= b@.len(),
            lex_le(a@, b@) == lex_le(a@.skip(i as int), b@.skip(i as int)),
        decreases a@.len() - i,
    {
        if i >= a.len() {
            assert(a@.skip(i as int).len() == 0);
            return true;
        }
        if i >= b.len() {
            assert(b@.skip(i as int).len() == 0);
            assert(a@.skip(i as int).len() > 0);
            return false;
        }
        let ca = a[i];
        let cb = b[i];
        assert(a@.skip(i as int)[0] == a@[i as int]);
        assert(b@.skip(i as int)[0] == b@[i as int]);
        if ca < cb {
            return true;
        }
        if ca > cb {
            return false;
        }
        proof {
            assert(a@[i as int] == b@[i as int]);
            assert(a@.skip(i as int).skip(1) =~= a@.skip(i + 1));
            assert(b@.skip(i as int).skip(1) =~= b@.skip(i + 1));
        }
        i = i + 1;
    }
}

/// String-level lexicographic comparison.
pub fn str_lex_le(a: &str, b: &str) -> (r: bool)
    ensures
        r == lex_le(a@, b@),
{
    let va = str_to_chars(a);
    let vb = str_to_chars(b);
    chars_lex_le(&va, &vb)
}

} // verus!
