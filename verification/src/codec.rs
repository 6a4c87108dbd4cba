//! The progress record's textual format.
//!
//! A progress state is saved as one structured record,
//! `{"later":[{"translated":S,"word":S},...],"process":N,"removed":[S,...]}`:
//! keys in that fixed order, no whitespace, strings quoted with `"` and `\`
//! escaped by a backslash, the cursor as plain decimal digits. The printer
//! (`json_of`) and the parser (`p_progress`) are both given as spec
//! functions; parsing a printed record gives the record back
//! (`lemma_save_load_round_trip`), and the executable encoder and decoder
//! are proved against them.

use vstd::prelude::*;

use crate::progress::ProcessData;
use crate::progress::ProgressV;
use crate::progress::default_progress;
use crate::words::Word;
use crate::words::string_from_chars;
use crate::words::word_views;

verus! {

// ---------------------------------------------------------------------
// printing
// ---------------------------------------------------------------------

/// A string character as it is printed: `"` and `\` get a backslash.
pub open spec fn esc1(c: char) -> Seq<char> {
    if c == '"' || c == '\\' {
        seq!['\\', c]
    } else {
        seq![c]
    }
}

/// A whole string escaped.
pub open spec fn esc(s: Seq<char>) -> Seq<char>
    decreases s.len(),
{
    if s.len() == 0 {
        Seq::empty()
    } else {
        esc1(s[0]) + esc(s.skip(1))
    }
}

/// A quoted, escaped string.
pub open spec fn jstr(s: Seq<char>) -> Seq<char> {
    seq!['"'] + esc(s) + seq!['"']
}

/// The digit characters.
pub open spec fn digit_char(d: nat) -> char {
    if d == 0 {
        '0'
    } else if d == 1 {
        '1'
    } else if d == 2 {
        '2'
    } else if d == 3 {
        '3'
    } else if d == 4 {
        '4'
    } else if d == 5 {
        '5'
    } else if d == 6 {
        '6'
    } else if d == 7 {
        '7'
    } else if d == 8 {
        '8'
    } else {
        '9'
    }
}

pub open spec fn is_digit(c: char) -> bool {
    c == '0' || c == '1' || c == '2' || c == '3' || c == '4' || c == '5' || c == '6' || c == '7'
        || c == '8' || c == '9'
}

pub open spec fn digit_val(c: char) -> nat {
    if c == '0' {
        0
    } else if c == '1' {
        1
    } else if c == '2' {
        2
    } else if c == '3' {
        3
    } else if c == '4' {
        4
    } else if c == '5' {
        5
    } else if c == '6' {
        6
    } else if c == '7' {
        7
    } else if c == '8' {
        8
    } else {
        9
    }
}

/// A number in decimal, most significant digit first, no leading zero.
pub open spec fn dec_digits(n: nat) -> Seq<char>
    decreases n,
{
    if n < 10 {
        seq![digit_char(n)]
    } else {
        dec_digits(n / 10) + seq![digit_char(n % 10)]
    }
}

/// The printed fields of one queued word, in the record's key order.
pub open spec fn key_translated() -> Seq<char> {
    seq!['{', '"', 't', 'r', 'a', 'n', 's', 'l', 'a', 't', 'e', 'd', '"', ':']
}

pub open spec fn key_word_mid() -> Seq<char> {
    seq![',', '"', 'w', 'o', 'r', 'd', '"', ':']
}

/// One queued word: `{"translated":S,"word":S}`.
pub open spec fn jword(w: (Seq<char>, Seq<char>)) -> Seq<char> {
    key_translated() + jstr(w.1) + key_word_mid() + jstr(w.0) + seq!['}']
}

/// The elements of a list, comma-separated, each printed by `f`.
pub open spec fn jlist_inner<A>(xs: Seq<A>, f: spec_fn(A) -> Seq<char>) -> Seq<char>
    decreases xs.len(),
{
    if xs.len() == 0 {
        Seq::empty()
    } else if xs.len() == 1 {
        f(xs[0])
    } else {
        f(xs[0]) + seq![','] + jlist_inner(xs.skip(1), f)
    }
}

/// A bracketed list.
pub open spec fn jlist<A>(xs: Seq<A>, f: spec_fn(A) -> Seq<char>) -> Seq<char> {
    seq!['['] + jlist_inner(xs, f) + seq![']']
}

pub open spec fn jword_fn() -> spec_fn((Seq<char>, Seq<char>)) -> Seq<char> {
    |w: (Seq<char>, Seq<char>)| jword(w)
}

pub open spec fn jstr_fn() -> spec_fn(Seq<char>) -> Seq<char> {
    |s: Seq<char>| jstr(s)
}

pub open spec fn head_later() -> Seq<char> {
    seq!['{', '"', 'l', 'a', 't', 'e', 'r', '"', ':']
}

pub open spec fn key_process() -> Seq<char> {
    seq![',', '"', 'p', 'r', 'o', 'c', 'e', 's', 's', '"', ':']
}

pub open spec fn key_removed() -> Seq<char> {
    seq![',', '"', 'r', 'e', 'm', 'o', 'v', 'e', 'd', '"', ':']
}

/// The whole progress record as text.
pub open spec fn json_of(v: ProgressV) -> Seq<char> {
    head_later() + jlist(v.later, jword_fn()) + key_process() + dec_digits(v.process)
        + key_removed() + jlist(v.removed, jstr_fn()) + seq!['}']
}

// ---------------------------------------------------------------------
// parsing
// ---------------------------------------------------------------------

/// Consumes an exact literal from the front.
pub open spec fn p_lit(s: Seq<char>, lit: Seq<char>) -> Option<Seq<char>> {
    if lit.len() <= s.len() && s.take(lit.len() as int) == lit {
        Some(s.skip(lit.len() as int))
    } else {
        None
    }
}

/// Consumes the body of a quoted string, the opening quote already gone:
/// characters up to the first unescaped quote, undoing the escapes. Only
/// `\"` and `\\` are accepted escapes.
pub open spec fn p_str_body(s: Seq<char>) -> Option<(Seq<char>, Seq<char>)>
    decreases s.len(),
{
    if s.len() == 0 {
        None
    } else if s[0] == '"' {
        Some((Seq::empty(), s.skip(1)))
    } else if s[0] == '\\' {
        if s.len() >= 2 && (s[1] == '"' || s[1] == '\\') {
            match p_str_body(s.skip(2)) {
                Some((v, r)) => Some((seq![s[1]] + v, r)),
                None => None,
            }
        } else {
            None
        }
    } else {
        match p_str_body(s.skip(1)) {
            Some((v, r)) => Some((seq![s[0]] + v, r)),
            None => None,
        }
    }
}

/// Consumes a quoted string.
pub open spec fn p_str(s: Seq<char>) -> Option<(Seq<char>, Seq<char>)> {
    if s.len() > 0 && s[0] == '"' {
        p_str_body(s.skip(1))
    } else {
        None
    }
}

/// How many digits stand at the front.
pub open spec fn digits_prefix(s: Seq<char>) -> int
    decreases s.len(),
{
    if s.len() == 0 {
        0
    } else if !is_digit(s[0]) {
        0
    } else {
        1 + digits_prefix(s.skip(1))
    }
}

/// The value of a digit string, most significant first.
pub open spec fn val_of(ds: Seq<char>) -> nat
    decreases ds.len(),
{
    if ds.len() == 0 {
        0
    } else {
        val_of(ds.drop_last()) * 10 + digit_val(ds.last())
    }
}

/// Consumes a canonical decimal number: at least one digit, no leading
/// zero, and a value that a machine word can hold.
pub open spec fn p_num(s: Seq<char>) -> Option<(nat, Seq<char>)> {
    let k = digits_prefix(s);
    let ds = s.take(k);
    if k == 0 {
        None
    } else if k > 1 && s[0] == '0' {
        None
    } else if val_of(ds) > usize::MAX as nat {
        None
    } else {
        Some((val_of(ds), s.skip(k)))
    }
}

/// Consumes `p`-elements separated by commas until the closing bracket,
/// the opening bracket already gone and the list known non-empty.
pub open spec fn p_list_inner<A>(
    s: Seq<char>,
    p: spec_fn(Seq<char>) -> Option<(A, Seq<char>)>,
) -> Option<(Seq<A>, Seq<char>)>
    decreases s.len(),
{
    match p(s) {
        Some((x, r)) => {
            if r.len() == 0 {
                None
            } else if r[0] == ']' {
                Some((seq![x], r.skip(1)))
            } else if r[0] == ',' && r.len() < s.len() {
                match p_list_inner(r.skip(1), p) {
                    Some((xs, r2)) => Some((seq![x] + xs, r2)),
                    None => None,
                }
            } else {
                None
            }
        },
        None => None,
    }
}

/// Consumes a bracketed list.
pub open spec fn p_list<A>(
    s: Seq<char>,
    p: spec_fn(Seq<char>) -> Option<(A, Seq<char>)>,
) -> Option<(Seq<A>, Seq<char>)> {
    if s.len() >= 2 && s[0] == '[' && s[1] == ']' {
        Some((Seq::empty(), s.skip(2)))
    } else if s.len() >= 1 && s[0] == '[' {
        p_list_inner(s.skip(1), p)
    } else {
        None
    }
}

/// Consumes one queued word.
pub open spec fn p_word(s: Seq<char>) -> Option<((Seq<char>, Seq<char>), Seq<char>)> {
    match p_lit(s, key_translated()) {
        Some(s1) => match p_str(s1) {
            Some((t, s2)) => match p_lit(s2, key_word_mid()) {
                Some(s3) => match p_str(s3) {
                    Some((w, s4)) => match p_lit(s4, seq!['}']) {
                        Some(s5) => Some(((w, t), s5)),
                        None => None,
                    },
                    None => None,
                },
                None => None,
            },
            None => None,
        },
        None => None,
    }
}

pub open spec fn p_word_fn() -> spec_fn(Seq<char>) -> Option<((Seq<char>, Seq<char>), Seq<char>)> {
    |s: Seq<char>| p_word(s)
}

pub open spec fn p_str_fn() -> spec_fn(Seq<char>) -> Option<(Seq<char>, Seq<char>)> {
    |s: Seq<char>| p_str(s)
}

/// Parses a whole progress record; `None` on anything but the exact shape
/// the printer emits.
pub open spec fn p_progress(s: Seq<char>) -> Option<ProgressV> {
    match p_lit(s, head_later()) {
        Some(s1) => match p_list(s1, p_word_fn()) {
            Some((later, s2)) => match p_lit(s2, key_process()) {
                Some(s3) => match p_num(s3) {
                    Some((n, s4)) => match p_lit(s4, key_removed()) {
                        Some(s5) => match p_list(s5, p_str_fn()) {
                            Some((removed, s6)) => match p_lit(s6, seq!['}']) {
                                Some(s7) => {
                                    if s7.len() == 0 {
                                        Some(ProgressV { process: n, later, removed })
                                    } else {
                                        None
                                    }
                                },
                                None => None,
                            },
                            None => None,
                        },
                        None => None,
                    },
                    None => None,
                },
                None => None,
            },
            None => None,
        },
        None => None,
    }
}

// ---------------------------------------------------------------------
// the printed record parses back: the round trip
// ---------------------------------------------------------------------

/// Escaping distributes over concatenation.
pub proof fn lemma_esc_add(a: Seq<char>, b: Seq<char>)
    ensures
        esc(a + b) == esc(a) + esc(b),
    decreases a.len(),
{
    if a.len() == 0 {
        assert(a + b =~= b);
        assert(esc(a) + esc(b) =~= esc(b));
    } else {
        lemma_esc_add(a.skip(1), b);
        assert((a + b).skip(1) =~= a.skip(1) + b);
        assert(esc(a + b) =~= esc1(a[0]) + (esc(a.skip(1)) + esc(b)));
        assert(esc1(a[0]) + (esc(a.skip(1)) + esc(b)) =~= (esc1(a[0]) + esc(a.skip(1))) + esc(b));
    }
}

/// Consuming an escaped string body up to its closing quote undoes the
/// escaping and leaves exactly the tail.
proof fn lemma_p_str_body_rt(x: Seq<char>, rest: Seq<char>)
    ensures
        p_str_body(esc(x) + seq!['"'] + rest) == Some((x, rest)),
    decreases x.len(),
{
    let s = esc(x) + seq!['"'] + rest;
    if x.len() == 0 {
        assert(s =~= seq!['"'] + rest);
        assert(s[0] == '"');
        assert(s.skip(1) =~= rest);
        assert(p_str_body(s) == Some((Seq::<char>::empty(), rest)));
        assert(x =~= Seq::<char>::empty());
    } else {
        lemma_p_str_body_rt(x.skip(1), rest);
        let tail = esc(x.skip(1)) + seq!['"'] + rest;
        assert(esc(x) == esc1(x[0]) + esc(x.skip(1)));
        if x[0] == '"' || x[0] == '\\' {
            assert(s =~= seq!['\\', x[0]] + tail);
            assert(s[0] == '\\' && s[1] == x[0]);
            assert(s.skip(2) =~= tail);
            assert(seq![s[1]] + x.skip(1) =~= x);
        } else {
            assert(s =~= seq![x[0]] + tail);
            assert(s[0] != '"' && s[0] != '\\');
            assert(s.skip(1) =~= tail);
            assert(seq![s[0]] + x.skip(1) =~= x);
        }
    }
}

/// A string body, when it parses, consumes at least its closing quote.
proof fn lemma_p_str_body_consumes(s: Seq<char>)
    ensures
        match p_str_body(s) {
            Some((v, r)) => r.len() < s.len(),
            None => true,
        },
    decreases s.len(),
{
    if s.len() == 0 {
    } else if s[0] == '"' {
    } else if s[0] == '\\' {
        if s.len() >= 2 && (s[1] == '"' || s[1] == '\\') {
            lemma_p_str_body_consumes(s.skip(2));
        }
    } else {
        lemma_p_str_body_consumes(s.skip(1));
    }
}

/// A quoted string parses back and leaves exactly the tail.
proof fn lemma_p_str_rt(x: Seq<char>, rest: Seq<char>)
    ensures
        p_str(jstr(x) + rest) == Some((x, rest)),
{
    let s = jstr(x) + rest;
    assert(s[0] == '"');
    assert(s.skip(1) =~= esc(x) + seq!['"'] + rest);
    lemma_p_str_body_rt(x, rest);
}

/// A quoted string, when it parses, consumes at least its two quotes.
proof fn lemma_p_str_consumes(s: Seq<char>)
    ensures
        match p_str(s) {
            Some((v, r)) => r.len() < s.len(),
            None => true,
        },
{
    if s.len() > 0 && s[0] == '"' {
        lemma_p_str_body_consumes(s.skip(1));
    }
}

/// A literal parses off the front of itself.
proof fn lemma_p_lit_rt(lit: Seq<char>, rest: Seq<char>)
    ensures
        p_lit(lit + rest, lit) == Some(rest),
{
    let s = lit + rest;
    assert(s.take(lit.len() as int) =~= lit);
    assert(s.skip(lit.len() as int) =~= rest);
}

/// Every character of a printed number is a digit, and the leading one is
/// `'0'` only for the number zero itself.
proof fn lemma_dec_digits_shape(n: nat)
    ensures
        dec_digits(n).len() >= 1,
        forall|i: int| 0 <= i < dec_digits(n).len() ==> is_digit(#[trigger] dec_digits(n)[i]),
        n >= 1 ==> dec_digits(n)[0] != '0',
        n < 10 ==> dec_digits(n).len() == 1,
    decreases n,
{
    if n >= 10 {
        lemma_dec_digits_shape(n / 10);
        assert(dec_digits(n) == dec_digits(n / 10) + seq![digit_char(n % 10)]);
        assert(n / 10 >= 1);
        assert(dec_digits(n)[0] == dec_digits(n / 10)[0]);
    }
}

/// The digit prefix of a digit string followed by a non-digit is the digit
/// string itself.
proof fn lemma_digits_prefix_of(ds: Seq<char>, rest: Seq<char>)
    requires
        forall|i: int| 0 <= i < ds.len() ==> is_digit(#[trigger] ds[i]),
        rest.len() == 0 || !is_digit(rest[0]),
    ensures
        digits_prefix(ds + rest) == ds.len(),
        (ds + rest).take(ds.len() as int) == ds,
        (ds + rest).skip(ds.len() as int) == rest,
    decreases ds.len(),
{
    let s = ds + rest;
    assert(s.take(ds.len() as int) =~= ds);
    assert(s.skip(ds.len() as int) =~= rest);
    if ds.len() == 0 {
        assert(s =~= rest);
    } else {
        lemma_digits_prefix_of(ds.skip(1), rest);
        assert(s.skip(1) =~= ds.skip(1) + rest);
        assert(is_digit(s[0]));
    }
}

/// Reading the digits of a number gives the number back.
proof fn lemma_val_of_dec(n: nat)
    ensures
        val_of(dec_digits(n)) == n,
    decreases n,
{
    if n < 10 {
        let ds = dec_digits(n);
        assert(ds.drop_last() =~= Seq::<char>::empty());
        assert(val_of(Seq::<char>::empty()) == 0);
        assert(ds.last() == digit_char(n));
        assert(digit_val(digit_char(n)) == n);
        assert(val_of(ds) == 0 * 10 + digit_val(digit_char(n)));
    } else {
        lemma_val_of_dec(n / 10);
        let ds = dec_digits(n);
        assert(ds == dec_digits(n / 10) + seq![digit_char(n % 10)]);
        assert(ds.drop_last() =~= dec_digits(n / 10));
        assert(ds.last() == digit_char(n % 10));
        assert(digit_val(digit_char(n % 10)) == n % 10);
        vstd::arithmetic::div_mod::lemma_fundamental_div_mod(n as int, 10);
    }
}

/// A printed number parses back and leaves exactly the tail, which must not
/// itself begin with a digit.
proof fn lemma_p_num_rt(n: nat, rest: Seq<char>)
    requires
        n <= usize::MAX as nat,
        rest.len() > 0,
        !is_digit(rest[0]),
    ensures
        p_num(dec_digits(n) + rest) == Some((n, rest)),
{
    let ds = dec_digits(n);
    let s = ds + rest;
    lemma_dec_digits_shape(n);
    lemma_digits_prefix_of(ds, rest);
    lemma_val_of_dec(n);
    if ds.len() > 1 {
        assert(n >= 10) by {
            if n < 10 {
                assert(ds.len() == 1);
            }
        }
        assert(s[0] == ds[0]);
        assert(s[0] != '0');
    }
}

/// A printed non-empty list parses back element by element, up to and past
/// the closing bracket.
proof fn lemma_p_list_inner_rt<A>(
    xs: Seq<A>,
    f: spec_fn(A) -> Seq<char>,
    p: spec_fn(Seq<char>) -> Option<(A, Seq<char>)>,
    rest: Seq<char>,
)
    requires
        xs.len() >= 1,
        forall|x: A, r: Seq<char>| #[trigger] p(f(x) + r) == Some((x, r)),
        forall|s: Seq<char>|
            match #[trigger] p(s) {
                Some(xr) => xr.1.len() < s.len(),
                None => true,
            },
    ensures
        p_list_inner(jlist_inner(xs, f) + seq![']'] + rest, p) == Some((xs, rest)),
    decreases xs.len(),
{
    let s = jlist_inner(xs, f) + seq![']'] + rest;
    if xs.len() == 1 {
        let r = seq![']'] + rest;
        assert(s =~= f(xs[0]) + r);
        assert(p(f(xs[0]) + r) == Some((xs[0], r)));
        assert(r[0] == ']');
        assert(r.skip(1) =~= rest);
        assert(seq![xs[0]] =~= xs);
    } else {
        lemma_p_list_inner_rt(xs.skip(1), f, p, rest);
        let inner_tail = jlist_inner(xs.skip(1), f) + seq![']'] + rest;
        let r = seq![','] + inner_tail;
        assert(jlist_inner(xs, f) == f(xs[0]) + seq![','] + jlist_inner(xs.skip(1), f));
        assert(s =~= f(xs[0]) + r);
        assert(p(f(xs[0]) + r) == Some((xs[0], r)));
        assert(r[0] == ',');
        assert(r[0] != ']');
        assert(r.len() < s.len());
        assert(r.skip(1) =~= inner_tail);
        assert(seq![xs[0]] + xs.skip(1) =~= xs);
    }
}

/// A printed list parses back and leaves exactly the tail. Elements must
/// print non-empty and not begin with the closing bracket.
proof fn lemma_p_list_rt<A>(
    xs: Seq<A>,
    f: spec_fn(A) -> Seq<char>,
    p: spec_fn(Seq<char>) -> Option<(A, Seq<char>)>,
    rest: Seq<char>,
)
    requires
        forall|x: A, r: Seq<char>| #[trigger] p(f(x) + r) == Some((x, r)),
        forall|s: Seq<char>|
            match #[trigger] p(s) {
                Some(xr) => xr.1.len() < s.len(),
                None => true,
            },
        forall|x: A| (#[trigger] f(x)).len() > 0 && f(x)[0] != ']',
    ensures
        p_list(jlist(xs, f) + rest, p) == Some((xs, rest)),
{
    let s = jlist(xs, f) + rest;
    assert(s[0] == '[');
    if xs.len() == 0 {
        assert(s =~= seq!['[', ']'] + rest);
        assert(s[1] == ']');
        assert(s.skip(2) =~= rest);
        assert(Seq::<A>::empty() =~= xs);
    } else {
        assert(s.skip(1) =~= jlist_inner(xs, f) + seq![']'] + rest);
        lemma_p_list_inner_rt(xs, f, p, rest);
        assert(s[1] == jlist_inner(xs, f)[0]);
        assert(jlist_inner(xs, f)[0] == f(xs[0])[0]);
        assert(s[1] != ']');
    }
}

/// A printed word parses back and leaves exactly the tail.
proof fn lemma_p_word_rt(w: (Seq<char>, Seq<char>), rest: Seq<char>)
    ensures
        p_word(jword(w) + rest) == Some((w, rest)),
{
    let s = jword(w) + rest;
    let t1 = jstr(w.1) + (key_word_mid() + (jstr(w.0) + (seq!['}'] + rest)));
    assert(s =~= key_translated() + t1);
    lemma_p_lit_rt(key_translated(), t1);
    let t2 = key_word_mid() + (jstr(w.0) + (seq!['}'] + rest));
    lemma_p_str_rt(w.1, t2);
    let t3 = jstr(w.0) + (seq!['}'] + rest);
    lemma_p_lit_rt(key_word_mid(), t3);
    let t4 = seq!['}'] + rest;
    lemma_p_str_rt(w.0, t4);
    lemma_p_lit_rt(seq!['}'], rest);
}

/// A parsed word, when it parses, consumes at least the braces and quotes.
proof fn lemma_p_word_consumes(s: Seq<char>)
    ensures
        match p_word(s) {
            Some(xr) => xr.1.len() < s.len(),
            None => true,
        },
{
    match p_lit(s, key_translated()) {
        Some(s1) => {
            lemma_p_str_consumes(s1);
            match p_str(s1) {
                Some((t, s2)) => {
                    match p_lit(s2, key_word_mid()) {
                        Some(s3) => {
                            lemma_p_str_consumes(s3);
                        },
                        None => {},
                    }
                },
                None => {},
            }
        },
        None => {},
    }
}

/// The round trip of the whole record: a printed progress state parses
/// back to itself. Saving and then loading changes nothing.
pub proof fn lemma_save_load_round_trip(v: ProgressV)
    requires
        v.process <= usize::MAX as nat,
    ensures
        p_progress(json_of(v)) == Some(v),
{
    let s = json_of(v);
    let t1 = jlist(v.later, jword_fn()) + (key_process() + (dec_digits(v.process) + (key_removed()
        + (jlist(v.removed, jstr_fn()) + seq!['}']))));
    assert(s =~= head_later() + t1);
    lemma_p_lit_rt(head_later(), t1);

    assert forall|x: (Seq<char>, Seq<char>), r: Seq<char>| #[trigger] p_word_fn()(
        jword_fn()(x) + r,
    ) == Some((x, r)) by {
        lemma_p_word_rt(x, r);
    }
    assert forall|t: Seq<char>|
        match #[trigger] p_word_fn()(t) {
            Some(xr) => xr.1.len() < t.len(),
            None => true,
        } by {
        lemma_p_word_consumes(t);
    }
    assert forall|x: (Seq<char>, Seq<char>)| (#[trigger] jword_fn()(x)).len() > 0 && jword_fn()(
        x,
    )[0] != ']' by {
        assert(jword(x)[0] == '{');
    }
    let t2 = key_process() + (dec_digits(v.process) + (key_removed() + (jlist(
        v.removed,
        jstr_fn(),
    ) + seq!['}'])));
    assert(t1 =~= jlist(v.later, jword_fn()) + t2);
    lemma_p_list_rt(v.later, jword_fn(), p_word_fn(), t2);

    let t3 = dec_digits(v.process) + (key_removed() + (jlist(v.removed, jstr_fn()) + seq!['}']));
    lemma_p_lit_rt(key_process(), t3);

    let t4 = key_removed() + (jlist(v.removed, jstr_fn()) + seq!['}']);
    assert(t4[0] == ',');
    assert(!is_digit(','));
    lemma_p_num_rt(v.process, t4);

    let t5 = jlist(v.removed, jstr_fn()) + seq!['}'];
    lemma_p_lit_rt(key_removed(), t5);

    assert forall|x: Seq<char>, r: Seq<char>| #[trigger] p_str_fn()(jstr_fn()(x) + r) == Some(
        (x, r),
    ) by {
        lemma_p_str_rt(x, r);
    }
    assert forall|t: Seq<char>|
        match #[trigger] p_str_fn()(t) {
            Some(xr) => xr.1.len() < t.len(),
            None => true,
        } by {
        lemma_p_str_consumes(t);
    }
    assert forall|x: Seq<char>| (#[trigger] jstr_fn()(x)).len() > 0 && jstr_fn()(x)[0] != ']' by {
        assert(jstr(x)[0] == '"');
    }
    lemma_p_list_rt(v.removed, jstr_fn(), p_str_fn(), seq!['}']);

    lemma_p_lit_rt(seq!['}'], Seq::empty());
    assert(seq!['}'] =~= seq!['}'] + Seq::<char>::empty());
    assert(Seq::<char>::empty().len() == 0);
}

// ---------------------------------------------------------------------
// the encoder
// ---------------------------------------------------------------------

/// Appending one element to a list extends its printed form by a comma (on
/// a non-empty list) and the element.
proof fn lemma_jlist_snoc<A>(xs: Seq<A>, x: A, f: spec_fn(A) -> Seq<char>)
    ensures
        jlist_inner(xs.push(x), f) == if xs.len() == 0 {
            f(x)
        } else {
            jlist_inner(xs, f) + seq![','] + f(x)
        },
    decreases xs.len(),
{
    let p = xs.push(x);
    if xs.len() == 0 {
        assert(p.len() == 1);
        assert(p[0] == x);
    } else if xs.len() == 1 {
        assert(p.len() == 2);
        assert(p[0] == xs[0]);
        assert(p.skip(1) =~= seq![x]);
        assert(jlist_inner(seq![x], f) == f(x));
    } else {
        lemma_jlist_snoc(xs.skip(1), x, f);
        assert(p[0] == xs[0]);
        assert(p.skip(1) =~= xs.skip(1).push(x));
        assert(f(p[0]) + seq![','] + (jlist_inner(xs.skip(1), f) + seq![','] + f(x)) =~= (f(
            xs[0],
        ) + seq![','] + jlist_inner(xs.skip(1), f)) + seq![','] + f(x));
    }
}

/// Pushes every character of `s` onto `out`.
fn push_str_chars(out: &mut Vec<char>, s: &str)
    ensures
        final(out)@ == old(out)@ + s@,
{
    let n = s.unicode_len();
    let mut i: usize = 0;
    while i < n
        invariant
            i <= n,
            n == s@.len(),
            out@ == old(out)@ + s@.take(i as int),
        decreases n - i,
    {
        out.push(s.get_char(i));
        i = i + 1;
        assert(out@ =~= old(out)@ + s@.take(i as int));
    }
    assert(out@ =~= old(out)@ + s@);
}

/// Pushes a string in its printed form: quoted, `"` and `\` escaped.
fn push_escaped(out: &mut Vec<char>, s: &str)
    ensures
        final(out)@ == old(out)@ + jstr(s@),
{
    let n = s.unicode_len();
    out.push('"');
    let mut i: usize = 0;
    proof {
        assert(esc(s@.take(0)) =~= Seq::<char>::empty());
        assert(out@ =~= old(out)@ + seq!['"'] + esc(s@.take(0)));
    }
    while i < n
        invariant
            i <= n,
            n == s@.len(),
            out@ == old(out)@ + seq!['"'] + esc(s@.take(i as int)),
        decreases n - i,
    {
        let c = s.get_char(i);
        if c == '"' || c == '\\' {
            out.push('\\');
            out.push(c);
        } else {
            out.push(c);
        }
        proof {
            lemma_esc_add(s@.take(i as int), seq![s@[i as int]]);
            assert(s@.take(i + 1) =~= s@.take(i as int) + seq![s@[i as int]]);
            assert(seq![c].skip(1) =~= Seq::<char>::empty());
            assert(esc(Seq::<char>::empty()) =~= Seq::<char>::empty());
            assert(esc(seq![c]) =~= esc1(c) + esc(Seq::<char>::empty()));
            assert(esc(seq![c]) =~= esc1(c));
            assert(out@ =~= old(out)@ + seq!['"'] + esc(s@.take(i + 1)));
        }
        i = i + 1;
    }
    out.push('"');
    proof {
        assert(s@.take(n as int) =~= s@);
        assert(out@ =~= old(out)@ + jstr(s@));
    }
}

/// The digit character of a value below ten.
fn digit_char_exec(d: usize) -> (c: char)
    requires
        d < 10,
    ensures
        c == digit_char(d as nat),
{
    match d {
        0 => '0',
        1 => '1',
        2 => '2',
        3 => '3',
        4 => '4',
        5 => '5',
        6 => '6',
        7 => '7',
        8 => '8',
        _ => '9',
    }
}

/// Pushes a number in decimal, most significant digit first.
fn push_number(out: &mut Vec<char>, n: usize)
    ensures
        final(out)@ == old(out)@ + dec_digits(n as nat),
    decreases n,
{
    if n < 10 {
        out.push(digit_char_exec(n));
        assert(out@ =~= old(out)@ + dec_digits(n as nat));
    } else {
        push_number(out, n / 10);
        out.push(digit_char_exec(n % 10));
        assert(out@ =~= old(out)@ + dec_digits(n as nat));
    }
}

/// Pushes one queued word in its printed form.
fn push_word(out: &mut Vec<char>, w: &Word)
    ensures
        final(out)@ == old(out)@ + jword(w@),
{
    push_str_chars(out, "{\"translated\":");
    proof {
        reveal_strlit("{\"translated\":");
        assert("{\"translated\":"@ =~= key_translated());
    }
    push_escaped(out, w.translated.as_str());
    push_str_chars(out, ",\"word\":");
    proof {
        reveal_strlit(",\"word\":");
        assert(",\"word\":"@ =~= key_word_mid());
    }
    push_escaped(out, w.word.as_str());
    out.push('}');
    assert(out@ =~= old(out)@ + jword(w@));
}

/// Pushes the review-later queue in its printed form.
fn push_words(out: &mut Vec<char>, ws: &Vec<Word>)
    ensures
        final(out)@ == old(out)@ + jlist(word_views(ws@), jword_fn()),
{
    out.push('[');
    let mut i: usize = 0;
    proof {
        assert(jlist_inner(word_views(ws@).take(0), jword_fn()) =~= Seq::<char>::empty());
        assert(out@ =~= old(out)@ + seq!['['] + jlist_inner(word_views(ws@).take(0), jword_fn()));
    }
    while i < ws.len()
        invariant
            i <= ws.len(),
            out@ == old(out)@ + seq!['['] + jlist_inner(word_views(ws@).take(i as int), jword_fn()),
        decreases ws.len() - i,
    {
        if i > 0 {
            out.push(',');
        }
        push_word(out, &ws[i]);
        proof {
            lemma_jlist_snoc(word_views(ws@).take(i as int), word_views(ws@)[i as int], jword_fn());
            assert(word_views(ws@).take(i + 1) =~= word_views(ws@).take(i as int).push(
                word_views(ws@)[i as int],
            ));
            assert(jword_fn()(word_views(ws@)[i as int]) == jword(ws@[i as int]@));
            assert(out@ =~= old(out)@ + seq!['['] + jlist_inner(
                word_views(ws@).take(i + 1),
                jword_fn(),
            ));
        }
        i = i + 1;
    }
    out.push(']');
    proof {
        assert(word_views(ws@).take(ws@.len() as int) =~= word_views(ws@));
        assert(out@ =~= old(out)@ + jlist(word_views(ws@), jword_fn()));
    }
}

/// Pushes the removed identifiers in their printed form.
fn push_strs(out: &mut Vec<char>, ss: &Vec<String>)
    ensures
        final(out)@ == old(out)@ + jlist(crate::progress::str_views(ss@), jstr_fn()),
{
    let ghost views = crate::progress::str_views(ss@);
    out.push('[');
    let mut i: usize = 0;
    proof {
        assert(jlist_inner(views.take(0), jstr_fn()) =~= Seq::<char>::empty());
        assert(out@ =~= old(out)@ + seq!['['] + jlist_inner(views.take(0), jstr_fn()));
    }
    while i < ss.len()
        invariant
            i <= ss.len(),
            views == crate::progress::str_views(ss@),
            out@ == old(out)@ + seq!['['] + jlist_inner(views.take(i as int), jstr_fn()),
        decreases ss.len() - i,
    {
        if i > 0 {
            out.push(',');
        }
        push_escaped(out, ss[i].as_str());
        proof {
            lemma_jlist_snoc(views.take(i as int), views[i as int], jstr_fn());
            assert(views.take(i + 1) =~= views.take(i as int).push(views[i as int]));
            assert(jstr_fn()(views[i as int]) == jstr(ss@[i as int]@));
            assert(out@ =~= old(out)@ + seq!['['] + jlist_inner(views.take(i + 1), jstr_fn()));
        }
        i = i + 1;
    }
    out.push(']');
    proof {
        assert(views.take(ss@.len() as int) =~= views);
        assert(out@ =~= old(out)@ + jlist(views, jstr_fn()));
    }
}

impl ProcessData {
    /// The progress state in its saved textual form.
    pub fn to_json(&self) -> (r: String)
        ensures
            r@ == json_of(self@),
    {
        let mut out: Vec<char> = Vec::new();
        push_str_chars(&mut out, "{\"later\":");
        proof {
            reveal_strlit("{\"later\":");
            assert("{\"later\":"@ =~= head_later());
        }
        push_words(&mut out, &self.later);
        push_str_chars(&mut out, ",\"process\":");
        proof {
            reveal_strlit(",\"process\":");
            assert(",\"process\":"@ =~= key_process());
        }
        push_number(&mut out, self.process);
        push_str_chars(&mut out, ",\"removed\":");
        proof {
            reveal_strlit(",\"removed\":");
            assert(",\"removed\":"@ =~= key_removed());
        }
        push_strs(&mut out, &self.removed);
        out.push('}');
        proof {
            assert(out@ =~= json_of(self@));
        }
        string_from_chars(&out)
    }
}

// ---------------------------------------------------------------------
// the decoder
// ---------------------------------------------------------------------

/// Consumes the exact literal `lit` at position `i`.
fn eat_lit(v: &Vec<char>, i: usize, lit: &str) -> (r: Option<usize>)
    requires
        i <= v.len(),
    ensures
        match r {
            Some(j) => i <= j <= v.len() && j - i == lit@.len() && p_lit(v@.skip(i as int), lit@)
                == Some(v@.skip(j as int)),
            None => p_lit(v@.skip(i as int), lit@) is None,
        },
{
    let n = lit.unicode_len();
    if n > v.len() - i {
        return None;
    }
    let mut k: usize = 0;
    while k < n
        invariant
            k <= n,
            n == lit@.len(),
            i <= v.len(),
            n <= v.len() - i,
            forall|t: int| 0 <= t < k ==> v@[i + t] == lit@[t],
        decreases n - k,
    {
        if v[i + k] != lit.get_char(k) {
            proof {
                assert(v@.skip(i as int)[k as int] == v@[i + k]);
                assert(v@.skip(i as int).take(n as int)[k as int] != lit@[k as int]);
            }
            return None;
        }
        k = k + 1;
    }
    proof {
        assert(v@.skip(i as int).take(n as int) =~= lit@);
        assert(v@.skip(i as int).skip(n as int) =~= v@.skip(i + n));
    }
    Some(i + n)
}

/// Consumes a quoted string at position `i`, undoing the escapes.
fn eat_str(v: &Vec<char>, i: usize) -> (r: Option<(String, usize)>)
    requires
        i <= v.len(),
    ensures
        match r {
            Some((x, j)) => i < j <= v.len() && p_str(v@.skip(i as int)) == Some(
                (x@, v@.skip(j as int)),
            ),
            None => p_str(v@.skip(i as int)) is None,
        },
{
    let ghost s = v@.skip(i as int);
    if i >= v.len() || v[i] != '"' {
        return None;
    }
    proof {
        assert(s[0] == v@[i as int]);
        assert(s.skip(1) =~= v@.skip(i + 1));
    }
    let mut acc: Vec<char> = Vec::new();
    let mut k: usize = i + 1;
    proof {
        assert(acc@ + p_str_body(v@.skip(i + 1))->Some_0.0 =~= p_str_body(
            v@.skip(i + 1),
        )->Some_0.0);
    }
    loop
        invariant
            i < v.len(),
            i + 1 <= k <= v.len(),
            v@[i as int] == '"',
            p_str(v@.skip(i as int)) == p_str_body(v@.skip(i + 1)),
            p_str_body(v@.skip(i + 1)) == match p_str_body(v@.skip(k as int)) {
                Some(tr) => Some((acc@ + tr.0, tr.1)),
                None => None::<(Seq<char>, Seq<char>)>,
            },
        decreases v.len() - k,
    {
        let ghost t = v@.skip(k as int);
        if k >= v.len() {
            proof {
                assert(t.len() == 0);
            }
            return None;
        }
        proof {
            assert(t[0] == v@[k as int]);
        }
        let c = v[k];
        if c == '"' {
            proof {
                assert(t.skip(1) =~= v@.skip(k + 1));
                assert(acc@ + Seq::<char>::empty() =~= acc@);
            }
            let x = string_from_chars(&acc);
            return Some((x, k + 1));
        } else if c == '\\' {
            if k + 1 >= v.len() {
                proof {
                    assert(t.len() < 2);
                }
                return None;
            }
            proof {
                assert(t[1] == v@[k + 1]);
            }
            let c2 = v[k + 1];
            if c2 == '"' || c2 == '\\' {
                proof {
                    assert(t.skip(2) =~= v@.skip(k + 2));
                }
                acc.push(c2);
                proof {
                    if p_str_body(v@.skip(k + 2)) is Some {
                        let inner = p_str_body(v@.skip(k + 2))->Some_0.0;
                        assert(acc@ + inner =~= acc@.drop_last() + (seq![c2] + inner));
                    }
                }
                k = k + 2;
            } else {
                return None;
            }
        } else {
            proof {
                assert(t.skip(1) =~= v@.skip(k + 1));
            }
            acc.push(c);
            proof {
                if p_str_body(v@.skip(k + 1)) is Some {
                    let inner = p_str_body(v@.skip(k + 1))->Some_0.0;
                    assert(acc@ + inner =~= acc@.drop_last() + (seq![c] + inner));
                }
            }
            k = k + 1;
        }
    }
}

fn is_digit_exec(c: char) -> (r: bool)
    ensures
        r == is_digit(c),
{
    c == '0' || c == '1' || c == '2' || c == '3' || c == '4' || c == '5' || c == '6' || c == '7'
        || c == '8' || c == '9'
}

fn digit_val_exec(c: char) -> (r: usize)
    requires
        is_digit(c),
    ensures
        r == digit_val(c),
        r < 10,
{
    if c == '0' {
        0
    } else if c == '1' {
        1
    } else if c == '2' {
        2
    } else if c == '3' {
        3
    } else if c == '4' {
        4
    } else if c == '5' {
        5
    } else if c == '6' {
        6
    } else if c == '7' {
        7
    } else if c == '8' {
        8
    } else {
        9
    }
}

/// A longer digit prefix never has a smaller value.
proof fn lemma_val_of_take_grows(ds: Seq<char>, a: int, b: int)
    requires
        0 <= a <= b <= ds.len(),
    ensures
        val_of(ds.take(a)) <= val_of(ds.take(b)),
    decreases b - a,
{
    if a < b {
        lemma_val_of_take_grows(ds, a, b - 1);
        assert(ds.take(b).drop_last() =~= ds.take(b - 1));
        assert(val_of(ds.take(b)) == val_of(ds.take(b - 1)) * 10 + digit_val(ds.take(b).last()));
    }
}

/// Consumes a canonical decimal number at position `i`.
fn eat_num(v: &Vec<char>, i: usize) -> (r: Option<(usize, usize)>)
    requires
        i <= v.len(),
    ensures
        match r {
            Some((n, j)) => i < j <= v.len() && p_num(v@.skip(i as int)) == Some(
                (n as nat, v@.skip(j as int)),
            ),
            None => p_num(v@.skip(i as int)) is None,
        },
{
    let ghost s = v@.skip(i as int);
    // the digit run
    let mut k: usize = i;
    loop
        invariant_except_break
            i <= k <= v.len(),
            s == v@.skip(i as int),
            forall|t: int| i <= t < k ==> is_digit(#[trigger] v@[t]),
            digits_prefix(s) == k - i + digits_prefix(v@.skip(k as int)),
        ensures
            i <= k <= v.len(),
            s == v@.skip(i as int),
            forall|t: int| i <= t < k ==> is_digit(#[trigger] v@[t]),
            digits_prefix(s) == k - i,
        decreases v.len() - k,
    {
        if k >= v.len() {
            proof {
                assert(v@.skip(k as int).len() == 0);
            }
            break;
        }
        proof {
            assert(v@.skip(k as int)[0] == v@[k as int]);
        }
        if !is_digit_exec(v[k]) {
            break;
        }
        proof {
            assert(v@.skip(k as int).skip(1) =~= v@.skip(k + 1));
        }
        k = k + 1;
    }
    if k == i {
        return None;
    }
    proof {
        assert(s[0] == v@[i as int]);
    }
    if k - i > 1 && v[i] == '0' {
        return None;
    }
    // the value
    let ghost ds = s.take(k - i);
    proof {
        assert(forall|t: int| 0 <= t < ds.len() ==> ds[t] == v@[i + t]);
    }
    let mut n: usize = 0;
    let mut m: usize = i;
    while m < k
        invariant
            i < k,
            i <= m <= k <= v.len(),
            s == v@.skip(i as int),
            ds == s.take(k - i),
            ds.len() == k - i,
            digits_prefix(s) == k - i,
            k - i > 1 ==> s[0] != '0',
            forall|t: int| 0 <= t < ds.len() ==> ds[t] == v@[i + t] && is_digit(#[trigger] ds[t]),
            n as nat == val_of(ds.take(m - i)),
        decreases k - m,
    {
        proof {
            assert(ds[m - i] == v@[i + (m - i)]);
            assert(is_digit(v@[m as int]));
        }
        let d = digit_val_exec(v[m]);
        proof {
            assert(ds[m - i] == v@[m as int]);
            assert(ds.take(m - i + 1).drop_last() =~= ds.take(m - i));
            assert(ds.take(m - i + 1).last() == ds[m - i]);
            assert(val_of(ds.take(m - i + 1)) == val_of(ds.take(m - i)) * 10 + digit_val(
                ds[m - i],
            ));
        }
        let n10 = match n.checked_mul(10) {
            Some(x) => x,
            None => {
                proof {
                    lemma_val_of_take_grows(ds, m - i + 1, ds.len() as int);
                    assert(ds.take(ds.len() as int) =~= ds);
                }
                return None;
            },
        };
        n = match n10.checked_add(d) {
            Some(x) => x,
            None => {
                proof {
                    lemma_val_of_take_grows(ds, m - i + 1, ds.len() as int);
                    assert(ds.take(ds.len() as int) =~= ds);
                }
                return None;
            },
        };
        m = m + 1;
    }
    proof {
        assert(ds.take(ds.len() as int) =~= ds);
        assert(n as nat == val_of(ds));
        assert(s.skip(k - i) =~= v@.skip(k as int));
    }
    Some((n, k))
}

/// Consumes one queued word at position `i`.
fn eat_word(v: &Vec<char>, i: usize) -> (r: Option<(Word, usize)>)
    requires
        i <= v.len(),
    ensures
        match r {
            Some((w, j)) => i < j <= v.len() && p_word(v@.skip(i as int)) == Some(
                (w@, v@.skip(j as int)),
            ),
            None => p_word(v@.skip(i as int)) is None,
        },
{
    proof {
        reveal_strlit("{\"translated\":");
        assert("{\"translated\":"@ =~= key_translated());
        reveal_strlit(",\"word\":");
        assert(",\"word\":"@ =~= key_word_mid());
        reveal_strlit("}");
        assert("}"@ =~= seq!['}']);
    }
    let j1 = match eat_lit(v, i, "{\"translated\":") {
        Some(j) => j,
        None => {
            return None;
        },
    };
    let (translated, j2) = match eat_str(v, j1) {
        Some(x) => x,
        None => {
            return None;
        },
    };
    let j3 = match eat_lit(v, j2, ",\"word\":") {
        Some(j) => j,
        None => {
            return None;
        },
    };
    let (word, j4) = match eat_str(v, j3) {
        Some(x) => x,
        None => {
            return None;
        },
    };
    let j5 = match eat_lit(v, j4, "}") {
        Some(j) => j,
        None => {
            return None;
        },
    };
    Some((Word { word, translated }, j5))
}

/// Consumes the bracketed list of queued words at position `i`.
#[verifier::rlimit(60)]
fn eat_words(v: &Vec<char>, i: usize) -> (r: Option<(Vec<Word>, usize)>)
    requires
        i <= v.len(),
    ensures
        match r {
            Some((ws, j)) => i < j <= v.len() && p_list(v@.skip(i as int), p_word_fn()) == Some(
                (word_views(ws@), v@.skip(j as int)),
            ),
            None => p_list(v@.skip(i as int), p_word_fn()) is None,
        },
{
    let ghost s = v@.skip(i as int);
    if i >= v.len() || v[i] != '[' {
        proof {
            if s.len() > 0 {
                assert(s[0] == v@[i as int]);
            }
        }
        return None;
    }
    proof {
        assert(s[0] == v@[i as int]);
    }
    if i + 1 < v.len() {
        if v[i + 1] == ']' {
            proof {
                assert(s[1] == v@[i + 1]);
                assert(s.skip(2) =~= v@.skip(i + 2));
            }
            let ws: Vec<Word> = Vec::new();
            proof {
                assert(word_views(ws@) =~= Seq::<(Seq<char>, Seq<char>)>::empty());
            }
            return Some((ws, i + 2));
        }
        proof {
            assert(s[1] == v@[i + 1]);
        }
    }
    proof {
        assert(s.skip(1) =~= v@.skip(i + 1));
        assert(p_list(s, p_word_fn()) == p_list_inner(v@.skip(i + 1), p_word_fn()));
    }
    let mut out: Vec<Word> = Vec::new();
    let mut k: usize = i + 1;
    proof {
        assert(word_views(out@) =~= Seq::<(Seq<char>, Seq<char>)>::empty());
        if p_list_inner(v@.skip(i + 1), p_word_fn()) is Some {
            let xr = p_list_inner(v@.skip(i + 1), p_word_fn())->Some_0;
            assert(word_views(out@) + xr.0 =~= xr.0);
        }
    }
    loop
        invariant
            i + 1 <= k <= v.len(),
            s == v@.skip(i as int),
            p_list(s, p_word_fn()) == p_list_inner(v@.skip(i + 1), p_word_fn()),
            p_list_inner(v@.skip(i + 1), p_word_fn()) == match p_list_inner(
                v@.skip(k as int),
                p_word_fn(),
            ) {
                Some(xr) => Some((word_views(out@) + xr.0, xr.1)),
                None => None::<(Seq<(Seq<char>, Seq<char>)>, Seq<char>)>,
            },
        decreases v.len() - k,
    {
        proof {
            assert(p_word_fn()(v@.skip(k as int)) == p_word(v@.skip(k as int)));
        }
        let (w, j2) = match eat_word(v, k) {
            Some(x) => x,
            None => {
                return None;
            },
        };
        if j2 >= v.len() {
            proof {
                assert(v@.skip(j2 as int).len() == 0);
            }
            return None;
        }
        proof {
            assert(v@.skip(j2 as int)[0] == v@[j2 as int]);
            assert(v@.skip(j2 as int).skip(1) =~= v@.skip(j2 + 1));
            assert(v@.skip(j2 as int).len() < v@.skip(k as int).len());
        }
        let c = v[j2];
        if c == ']' {
            out.push(w);
            proof {
                let prev = out@.drop_last();
                assert(word_views(out@) =~= word_views(prev) + seq![w@]);
                assert(word_views(prev) + seq![w@] =~= word_views(prev) + (seq![w@]
                    + Seq::<(Seq<char>, Seq<char>)>::empty()));
                assert(p_list_inner(v@.skip(k as int), p_word_fn()) == Some(
                    (seq![w@], v@.skip(j2 + 1)),
                ));
            }
            return Some((out, j2 + 1));
        } else if c == ',' {
            out.push(w);
            proof {
                let ghost prev = out@.drop_last();
                assert(word_views(out@) =~= word_views(prev) + seq![w@]);
                if p_list_inner(v@.skip(j2 + 1), p_word_fn()) is Some {
                    let xr = p_list_inner(v@.skip(j2 + 1), p_word_fn())->Some_0;
                    assert(word_views(prev) + (seq![w@] + xr.0) =~= word_views(out@) + xr.0);
                }
            }
            k = j2 + 1;
        } else {
            return None;
        }
    }
}

/// Consumes the bracketed list of removed identifiers at position `i`.
#[verifier::rlimit(60)]
fn eat_strs(v: &Vec<char>, i: usize) -> (r: Option<(Vec<String>, usize)>)
    requires
        i <= v.len(),
    ensures
        match r {
            Some((ss, j)) => i < j <= v.len() && p_list(v@.skip(i as int), p_str_fn()) == Some(
                (crate::progress::str_views(ss@), v@.skip(j as int)),
            ),
            None => p_list(v@.skip(i as int), p_str_fn()) is None,
        },
{
    let ghost s = v@.skip(i as int);
    if i >= v.len() || v[i] != '[' {
        proof {
            if s.len() > 0 {
                assert(s[0] == v@[i as int]);
            }
        }
        return None;
    }
    proof {
        assert(s[0] == v@[i as int]);
    }
    if i + 1 < v.len() {
        if v[i + 1] == ']' {
            proof {
                assert(s[1] == v@[i + 1]);
                assert(s.skip(2) =~= v@.skip(i + 2));
            }
            let ss: Vec<String> = Vec::new();
            proof {
                assert(crate::progress::str_views(ss@) =~= Seq::<Seq<char>>::empty());
            }
            return Some((ss, i + 2));
        }
        proof {
            assert(s[1] == v@[i + 1]);
        }
    }
    proof {
        assert(s.skip(1) =~= v@.skip(i + 1));
        assert(p_list(s, p_str_fn()) == p_list_inner(v@.skip(i + 1), p_str_fn()));
    }
    let mut out: Vec<String> = Vec::new();
    let mut k: usize = i + 1;
    proof {
        assert(crate::progress::str_views(out@) =~= Seq::<Seq<char>>::empty());
        if p_list_inner(v@.skip(i + 1), p_str_fn()) is Some {
            let xr = p_list_inner(v@.skip(i + 1), p_str_fn())->Some_0;
            assert(crate::progress::str_views(out@) + xr.0 =~= xr.0);
        }
    }
    loop
        invariant
            i + 1 <= k <= v.len(),
            s == v@.skip(i as int),
            p_list(s, p_str_fn()) == p_list_inner(v@.skip(i + 1), p_str_fn()),
            p_list_inner(v@.skip(i + 1), p_str_fn()) == match p_list_inner(
                v@.skip(k as int),
                p_str_fn(),
            ) {
                Some(xr) => Some((crate::progress::str_views(out@) + xr.0, xr.1)),
                None => None::<(Seq<Seq<char>>, Seq<char>)>,
            },
        decreases v.len() - k,
    {
        proof {
            assert(p_str_fn()(v@.skip(k as int)) == p_str(v@.skip(k as int)));
        }
        let (x, j2) = match eat_str(v, k) {
            Some(x) => x,
            None => {
                return None;
            },
        };
        if j2 >= v.len() {
            proof {
                assert(v@.skip(j2 as int).len() == 0);
            }
            return None;
        }
        proof {
            assert(v@.skip(j2 as int)[0] == v@[j2 as int]);
            assert(v@.skip(j2 as int).skip(1) =~= v@.skip(j2 + 1));
            assert(v@.skip(j2 as int).len() < v@.skip(k as int).len());
        }
        let c = v[j2];
        if c == ']' {
            out.push(x);
            proof {
                let prev = out@.drop_last();
                assert(crate::progress::str_views(out@) =~= crate::progress::str_views(prev)
                    + seq![x@]);
                assert(crate::progress::str_views(prev) + seq![x@]
                    =~= crate::progress::str_views(prev) + (seq![x@] + Seq::<Seq<char>>::empty()));
                assert(p_list_inner(v@.skip(k as int), p_str_fn()) == Some(
                    (seq![x@], v@.skip(j2 + 1)),
                ));
            }
            return Some((out, j2 + 1));
        } else if c == ',' {
            out.push(x);
            proof {
                let prev = out@.drop_last();
                assert(crate::progress::str_views(out@) =~= crate::progress::str_views(prev)
                    + seq![x@]);
                if p_list_inner(v@.skip(j2 + 1), p_str_fn()) is Some {
                    let xr = p_list_inner(v@.skip(j2 + 1), p_str_fn())->Some_0;
                    assert(crate::progress::str_views(prev) + (seq![x@] + xr.0)
                        =~= crate::progress::str_views(out@) + xr.0);
                }
            }
            k = j2 + 1;
        } else {
            return None;
        }
    }
}

impl ProcessData {
    /// Parses a saved progress record; `None` on any other text.
    pub fn from_json(text: &str) -> (r: Option<ProcessData>)
        ensures
            match r {
                Some(pd) => p_progress(text@) == Some(pd@),
                None => p_progress(text@) is None,
            },
    {
        let v = crate::words::chars_of(text);
        proof {
            assert(v@.skip(0) =~= text@);
            reveal_strlit("{\"later\":");
            assert("{\"later\":"@ =~= head_later());
            reveal_strlit(",\"process\":");
            assert(",\"process\":"@ =~= key_process());
            reveal_strlit(",\"removed\":");
            assert(",\"removed\":"@ =~= key_removed());
            reveal_strlit("}");
            assert("}"@ =~= seq!['}']);
        }
        let j1 = match eat_lit(&v, 0, "{\"later\":") {
            Some(j) => j,
            None => {
                return None;
            },
        };
        let (later, j2) = match eat_words(&v, j1) {
            Some(x) => x,
            None => {
                return None;
            },
        };
        let j3 = match eat_lit(&v, j2, ",\"process\":") {
            Some(j) => j,
            None => {
                return None;
            },
        };
        let (process, j4) = match eat_num(&v, j3) {
            Some(x) => x,
            None => {
                return None;
            },
        };
        let j5 = match eat_lit(&v, j4, ",\"removed\":") {
            Some(j) => j,
            None => {
                return None;
            },
        };
        let (removed, j6) = match eat_strs(&v, j5) {
            Some(x) => x,
            None => {
                return None;
            },
        };
        let j7 = match eat_lit(&v, j6, "}") {
            Some(j) => j,
            None => {
                return None;
            },
        };
        if j7 != v.len() {
            proof {
                assert(v@.skip(j7 as int).len() > 0);
            }
            return None;
        }
        proof {
            assert(v@.skip(j7 as int).len() == 0);
        }
        Some(ProcessData { process, later, removed })
    }

    /// The progress a session starts from: the saved record when there is
    /// one and it parses, the zero-value state otherwise. A missing, empty
    /// or corrupt record is never an error.
    pub fn load_progress(text: Option<&str>) -> (r: ProcessData)
        ensures
            match text {
                Some(t) => match p_progress(t@) {
                    Some(pv) => r@ == pv,
                    None => r@ == default_progress(),
                },
                None => r@ == default_progress(),
            },
    {
        match text {
            Some(t) => match Self::from_json(t) {
                Some(pd) => pd,
                None => Self::default(),
            },
            None => Self::default(),
        }
    }
}

} // verus!
