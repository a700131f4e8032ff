//! The persisted snapshot format of the cache: one JSON object holding the
//! full mapping, written and read by verified code.
//!
//! The text produced for a cache is
//! `{"entries":{"<key>":{"value":"<value>","expiry":<seconds>},...}}`
//! with strings escaped as JSON requires: a quote or a backslash gets a
//! backslash in front, and a control character becomes a `\u00..` sequence.
//! The reader accepts exactly this shape (plus the customary short escapes
//! `\b \f \n \r \t \/`), and rejects everything else.

use crate::cache::Cache;
use crate::cache::EntryModel;
use crate::cache::map_of;
use crate::cache::unique_keys;
use vstd::prelude::*;
use vstd::string::StrSliceExecFns;
use vstd::string::StringExecFns;

verus! {

/// Why a cache operation failed: the persisted text was not a valid
/// snapshot, or reading or writing the file itself failed.
#[derive(Debug, PartialEq, Eq, Structural, Clone, Copy)]
pub enum CacheError {
    Deserialization,
    Io,
}

impl CacheError {
    /// A short human-readable description of the error.
    pub fn message(&self) -> (m: String)
        ensures
            *self is Deserialization ==> m@ == "persisted cache state is malformed"@,
            *self is Io ==> m@ == "cache file could not be read or written"@,
    {
        match self {
            CacheError::Deserialization => String::from_str("persisted cache state is malformed"),
            CacheError::Io => String::from_str("cache file could not be read or written"),
        }
    }
}

/// Relies on String::push: appends exactly the one given character.
#[verifier::external_body]
fn push_char(s: &mut String, c: char)
    ensures
        final(s)@ == old(s)@.push(c),
{
    s.push(c);
}

/// The digit character for `d` (0 to 9).
pub open spec fn digit_char(d: int) -> char {
    if d == 0 {
        '0'
    } else if d == 1 {
        '1'
    } else if d == 2 {
        '2'
    } else if d == 3 {
        '3'
    } else if d == 4 {
        '4'
    } else if d == 5 {
        '5'
    } else if d == 6 {
        '6'
    } else if d == 7 {
        '7'
    } else if d == 8 {
        '8'
    } else {
        '9'
    }
}

/// The lower-case hexadecimal digit character for `d` (0 to 15).
pub open spec fn hex_digit(d: int) -> char {
    if d < 10 {
        digit_char(d)
    } else if d == 10 {
        'a'
    } else if d == 11 {
        'b'
    } else if d == 12 {
        'c'
    } else if d == 13 {
        'd'
    } else if d == 14 {
        'e'
    } else {
        'f'
    }
}

/// How one character is written inside a JSON string: quote and backslash
/// are escaped, control characters become `\u00..`, everything else stands
/// for itself.
pub open spec fn esc_char(c: char) -> Seq<char> {
    if c == '"' {
        seq!['\\', '"']
    } else if c == '\\' {
        seq!['\\', '\\']
    } else if (c as u32) < 32 {
        seq!['\\', 'u', '0', '0', hex_digit((c as u32 / 16) as int), hex_digit(
            (c as u32 % 16) as int,
        )]
    } else {
        seq![c]
    }
}

/// The escaped form of a whole string.
pub open spec fn esc(s: Seq<char>) -> Seq<char>
    decreases s.len(),
{
    if s.len() == 0 {
        Seq::empty()
    } else {
        esc_char(s[0]) + esc(s.drop_first())
    }
}

/// The decimal digits of `n`, most significant first.
pub open spec fn dec_digits(n: int) -> Seq<char>
    decreases n,
{
    if n < 10 {
        seq![digit_char(n)]
    } else {
        dec_digits(n / 10).push(digit_char(n % 10))
    }
}

/// The text that opens a snapshot, up to and including the brace of the
/// entry object.
pub open spec fn lit_hdr() -> Seq<char> {
    "{\"entries\":{"@
}

/// The text between a key and its value string, up to and including the
/// value's opening quote.
pub open spec fn lit_val() -> Seq<char> {
    ":{\"value\":\""@
}

/// The text between a value string and its expiry number.
pub open spec fn lit_exp() -> Seq<char> {
    ",\"expiry\":"@
}

/// The text written for one key/entry pair.
pub open spec fn encode_entry(k: Seq<char>, e: EntryModel) -> Seq<char> {
    seq!['"'] + esc(k) + seq!['"'] + lit_val() + esc(e.value) + seq!['"'] + lit_exp()
        + dec_digits(e.expiry as int) + seq!['}']
}

/// The text written for a sequence of pairs, separated by commas.
pub open spec fn encode_entries(es: Seq<(Seq<char>, EntryModel)>) -> Seq<char>
    decreases es.len(),
{
    if es.len() == 0 {
        Seq::empty()
    } else if es.len() == 1 {
        encode_entry(es[0].0, es[0].1)
    } else {
        encode_entry(es[0].0, es[0].1) + seq![','] + encode_entries(es.drop_first())
    }
}

/// The full snapshot text for a sequence of pairs.
pub open spec fn encode_cache(es: Seq<(Seq<char>, EntryModel)>) -> Seq<char> {
    lit_hdr() + encode_entries(es) + seq!['}', '}']
}

proof fn lemma_esc_push(s: Seq<char>, c: char)
    ensures
        esc(s.push(c)) == esc(s) + esc_char(c),
    decreases s.len(),
{
    if s.len() == 0 {
        assert(s.push(c)[0] == c);
        assert(s.push(c).drop_first() =~= Seq::<char>::empty());
        assert(esc(Seq::<char>::empty()) == Seq::<char>::empty());
        assert(esc(s.push(c)) == esc_char(c) + esc(Seq::<char>::empty()));
        assert(esc(s.push(c)) =~= esc(s) + esc_char(c));
    } else {
        assert(s.push(c).drop_first() =~= s.drop_first().push(c));
        lemma_esc_push(s.drop_first(), c);
        assert(s.push(c)[0] == s[0]);
        assert(esc(s.push(c)) == esc_char(s[0]) + (esc(s.drop_first()) + esc_char(c)));
        assert(esc_char(s[0]) + (esc(s.drop_first()) + esc_char(c)) =~= (esc_char(s[0]) + esc(
            s.drop_first(),
        )) + esc_char(c));
    }
}

proof fn lemma_encode_entries_push(es: Seq<(Seq<char>, EntryModel)>, p: (Seq<char>, EntryModel))
    ensures
        es.len() == 0 ==> encode_entries(es.push(p)) == encode_entry(p.0, p.1),
        es.len() > 0 ==> encode_entries(es.push(p)) == encode_entries(es) + seq![',']
            + encode_entry(p.0, p.1),
    decreases es.len(),
{
    if es.len() == 0 {
        assert(es.push(p)[0] == p);
    } else if es.len() == 1 {
        assert(es.push(p)[0] == es[0]);
        assert(es.push(p).drop_first() =~= es.drop_first().push(p));
        assert(es.drop_first().len() == 0);
        lemma_encode_entries_push(es.drop_first(), p);
        assert(encode_entries(es.push(p)) == encode_entry(es[0].0, es[0].1) + seq![',']
            + encode_entry(p.0, p.1));
    } else {
        assert(es.push(p)[0] == es[0]);
        assert(es.push(p).drop_first() =~= es.drop_first().push(p));
        lemma_encode_entries_push(es.drop_first(), p);
        assert(encode_entries(es.push(p)) == encode_entry(es[0].0, es[0].1) + seq![','] + (
        encode_entries(es.drop_first()) + seq![','] + encode_entry(p.0, p.1)));
        assert(encode_entry(es[0].0, es[0].1) + seq![','] + (encode_entries(es.drop_first())
            + seq![','] + encode_entry(p.0, p.1)) =~= (encode_entry(es[0].0, es[0].1) + seq![',']
            + encode_entries(es.drop_first())) + seq![','] + encode_entry(p.0, p.1));
    }
}

fn digit_char_exec(d: u64) -> (c: char)
    requires
        d < 10,
    ensures
        c == digit_char(d as int),
{
    if d == 0 {
        '0'
    } else if d == 1 {
        '1'
    } else if d == 2 {
        '2'
    } else if d == 3 {
        '3'
    } else if d == 4 {
        '4'
    } else if d == 5 {
        '5'
    } else if d == 6 {
        '6'
    } else if d == 7 {
        '7'
    } else if d == 8 {
        '8'
    } else {
        '9'
    }
}

fn hex_digit_exec(d: u32) -> (c: char)
    requires
        d < 16,
    ensures
        c == hex_digit(d as int),
{
    if d < 10 {
        digit_char_exec(d as u64)
    } else if d == 10 {
        'a'
    } else if d == 11 {
        'b'
    } else if d == 12 {
        'c'
    } else if d == 13 {
        'd'
    } else if d == 14 {
        'e'
    } else {
        'f'
    }
}

fn append_dec(out: &mut String, x: u64)
    ensures
        final(out)@ == old(out)@ + dec_digits(x as int),
    decreases x,
{
    if x >= 10 {
        append_dec(out, x / 10);
        push_char(out, digit_char_exec(x % 10));
        assert(final(out)@ =~= old(out)@ + dec_digits(x as int));
    } else {
        push_char(out, digit_char_exec(x));
        assert(final(out)@ =~= old(out)@ + dec_digits(x as int));
    }
}

fn append_escaped(out: &mut String, s: &str)
    ensures
        final(out)@ == old(out)@ + esc(s@),
{
    let n = s.unicode_len();
    let mut i: usize = 0;
    while i < n
        invariant
            n == s@.len(),
            i <= n,
            out@ == old(out)@ + esc(s@.take(i as int)),
        decreases n - i,
    {
        let ghost prefix = s@.take(i as int);
        let c = s.get_char(i);
        if c == '"' {
            push_char(out, '\\');
            push_char(out, '"');
        } else if c == '\\' {
            push_char(out, '\\');
            push_char(out, '\\');
        } else if (c as u32) < 32 {
            push_char(out, '\\');
            push_char(out, 'u');
            push_char(out, '0');
            push_char(out, '0');
            push_char(out, hex_digit_exec((c as u32) / 16));
            push_char(out, hex_digit_exec((c as u32) % 16));
        } else {
            push_char(out, c);
        }
        proof {
            lemma_esc_push(prefix, c);
            assert(s@.take(i + 1 as int) =~= prefix.push(c));
            assert(out@ =~= old(out)@ + esc(s@.take(i + 1 as int)));
        }
        i = i + 1;
    }
    proof {
        assert(s@.take(n as int) =~= s@);
    }
}

fn append_entry(out: &mut String, k: &String, v: &String, x: u64)
    ensures
        final(out)@ == old(out)@ + encode_entry(k@, EntryModel { value: v@, expiry: x }),
{
    push_char(out, '"');
    append_escaped(out, k.as_str());
    push_char(out, '"');
    out.append(":{\"value\":\"");
    append_escaped(out, v.as_str());
    push_char(out, '"');
    out.append(",\"expiry\":");
    append_dec(out, x);
    push_char(out, '}');
    proof {
        assert(final(out)@ =~= old(out)@ + encode_entry(k@, EntryModel { value: v@, expiry: x }));
    }
}

/// Whether `c` is a decimal digit.
pub open spec fn is_digit(c: char) -> bool {
    48 <= c as u32 <= 57
}

/// The numeric value of a decimal digit character.
pub open spec fn digit_val(c: char) -> int {
    c as u32 - 48
}

/// Whether `c` is a lower-case hexadecimal digit.
pub open spec fn is_hex(c: char) -> bool {
    is_digit(c) || (97 <= c as u32 <= 102)
}

/// The numeric value of a lower-case hexadecimal digit character.
pub open spec fn hex_val(c: char) -> int {
    if is_digit(c) {
        digit_val(c)
    } else {
        c as u32 - 87
    }
}

/// What a short (single-letter) JSON escape stands for, if `c` names one.
pub open spec fn short_unesc(c: char) -> Option<char> {
    if c == '"' {
        Some('"')
    } else if c == '\\' {
        Some('\\')
    } else if c == '/' {
        Some('/')
    } else if c == 'b' {
        Some('\u{8}')
    } else if c == 'f' {
        Some('\u{c}')
    } else if c == 'n' {
        Some('\n')
    } else if c == 'r' {
        Some('\r')
    } else if c == 't' {
        Some('\t')
    } else {
        None
    }
}

/// The value of the four hexadecimal digits at `p`, or -1 if any of the four
/// characters is not one.
pub open spec fn hex4_val(s: Seq<char>, p: int) -> int {
    if is_hex(s[p]) && is_hex(s[p + 1]) && is_hex(s[p + 2]) && is_hex(s[p + 3]) {
        ((hex_val(s[p]) * 16 + hex_val(s[p + 1])) * 16 + hex_val(s[p + 2])) * 16 + hex_val(
            s[p + 3],
        )
    } else {
        -1
    }
}

/// Reads a JSON string body starting at `p` (just after the opening quote):
/// the decoded characters and the position just after the closing quote, or
/// nothing if the text up to the next quote is not well formed.
pub open spec fn unesc_at(s: Seq<char>, p: int) -> Option<(Seq<char>, int)>
    decreases s.len() - p,
{
    if p < 0 || p >= s.len() {
        None
    } else if s[p] == '"' {
        Some((Seq::empty(), p + 1))
    } else if s[p] == '\\' {
        if p + 2 > s.len() {
            None
        } else if s[p + 1] == 'u' {
            if p + 6 > s.len() {
                None
            } else {
                let h = hex4_val(s, p + 2);
                if 0 <= h < 32 {
                    match unesc_at(s, p + 6) {
                        Some(r) => Some((seq![(h as u8) as char] + r.0, r.1)),
                        None => None,
                    }
                } else {
                    None
                }
            }
        } else {
            match short_unesc(s[p + 1]) {
                Some(c) => match unesc_at(s, p + 2) {
                    Some(r) => Some((seq![c] + r.0, r.1)),
                    None => None,
                },
                None => None,
            }
        }
    } else if (s[p] as u32) < 32 {
        None
    } else {
        match unesc_at(s, p + 1) {
            Some(r) => Some((seq![s[p]] + r.0, r.1)),
            None => None,
        }
    }
}

/// Reads decimal digits from `p` on, folding them into `acc`; yields the
/// accumulated value and the position of the first non-digit.
pub open spec fn scan_digits(s: Seq<char>, p: int, acc: int) -> (int, int)
    decreases s.len() - p,
{
    if 0 <= p < s.len() && is_digit(s[p]) {
        scan_digits(s, p + 1, acc * 10 + digit_val(s[p]))
    } else {
        (acc, p)
    }
}

/// Reads an unsigned decimal number at `p`: its value and the position after
/// its last digit, or nothing if no digit stands at `p` or the value does not
/// fit in 64 bits.
pub open spec fn parse_num_at(s: Seq<char>, p: int) -> Option<(u64, int)> {
    let r = scan_digits(s, p, 0);
    if r.1 == p || r.0 > u64::MAX {
        None
    } else {
        Some((r.0 as u64, r.1))
    }
}

/// Whether the text `lit` stands at position `p` of `s`.
pub open spec fn match_lit(s: Seq<char>, p: int, lit: Seq<char>) -> bool {
    0 <= p && p + lit.len() <= s.len() && s.subrange(p, p + lit.len()) == lit
}

/// Reads one `"key":{"value":"...","expiry":N}` pair at `p`: the decoded
/// pair and the position just after its closing brace.
pub open spec fn parse_entry_at(s: Seq<char>, p: int) -> Option<((Seq<char>, EntryModel), int)> {
    if !(0 <= p < s.len() && s[p] == '"') {
        None
    } else {
        match unesc_at(s, p + 1) {
            None => None,
            Some(kr) => {
                if !match_lit(s, kr.1, lit_val()) {
                    None
                } else {
                    match unesc_at(s, kr.1 + lit_val().len()) {
                        None => None,
                        Some(vr) => {
                            if !match_lit(s, vr.1, lit_exp()) {
                                None
                            } else {
                                match parse_num_at(s, vr.1 + lit_exp().len()) {
                                    None => None,
                                    Some(nr) => {
                                        if nr.1 < s.len() && s[nr.1] == '}' {
                                            Some(
                                                (
                                                    (kr.0, EntryModel {
                                                        value: vr.0,
                                                        expiry: nr.0,
                                                    }),
                                                    nr.1 + 1,
                                                ),
                                            )
                                        } else {
                                            None
                                        }
                                    },
                                }
                            }
                        },
                    }
                }
            },
        }
    }
}

/// Reads a comma-separated run of pairs starting at `p`: the pairs in text
/// order and the position after the last one.
pub open spec fn parse_entries_at(s: Seq<char>, p: int) -> Option<
    (Seq<(Seq<char>, EntryModel)>, int),
>
    decreases s.len() - p,
{
    match parse_entry_at(s, p) {
        None => None,
        Some(er) => {
            if er.1 <= p {
                None
            } else if er.1 < s.len() && s[er.1] == ',' {
                match parse_entries_at(s, er.1 + 1) {
                    None => None,
                    Some(rr) => Some((seq![er.0] + rr.0, rr.1)),
                }
            } else {
                Some((seq![er.0], er.1))
            }
        },
    }
}

/// Reads a whole snapshot text: the stored pairs in text order, or nothing
/// if the text is not exactly a snapshot.
pub open spec fn spec_parse_cache(s: Seq<char>) -> Option<Seq<(Seq<char>, EntryModel)>> {
    if !match_lit(s, 0, lit_hdr()) {
        None
    } else {
        let p = lit_hdr().len() as int;
        if p < s.len() && s[p] == '}' {
            if p + 1 < s.len() && s[p + 1] == '}' && p + 2 == s.len() {
                Some(Seq::empty())
            } else {
                None
            }
        } else {
            match parse_entries_at(s, p) {
                None => None,
                Some(r) => {
                    if r.1 < s.len() && s[r.1] == '}' && r.1 + 1 < s.len() && s[r.1 + 1] == '}'
                        && r.1 + 2 == s.len() {
                        Some(r.0)
                    } else {
                        None
                    }
                },
            }
        }
    }
}

fn match_lit_exec(s: &str, n: usize, p: usize, lit: &str) -> (b: bool)
    requires
        n == s@.len(),
    ensures
        b == match_lit(s@, p as int, lit@),
        b ==> p + lit@.len() <= n,
{
    let m = lit.unicode_len();
    if p > n || n - p < m {
        return false;
    }
    let mut i: usize = 0;
    while i < m
        invariant
            n == s@.len(),
            m == lit@.len(),
            p + m <= n,
            i <= m,
            forall|j: int| 0 <= j < i ==> s@[p + j] == lit@[j],
        decreases m - i,
    {
        if s.get_char(p + i) != lit.get_char(i) {
            proof {
                assert(s@.subrange(p as int, p + m) != lit@) by {
                    assert(s@.subrange(p as int, p + m)[i as int] != lit@[i as int]);
                }
            }
            return false;
        }
        i = i + 1;
    }
    proof {
        assert(s@.subrange(p as int, p + m) =~= lit@);
    }
    true
}

fn short_unesc_exec(c: char) -> (r: Option<char>)
    ensures
        r == short_unesc(c),
{
    if c == '"' {
        Some('"')
    } else if c == '\\' {
        Some('\\')
    } else if c == '/' {
        Some('/')
    } else if c == 'b' {
        Some('\u{8}')
    } else if c == 'f' {
        Some('\u{c}')
    } else if c == 'n' {
        Some('\n')
    } else if c == 'r' {
        Some('\r')
    } else if c == 't' {
        Some('\t')
    } else {
        None
    }
}

fn hex_val_exec(c: char) -> (r: Option<u32>)
    ensures
        match r {
            Some(d) => is_hex(c) && hex_val(c) == d && d < 16,
            None => !is_hex(c),
        },
{
    let u = c as u32;
    if 48 <= u && u <= 57 {
        Some(u - 48)
    } else if 97 <= u && u <= 102 {
        Some(u - 87)
    } else {
        None
    }
}

fn unescape_exec(s: &str, n: usize, p: usize) -> (r: Option<(String, usize)>)
    requires
        n == s@.len(),
        p <= n,
    ensures
        match r {
            Some(t) => unesc_at(s@, p as int) == Some((t.0@, t.1 as int)) && p < t.1 <= n,
            None => unesc_at(s@, p as int) is None,
        },
{
    let mut out = String::new();
    let mut cur: usize = p;
    proof {
        assert(unesc_at(s@, p as int) matches Some(t) ==> Seq::<char>::empty() + t.0 =~= t.0);
    }
    loop
        invariant
            n == s@.len(),
            p <= cur <= n,
            match unesc_at(s@, cur as int) {
                Some(t) => unesc_at(s@, p as int) == Some((out@ + t.0, t.1)),
                None => unesc_at(s@, p as int) is None,
            },
        decreases n - cur,
    {
        if cur >= n {
            return None;
        }
        let c = s.get_char(cur);
        if c == '"' {
            proof {
                assert(out@ + Seq::<char>::empty() =~= out@);
            }
            return Some((out, cur + 1));
        } else if c == '\\' {
            if n - cur < 2 {
                return None;
            }
            let c1 = s.get_char(cur + 1);
            if c1 == 'u' {
                if n - cur < 6 {
                    return None;
                }
                let h0 = hex_val_exec(s.get_char(cur + 2));
                let h1 = hex_val_exec(s.get_char(cur + 3));
                let h2 = hex_val_exec(s.get_char(cur + 4));
                let h3 = hex_val_exec(s.get_char(cur + 5));
                match (h0, h1, h2, h3) {
                    (Some(d0), Some(d1), Some(d2), Some(d3)) => {
                        let v: u32 = ((d0 * 16 + d1) * 16 + d2) * 16 + d3;
                        proof {
                            assert(v == hex4_val(s@, cur + 2));
                        }
                        if v < 32 {
                            let ghost pre = out@;
                            push_char(&mut out, (v as u8) as char);
                            proof {
                                let head = seq![(v as u8) as char];
                                assert(out@ =~= pre + head);
                                assert(unesc_at(s@, cur + 6) matches Some(t) ==> pre + (head
                                    + t.0) =~= (pre + head) + t.0);
                            }
                            cur = cur + 6;
                        } else {
                            return None;
                        }
                    },
                    _ => {
                        proof {
                            assert(hex4_val(s@, cur + 2) == -1);
                        }
                        return None;
                    },
                }
            } else {
                match short_unesc_exec(c1) {
                    Some(d) => {
                        let ghost pre = out@;
                        push_char(&mut out, d);
                        proof {
                            assert(out@ =~= pre + seq![d]);
                            assert(unesc_at(s@, cur + 2) matches Some(t) ==> pre + (seq![d]
                                + t.0) =~= (pre + seq![d]) + t.0);
                        }
                        cur = cur + 2;
                    },
                    None => {
                        return None;
                    },
                }
            }
        } else if (c as u32) < 32 {
            return None;
        } else {
            let ghost pre = out@;
            push_char(&mut out, c);
            proof {
                assert(out@ =~= pre + seq![c]);
                assert(unesc_at(s@, cur + 1) matches Some(t) ==> pre + (seq![c] + t.0) =~= (pre
                    + seq![c]) + t.0);
            }
            cur = cur + 1;
        }
    }
}

proof fn lemma_scan_ge(s: Seq<char>, p: int, acc: int)
    requires
        acc >= 0,
    ensures
        scan_digits(s, p, acc).0 >= acc,
    decreases s.len() - p,
{
    if 0 <= p < s.len() && is_digit(s[p]) {
        lemma_scan_ge(s, p + 1, acc * 10 + digit_val(s[p]));
    }
}

fn parse_number_exec(s: &str, n: usize, p: usize) -> (r: Option<(u64, usize)>)
    requires
        n == s@.len(),
        p <= n,
    ensures
        match r {
            Some(t) => parse_num_at(s@, p as int) == Some((t.0, t.1 as int)) && p < t.1 <= n,
            None => parse_num_at(s@, p as int) is None,
        },
{
    let mut cur: usize = p;
    let mut acc: u64 = 0;
    loop
        invariant
            n == s@.len(),
            p <= cur <= n,
            scan_digits(s@, p as int, 0) == scan_digits(s@, cur as int, acc as int),
        ensures
            p <= cur <= n,
            scan_digits(s@, p as int, 0) == (acc as int, cur as int),
        decreases n - cur,
    {
        if cur >= n {
            break ;
        }
        let c = s.get_char(cur);
        let u = c as u32;
        if u < 48 || u > 57 {
            break ;
        }
        let d: u64 = (u - 48) as u64;
        if acc > u64::MAX / 10 || (acc == u64::MAX / 10 && d > u64::MAX % 10) {
            proof {
                assert((acc as int) * 10 + (d as int) > u64::MAX);
                lemma_scan_ge(s@, cur + 1, (acc as int) * 10 + (d as int));
                assert(scan_digits(s@, p as int, 0).0 > u64::MAX);
            }
            return None;
        }
        acc = acc * 10 + d;
        cur = cur + 1;
    }
    if cur == p {
        return None;
    }
    Some((acc, cur))
}

proof fn lemma_split_subrange(s: Seq<char>, p: int, a: Seq<char>, b: Seq<char>)
    requires
        0 <= p,
        p + a.len() + b.len() <= s.len(),
        s.subrange(p, p + a.len() + b.len()) == a + b,
    ensures
        s.subrange(p, p + a.len()) == a,
        s.subrange(p + a.len(), p + a.len() + b.len()) == b,
{
    assert(s.subrange(p, p + a.len()) =~= a) by {
        assert forall|i: int| 0 <= i < a.len() implies s.subrange(p, p + a.len())[i] == a[i] by {
            assert(s.subrange(p, p + a.len())[i] == s[p + i]);
            assert(s.subrange(p, p + a.len() + b.len())[i] == s[p + i]);
            assert((a + b)[i] == a[i]);
        }
    }
    assert(s.subrange(p + a.len(), p + a.len() + b.len()) =~= b) by {
        assert forall|i: int| 0 <= i < b.len() implies s.subrange(
            p + a.len(),
            p + a.len() + b.len(),
        )[i] == b[i] by {
            assert(s.subrange(p + a.len(), p + a.len() + b.len())[i] == s[p + a.len() + i]);
            assert(s.subrange(p, p + a.len() + b.len())[a.len() + i] == s[p + a.len() + i]);
            assert((a + b)[a.len() + i] == b[i]);
        }
    }
}

proof fn lemma_unesc_esc(s: Seq<char>, p: int, t: Seq<char>)
    requires
        0 <= p,
        p + esc(t).len() + 1 <= s.len(),
        s.subrange(p, p + esc(t).len() + 1) == esc(t) + seq!['"'],
    ensures
        unesc_at(s, p) == Some((t, p + esc(t).len() + 1)),
    decreases t.len(),
{
    if t.len() == 0 {
        assert(esc(t).len() == 0);
        assert(s[p] == '"') by {
            assert(s.subrange(p, p + 1)[0] == s[p]);
            assert((esc(t) + seq!['"'])[0] == '"');
        }
        assert(t =~= Seq::<char>::empty());
    } else {
        let c = t[0];
        let t2 = t.drop_first();
        let ec = esc_char(c);
        let rest = esc(t2) + seq!['"'];
        assert(esc(t) == ec + esc(t2));
        assert(esc(t) + seq!['"'] =~= ec + rest);
        lemma_split_subrange(s, p, ec, rest);
        assert forall|i: int| 0 <= i < ec.len() implies s[p + i] == ec[i] by {
            assert(s.subrange(p, p + ec.len())[i] == s[p + i]);
        }
        lemma_unesc_esc(s, p + ec.len(), t2);
        assert(t =~= seq![c] + t2);
        if c == '"' {
            assert(s[p] == '\\' && s[p + 1] == '"');
            assert(unesc_at(s, p) == Some((seq![c] + t2, p + 2 + esc(t2).len() + 1)));
        } else if c == '\\' {
            assert(s[p] == '\\' && s[p + 1] == '\\');
            assert(unesc_at(s, p) == Some((seq![c] + t2, p + 2 + esc(t2).len() + 1)));
        } else if (c as u32) < 32 {
            let d1 = (c as u32 / 16) as int;
            let d2 = (c as u32 % 16) as int;
            assert(s[p] == '\\' && s[p + 1] == 'u' && s[p + 2] == '0' && s[p + 3] == '0' && s[p
                + 4] == hex_digit(d1) && s[p + 5] == hex_digit(d2));
            assert(0 <= d1 < 2 && 0 <= d2 < 16);
            assert(is_hex(hex_digit(d1)) && hex_val(hex_digit(d1)) == d1);
            assert(is_hex(hex_digit(d2)) && hex_val(hex_digit(d2)) == d2);
            assert(is_hex('0') && hex_val('0') == 0);
            assert(hex4_val(s, p + 2) == d1 * 16 + d2);
            assert(d1 * 16 + d2 == c as u32);
            let u: u32 = c as u32;
            vstd::utf8::char_u32_cast(c, u);
            assert((u as u8) as char == (u as char));
            assert(((c as u32) as u8) as char == c);
            assert(unesc_at(s, p) == Some((seq![c] + t2, p + 6 + esc(t2).len() + 1)));
        } else {
            assert(s[p] == c);
            assert(unesc_at(s, p) == Some((seq![c] + t2, p + 1 + esc(t2).len() + 1)));
        }
    }
}

/// Ten to the power `k`.
spec fn pow10(k: nat) -> int
    decreases k,
{
    if k == 0 {
        1
    } else {
        10 * pow10((k - 1) as nat)
    }
}

proof fn lemma_pow10_pos(k: nat)
    ensures
        pow10(k) >= 1,
    decreases k,
{
    if k > 0 {
        lemma_pow10_pos((k - 1) as nat);
    }
}

proof fn lemma_scan_encode(s: Seq<char>, p: int, n: int, acc: int)
    requires
        0 <= p,
        n >= 0,
        acc >= 0,
        p + dec_digits(n).len() <= s.len(),
        s.subrange(p, p + dec_digits(n).len()) == dec_digits(n),
    ensures
        scan_digits(s, p, acc) == scan_digits(
            s,
            p + dec_digits(n).len(),
            acc * pow10(dec_digits(n).len() as nat) + n,
        ),
    decreases n,
{
    let dd = dec_digits(n);
    lemma_pow10_pos(dd.len() as nat);
    if n < 10 {
        assert(dd == seq![digit_char(n)]);
        assert(s[p] == digit_char(n)) by {
            assert(s.subrange(p, p + 1)[0] == s[p]);
        }
        assert(is_digit(digit_char(n)) && digit_val(digit_char(n)) == n);
        assert(pow10(0) == 1);
        assert(pow10(1) == 10);
        assert(scan_digits(s, p, acc) == scan_digits(s, p + 1, acc * 10 + n));
    } else {
        let d1 = dec_digits(n / 10);
        let dc = digit_char(n % 10);
        assert(dd == d1.push(dc));
        assert(dd =~= d1 + seq![dc]);
        lemma_split_subrange(s, p, d1, seq![dc]);
        lemma_scan_encode(s, p, n / 10, acc);
        assert(s[p + d1.len()] == dc) by {
            assert(s.subrange(p + d1.len(), p + d1.len() + 1)[0] == s[p + d1.len()]);
        }
        assert(is_digit(dc) && digit_val(dc) == n % 10);
        lemma_pow10_pos(d1.len() as nat);
        let q = n / 10;
        let r = n % 10;
        assert(q >= 0 && 0 <= r < 10 && n == 10 * q + r);
        let pw = pow10(d1.len() as nat);
        let a1 = acc * pw + q;
        assert(acc * pw >= 0) by (nonlinear_arith)
            requires
                acc >= 0,
                pw >= 1,
        ;
        assert(scan_digits(s, p + d1.len(), a1) == scan_digits(s, p + d1.len() + 1, a1 * 10 + r));
        assert(pow10(dd.len() as nat) == 10 * pw);
        assert(a1 * 10 + r == acc * (10 * pw) + n) by (nonlinear_arith)
            requires
                a1 == acc * pw + q,
                n == 10 * q + r,
        ;
    }
}

proof fn lemma_parse_num_encode(s: Seq<char>, p: int, x: u64)
    requires
        0 <= p,
        p + dec_digits(x as int).len() < s.len(),
        s.subrange(p, p + dec_digits(x as int).len()) == dec_digits(x as int),
        !is_digit(s[p + dec_digits(x as int).len()]),
    ensures
        parse_num_at(s, p) == Some((x, p + dec_digits(x as int).len())),
{
    let dd = dec_digits(x as int);
    assert(dd.len() >= 1);
    lemma_scan_encode(s, p, x as int, 0);
    assert(0 * pow10(dd.len() as nat) == 0) by (nonlinear_arith);
    assert(scan_digits(s, p + dd.len(), x as int) == (x as int, p + dd.len()));
}

proof fn lemma_parse_entry_encode(s: Seq<char>, p: int, k: Seq<char>, e: EntryModel)
    requires
        0 <= p,
        p + encode_entry(k, e).len() <= s.len(),
        s.subrange(p, p + encode_entry(k, e).len()) == encode_entry(k, e),
    ensures
        parse_entry_at(s, p) == Some(((k, e), p + encode_entry(k, e).len())),
{
    let ee = encode_entry(k, e);
    let p1l = seq!['"'];
    let kq = esc(k) + seq!['"'];
    let lv = lit_val();
    let vq = esc(e.value) + seq!['"'];
    let le = lit_exp();
    let dd = dec_digits(e.expiry as int);
    let cb = seq!['}'];
    let r1 = kq + (lv + (vq + (le + (dd + cb))));
    let r2 = lv + (vq + (le + (dd + cb)));
    let r3 = vq + (le + (dd + cb));
    let r4 = le + (dd + cb);
    let r5 = dd + cb;
    assert(ee =~= p1l + r1);
    lemma_split_subrange(s, p, p1l, r1);
    assert(s[p] == '"') by {
        assert(s.subrange(p, p + 1)[0] == s[p]);
    }
    assert(r1 =~= kq + r2);
    lemma_split_subrange(s, p + 1, kq, r2);
    lemma_unesc_esc(s, p + 1, k);
    let p1 = p + 1 + esc(k).len() + 1;
    assert(unesc_at(s, p + 1) == Some((k, p1)));
    assert(r2 =~= lv + r3);
    lemma_split_subrange(s, p1, lv, r3);
    assert(match_lit(s, p1, lit_val()));
    assert(r3 =~= vq + r4);
    lemma_split_subrange(s, p1 + lv.len(), vq, r4);
    lemma_unesc_esc(s, p1 + lv.len(), e.value);
    let p2 = p1 + lv.len() + esc(e.value).len() + 1;
    assert(unesc_at(s, p1 + lv.len()) == Some((e.value, p2)));
    assert(r4 =~= le + r5);
    lemma_split_subrange(s, p2, le, r5);
    assert(match_lit(s, p2, lit_exp()));
    lemma_split_subrange(s, p2 + le.len(), dd, cb);
    let p3 = p2 + le.len() + dd.len();
    assert(s[p3] == '}') by {
        assert(s.subrange(p3, p3 + 1)[0] == s[p3]);
    }
    assert(!is_digit('}'));
    lemma_parse_num_encode(s, p2 + le.len(), e.expiry);
    assert(parse_num_at(s, p2 + le.len()) == Some((e.expiry, p3)));
    assert(EntryModel { value: e.value, expiry: e.expiry } == e);
    assert(p3 + 1 == p + ee.len());
}

proof fn lemma_parse_entries_encode(s: Seq<char>, p: int, es: Seq<(Seq<char>, EntryModel)>)
    requires
        es.len() >= 1,
        0 <= p,
        p + encode_entries(es).len() < s.len(),
        s.subrange(p, p + encode_entries(es).len()) == encode_entries(es),
        s[p + encode_entries(es).len()] == '}',
    ensures
        parse_entries_at(s, p) == Some((es, p + encode_entries(es).len())),
    decreases es.len(),
{
    let ees = encode_entries(es);
    let ee0 = encode_entry(es[0].0, es[0].1);
    assert(ee0.len() >= 1);
    if es.len() == 1 {
        assert(ees == ee0);
        lemma_parse_entry_encode(s, p, es[0].0, es[0].1);
        let q = p + ee0.len();
        assert(s[q] == '}');
        assert(',' != '}');
        assert(seq![es[0]] =~= es);
    } else {
        let rest = encode_entries(es.drop_first());
        assert(ees == ee0 + seq![','] + rest);
        assert(ees =~= ee0 + (seq![','] + rest));
        lemma_split_subrange(s, p, ee0, seq![','] + rest);
        lemma_parse_entry_encode(s, p, es[0].0, es[0].1);
        let q = p + ee0.len();
        lemma_split_subrange(s, q, seq![','], rest);
        assert(s[q] == ',') by {
            assert(s.subrange(q, q + 1)[0] == s[q]);
        }
        lemma_parse_entries_encode(s, q + 1, es.drop_first());
        assert(parse_entries_at(s, q + 1) == Some(
            (es.drop_first(), q + 1 + rest.len()),
        ));
        assert(seq![es[0]] + es.drop_first() =~= es);
        assert(q + 1 + rest.len() == p + ees.len());
    }
}

/// Reading a snapshot text written for any pair sequence gives back exactly
/// that sequence: the persisted format loses nothing.
pub proof fn lemma_parse_encode_cache(es: Seq<(Seq<char>, EntryModel)>)
    ensures
        spec_parse_cache(encode_cache(es)) == Some(es),
{
    let s = encode_cache(es);
    let ees = encode_entries(es);
    let tail = seq!['}', '}'];
    assert(s == lit_hdr() + ees + tail);
    assert(s =~= lit_hdr() + (ees + tail));
    assert(s.subrange(0, s.len() as int) =~= s);
    lemma_split_subrange(s, 0, lit_hdr(), ees + tail);
    assert(match_lit(s, 0, lit_hdr()));
    let p = lit_hdr().len() as int;
    if es.len() == 0 {
        assert(ees.len() == 0);
        assert(s[p] == '}') by {
            assert(s.subrange(p, p + 2)[0] == s[p]);
            assert((ees + tail)[0] == '}');
        }
        assert(s[p + 1] == '}') by {
            assert(s.subrange(p, p + 2)[1] == s[p + 1]);
            assert((ees + tail)[1] == '}');
        }
        assert(p + 2 == s.len());
        assert(spec_parse_cache(s) == Some(Seq::<(Seq<char>, EntryModel)>::empty()));
        assert(es =~= Seq::<(Seq<char>, EntryModel)>::empty());
    } else {
        lemma_split_subrange(s, p, ees, tail);
        let q = p + ees.len();
        assert(s[q] == '}') by {
            assert(s.subrange(q, q + 2)[0] == s[q]);
        }
        assert(s[q + 1] == '}') by {
            assert(s.subrange(q, q + 2)[1] == s[q + 1]);
        }
        assert(s[p] == '"') by {
            let ee0 = encode_entry(es[0].0, es[0].1);
            assert(ee0[0] == '"');
            assert(ees[0] == ee0[0]);
            assert(s.subrange(p, q)[0] == s[p]);
        }
        assert('"' != '}');
        lemma_parse_entries_encode(s, p, es);
        assert(q + 2 == s.len());
        assert(spec_parse_cache(s) == Some(es));
    }
}

impl Cache {
    /// Saving and loading lose nothing: the snapshot text written for a
    /// cache reads back as exactly the cache's stored pairs, and so as
    /// exactly its abstract contents.
    pub proof fn lemma_snapshot_round_trip(&self)
        requires
            self.wf(),
        ensures
            spec_parse_cache(encode_cache(self.entries_view())) == Some(self.entries_view()),
            spec_parse_cache(encode_cache(self.entries_view())) matches Some(es) ==> map_of(es)
                == self@,
    {
        lemma_parse_encode_cache(self.entries_view());
        crate::cache::lemma_view_is_map_of(self);
    }
}

fn parse_entry_exec(s: &str, n: usize, p: usize) -> (r: Option<(String, String, u64, usize)>)
    requires
        n == s@.len(),
        p <= n,
    ensures
        match r {
            Some(t) => parse_entry_at(s@, p as int) == Some(
                ((t.0@, EntryModel { value: t.1@, expiry: t.2 }), t.3 as int),
            ) && p < t.3 <= n,
            None => parse_entry_at(s@, p as int) is None,
        },
{
    if p >= n || s.get_char(p) != '"' {
        return None;
    }
    match unescape_exec(s, n, p + 1) {
        None => None,
        Some((k, p1)) => {
            let lv = ":{\"value\":\"";
            if !match_lit_exec(s, n, p1, lv) {
                return None;
            }
            let p1b = p1 + lv.unicode_len();
            match unescape_exec(s, n, p1b) {
                None => None,
                Some((v, p2)) => {
                    let le = ",\"expiry\":";
                    if !match_lit_exec(s, n, p2, le) {
                        return None;
                    }
                    let p2b = p2 + le.unicode_len();
                    match parse_number_exec(s, n, p2b) {
                        None => None,
                        Some((x, p3)) => {
                            if p3 < n && s.get_char(p3) == '}' {
                                Some((k, v, x, p3 + 1))
                            } else {
                                None
                            }
                        },
                    }
                },
            }
        },
    }
}

impl Cache {
    /// Reads a snapshot text back into a cache. The result is the error
    /// exactly when the text is not a well-formed snapshot; on success the
    /// cache holds exactly the pairs the text lists, a later pair for the
    /// same key overriding an earlier one.
    pub fn from_json(s: &str) -> (r: Result<Cache, CacheError>)
        ensures
            r is Ok <==> spec_parse_cache(s@) is Some,
            r matches Ok(c) ==> spec_parse_cache(s@) matches Some(es) && c.wf() && c@ == map_of(es)
                && (unique_keys(es) ==> c.entries_view() == es),
            r matches Err(e) ==> e is Deserialization,
    {
        let n = s.unicode_len();
        let hd = "{\"entries\":{";
        if !match_lit_exec(s, n, 0, hd) {
            return Err(CacheError::Deserialization);
        }
        let hl = hd.unicode_len();
        let cache = Cache::new();
        if hl < n && s.get_char(hl) == '}' {
            if n - hl == 2 && s.get_char(hl + 1) == '}' {
                proof {
                    assert(spec_parse_cache(s@) == Some(Seq::<(Seq<char>, EntryModel)>::empty()));
                    assert(map_of(Seq::<(Seq<char>, EntryModel)>::empty()) == Map::<
                        Seq<char>,
                        EntryModel,
                    >::empty());
                }
                return Ok(cache);
            } else {
                proof {
                    assert(spec_parse_cache(s@) is None);
                }
                return Err(CacheError::Deserialization);
            }
        }
        Self::parse_entries_into(s, n, hl, cache)
    }

    fn parse_entries_into(s: &str, n: usize, hl: usize, cache: Cache) -> (r: Result<
        Cache,
        CacheError,
    >)
        requires
            n == s@.len(),
            hl == lit_hdr().len(),
            hl <= n,
            match_lit(s@, 0, lit_hdr()),
            hl < n ==> s@[hl as int] != '}',
            cache.wf(),
            cache@ == Map::<Seq<char>, EntryModel>::empty(),
            cache.entries_view() == Seq::<(Seq<char>, EntryModel)>::empty(),
        ensures
            r is Ok <==> spec_parse_cache(s@) is Some,
            r matches Ok(c) ==> spec_parse_cache(s@) matches Some(es) && c.wf() && c@ == map_of(es)
                && (unique_keys(es) ==> c.entries_view() == es),
            r matches Err(e) ==> e is Deserialization,
    {
        let mut cache = cache;
        let mut p = hl;
        let ghost mut acc: Seq<(Seq<char>, EntryModel)> = Seq::empty();
        proof {
            assert(cache@ == map_of(acc));
            assert(parse_entries_at(s@, hl as int) matches Some(t) ==> Seq::<
                (Seq<char>, EntryModel),
            >::empty() + t.0 =~= t.0);
        }
        loop
            invariant
                n == s@.len(),
                hl == lit_hdr().len(),
                hl <= p <= n,
                match_lit(s@, 0, lit_hdr()),
                hl < n ==> s@[hl as int] != '}',
                cache.wf(),
                cache@ == map_of(acc),
                unique_keys(acc) ==> cache.entries_view() == acc,
                match parse_entries_at(s@, p as int) {
                    Some(t) => parse_entries_at(s@, hl as int) == Some((acc + t.0, t.1)),
                    None => parse_entries_at(s@, hl as int) is None,
                },
            decreases n - p,
        {
            match parse_entry_exec(s, n, p) {
                None => {
                    proof {
                        assert(parse_entries_at(s@, p as int) is None);
                        assert(spec_parse_cache(s@) is None);
                    }
                    return Err(CacheError::Deserialization);
                },
                Some((k, v, x, q)) => {
                    let ghost pr = (k@, EntryModel { value: v@, expiry: x });
                    let ghost acc0 = acc;
                    proof {
                        if unique_keys(acc.push(pr)) {
                            assert(unique_keys(acc)) by {
                                assert(forall|a: int, b: int|
                                    0 <= a < b < acc.len() ==> acc.push(pr)[a].0 == acc[a].0
                                        && acc.push(pr)[b].0 == acc[b].0);
                            }
                            assert(forall|i: int|
                                0 <= i < acc.len() ==> acc.push(pr)[i].0 != acc.push(pr)[
                                acc.len() as int].0 && acc[i] == acc.push(pr)[i]);
                            crate::cache::lemma_map_of_contains(acc, pr.0);
                            assert(!cache@.contains_key(pr.0));
                        }
                    }
                    cache.put(k, v, x);
                    proof {
                        assert(acc.push(pr).drop_last() =~= acc);
                        assert(map_of(acc.push(pr)) == map_of(acc).insert(pr.0, pr.1));
                        acc = acc.push(pr);
                    }
                    if q <= p {
                        proof {
                            assert(parse_entries_at(s@, p as int) is None);
                            assert(spec_parse_cache(s@) is None);
                        }
                        return Err(CacheError::Deserialization);
                    }
                    if q < n && s.get_char(q) == ',' {
                        proof {
                            assert(parse_entries_at(s@, q + 1 as int) matches Some(t) ==> acc0 + (
                            seq![pr] + t.0) =~= (acc0.push(pr)) + t.0);
                        }
                        p = q + 1;
                    } else {
                        proof {
                            assert(parse_entries_at(s@, p as int) == Some((seq![pr], q as int)));
                            assert(acc0 + seq![pr] =~= acc);
                            assert(parse_entries_at(s@, hl as int) == Some((acc, q as int)));
                        }
                        if q < n && s.get_char(q) == '}' && q + 1 < n && s.get_char(q + 1) == '}'
                            && q + 2 == n {
                            proof {
                                assert(spec_parse_cache(s@) == Some(acc));
                            }
                            return Ok(cache);
                        } else {
                            proof {
                                assert(spec_parse_cache(s@) is None);
                            }
                            return Err(CacheError::Deserialization);
                        }
                    }
                },
            }
        }
    }

    /// Writes the cache's full contents as one snapshot text.
    pub fn to_json(&self) -> (r: String)
        ensures
            r@ == encode_cache(self.entries_view()),
    {
        let mut out = String::new();
        out.append("{\"entries\":{");
        let n = self.n_entries();
        let mut i: usize = 0;
        while i < n
            invariant
                n == self.entries_view().len(),
                i <= n,
                out@ == lit_hdr() + encode_entries(self.entries_view().take(i as int)),
            decreases n - i,
        {
            let ghost prefix = self.entries_view().take(i as int);
            if i > 0 {
                push_char(&mut out, ',');
            }
            let x = self.expiry_at_index(i);
            append_entry(&mut out, self.key_at(i), self.value_at(i), x);
            proof {
                let p = self.entries_view()[i as int];
                lemma_encode_entries_push(prefix, p);
                assert(self.entries_view().take(i + 1 as int) =~= prefix.push(p));
                assert(out@ =~= lit_hdr() + encode_entries(
                    self.entries_view().take(i + 1 as int),
                ));
            }
            i = i + 1;
        }
        push_char(&mut out, '}');
        push_char(&mut out, '}');
        proof {
            assert(self.entries_view().take(n as int) =~= self.entries_view());
            assert(out@ =~= encode_cache(self.entries_view()));
        }
        out
    }
}

} // verus!
