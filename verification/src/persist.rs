//! The persistence codec for a [`Tracker`].
//!
//! A store is persisted as a structured text document with two fields: the
//! quoted, comma-separated history list under a `last_quotes` key, and the
//! capacity as a decimal integer under a `capacity` key. [`save_tracker`]
//! renders that document; [`parse_tracker`] reads it back; [`load_tracker`]
//! wraps parsing with the silent fallback to an empty store that the caller's
//! read failure or a corrupted document calls for.

use vstd::prelude::*;
use vstd::seq_lib::*;
use vstd::string::*;
use crate::tracker::{Tracker, StoreModel, wf_model, empty_model};

verus! {

/// Relies on `String::push`: appends the given character to the end of the
/// string.
pub assume_specification[ String::push ](s: &mut String, ch: char)
    ensures
        final(s)@ == old(s)@.push(ch),
;

/// The characters written for one character inside a quoted entry: a quote or
/// a backslash is preceded by a backslash, anything else stands alone.
pub open spec fn esc_char(c: char) -> Seq<char> {
    if c == '"' || c == '\\' {
        seq!['\\', c]
    } else {
        seq![c]
    }
}

/// The escaped form of a whole entry.
pub open spec fn esc_str(s: Seq<char>) -> Seq<char>
    decreases s.len(),
{
    if s.len() == 0 {
        Seq::empty()
    } else {
        esc_char(s[0]) + esc_str(s.skip(1))
    }
}

/// A quoted, escaped entry.
pub open spec fn quoted(s: Seq<char>) -> Seq<char> {
    seq!['"'] + esc_str(s) + seq!['"']
}

/// The document body for the history list: quoted entries separated by
/// commas.
pub open spec fn ser_items(items: Seq<Seq<char>>) -> Seq<char>
    decreases items.len(),
{
    if items.len() == 0 {
        Seq::empty()
    } else if items.len() == 1 {
        quoted(items[0])
    } else {
        quoted(items[0]) + seq![','] + ser_items(items.skip(1))
    }
}

/// The decimal digit character for `d`.
pub open spec fn dig_char(d: int) -> char {
    if d == 0 {
        '0'
    } else if d == 1 {
        '1'
    } else if d == 2 {
        '2'
    } else if d == 3 {
        '3'
    } else if d == 4 {
        '4'
    } else if d == 5 {
        '5'
    } else if d == 6 {
        '6'
    } else if d == 7 {
        '7'
    } else if d == 8 {
        '8'
    } else {
        '9'
    }
}

/// Whether `c` is a decimal digit character.
pub open spec fn is_dig(c: char) -> bool {
    c == '0' || c == '1' || c == '2' || c == '3' || c == '4' || c == '5' || c == '6' || c == '7'
        || c == '8' || c == '9'
}

/// The value of a decimal digit character.
pub open spec fn dig_val(c: char) -> int {
    if c == '0' {
        0
    } else if c == '1' {
        1
    } else if c == '2' {
        2
    } else if c == '3' {
        3
    } else if c == '4' {
        4
    } else if c == '5' {
        5
    } else if c == '6' {
        6
    } else if c == '7' {
        7
    } else if c == '8' {
        8
    } else {
        9
    }
}

/// The decimal digit characters of `n`, most significant first.
pub open spec fn digits_of(n: nat) -> Seq<char>
    decreases n,
{
    if n < 10 {
        seq![dig_char(n as int)]
    } else {
        digits_of(n / 10).push(dig_char((n % 10) as int))
    }
}

/// The text that opens the document, up to the opening bracket of the list.
pub open spec fn lit_header() -> Seq<char> {
    "{\"last_quotes\":["@
}

/// The text between the closing bracket of the list and the capacity digits.
pub open spec fn lit_cap() -> Seq<char> {
    ",\"capacity\":"@
}

/// The persisted document for a store.
pub open spec fn spec_serialize(m: StoreModel) -> Seq<char> {
    lit_header() + ser_items(m.history) + seq![']'] + lit_cap() + digits_of(m.capacity)
        + seq!['}']
}

/// Escaping distributes over concatenation.
proof fn lemma_esc_str_add(a: Seq<char>, b: Seq<char>)
    ensures
        esc_str(a + b) == esc_str(a) + esc_str(b),
    decreases a.len(),
{
    if a.len() == 0 {
        assert(a + b =~= b);
        assert(esc_str(a) + esc_str(b) =~= esc_str(b));
    } else {
        assert((a + b).skip(1) =~= a.skip(1) + b);
        lemma_esc_str_add(a.skip(1), b);
        assert((a + b)[0] == a[0]);
        assert(esc_char(a[0]) + (esc_str(a.skip(1)) + esc_str(b)) =~= (esc_char(a[0]) + esc_str(
            a.skip(1),
        )) + esc_str(b));
    }
}

/// The escaped form of a single character is its escape sequence.
proof fn lemma_esc_str_single(c: char)
    ensures
        esc_str(seq![c]) == esc_char(c),
{
    assert(seq![c].skip(1) =~= Seq::<char>::empty());
    assert(esc_char(c) + esc_str(Seq::empty()) =~= esc_char(c));
}

/// Appending one entry to the list body adds a comma separator when the list
/// was not empty.
proof fn lemma_ser_items_push(items: Seq<Seq<char>>, x: Seq<char>)
    ensures
        ser_items(items.push(x)) == if items.len() == 0 {
            quoted(x)
        } else {
            ser_items(items) + seq![','] + ser_items(seq![x])
        },
    decreases items.len(),
{
    let whole = items.push(x);
    if items.len() == 0 {
        assert(whole.len() == 1);
        assert(whole[0] == x);
        assert(ser_items(seq![x]) == quoted(x));
    } else {
        assert(ser_items(seq![x]) == quoted(x));
        assert(whole.skip(1) =~= items.skip(1).push(x));
        lemma_ser_items_push(items.skip(1), x);
        assert(whole[0] == items[0]);
        if items.len() == 1 {
            assert(items.skip(1).len() == 0);
            assert(ser_items(whole) == quoted(items[0]) + seq![','] + quoted(x));
            assert(quoted(items[0]) + seq![','] + quoted(x) =~= ser_items(items) + seq![',']
                + quoted(x));
        } else {
            assert(ser_items(whole) == quoted(items[0]) + seq![','] + (ser_items(items.skip(1))
                + seq![','] + quoted(x)));
            assert(quoted(items[0]) + seq![','] + (ser_items(items.skip(1)) + seq![','] + quoted(
                x,
            )) =~= (quoted(items[0]) + seq![','] + ser_items(items.skip(1))) + seq![','] + quoted(
                x,
            ));
        }
    }
}

/// The decimal digit character for a digit below ten.
fn dig_exec(d: usize) -> (c: char)
    requires
        d < 10,
    ensures
        c == dig_char(d as int),
{
    match d {
        0 => '0',
        1 => '1',
        2 => '2',
        3 => '3',
        4 => '4',
        5 => '5',
        6 => '6',
        7 => '7',
        8 => '8',
        _ => '9',
    }
}

/// Appends the decimal digits of `n` to `out`.
#[verifier::loop_isolation(false)]
fn append_digits(out: &mut String, n: usize)
    ensures
        final(out)@ == old(out)@ + digits_of(n as nat),
    decreases n,
{
    if n < 10 {
        let c = dig_exec(n);
        out.push(c);
        proof {
            assert(out@ =~= old(out)@ + digits_of(n as nat));
        }
    } else {
        append_digits(out, n / 10);
        let c = dig_exec(n % 10);
        out.push(c);
        proof {
            assert(out@ =~= old(out)@ + digits_of(n as nat));
        }
    }
}

/// Appends the escaped form of `s` to `out`.
#[verifier::loop_isolation(false)]
fn append_escaped(out: &mut String, s: &str)
    ensures
        final(out)@ == old(out)@ + esc_str(s@),
{
    let n = s.unicode_len();
    let mut k: usize = 0;
    while k < n
        invariant
            n == s@.len(),
            k <= n,
            out@ == old(out)@ + esc_str(s@.take(k as int)),
        decreases n - k,
    {
        let c = s.get_char(k);
        let ghost before = out@;
        if c == '"' || c == '\\' {
            out.push('\\');
        }
        out.push(c);
        proof {
            assert(out@ =~= before + esc_char(s@[k as int]));
            assert(s@.take(k + 1) =~= s@.take(k as int) + seq![s@[k as int]]);
            lemma_esc_str_add(s@.take(k as int), seq![s@[k as int]]);
            lemma_esc_str_single(s@[k as int]);
            assert(out@ =~= old(out)@ + esc_str(s@.take(k + 1)));
        }
        k += 1;
    }
    proof {
        assert(s@.take(n as int) =~= s@);
    }
}

/// Renders the persisted document for a tracker.
#[verifier::loop_isolation(false)]
pub fn save_tracker(t: &Tracker) -> (r: String)
    ensures
        r@ == spec_serialize(t@),
{
    let ghost h = t@.history;
    let mut out = String::new();
    out.append("{\"last_quotes\":[");
    let n = t.last_quotes.len();
    let mut k: usize = 0;
    while k < n
        invariant
            n == t.last_quotes@.len(),
            k <= n,
            h == t@.history,
            out@ == lit_header() + ser_items(h.take(k as int)),
        decreases n - k,
    {
        let ghost before = out@;
        if k > 0 {
            out.append(",");
        }
        out.append("\"");
        append_escaped(&mut out, t.last_quotes[k].as_str());
        out.append("\"");
        proof {
            reveal_strlit(",");
            reveal_strlit("\"");
            assert(","@ =~= seq![',']);
            assert("\""@ =~= seq!['"']);
            assert(h.take(k + 1) =~= h.take(k as int).push(h[k as int]));
            lemma_ser_items_push(h.take(k as int), h[k as int]);
            assert(ser_items(seq![h[k as int]]) == quoted(h[k as int]));
            if k == 0 {
                assert(h.take(0int) =~= Seq::<Seq<char>>::empty());
                assert(ser_items(h.take(0int)) =~= Seq::<char>::empty());
                assert(out@ =~= before + quoted(h[k as int]));
                assert(out@ =~= lit_header() + ser_items(h.take(k + 1)));
            } else {
                assert(out@ =~= before + seq![','] + quoted(h[k as int]));
                assert(out@ =~= lit_header() + ser_items(h.take(k + 1)));
            }
        }
        k += 1;
    }
    proof {
        assert(h.take(n as int) =~= h);
    }
    out.append("]");
    out.append(",\"capacity\":");
    append_digits(&mut out, t.capacity);
    out.append("}");
    proof {
        reveal_strlit("]");
        reveal_strlit("}");
        assert("]"@ =~= seq![']']);
        assert("}"@ =~= seq!['}']);
        assert(out@ =~= spec_serialize(t@));
    }
    out
}

/// One scan step inside a quoted entry, from position `i` just after the
/// opening quote: the unescaped content and the position just past the
/// closing quote. A backslash must be followed by a quote or a backslash;
/// text that ends before the closing quote does not scan.
pub open spec fn scan_string(s: Seq<char>, i: int) -> Option<(Seq<char>, int)>
    decreases s.len() - i,
{
    if i < 0 || i >= s.len() {
        None
    } else if s[i] == '"' {
        Some((Seq::empty(), i + 1))
    } else if s[i] == '\\' {
        if i + 1 < s.len() && (s[i + 1] == '"' || s[i + 1] == '\\') {
            match scan_string(s, i + 2) {
                Some(r) => Some((seq![s[i + 1]] + r.0, r.1)),
                None => None,
            }
        } else {
            None
        }
    } else {
        match scan_string(s, i + 1) {
            Some(r) => Some((seq![s[i]] + r.0, r.1)),
            None => None,
        }
    }
}

/// A successful string scan always moves forward and stays in the text.
proof fn lemma_scan_string_bounds(s: Seq<char>, i: int)
    requires
        scan_string(s, i) is Some,
    ensures
        i < scan_string(s, i).unwrap().1 <= s.len(),
    decreases s.len() - i,
{
    if s[i] == '"' {
    } else if s[i] == '\\' {
        lemma_scan_string_bounds(s, i + 2);
    } else {
        lemma_scan_string_bounds(s, i + 1);
    }
}

/// Scans the history list from position `i` just after the opening bracket:
/// the entries and the position just past the closing bracket.
pub open spec fn scan_items(s: Seq<char>, i: int) -> Option<(Seq<Seq<char>>, int)>
    decreases s.len() - i,
{
    if i < 0 || i >= s.len() {
        None
    } else if s[i] == ']' {
        Some((Seq::empty(), i + 1))
    } else if s[i] == '"' {
        match scan_string(s, i + 1) {
            Some(r) => {
                let j = r.1;
                if !(i + 1 < j && j < s.len()) {
                    None
                } else if s[j] == ',' {
                    match scan_items(s, j + 1) {
                        Some(r2) => Some((seq![r.0] + r2.0, r2.1)),
                        None => None,
                    }
                } else if s[j] == ']' {
                    Some((seq![r.0], j + 1))
                } else {
                    None
                }
            },
            None => None,
        }
    } else {
        None
    }
}

/// Scans a decimal number from position `i` with the value read so far in
/// `acc`, stopping before the first non-digit; a value beyond the machine
/// range does not scan.
pub open spec fn scan_nat_loop(s: Seq<char>, i: int, acc: nat) -> Option<(nat, int)>
    decreases s.len() - i,
{
    if !(0 <= i <= s.len()) {
        None
    } else if i == s.len() || !is_dig(s[i]) {
        Some((acc, i))
    } else if acc * 10 + dig_val(s[i]) > usize::MAX as nat {
        None
    } else {
        scan_nat_loop(s, i + 1, (acc * 10 + dig_val(s[i])) as nat)
    }
}

/// Scans a decimal number from position `i`; at least one digit must stand
/// there.
pub open spec fn scan_nat(s: Seq<char>, i: int) -> Option<(nat, int)> {
    if 0 <= i < s.len() && is_dig(s[i]) {
        scan_nat_loop(s, i, 0)
    } else {
        None
    }
}

/// Whether the text `p` stands in `s` at position `i`.
pub open spec fn starts_at(s: Seq<char>, i: int, p: Seq<char>) -> bool {
    0 <= i && i + p.len() <= s.len() && s.subrange(i, i + p.len()) == p
}

/// The store encoded in a persisted document: the header, the history list,
/// the capacity key, the capacity digits, and the closing brace, with
/// nothing after it.
pub open spec fn spec_parse(s: Seq<char>) -> Option<StoreModel> {
    if !starts_at(s, 0, lit_header()) {
        None
    } else {
        match scan_items(s, lit_header().len() as int) {
            Some(ri) => {
                if !starts_at(s, ri.1, lit_cap()) {
                    None
                } else {
                    match scan_nat(s, ri.1 + lit_cap().len()) {
                        Some(rn) => {
                            if rn.1 + 1 == s.len() && rn.1 < s.len() && s[rn.1] == '}' {
                                Some(StoreModel { history: ri.0, capacity: rn.0 })
                            } else {
                                None
                            }
                        },
                        None => None,
                    }
                }
            },
            None => None,
        }
    }
}

/// A scan result with content already read prepended to it.
spec fn with_prefix(pre: Seq<char>, r: Option<(Seq<char>, int)>) -> Option<(Seq<char>, int)> {
    match r {
        Some(p) => Some((pre + p.0, p.1)),
        None => None,
    }
}

/// An item-scan result with entries already read prepended to it.
spec fn with_items_prefix(pre: Seq<Seq<char>>, r: Option<(Seq<Seq<char>>, int)>) -> Option<
    (Seq<Seq<char>>, int),
> {
    match r {
        Some(p) => Some((pre + p.0, p.1)),
        None => None,
    }
}

/// Whether the text `lit` stands in `s` at position `i`.
#[verifier::loop_isolation(false)]
fn match_at(s: &str, n: usize, i: usize, lit: &str) -> (b: bool)
    requires
        n == s@.len(),
    ensures
        b == starts_at(s@, i as int, lit@),
{
    let l = lit.unicode_len();
    if i > n || l > n - i {
        return false;
    }
    let mut k: usize = 0;
    while k < l
        invariant
            n == s@.len(),
            l == lit@.len(),
            i + l <= n,
            k <= l,
            forall|m: int| 0 <= m < k ==> s@[i + m] == lit@[m],
        decreases l - k,
    {
        if s.get_char(i + k) != lit.get_char(k) {
            proof {
                assert(s@.subrange(i as int, i + l)[k as int] == s@[i + k]);
            }
            return false;
        }
        k += 1;
    }
    proof {
        assert(s@.subrange(i as int, i + l) =~= lit@);
    }
    true
}

/// Scans a quoted entry of the document, from the position just after the
/// opening quote.
#[verifier::loop_isolation(false)]
fn scan_string_exec(s: &str, n: usize, i: usize) -> (r: Option<(String, usize)>)
    requires
        n == s@.len(),
    ensures
        match r {
            Some(p) => scan_string(s@, i as int) == Some((p.0@, p.1 as int)),
            None => scan_string(s@, i as int) is None,
        },
{
    let mut acc = String::new();
    let mut k = i;
    proof {
        if scan_string(s@, i as int) is Some {
            let p = scan_string(s@, i as int)->0;
            assert(Seq::<char>::empty() + p.0 =~= p.0);
        }
    }
    loop
        invariant
            n == s@.len(),
            i <= k,
            scan_string(s@, i as int) == with_prefix(acc@, scan_string(s@, k as int)),
        decreases n - k,
    {
        if k >= n {
            return None;
        }
        let c = s.get_char(k);
        if c == '"' {
            proof {
                assert(acc@ + Seq::<char>::empty() =~= acc@);
            }
            return Some((acc, k + 1));
        } else if c == '\\' {
            if k + 1 >= n {
                return None;
            }
            let c2 = s.get_char(k + 1);
            if c2 == '"' || c2 == '\\' {
                let ghost acc0 = acc@;
                acc.push(c2);
                proof {
                    if scan_string(s@, k + 2) is Some {
                        let p = scan_string(s@, k + 2)->0;
                        assert(acc0 + (seq![s@[k + 1]] + p.0) =~= acc@ + p.0);
                    }
                }
                k = k + 2;
            } else {
                return None;
            }
        } else {
            let ghost acc0 = acc@;
            acc.push(c);
            proof {
                if scan_string(s@, k + 1) is Some {
                    let p = scan_string(s@, k + 1)->0;
                    assert(acc0 + (seq![s@[k as int]] + p.0) =~= acc@ + p.0);
                }
            }
            k = k + 1;
        }
    }
}

/// Scans the history list, from the position just after the opening bracket.
#[verifier::loop_isolation(false)]
fn scan_items_exec(s: &str, n: usize, i: usize) -> (r: Option<(Vec<String>, usize)>)
    requires
        n == s@.len(),
    ensures
        match r {
            Some(p) => scan_items(s@, i as int) == Some((p.0.deep_view(), p.1 as int)),
            None => scan_items(s@, i as int) is None,
        },
{
    let mut acc: Vec<String> = Vec::new();
    let mut k = i;
    proof {
        if scan_items(s@, i as int) is Some {
            let p = scan_items(s@, i as int)->0;
            assert(Seq::<Seq<char>>::empty() + p.0 =~= p.0);
        }
        assert(acc.deep_view() =~= Seq::<Seq<char>>::empty());
    }
    loop
        invariant
            n == s@.len(),
            i <= k,
            scan_items(s@, i as int) == with_items_prefix(acc.deep_view(), scan_items(s@, k as int)),
        decreases n - k,
    {
        if k >= n {
            return None;
        }
        let c = s.get_char(k);
        if c == ']' {
            proof {
                assert(acc.deep_view() + Seq::<Seq<char>>::empty() =~= acc.deep_view());
            }
            return Some((acc, k + 1));
        }
        if c != '"' {
            return None;
        }
        match scan_string_exec(s, n, k + 1) {
            None => {
                return None;
            },
            Some(item_j) => {
                let (item, j) = item_j;
                let ghost iv = item@;
                proof {
                    lemma_scan_string_bounds(s@, k + 1);
                }
                if j >= n {
                    return None;
                }
                let cj = s.get_char(j);
                if cj == ',' {
                    let ghost acc0 = acc.deep_view();
                    acc.push(item);
                    proof {
                        assert(acc.deep_view() =~= acc0.push(iv));
                        if scan_items(s@, j + 1) is Some {
                            let p = scan_items(s@, j + 1)->0;
                            assert(acc0 + (seq![iv] + p.0) =~= acc.deep_view() + p.0);
                        }
                    }
                    k = j + 1;
                } else if cj == ']' {
                    let ghost acc0 = acc.deep_view();
                    acc.push(item);
                    proof {
                        assert(acc.deep_view() =~= acc0.push(iv));
                        assert(acc0 + seq![iv] =~= acc.deep_view());
                    }
                    return Some((acc, j + 1));
                } else {
                    return None;
                }
            },
        }
    }
}

/// The value of a decimal digit character, when it is one.
fn dig_value(c: char) -> (r: Option<usize>)
    ensures
        match r {
            Some(d) => is_dig(c) && d == dig_val(c) && d < 10,
            None => !is_dig(c),
        },
{
    match c {
        '0' => Some(0),
        '1' => Some(1),
        '2' => Some(2),
        '3' => Some(3),
        '4' => Some(4),
        '5' => Some(5),
        '6' => Some(6),
        '7' => Some(7),
        '8' => Some(8),
        '9' => Some(9),
        _ => None,
    }
}

/// Scans the capacity digits from position `i`.
#[verifier::loop_isolation(false)]
fn scan_nat_exec(s: &str, n: usize, i: usize) -> (r: Option<(usize, usize)>)
    requires
        n == s@.len(),
    ensures
        match r {
            Some(p) => scan_nat(s@, i as int) == Some((p.0 as nat, p.1 as int)),
            None => scan_nat(s@, i as int) is None,
        },
{
    if i >= n {
        return None;
    }
    let c0 = s.get_char(i);
    if dig_value(c0).is_none() {
        return None;
    }
    let mut acc: usize = 0;
    let mut k = i;
    loop
        invariant
            n == s@.len(),
            i <= k <= n,
            i < n,
            is_dig(s@[i as int]),
            scan_nat_loop(s@, i as int, 0) == scan_nat_loop(s@, k as int, acc as nat),
        decreases n - k,
    {
        if k >= n {
            return Some((acc, k));
        }
        let c = s.get_char(k);
        match dig_value(c) {
            None => {
                return Some((acc, k));
            },
            Some(d) => {
                match acc.checked_mul(10) {
                    None => {
                        return None;
                    },
                    Some(p) => {
                        match p.checked_add(d) {
                            None => {
                                return None;
                            },
                            Some(v) => {
                                acc = v;
                                k = k + 1;
                            },
                        }
                    },
                }
            },
        }
    }
}

/// Reads a persisted document back into a tracker, when the text encodes
/// one.
pub fn parse_tracker(s: &str) -> (r: Option<Tracker>)
    ensures
        match r {
            Some(t) => spec_parse(s@) == Some(t@),
            None => spec_parse(s@) is None,
        },
{
    let n = s.unicode_len();
    let header = "{\"last_quotes\":[";
    let hl = header.unicode_len();
    if !match_at(s, n, 0, header) {
        return None;
    }
    match scan_items_exec(s, n, hl) {
        None => None,
        Some(items_j) => {
            let (items, j) = items_j;
            let cap_lit = ",\"capacity\":";
            let cl = cap_lit.unicode_len();
            if !match_at(s, n, j, cap_lit) {
                return None;
            }
            match scan_nat_exec(s, n, j + cl) {
                None => None,
                Some(ve) => {
                    let (v, e) = ve;
                    if e < n && n - e == 1 {
                        let c = s.get_char(e);
                        if c == '}' {
                            Some(Tracker { last_quotes: items, capacity: v })
                        } else {
                            None
                        }
                    } else {
                        None
                    }
                },
            }
        },
    }
}

/// Checks the store invariant on a tracker.
#[verifier::loop_isolation(false)]
fn check_wf(t: &Tracker) -> (b: bool)
    ensures
        b == wf_model(t@),
{
    if t.capacity < 1 {
        return false;
    }
    let n = t.last_quotes.len();
    if n > t.capacity {
        return false;
    }
    let ghost h = t@.history;
    let mut a: usize = 0;
    while a < n
        invariant
            n == t.last_quotes@.len(),
            a <= n,
            h == t@.history,
            forall|x: int, y: int| 0 <= x < y < n && x < a ==> h[x] != h[y],
        decreases n - a,
    {
        let mut b2 = a + 1;
        while b2 < n
            invariant
                n == t.last_quotes@.len(),
                a < n,
                a < b2 <= n,
                h == t@.history,
                forall|y: int| a < y < b2 ==> h[a as int] != h[y],
            decreases n - b2,
        {
            if t.last_quotes[a] == t.last_quotes[b2] {
                proof {
                    assert(h[a as int] == h[b2 as int]);
                }
                return false;
            }
            b2 += 1;
        }
        a += 1;
    }
    true
}

/// Loads a tracker from the text a caller read from its store location, or
/// falls back to an empty tracker with the given capacity when there is no
/// text or the text does not describe a valid store.
pub fn load_tracker(content: Option<&String>, default_capacity: usize) -> (t: Tracker)
    requires
        default_capacity >= 1,
    ensures
        t.wf(),
        match content {
            None => t@ == empty_model(default_capacity as nat),
            Some(c) => match spec_parse(c@) {
                Some(m) => if wf_model(m) {
                    t@ == m
                } else {
                    t@ == empty_model(default_capacity as nat)
                },
                None => t@ == empty_model(default_capacity as nat),
            },
        },
{
    match content {
        None => Tracker::new(default_capacity),
        Some(c) => match parse_tracker(c.as_str()) {
            Some(t) => {
                if check_wf(&t) {
                    t
                } else {
                    Tracker::new(default_capacity)
                }
            },
            None => Tracker::new(default_capacity),
        },
    }
}

/// One position of a text that stands at `i` in `full`.
proof fn lemma_starts_at_index(full: Seq<char>, i: int, p: Seq<char>, m: int)
    requires
        starts_at(full, i, p),
        0 <= m < p.len(),
    ensures
        full[i + m] == p[m],
{
    assert(full.subrange(i, i + p.len() as int)[m] == full[i + m]);
}

/// A concatenation that stands at `i` splits into its two parts.
proof fn lemma_starts_at_concat(full: Seq<char>, i: int, a: Seq<char>, b: Seq<char>)
    requires
        starts_at(full, i, a + b),
    ensures
        starts_at(full, i, a),
        starts_at(full, i + a.len(), b),
{
    assert forall|m: int| 0 <= m < (a + b).len() implies full[i + m] == (a + b)[m] by {
        lemma_starts_at_index(full, i, a + b, m);
    }
    assert(full.subrange(i, i + a.len() as int) =~= a);
    assert forall|m: int| 0 <= m < b.len() implies full[i + a.len() + m] == b[m] by {
        lemma_starts_at_index(full, i, a + b, a.len() + m);
    }
    assert(full.subrange(i + a.len(), i + a.len() + b.len()) =~= b);
}

/// Scanning a region that holds an escaped entry followed by its closing
/// quote recovers the entry.
proof fn lemma_scan_esc(full: Seq<char>, i: int, s: Seq<char>)
    requires
        starts_at(full, i, esc_str(s) + seq!['"']),
    ensures
        scan_string(full, i) == Some((s, i + esc_str(s).len() + 1)),
    decreases s.len(),
{
    if s.len() == 0 {
        assert(esc_str(s) + seq!['"'] =~= seq!['"']);
        lemma_starts_at_index(full, i, seq!['"'], 0);
    } else {
        let c = s[0];
        let rest = s.skip(1);
        let tail = esc_str(rest) + seq!['"'];
        assert(esc_str(s) == esc_char(c) + esc_str(rest));
        assert(esc_str(s) + seq!['"'] =~= esc_char(c) + tail);
        lemma_starts_at_concat(full, i, esc_char(c), tail);
        if c == '"' || c == '\\' {
            lemma_starts_at_index(full, i, esc_char(c), 0);
            lemma_starts_at_index(full, i, esc_char(c), 1);
            assert(full[i] == '\\' && full[i + 1] == c);
            lemma_scan_esc(full, i + 2, rest);
            assert(seq![full[i + 1]] + rest =~= s);
        } else {
            lemma_starts_at_index(full, i, esc_char(c), 0);
            assert(full[i] == c);
            lemma_scan_esc(full, i + 1, rest);
            assert(seq![full[i]] + rest =~= s);
        }
    }
}

/// Scanning a region that holds the rendered history list followed by its
/// closing bracket recovers the entries.
proof fn lemma_scan_items_ser(full: Seq<char>, i: int, items: Seq<Seq<char>>)
    requires
        starts_at(full, i, ser_items(items) + seq![']']),
    ensures
        scan_items(full, i) == Some((items, i + ser_items(items).len() + 1)),
    decreases items.len(),
{
    if items.len() == 0 {
        assert(ser_items(items) + seq![']'] =~= seq![']']);
        lemma_starts_at_index(full, i, seq![']'], 0);
        assert(scan_items(full, i) == Some((Seq::<Seq<char>>::empty(), i + 1)));
    } else {
        let x = items[0];
        let e = esc_str(x);
        if items.len() == 1 {
            assert(ser_items(items) == quoted(x));
            assert(ser_items(items) + seq![']'] =~= seq!['"'] + ((e + seq!['"']) + seq![']']));
            lemma_starts_at_concat(full, i, seq!['"'], (e + seq!['"']) + seq![']']);
            lemma_starts_at_index(full, i, seq!['"'], 0);
            lemma_starts_at_concat(full, i + 1, e + seq!['"'], seq![']']);
            lemma_scan_esc(full, i + 1, x);
            let j = i + 1 + e.len() + 1;
            lemma_starts_at_index(full, j, seq![']'], 0);
            assert(full[j] == ']');
            assert(full[i] == '"');
            assert(seq![x] =~= items);
        } else {
            let rest = items.skip(1);
            let tail = ser_items(rest) + seq![']'];
            assert(ser_items(items) == quoted(x) + seq![','] + ser_items(rest));
            assert(ser_items(items) + seq![']'] =~= seq!['"'] + ((e + seq!['"']) + (seq![',']
                + tail)));
            lemma_starts_at_concat(full, i, seq!['"'], (e + seq!['"']) + (seq![','] + tail));
            lemma_starts_at_index(full, i, seq!['"'], 0);
            lemma_starts_at_concat(full, i + 1, e + seq!['"'], seq![','] + tail);
            lemma_scan_esc(full, i + 1, x);
            let j = i + 1 + e.len() + 1;
            lemma_starts_at_concat(full, j, seq![','], tail);
            lemma_starts_at_index(full, j, seq![','], 0);
            assert(full[j] == ',');
            assert(full[i] == '"');
            lemma_scan_items_ser(full, j + 1, rest);
            assert(seq![x] + rest =~= items);
        }
    }
}

/// The digit run of a number is never empty and holds only digits.
proof fn lemma_digits_are_digits(n: nat)
    ensures
        digits_of(n).len() >= 1,
        forall|k: int| 0 <= k < digits_of(n).len() ==> is_dig(#[trigger] digits_of(n)[k]),
    decreases n,
{
    if n < 10 {
        assert(is_dig(dig_char(n as int)));
    } else {
        lemma_digits_are_digits(n / 10);
        assert forall|k: int| 0 <= k < digits_of(n).len() implies is_dig(
            #[trigger] digits_of(n)[k],
        ) by {
            if k < digits_of(n).len() - 1 {
                assert(digits_of(n)[k] == digits_of(n / 10)[k]);
            } else {
                assert(digits_of(n)[k] == dig_char((n % 10) as int));
                assert(is_dig(dig_char((n % 10) as int)));
            }
        }
    }
}

/// The value left by reading a run of digits onto `acc`, or nothing when it
/// leaves the machine range.
spec fn val_checked(ds: Seq<char>, acc: nat) -> Option<nat>
    decreases ds.len(),
{
    if ds.len() == 0 {
        Some(acc)
    } else if acc * 10 + dig_val(ds[0]) > usize::MAX as nat {
        None
    } else {
        val_checked(ds.skip(1), (acc * 10 + dig_val(ds[0])) as nat)
    }
}

/// Scanning a digit region bounded by a non-digit reads exactly that region.
proof fn lemma_scan_digits(full: Seq<char>, i: int, ds: Seq<char>, acc: nat)
    requires
        starts_at(full, i, ds),
        forall|k: int| 0 <= k < ds.len() ==> is_dig(#[trigger] ds[k]),
        i + ds.len() == full.len() || !is_dig(full[i + ds.len()]),
    ensures
        scan_nat_loop(full, i, acc) == match val_checked(ds, acc) {
            Some(v) => Some((v, i + ds.len())),
            None => None::<(nat, int)>,
        },
    decreases ds.len(),
{
    if ds.len() == 0 {
    } else {
        lemma_starts_at_index(full, i, ds, 0);
        assert(full[i] == ds[0]);
        if acc * 10 + dig_val(ds[0]) > usize::MAX as nat {
        } else {
            assert(starts_at(full, i + 1, ds.skip(1))) by {
                assert forall|m: int| 0 <= m < ds.len() implies full[i + m] == ds[m] by {
                    lemma_starts_at_index(full, i, ds, m);
                }
                assert(full.subrange(i + 1, i + 1 + ds.skip(1).len()) =~= ds.skip(1));
            }
            lemma_scan_digits(full, i + 1, ds.skip(1), (acc * 10 + dig_val(ds[0])) as nat);
        }
    }
}

/// Reading a digit at the end of a run multiplies the value read so far by
/// ten and adds it.
proof fn lemma_val_checked_push(ds: Seq<char>, d: char, acc: nat)
    ensures
        val_checked(ds.push(d), acc) == match val_checked(ds, acc) {
            Some(v) => if v * 10 + dig_val(d) > usize::MAX as nat {
                None::<nat>
            } else {
                Some((v * 10 + dig_val(d)) as nat)
            },
            None => None::<nat>,
        },
    decreases ds.len(),
{
    reveal_with_fuel(val_checked, 3);
    if ds.len() == 0 {
        assert(ds.push(d)[0] == d);
        assert(ds.push(d).skip(1) =~= Seq::<char>::empty());
    } else {
        assert(ds.push(d)[0] == ds[0]);
        assert(ds.push(d).skip(1) =~= ds.skip(1).push(d));
        if acc * 10 + dig_val(ds[0]) > usize::MAX as nat {
        } else {
            lemma_val_checked_push(ds.skip(1), d, (acc * 10 + dig_val(ds[0])) as nat);
        }
    }
}

/// Reading back the digit run of a number within machine range yields the
/// number.
proof fn lemma_digits_value(n: nat)
    requires
        n <= usize::MAX as nat,
    ensures
        val_checked(digits_of(n), 0) == Some(n),
    decreases n,
{
    reveal_with_fuel(val_checked, 3);
    if n < 10 {
        assert(dig_val(dig_char(n as int)) == n);
        assert(seq![dig_char(n as int)].skip(1) =~= Seq::<char>::empty());
    } else {
        lemma_digits_value(n / 10);
        lemma_val_checked_push(digits_of(n / 10), dig_char((n % 10) as int), 0);
        assert(dig_val(dig_char((n % 10) as int)) == n % 10);
        assert((n / 10) * 10 + n % 10 == n);
    }
}

/// Saving a valid store and parsing the document back yields the same store.
pub proof fn lemma_save_load_round_trip(m: StoreModel)
    requires
        wf_model(m),
    ensures
        spec_parse(spec_serialize(m)) == Some(m),
{
    let full = spec_serialize(m);
    let hd = lit_header();
    let body = ser_items(m.history);
    let cl = lit_cap();
    let dg = digits_of(m.capacity);
    assert(full =~= hd + ((body + seq![']']) + (cl + (dg + seq!['}']))));
    assert(starts_at(full, 0, full)) by {
        assert(full.subrange(0, full.len() as int) =~= full);
    }
    lemma_starts_at_concat(full, 0, hd, (body + seq![']']) + (cl + (dg + seq!['}'])));
    lemma_starts_at_concat(full, hd.len() as int, body + seq![']'], cl + (dg + seq!['}']));
    lemma_scan_items_ser(full, hd.len() as int, m.history);
    let j = hd.len() + body.len() + 1;
    lemma_starts_at_concat(full, j as int, cl, dg + seq!['}']);
    let k = j + cl.len();
    lemma_starts_at_concat(full, k as int, dg, seq!['}']);
    lemma_digits_are_digits(m.capacity);
    lemma_starts_at_index(full, k as int, dg, 0);
    lemma_starts_at_index(full, (k + dg.len()) as int, seq!['}'], 0);
    assert(full[(k + dg.len()) as int] == '}');
    assert(!is_dig('}'));
    lemma_scan_digits(full, k as int, dg, 0);
    lemma_digits_value(m.capacity);
    assert(scan_nat(full, k as int) == Some((m.capacity, (k + dg.len()) as int)));
    assert(spec_parse(full) == Some(m));
}

} // verus!
