//! The byte format of the durable progress record: a JSON array of
//! objects `{"file_name": ..., "downloaded_bytes": ..., "total_bytes":
//! ..., "completed": ...}`, one per entry.
//!
//! `ser_states` pins the record's bytes exactly; the serializer produces
//! them and the parser reads them back, so that a saved mapping loads
//! again field for field.

use vstd::prelude::*;
use vstd::string::StrSliceExecFns;
use crate::models::DownloadState;
use crate::models::states_view;

verus! {

broadcast use {
    vstd::seq::group_seq_axioms,
    vstd::seq_lib::group_seq_lib_default,
    vstd::string::group_string_axioms,
};

/// A name the record stores verbatim: printable ASCII without the two
/// JSON string delimiters. File names are path components, which fit.
pub open spec fn wf_name(name: Seq<char>) -> bool {
    forall|i: int|
        0 <= i < name.len() ==> {
            &&& 0x20 <= (#[trigger] name[i]) as int
            &&& (name[i] as int) < 0x7f
            &&& (name[i] as int) != 34
            &&& (name[i] as int) != 92
        }
}

/// Every name of the mapping is storable verbatim.
pub open spec fn wf_states(s: Seq<DownloadState>) -> bool {
    forall|i: int| 0 <= i < s.len() ==> wf_name((#[trigger] s[i]).file_name@)
}

/// One byte per character; exact for the ASCII text this format holds.
pub open spec fn ascii_b(s: Seq<char>) -> Seq<u8> {
    s.map_values(|c: char| c as u8)
}

pub open spec fn is_digit(b: u8) -> bool {
    48 <= b <= 57
}

/// Decimal digits of `n`, most significant first.
pub open spec fn dec_digits(n: nat) -> Seq<u8>
    decreases n,
{
    if n < 10 {
        seq![(48 + n) as u8]
    } else {
        dec_digits(n / 10).push((48 + n % 10) as u8)
    }
}

/// The number a digit string denotes.
pub open spec fn digits_val(s: Seq<u8>) -> int
    decreases s.len(),
{
    if s.len() == 0 {
        0
    } else {
        digits_val(s.drop_last()) * 10 + (s.last() - 48)
    }
}

pub open spec fn ser_total(total: Option<u64>) -> Seq<u8> {
    match total {
        Some(t) => dec_digits(t as nat),
        None => ascii_b("null"@),
    }
}

pub open spec fn ser_bool(b: bool) -> Seq<u8> {
    if b {
        ascii_b("true"@)
    } else {
        ascii_b("false"@)
    }
}

pub open spec fn l_open() -> Seq<u8> {
    ascii_b("{\"file_name\":\""@)
}

pub open spec fn l_dl() -> Seq<u8> {
    ascii_b(",\"downloaded_bytes\":"@)
}

pub open spec fn l_tot() -> Seq<u8> {
    ascii_b(",\"total_bytes\":"@)
}

pub open spec fn l_comp() -> Seq<u8> {
    ascii_b(",\"completed\":"@)
}

/// One record of the persisted document.
pub open spec fn ser_entry(st: DownloadState) -> Seq<u8> {
    l_open() + ascii_b(st.file_name@) + seq![34u8] + l_dl() + dec_digits(
        st.downloaded_bytes as nat,
    ) + l_tot() + ser_total(st.total_bytes) + l_comp() + ser_bool(st.completed) + seq![125u8]
}

/// The records, separated by commas.
pub open spec fn ser_inner(s: Seq<DownloadState>) -> Seq<u8>
    decreases s.len(),
{
    if s.len() == 0 {
        Seq::<u8>::empty()
    } else if s.len() == 1 {
        ser_entry(s[0])
    } else {
        ser_entry(s[0]) + seq![44u8] + ser_inner(s.drop_first())
    }
}

/// The whole record: a JSON array of the mapping.
pub open spec fn ser_states(s: Seq<DownloadState>) -> Seq<u8> {
    seq![91u8] + ser_inner(s) + seq![93u8]
}

// ---------------------------------------------------------------------------
// Serializing
// ---------------------------------------------------------------------------

fn push_byte(out: &mut Vec<u8>, b: u8)
    ensures
        final(out)@ == old(out)@ + seq![b],
{
    out.push(b);
    proof {
        assert(out@ =~= old(out)@ + seq![b]);
    }
}

/// Append the bytes of a piece of text, one per character.
fn push_lit(out: &mut Vec<u8>, lit: &str)
    ensures
        final(out)@ == old(out)@ + ascii_b(lit@),
{
    let n = lit.unicode_len();
    let mut k: usize = 0;
    while k < n
        invariant
            k <= n,
            n == lit@.len(),
            out@ == old(out)@ + ascii_b(lit@).take(k as int),
        decreases n - k,
    {
        let c = lit.get_char(k);
        out.push(c as u8);
        proof {
            assert(ascii_b(lit@).take(k + 1) =~= ascii_b(lit@).take(k as int).push(
                lit@[k as int] as u8,
            ));
            assert(out@ =~= old(out)@ + ascii_b(lit@).take(k + 1));
        }
        k = k + 1;
    }
    proof {
        assert(ascii_b(lit@).take(n as int) =~= ascii_b(lit@));
    }
}

/// Append the decimal digits of `n`.
fn push_u64(out: &mut Vec<u8>, n: u64)
    ensures
        final(out)@ == old(out)@ + dec_digits(n as nat),
    decreases n,
{
    if n < 10 {
        out.push(48 + n as u8);
        proof {
            assert(out@ =~= old(out)@ + dec_digits(n as nat));
        }
    } else {
        push_u64(out, n / 10);
        out.push(48 + (n % 10) as u8);
        proof {
            assert(out@ =~= old(out)@ + dec_digits(n as nat));
        }
    }
}

/// Append one record.
fn push_entry(out: &mut Vec<u8>, st: &DownloadState)
    ensures
        final(out)@ == old(out)@ + ser_entry(*st),
{
    push_lit(out, "{\"file_name\":\"");
    push_lit(out, st.file_name.as_str());
    push_byte(out, 34);
    push_lit(out, ",\"downloaded_bytes\":");
    push_u64(out, st.downloaded_bytes);
    push_lit(out, ",\"total_bytes\":");
    match st.total_bytes {
        Some(t) => push_u64(out, t),
        None => push_lit(out, "null"),
    }
    push_lit(out, ",\"completed\":");
    if st.completed {
        push_lit(out, "true");
    } else {
        push_lit(out, "false");
    }
    push_byte(out, 125);
    proof {
        assert(out@ =~= old(out)@ + ser_entry(*st));
    }
}

/// Append the records from index `k` on, separated by commas.
fn push_inner(out: &mut Vec<u8>, states: &Vec<DownloadState>, k: usize)
    requires
        k <= states@.len(),
    ensures
        final(out)@ == old(out)@ + ser_inner(states@.skip(k as int)),
    decreases states@.len() - k,
{
    if k < states.len() {
        push_entry(out, &states[k]);
        if k + 1 < states.len() {
            push_byte(out, 44);
            push_inner(out, states, k + 1);
            proof {
                assert(states@.skip(k as int)[0] == states@[k as int]);
                assert(states@.skip(k as int).drop_first() =~= states@.skip(k + 1));
                assert(out@ =~= old(out)@ + ser_inner(states@.skip(k as int)));
            }
        } else {
            proof {
                assert(states@.skip(k as int).len() == 1);
                assert(states@.skip(k as int)[0] == states@[k as int]);
                assert(out@ =~= old(out)@ + ser_inner(states@.skip(k as int)));
            }
        }
    }
}

/// The record bytes of a whole mapping.
pub fn serialize_states(states: &Vec<DownloadState>) -> (out: Vec<u8>)
    ensures
        out@ == ser_states(states@),
{
    let mut out: Vec<u8> = Vec::new();
    push_byte(&mut out, 91);
    push_inner(&mut out, states, 0);
    push_byte(&mut out, 93);
    proof {
        assert(states@.skip(0) =~= states@);
        assert(out@ =~= ser_states(states@));
    }
    out
}

// ---------------------------------------------------------------------------
// Parsing
// ---------------------------------------------------------------------------

/// Relies on String::from_utf8: bytes below 128 are valid UTF-8 and
/// decode to one character per byte.
#[verifier::external_body]
fn ascii_bytes_to_string(bytes: &Vec<u8>) -> (r: String)
    requires
        forall|i: int| 0 <= i < bytes@.len() ==> bytes@[i] < 128,
    ensures
        r@ == bytes@.map_values(|b: u8| b as char),
{
    String::from_utf8(bytes.clone()).unwrap_or_default()
}

proof fn lemma_concat_assoc(x: Seq<u8>, y: Seq<u8>, z: Seq<u8>)
    ensures
        (x + y) + z == x + (y + z),
{
    assert((x + y) + z =~= x + (y + z));
}

/// Consuming a leading chunk of a suffix moves the suffix forward by the
/// chunk's length.
proof fn lemma_skip_chunk(bytes: Seq<u8>, i: int, chunk: Seq<u8>, tail: Seq<u8>)
    requires
        0 <= i <= bytes.len(),
        bytes.skip(i) == chunk + tail,
    ensures
        i + chunk.len() <= bytes.len(),
        bytes.skip(i + chunk.len()) == tail,
{
    assert(bytes.skip(i).len() == bytes.len() - i);
    assert(bytes.skip(i + chunk.len()) =~= tail) by {
        assert forall|k: int| 0 <= k < tail.len() implies bytes.skip(i + chunk.len())[k]
            == tail[k] by {
            assert(bytes.skip(i + chunk.len())[k] == bytes[i + chunk.len() + k]);
            assert(bytes.skip(i)[chunk.len() + k] == bytes[i + chunk.len() + k]);
            assert((chunk + tail)[chunk.len() + k] == tail[k]);
        }
    }
}

proof fn lemma_lit_facts()
    ensures
        l_open().len() == 14,
        l_open()[0] == 123,
        l_dl().len() == 20,
        l_dl()[0] == 44,
        l_tot().len() == 15,
        l_tot()[0] == 44,
        l_comp().len() == 13,
        l_comp()[0] == 44,
        ascii_b("null"@).len() == 4,
        ascii_b("null"@)[0] == 110,
        ascii_b("true"@).len() == 4,
        ascii_b("true"@)[0] == 116,
        ascii_b("false"@).len() == 5,
        ascii_b("false"@)[0] == 102,
{
    reveal_strlit("{\"file_name\":\"");
    reveal_strlit(",\"downloaded_bytes\":");
    reveal_strlit(",\"total_bytes\":");
    reveal_strlit(",\"completed\":");
    reveal_strlit("null");
    reveal_strlit("true");
    reveal_strlit("false");
}

proof fn lemma_dec_digits_props(n: nat)
    ensures
        dec_digits(n).len() >= 1,
        forall|k: int| 0 <= k < dec_digits(n).len() ==> is_digit(#[trigger] dec_digits(n)[k]),
        digits_val(dec_digits(n)) == n,
    decreases n,
{
    if n < 10 {
        let s = dec_digits(n);
        assert(s == seq![(48 + n) as u8]);
        assert(s.len() == 1);
        assert(s.drop_last() =~= Seq::<u8>::empty());
        assert(s.last() == (48 + n) as u8);
        assert((48 + n) as u8 == 48 + n);
        assert(digits_val(s) == digits_val(s.drop_last()) * 10 + (s.last() - 48));
        assert(digits_val(Seq::<u8>::empty()) == 0);
    } else {
        lemma_dec_digits_props(n / 10);
        let s = dec_digits(n);
        assert(s.drop_last() =~= dec_digits(n / 10));
        assert(s.last() == (48 + n % 10) as u8);
        assert((48 + n % 10) as u8 == 48 + n % 10);
        assert(digits_val(s) == digits_val(s.drop_last()) * 10 + (s.last() - 48));
        assert(n / 10 * 10 + n % 10 == n) by {
            vstd::arithmetic::div_mod::lemma_fundamental_div_mod(n as int, 10);
        }
    }
}

proof fn lemma_digits_val_nonneg(s: Seq<u8>)
    requires
        forall|k: int| 0 <= k < s.len() ==> is_digit(#[trigger] s[k]),
    ensures
        digits_val(s) >= 0,
    decreases s.len(),
{
    if s.len() > 0 {
        lemma_digits_val_nonneg(s.drop_last());
    }
}

/// A digit-string prefix never denotes more than the whole string.
proof fn lemma_digits_val_prefix_le(s: Seq<u8>, k: int)
    requires
        forall|m: int| 0 <= m < s.len() ==> is_digit(#[trigger] s[m]),
        0 <= k <= s.len(),
    ensures
        digits_val(s.take(k)) <= digits_val(s),
    decreases s.len() - k,
{
    if k < s.len() {
        assert(s.take(k + 1).drop_last() =~= s.take(k));
        assert(s.take(k + 1).last() == s[k]);
        lemma_digits_val_nonneg(s.take(k));
        assert(digits_val(s.take(k + 1)) == digits_val(s.take(k)) * 10 + (s[k] - 48));
        lemma_digits_val_prefix_le(s, k + 1);
    } else {
        assert(s.take(k) =~= s);
    }
}

fn expect_byte(bytes: &Vec<u8>, i: usize, b: u8) -> (r: Option<usize>)
    requires
        i <= bytes@.len(),
    ensures
        r is Some ==> r->0 == i + 1 && r->0 <= bytes@.len(),
        forall|rest: Seq<u8>| bytes@.skip(i as int) == seq![b] + rest ==> r is Some,
{
    if i < bytes.len() && bytes[i] == b {
        Some(i + 1)
    } else {
        proof {
            assert forall|rest: Seq<u8>| bytes@.skip(i as int) == seq![b] + rest implies false by {
                assert(bytes@.skip(i as int).len() == bytes@.len() - i);
                assert(bytes@.skip(i as int)[0] == bytes@[i as int]);
            }
        }
        None
    }
}

fn expect_lit(bytes: &Vec<u8>, i: usize, lit: &str) -> (r: Option<usize>)
    requires
        i <= bytes@.len(),
    ensures
        r is Some ==> r->0 == i + lit@.len() && r->0 <= bytes@.len(),
        forall|rest: Seq<u8>| bytes@.skip(i as int) == ascii_b(lit@) + rest ==> r is Some,
{
    let n = lit.unicode_len();
    if n > bytes.len() - i {
        proof {
            assert forall|rest: Seq<u8>| bytes@.skip(i as int) == ascii_b(lit@)
                + rest implies false by {
                assert(bytes@.skip(i as int).len() == bytes@.len() - i);
            }
        }
        return None;
    }
    let mut k: usize = 0;
    while k < n
        invariant
            k <= n,
            n == lit@.len(),
            i + n <= bytes@.len(),
            i + n <= usize::MAX,
        decreases n - k,
    {
        if bytes[i + k] != lit.get_char(k) as u8 {
            proof {
                assert forall|rest: Seq<u8>| bytes@.skip(i as int) == ascii_b(lit@)
                    + rest implies false by {
                    assert(bytes@.skip(i as int)[k as int] == bytes@[i + k]);
                    assert((ascii_b(lit@) + rest)[k as int] == ascii_b(lit@)[k as int]);
                }
            }
            return None;
        }
        k = k + 1;
    }
    Some(i + n)
}

fn parse_u64(bytes: &Vec<u8>, i: usize) -> (r: Option<(u64, usize)>)
    requires
        i <= bytes@.len(),
    ensures
        r is Some ==> i < (r->0).1 <= bytes@.len(),
        forall|n: u64, rest: Seq<u8>|
            (bytes@.skip(i as int) == dec_digits(n as nat) + rest && (rest.len() == 0
                || !is_digit(rest[0]))) ==> (r is Some && (r->0).0 == n && (r->0).1 == i
                + dec_digits(n as nat).len()),
{
    let len = bytes.len();
    let mut j: usize = i;
    let mut acc: u64 = 0;
    while j < len && 48 <= bytes[j] && bytes[j] <= 57
        invariant
            i <= j <= len,
            len == bytes@.len(),
            forall|m: int| i <= m < j ==> is_digit(#[trigger] bytes@[m]),
            acc as int == digits_val(bytes@.subrange(i as int, j as int)),
        decreases len - j,
    {
        let d: u64 = (bytes[j] - 48) as u64;
        if acc > (u64::MAX - d) / 10 {
            proof {
                assert forall|n: u64, rest: Seq<u8>|
                    (bytes@.skip(i as int) == dec_digits(n as nat) + rest && (rest.len() == 0
                        || !is_digit(rest[0]))) implies false by {
                    let l = dec_digits(n as nat);
                    lemma_dec_digits_props(n as nat);
                    assert(bytes@.skip(i as int).len() == len - i);
                    if j - i > l.len() {
                        if rest.len() == 0 {
                            assert(false);
                        } else {
                            assert(bytes@.skip(i as int)[l.len() as int] == rest[0]);
                            assert(bytes@[i + l.len()] == rest[0]);
                            assert(is_digit(bytes@[i + l.len()]));
                            assert(false);
                        }
                    }
                    if j - i == l.len() {
                        if rest.len() == 0 {
                            assert(j == len);
                            assert(false);
                        } else {
                            assert(bytes@.skip(i as int)[l.len() as int] == rest[0]);
                            assert(bytes@[j as int] == rest[0]);
                            assert(false);
                        }
                    }
                    let k = j - i;
                    assert(bytes@.subrange(i as int, j as int) =~= l.take(k as int)) by {
                        assert forall|m: int| 0 <= m < k implies bytes@.subrange(
                            i as int,
                            j as int,
                        )[m] == l.take(k as int)[m] by {
                            assert(bytes@.skip(i as int)[m] == (l + rest)[m]);
                            assert(bytes@.subrange(i as int, j as int)[m] == bytes@[i + m]);
                        }
                    }
                    assert(bytes@.skip(i as int)[k as int] == (l + rest)[k as int]);
                    assert(bytes@[j as int] == l[k as int]);
                    assert(l.take(k as int + 1).drop_last() =~= l.take(k as int));
                    assert(l.take(k as int + 1).last() == l[k as int]);
                    assert(digits_val(l.take(k as int + 1)) == acc * 10 + (d as int));
                    lemma_digits_val_prefix_le(l, k as int + 1);
                    vstd::arithmetic::div_mod::lemma_fundamental_div_mod(
                        (u64::MAX - d) as int,
                        10,
                    );
                    assert(acc * 10 + d > u64::MAX);
                    assert(false);
                }
            }
            return None;
        }
        proof {
            vstd::arithmetic::div_mod::lemma_fundamental_div_mod((u64::MAX - d) as int, 10);
            assert(acc * 10 + d <= u64::MAX);
            assert(bytes@.subrange(i as int, j as int + 1).drop_last() =~= bytes@.subrange(
                i as int,
                j as int,
            ));
            assert(bytes@.subrange(i as int, j as int + 1).last() == bytes@[j as int]);
        }
        acc = acc * 10 + d;
        j = j + 1;
    }
    if j == i {
        proof {
            assert forall|n: u64, rest: Seq<u8>|
                (bytes@.skip(i as int) == dec_digits(n as nat) + rest && (rest.len() == 0
                    || !is_digit(rest[0]))) implies false by {
                let l = dec_digits(n as nat);
                lemma_dec_digits_props(n as nat);
                assert(bytes@.skip(i as int).len() == len - i);
                assert(i < len);
                assert(bytes@.skip(i as int)[0] == (l + rest)[0]);
                assert(bytes@[i as int] == l[0]);
                assert(is_digit(bytes@[i as int]));
                assert(false);
            }
        }
        return None;
    }
    proof {
        assert forall|n: u64, rest: Seq<u8>|
            (bytes@.skip(i as int) == dec_digits(n as nat) + rest && (rest.len() == 0
                || !is_digit(rest[0]))) implies (acc == n && j == i + dec_digits(
            n as nat,
        ).len()) by {
            let l = dec_digits(n as nat);
            lemma_dec_digits_props(n as nat);
            assert(bytes@.skip(i as int).len() == len - i);
            if j - i > l.len() {
                if rest.len() == 0 {
                    assert(false);
                } else {
                    assert(bytes@.skip(i as int)[l.len() as int] == rest[0]);
                    assert(bytes@[i + l.len()] == rest[0]);
                    assert(is_digit(bytes@[i + l.len()]));
                    assert(false);
                }
            }
            if j - i < l.len() {
                assert(bytes@.skip(i as int)[j - i] == (l + rest)[j - i]);
                assert(bytes@[j as int] == l[j - i]);
                assert(is_digit(bytes@[j as int]));
                assert(j < len);
                assert(false);
            }
            assert(bytes@.subrange(i as int, j as int) =~= l) by {
                assert forall|m: int| 0 <= m < l.len() implies bytes@.subrange(i as int, j as int)[m]
                    == l[m] by {
                    assert(bytes@.skip(i as int)[m] == (l + rest)[m]);
                    assert(bytes@.subrange(i as int, j as int)[m] == bytes@[i + m]);
                }
            }
        }
    }
    Some((acc, j))
}

fn parse_name(bytes: &Vec<u8>, i: usize) -> (r: Option<(String, usize)>)
    requires
        i <= bytes@.len(),
    ensures
        r is Some ==> i < (r->0).1 <= bytes@.len(),
        forall|name: Seq<char>, rest: Seq<u8>|
            (wf_name(name) && bytes@.skip(i as int) == ascii_b(name) + seq![34u8] + rest) ==> (r
                is Some && (r->0).0@ == name && (r->0).1 == i + name.len() + 1),
{
    let len = bytes.len();
    let mut j: usize = i;
    let mut buf: Vec<u8> = Vec::new();
    while j < len && bytes[j] != 34
        invariant
            i <= j <= len,
            len == bytes@.len(),
            buf@ == bytes@.subrange(i as int, j as int),
            forall|m: int| i <= m < j ==> bytes@[m] != 34,
            forall|m: int| 0 <= m < buf@.len() ==> 32 <= #[trigger] buf@[m] < 127,
        decreases len - j,
    {
        let b = bytes[j];
        if b < 32 || b >= 127 || b == 92 {
            proof {
                assert forall|name: Seq<char>, rest: Seq<u8>|
                    (wf_name(name) && bytes@.skip(i as int) == ascii_b(name) + seq![34u8]
                        + rest) implies false by {
                    let full = ascii_b(name) + seq![34u8] + rest;
                    assert(bytes@.skip(i as int).len() == len - i);
                    if j - i > name.len() {
                        assert(bytes@.skip(i as int)[name.len() as int] == full[name.len() as int]);
                        assert(bytes@[i + name.len()] == 34u8);
                        assert(false);
                    }
                    if j - i == name.len() {
                        assert(bytes@.skip(i as int)[name.len() as int] == full[name.len() as int]);
                        assert(bytes@[j as int] == 34u8);
                        assert(false);
                    }
                    let m = j - i;
                    assert(bytes@.skip(i as int)[m as int] == full[m as int]);
                    assert(bytes@[j as int] == name[m as int] as u8);
                    assert(32 <= name[m as int] as int && (name[m as int] as int) < 127);
                    assert((name[m as int] as u8) as int == name[m as int] as int);
                    assert(false);
                }
            }
            return None;
        }
        buf.push(b);
        proof {
            assert(buf@ =~= bytes@.subrange(i as int, j as int + 1));
        }
        j = j + 1;
    }
    if j == len {
        proof {
            assert forall|name: Seq<char>, rest: Seq<u8>|
                (wf_name(name) && bytes@.skip(i as int) == ascii_b(name) + seq![34u8]
                    + rest) implies false by {
                let full = ascii_b(name) + seq![34u8] + rest;
                assert(bytes@.skip(i as int).len() == len - i);
                assert(i + name.len() < len);
                if j - i > name.len() {
                    assert(bytes@.skip(i as int)[name.len() as int] == full[name.len() as int]);
                    assert(bytes@[i + name.len()] == 34u8);
                    assert(false);
                }
                assert(j <= i + name.len());
                assert(false);
            }
        }
        return None;
    }
    // bytes[j] is the closing quote
    let s = ascii_bytes_to_string(&buf);
    proof {
        assert forall|name: Seq<char>, rest: Seq<u8>|
            (wf_name(name) && bytes@.skip(i as int) == ascii_b(name) + seq![34u8]
                + rest) implies (s@ == name && j + 1 == i + name.len() + 1) by {
            let full = ascii_b(name) + seq![34u8] + rest;
            assert(bytes@.skip(i as int).len() == len - i);
            if j - i > name.len() {
                assert(bytes@.skip(i as int)[name.len() as int] == full[name.len() as int]);
                assert(bytes@[i + name.len()] == 34u8);
                assert(false);
            }
            if j - i < name.len() {
                assert(bytes@.skip(i as int)[j - i] == full[j - i]);
                assert(bytes@[j as int] == name[j - i] as u8);
                assert(32 <= name[j - i] as int && (name[j - i] as int) < 127);
                assert(name[j - i] as int != 34);
                assert((name[j - i] as u8) as int == name[j - i] as int);
                assert(false);
            }
            assert(j == i + name.len());
            assert(s@ =~= name) by {
                assert forall|m: int| 0 <= m < name.len() implies s@[m] == name[m] by {
                    assert(bytes@.skip(i as int)[m] == full[m]);
                    assert(bytes@[i + m] == name[m] as u8);
                    assert(buf@[m] == bytes@[i + m]);
                    assert(s@[m] == buf@[m] as char);
                    assert(32 <= name[m] as int && (name[m] as int) < 127);
                    assert((name[m] as u8) as int == name[m] as int);
                    assert(((name[m] as u8) as char) == name[m]);
                }
            }
        }
    }
    Some((s, j + 1))
}

fn parse_total(bytes: &Vec<u8>, i: usize) -> (r: Option<(Option<u64>, usize)>)
    requires
        i <= bytes@.len(),
    ensures
        r is Some ==> i <= (r->0).1 <= bytes@.len(),
        forall|tb: Option<u64>, rest: Seq<u8>|
            (bytes@.skip(i as int) == ser_total(tb) + rest && rest.len() > 0 && !is_digit(
                rest[0],
            )) ==> (r is Some && (r->0).0 == tb && (r->0).1 == i + ser_total(tb).len()),
{
    proof {
        lemma_lit_facts();
    }
    let len = bytes.len();
    if i >= len {
        proof {
            assert forall|tb: Option<u64>, rest: Seq<u8>|
                (bytes@.skip(i as int) == ser_total(tb) + rest && rest.len() > 0 && !is_digit(
                    rest[0],
                )) implies false by {
                assert(bytes@.skip(i as int).len() == len - i);
                if tb is Some {
                    lemma_dec_digits_props(tb->0 as nat);
                }
            }
        }
        return None;
    }
    if bytes[i] == 110 {
        match expect_lit(bytes, i, "null") {
            Some(p) => {
                proof {
                    assert forall|tb: Option<u64>, rest: Seq<u8>|
                        (bytes@.skip(i as int) == ser_total(tb) + rest && rest.len() > 0
                            && !is_digit(rest[0])) implies (tb is None && p == i + ser_total(
                        tb,
                    ).len()) by {
                        if tb is Some {
                            lemma_dec_digits_props(tb->0 as nat);
                            assert(bytes@.skip(i as int)[0] == (ser_total(tb) + rest)[0]);
                            assert(is_digit(bytes@[i as int]));
                            assert(false);
                        }
                    }
                }
                Some((None, p))
            },
            None => {
                proof {
                    assert forall|tb: Option<u64>, rest: Seq<u8>|
                        (bytes@.skip(i as int) == ser_total(tb) + rest && rest.len() > 0
                            && !is_digit(rest[0])) implies false by {
                        if tb is Some {
                            lemma_dec_digits_props(tb->0 as nat);
                            assert(bytes@.skip(i as int)[0] == (ser_total(tb) + rest)[0]);
                            assert(is_digit(bytes@[i as int]));
                            assert(false);
                        } else {
                            lemma_concat_assoc(ascii_b("null"@), Seq::<u8>::empty(), rest);
                        }
                    }
                }
                None
            },
        }
    } else {
        match parse_u64(bytes, i) {
            Some((n, p)) => {
                proof {
                    assert forall|tb: Option<u64>, rest: Seq<u8>|
                        (bytes@.skip(i as int) == ser_total(tb) + rest && rest.len() > 0
                            && !is_digit(rest[0])) implies (tb == Some(n) && p == i + ser_total(
                        tb,
                    ).len()) by {
                        if tb is None {
                            assert(bytes@.skip(i as int)[0] == (ser_total(tb) + rest)[0]);
                            assert(bytes@[i as int] == 110);
                            assert(false);
                        }
                    }
                }
                Some((Some(n), p))
            },
            None => {
                proof {
                    assert forall|tb: Option<u64>, rest: Seq<u8>|
                        (bytes@.skip(i as int) == ser_total(tb) + rest && rest.len() > 0
                            && !is_digit(rest[0])) implies false by {
                        if tb is None {
                            assert(bytes@.skip(i as int)[0] == (ser_total(tb) + rest)[0]);
                            assert(bytes@[i as int] == 110);
                            assert(false);
                        }
                    }
                }
                None
            },
        }
    }
}

fn parse_bool(bytes: &Vec<u8>, i: usize) -> (r: Option<(bool, usize)>)
    requires
        i <= bytes@.len(),
    ensures
        r is Some ==> i <= (r->0).1 <= bytes@.len(),
        forall|b: bool, rest: Seq<u8>|
            bytes@.skip(i as int) == ser_bool(b) + rest ==> (r is Some && (r->0).0 == b && (r
                ->0).1 == i + ser_bool(b).len()),
{
    proof {
        lemma_lit_facts();
    }
    let len = bytes.len();
    if i >= len {
        proof {
            assert forall|b: bool, rest: Seq<u8>|
                bytes@.skip(i as int) == ser_bool(b) + rest implies false by {
                assert(bytes@.skip(i as int).len() == len - i);
            }
        }
        return None;
    }
    if bytes[i] == 116 {
        match expect_lit(bytes, i, "true") {
            Some(p) => {
                proof {
                    assert forall|b: bool, rest: Seq<u8>|
                        bytes@.skip(i as int) == ser_bool(b) + rest implies (b == true && p == i
                        + ser_bool(b).len()) by {
                        assert(bytes@.skip(i as int)[0] == (ser_bool(b) + rest)[0]);
                        if !b {
                            assert(bytes@[i as int] == 102);
                            assert(false);
                        }
                    }
                }
                Some((true, p))
            },
            None => {
                proof {
                    assert forall|b: bool, rest: Seq<u8>|
                        bytes@.skip(i as int) == ser_bool(b) + rest implies false by {
                        assert(bytes@.skip(i as int)[0] == (ser_bool(b) + rest)[0]);
                        if !b {
                            assert(bytes@[i as int] == 102);
                            assert(false);
                        }
                    }
                }
                None
            },
        }
    } else {
        match expect_lit(bytes, i, "false") {
            Some(p) => {
                proof {
                    assert forall|b: bool, rest: Seq<u8>|
                        bytes@.skip(i as int) == ser_bool(b) + rest implies (b == false && p == i
                        + ser_bool(b).len()) by {
                        assert(bytes@.skip(i as int)[0] == (ser_bool(b) + rest)[0]);
                        if b {
                            assert(bytes@[i as int] == 116);
                            assert(false);
                        }
                    }
                }
                Some((false, p))
            },
            None => {
                proof {
                    assert forall|b: bool, rest: Seq<u8>|
                        bytes@.skip(i as int) == ser_bool(b) + rest implies false by {
                        assert(bytes@.skip(i as int)[0] == (ser_bool(b) + rest)[0]);
                        if b {
                            assert(bytes@[i as int] == 116);
                            assert(false);
                        }
                    }
                }
                None
            },
        }
    }
}

/// Where each piece of one serialized record stands in the byte stream.
proof fn lemma_entry_layout(bytes: Seq<u8>, i: int, st: DownloadState, rest: Seq<u8>)
    requires
        0 <= i <= bytes.len(),
        bytes.skip(i) == ser_entry(st) + rest,
    ensures
        ({
            let name = ascii_b(st.file_name@);
            let dl = dec_digits(st.downloaded_bytes as nat);
            let tot = ser_total(st.total_bytes);
            let bl = ser_bool(st.completed);
            let p1 = i + l_open().len();
            let p3 = p1 + name.len() + 1;
            let p4 = p3 + l_dl().len();
            let p5 = p4 + dl.len();
            let p6 = p5 + l_tot().len();
            let p7 = p6 + tot.len();
            let p8 = p7 + l_comp().len();
            let p9 = p8 + bl.len();
            let p10 = p9 + 1;
            &&& p10 <= bytes.len()
            &&& p10 == i + ser_entry(st).len()
            &&& bytes.skip(i) == l_open() + bytes.skip(p1)
            &&& bytes.skip(p1) == ascii_b(st.file_name@) + seq![34u8] + bytes.skip(p3)
            &&& bytes.skip(p3) == l_dl() + bytes.skip(p4)
            &&& bytes.skip(p4) == dl + bytes.skip(p5)
            &&& bytes.skip(p5).len() > 0
            &&& !is_digit(bytes.skip(p5)[0])
            &&& bytes.skip(p5) == l_tot() + bytes.skip(p6)
            &&& bytes.skip(p6) == tot + bytes.skip(p7)
            &&& bytes.skip(p7).len() > 0
            &&& !is_digit(bytes.skip(p7)[0])
            &&& bytes.skip(p7) == l_comp() + bytes.skip(p8)
            &&& bytes.skip(p8) == bl + bytes.skip(p9)
            &&& bytes.skip(p9) == seq![125u8] + bytes.skip(p10)
            &&& bytes.skip(p10) == rest
        }),
{
    lemma_lit_facts();
    let name = ascii_b(st.file_name@);
    let dl = dec_digits(st.downloaded_bytes as nat);
    let tot = ser_total(st.total_bytes);
    let bl = ser_bool(st.completed);
    let a1 = l_open() + name;
    let a2 = a1 + seq![34u8];
    let a3 = a2 + l_dl();
    let a4 = a3 + dl;
    let a5 = a4 + l_tot();
    let a6 = a5 + tot;
    let a7 = a6 + l_comp();
    let a8 = a7 + bl;
    assert(ser_entry(st) == a8 + seq![125u8]);
    let t9 = seq![125u8] + rest;
    let t8 = bl + t9;
    let t7 = l_comp() + t8;
    let t6 = tot + t7;
    let t5 = l_tot() + t6;
    let t4 = dl + t5;
    let t3 = l_dl() + t4;
    let t2 = (name + seq![34u8]) + t3;
    lemma_concat_assoc(a8, seq![125u8], rest);
    lemma_concat_assoc(a7, bl, t9);
    lemma_concat_assoc(a6, l_comp(), t8);
    lemma_concat_assoc(a5, tot, t7);
    lemma_concat_assoc(a4, l_tot(), t6);
    lemma_concat_assoc(a3, dl, t5);
    lemma_concat_assoc(a2, l_dl(), t4);
    lemma_concat_assoc(a1, seq![34u8], t3);
    lemma_concat_assoc(l_open(), name, seq![34u8] + t3);
    lemma_concat_assoc(name, seq![34u8], t3);
    assert(bytes.skip(i) == l_open() + t2);
    lemma_skip_chunk(bytes, i, l_open(), t2);
    let p1 = i + l_open().len();
    lemma_skip_chunk(bytes, p1, name + seq![34u8], t3);
    let p3 = p1 + name.len() + 1;
    assert((name + seq![34u8]).len() == name.len() + 1);
    lemma_skip_chunk(bytes, p3, l_dl(), t4);
    let p4 = p3 + l_dl().len();
    lemma_skip_chunk(bytes, p4, dl, t5);
    let p5 = p4 + dl.len();
    lemma_skip_chunk(bytes, p5, l_tot(), t6);
    let p6 = p5 + l_tot().len();
    lemma_skip_chunk(bytes, p6, tot, t7);
    let p7 = p6 + tot.len();
    lemma_skip_chunk(bytes, p7, l_comp(), t8);
    let p8 = p7 + l_comp().len();
    lemma_skip_chunk(bytes, p8, bl, t9);
    let p9 = p8 + bl.len();
    lemma_skip_chunk(bytes, p9, seq![125u8], rest);
    assert(bytes.skip(p5)[0] == l_tot()[0]);
    assert(bytes.skip(p7)[0] == l_comp()[0]);
    assert(bytes.skip(p1) == ascii_b(st.file_name@) + seq![34u8] + bytes.skip(p3));
}

/// Read one record. On a byte stream that holds, from `i` on, the
/// serialization of a record with a storable name, this returns that
/// record, field for field, and the position just past it.
fn parse_entry(bytes: &Vec<u8>, i: usize) -> (r: Option<(DownloadState, usize)>)
    requires
        i <= bytes@.len(),
    ensures
        r is Some ==> i < (r->0).1 <= bytes@.len(),
        forall|st: DownloadState, rest: Seq<u8>|
            (wf_name(st.file_name@) && bytes@.skip(i as int) == ser_entry(st) + rest) ==> (r
                is Some && (r->0).0.view_fields() == st.view_fields() && (r->0).1 == i + ser_entry(
                st,
            ).len()),
{
    let p1 = match expect_lit(bytes, i, "{\"file_name\":\"") {
        Some(p) => p,
        None => {
            proof {
                assert forall|st: DownloadState, rest: Seq<u8>|
                    (wf_name(st.file_name@) && bytes@.skip(i as int) == ser_entry(st)
                        + rest) implies false by {
                    lemma_entry_layout(bytes@, i as int, st, rest);
                }
            }
            return None;
        },
    };
    let (nm, p3) = match parse_name(bytes, p1) {
        Some(x) => x,
        None => {
            proof {
                assert forall|st: DownloadState, rest: Seq<u8>|
                    (wf_name(st.file_name@) && bytes@.skip(i as int) == ser_entry(st)
                        + rest) implies false by {
                    lemma_entry_layout(bytes@, i as int, st, rest);
                }
            }
            return None;
        },
    };
    let p4 = match expect_lit(bytes, p3, ",\"downloaded_bytes\":") {
        Some(p) => p,
        None => {
            proof {
                assert forall|st: DownloadState, rest: Seq<u8>|
                    (wf_name(st.file_name@) && bytes@.skip(i as int) == ser_entry(st)
                        + rest) implies false by {
                    lemma_entry_layout(bytes@, i as int, st, rest);
                }
            }
            return None;
        },
    };
    let (dlv, p5) = match parse_u64(bytes, p4) {
        Some(x) => x,
        None => {
            proof {
                assert forall|st: DownloadState, rest: Seq<u8>|
                    (wf_name(st.file_name@) && bytes@.skip(i as int) == ser_entry(st)
                        + rest) implies false by {
                    lemma_entry_layout(bytes@, i as int, st, rest);
                }
            }
            return None;
        },
    };
    let p6 = match expect_lit(bytes, p5, ",\"total_bytes\":") {
        Some(p) => p,
        None => {
            proof {
                assert forall|st: DownloadState, rest: Seq<u8>|
                    (wf_name(st.file_name@) && bytes@.skip(i as int) == ser_entry(st)
                        + rest) implies false by {
                    lemma_entry_layout(bytes@, i as int, st, rest);
                }
            }
            return None;
        },
    };
    let (tbv, p7) = match parse_total(bytes, p6) {
        Some(x) => x,
        None => {
            proof {
                assert forall|st: DownloadState, rest: Seq<u8>|
                    (wf_name(st.file_name@) && bytes@.skip(i as int) == ser_entry(st)
                        + rest) implies false by {
                    lemma_entry_layout(bytes@, i as int, st, rest);
                }
            }
            return None;
        },
    };
    let p8 = match expect_lit(bytes, p7, ",\"completed\":") {
        Some(p) => p,
        None => {
            proof {
                assert forall|st: DownloadState, rest: Seq<u8>|
                    (wf_name(st.file_name@) && bytes@.skip(i as int) == ser_entry(st)
                        + rest) implies false by {
                    lemma_entry_layout(bytes@, i as int, st, rest);
                }
            }
            return None;
        },
    };
    let (bv, p9) = match parse_bool(bytes, p8) {
        Some(x) => x,
        None => {
            proof {
                assert forall|st: DownloadState, rest: Seq<u8>|
                    (wf_name(st.file_name@) && bytes@.skip(i as int) == ser_entry(st)
                        + rest) implies false by {
                    lemma_entry_layout(bytes@, i as int, st, rest);
                }
            }
            return None;
        },
    };
    let p10 = match expect_byte(bytes, p9, 125) {
        Some(p) => p,
        None => {
            proof {
                assert forall|st: DownloadState, rest: Seq<u8>|
                    (wf_name(st.file_name@) && bytes@.skip(i as int) == ser_entry(st)
                        + rest) implies false by {
                    lemma_entry_layout(bytes@, i as int, st, rest);
                }
            }
            return None;
        },
    };
    let out = DownloadState {
        file_name: nm,
        downloaded_bytes: dlv,
        total_bytes: tbv,
        completed: bv,
    };
    proof {
        assert forall|st: DownloadState, rest: Seq<u8>|
            (wf_name(st.file_name@) && bytes@.skip(i as int) == ser_entry(st) + rest) implies (
        out.view_fields() == st.view_fields() && p10 == i + ser_entry(st).len()) by {
            lemma_entry_layout(bytes@, i as int, st, rest);
        }
    }
    Some((out, p10))
}

proof fn lemma_states_view_push(q: Seq<DownloadState>, x: DownloadState)
    ensures
        states_view(q.push(x)) == states_view(q).push(x.view_fields()),
{
    assert(states_view(q.push(x)) =~= states_view(q).push(x.view_fields()));
}

/// Where one record and the separator after it stand inside the rest of
/// the array.
proof fn lemma_inner_layout(bytes: Seq<u8>, pos: int, s: Seq<DownloadState>, k: int)
    requires
        0 <= pos <= bytes.len(),
        0 <= k < s.len(),
        bytes.skip(pos) == ser_inner(s.skip(k)) + seq![93u8],
    ensures
        bytes.skip(pos) == ser_entry(s[k]) + (if k + 1 == s.len() {
            seq![93u8]
        } else {
            seq![44u8] + (ser_inner(s.skip(k + 1)) + seq![93u8])
        }),
        pos + ser_entry(s[k]).len() <= bytes.len(),
        k + 1 == s.len() ==> bytes.skip(pos + ser_entry(s[k]).len()) == seq![93u8],
        k + 1 < s.len() ==> bytes.skip(pos + ser_entry(s[k]).len()) == seq![44u8] + (ser_inner(
            s.skip(k + 1),
        ) + seq![93u8]),
        k + 1 < s.len() ==> bytes.skip(pos + ser_entry(s[k]).len() + 1) == ser_inner(s.skip(k + 1))
            + seq![93u8],
{
    let e = s.skip(k);
    assert(e.len() == s.len() - k);
    assert(e[0] == s[k]);
    if e.len() == 1 {
        assert(ser_inner(e) == ser_entry(s[k]));
        lemma_skip_chunk(bytes, pos, ser_entry(s[k]), seq![93u8]);
    } else {
        assert(ser_inner(e) == ser_entry(e[0]) + seq![44u8] + ser_inner(e.drop_first()));
        assert(e.drop_first() =~= s.skip(k + 1));
        let ir = ser_inner(s.skip(k + 1));
        lemma_concat_assoc(ser_entry(s[k]) + seq![44u8], ir, seq![93u8]);
        lemma_concat_assoc(ser_entry(s[k]), seq![44u8], ir + seq![93u8]);
        lemma_skip_chunk(bytes, pos, ser_entry(s[k]), seq![44u8] + (ir + seq![93u8]));
        lemma_skip_chunk(bytes, pos + ser_entry(s[k]).len(), seq![44u8], ir + seq![93u8]);
    }
}

/// Read a whole record back. This is the store's round trip: for every
/// mapping whose names the record format can store, parsing the
/// serialized record succeeds and yields the same mapping, field for
/// field.
pub fn parse_states(bytes: &Vec<u8>) -> (r: Option<Vec<DownloadState>>)
    ensures
        forall|s: Seq<DownloadState>|
            (wf_states(s) && bytes@ == ser_states(s)) ==> (r is Some && states_view(r->0@)
                == states_view(s)),
{
    proof {
        lemma_lit_facts();
    }
    let len = bytes.len();
    let p0 = match expect_byte(bytes, 0, 91) {
        Some(p) => p,
        None => {
            proof {
                assert forall|s: Seq<DownloadState>|
                    (wf_states(s) && bytes@ == ser_states(s)) implies false by {
                    lemma_concat_assoc(seq![91u8], ser_inner(s), seq![93u8]);
                    assert(bytes@.skip(0) =~= bytes@);
                }
            }
            return None;
        },
    };
    if p0 < len && bytes[p0] == 93 {
        if p0 + 1 == len {
            let out: Vec<DownloadState> = Vec::new();
            proof {
                assert forall|s: Seq<DownloadState>|
                    (wf_states(s) && bytes@ == ser_states(s)) implies states_view(out@)
                    == states_view(s) by {
                    lemma_concat_assoc(seq![91u8], ser_inner(s), seq![93u8]);
                    assert(bytes@.skip(0) =~= bytes@);
                    lemma_skip_chunk(bytes@, 0, seq![91u8], ser_inner(s) + seq![93u8]);
                    if s.len() > 0 {
                        lemma_inner_layout(bytes@, 1, s, 0);
                        assert(s.skip(0) =~= s);
                        lemma_entry_layout(
                            bytes@,
                            1,
                            s[0],
                            if 1 == s.len() {
                                seq![93u8]
                            } else {
                                seq![44u8] + (ser_inner(s.skip(1)) + seq![93u8])
                            },
                        );
                        assert(bytes@.skip(1)[0] == l_open()[0]);
                        assert(bytes@[p0 as int] == 123);
                        assert(false);
                    }
                    assert(s.skip(0) =~= s);
                    assert(states_view(out@) =~= states_view(s));
                }
            }
            return Some(out);
        } else {
            proof {
                assert forall|s: Seq<DownloadState>|
                    (wf_states(s) && bytes@ == ser_states(s)) implies false by {
                    lemma_concat_assoc(seq![91u8], ser_inner(s), seq![93u8]);
                    assert(bytes@.skip(0) =~= bytes@);
                    lemma_skip_chunk(bytes@, 0, seq![91u8], ser_inner(s) + seq![93u8]);
                    assert(s.skip(0) =~= s);
                    if s.len() > 0 {
                        lemma_inner_layout(bytes@, 1, s, 0);
                        lemma_entry_layout(
                            bytes@,
                            1,
                            s[0],
                            if 1 == s.len() {
                                seq![93u8]
                            } else {
                                seq![44u8] + (ser_inner(s.skip(1)) + seq![93u8])
                            },
                        );
                        assert(bytes@.skip(1)[0] == l_open()[0]);
                        assert(bytes@[p0 as int] == 123);
                        assert(false);
                    } else {
                        assert(bytes@.skip(1) == seq![93u8]);
                        assert(bytes@.len() == 2);
                        assert(false);
                    }
                }
            }
            return None;
        }
    }
    let mut out: Vec<DownloadState> = Vec::new();
    let mut pos: usize = p0;
    proof {
        assert forall|s: Seq<DownloadState>|
            (wf_states(s) && bytes@ == ser_states(s)) implies (out@.len() < s.len() && states_view(
            out@,
        ) == states_view(s.take(out@.len() as int)) && bytes@.skip(pos as int) == ser_inner(
            s.skip(out@.len() as int),
        ) + seq![93u8]) by {
            lemma_concat_assoc(seq![91u8], ser_inner(s), seq![93u8]);
            assert(bytes@.skip(0) =~= bytes@);
            lemma_skip_chunk(bytes@, 0, seq![91u8], ser_inner(s) + seq![93u8]);
            assert(s.skip(0) =~= s);
            if s.len() == 0 {
                assert(bytes@.skip(1) == seq![93u8]);
                assert(bytes@.len() == 2);
                assert(bytes@.skip(1)[0] == bytes@[1]);
                assert(false);
            }
            assert(states_view(out@) =~= states_view(s.take(0)));
        }
    }
    loop
        invariant
            pos <= bytes@.len(),
            len == bytes@.len(),
            forall|s: Seq<DownloadState>| #![trigger ser_states(s)]
                (wf_states(s) && bytes@ == ser_states(s)) ==> {
                    &&& out@.len() < s.len()
                    &&& states_view(out@) == states_view(s.take(out@.len() as int))
                    &&& bytes@.skip(pos as int) == ser_inner(s.skip(out@.len() as int))
                        + seq![93u8]
                },
        decreases bytes@.len() - pos,
    {
        let ghost prev = out@;
        let ghost prev_pos = pos as int;
        let (st, p) = match parse_entry(bytes, pos) {
            Some(x) => x,
            None => {
                proof {
                    assert forall|s: Seq<DownloadState>|
                        (wf_states(s) && bytes@ == ser_states(s)) implies false by {
                        let k = prev.len() as int;
                        lemma_inner_layout(bytes@, prev_pos, s, k);
                        assert(wf_name(s[k].file_name@));
                    }
                }
                return None;
            },
        };
        let ghost stf = st.view_fields();
        out.push(st);
        if p < len && bytes[p] == 44 {
            pos = p + 1;
            proof {
                assert forall|s: Seq<DownloadState>|
                    (wf_states(s) && bytes@ == ser_states(s)) implies (out@.len() < s.len()
                    && states_view(out@) == states_view(s.take(out@.len() as int))
                    && bytes@.skip(pos as int) == ser_inner(s.skip(out@.len() as int))
                    + seq![93u8]) by {
                    let k = prev.len() as int;
                    lemma_inner_layout(bytes@, prev_pos, s, k);
                    assert(wf_name(s[k].file_name@));
                    assert(stf == s[k].view_fields());
                    assert(p == prev_pos + ser_entry(s[k]).len());
                    if k + 1 == s.len() {
                        assert(bytes@.skip(p as int) == seq![93u8]);
                        assert(bytes@.skip(p as int)[0] == bytes@[p as int]);
                        assert(false);
                    }
                    lemma_states_view_push(prev, st);
                    assert(s.take(k + 1) =~= s.take(k).push(s[k]));
                    lemma_states_view_push(s.take(k), s[k]);
                    assert(out@ == prev.push(st));
                }
            }
        } else if p < len && bytes[p] == 93 {
            if p + 1 == len {
                proof {
                    assert forall|s: Seq<DownloadState>|
                        (wf_states(s) && bytes@ == ser_states(s)) implies states_view(out@)
                        == states_view(s) by {
                        let k = prev.len() as int;
                        lemma_inner_layout(bytes@, prev_pos, s, k);
                        assert(wf_name(s[k].file_name@));
                        assert(stf == s[k].view_fields());
                        assert(p == prev_pos + ser_entry(s[k]).len());
                        if k + 1 < s.len() {
                            assert(bytes@.skip(p as int) == seq![44u8] + (ser_inner(s.skip(k + 1))
                                + seq![93u8]));
                            assert(bytes@.skip(p as int)[0] == bytes@[p as int]);
                            assert(false);
                        }
                        lemma_states_view_push(prev, st);
                        assert(s.take(k + 1) =~= s.take(k).push(s[k]));
                        lemma_states_view_push(s.take(k), s[k]);
                        assert(s.take(k + 1) =~= s);
                        assert(out@ == prev.push(st));
                    }
                }
                return Some(out);
            } else {
                proof {
                    assert forall|s: Seq<DownloadState>|
                        (wf_states(s) && bytes@ == ser_states(s)) implies false by {
                        let k = prev.len() as int;
                        lemma_inner_layout(bytes@, prev_pos, s, k);
                        assert(wf_name(s[k].file_name@));
                        assert(p == prev_pos + ser_entry(s[k]).len());
                        if k + 1 < s.len() {
                            assert(bytes@.skip(p as int) == seq![44u8] + (ser_inner(s.skip(k + 1))
                                + seq![93u8]));
                            assert(bytes@.skip(p as int)[0] == bytes@[p as int]);
                            assert(false);
                        }
                        assert(bytes@.skip(p as int) == seq![93u8]);
                        assert(bytes@.skip(p as int).len() == len - p);
                        assert(false);
                    }
                }
                return None;
            }
        } else {
            proof {
                assert forall|s: Seq<DownloadState>|
                    (wf_states(s) && bytes@ == ser_states(s)) implies false by {
                    let k = prev.len() as int;
                    lemma_inner_layout(bytes@, prev_pos, s, k);
                    assert(wf_name(s[k].file_name@));
                    assert(p == prev_pos + ser_entry(s[k]).len());
                    if k + 1 < s.len() {
                        assert(bytes@.skip(p as int) == seq![44u8] + (ser_inner(s.skip(k + 1))
                            + seq![93u8]));
                        assert(bytes@.skip(p as int)[0] == bytes@[p as int]);
                        assert(bytes@.skip(p as int).len() == len - p);
                        assert(false);
                    }
                    assert(bytes@.skip(p as int) == seq![93u8]);
                    assert(bytes@.skip(p as int)[0] == bytes@[p as int]);
                    assert(bytes@.skip(p as int).len() == len - p);
                    assert(false);
                }
            }
            return None;
        }
    }
}

} // verus!
