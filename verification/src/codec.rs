//! Persistence codec: the registry snapshot as text, and the strict parser
//! that reads it back. The persisted form is a single object with one field
//! `data` holding the records, each record a pair of the guild identifier and
//! its entry list, each entry a pair of person and timezone identifier:
//! `{"data":[[123,[["Alice","US/Eastern"]]]]}`. Quotes and backslashes inside
//! person or timezone text are escaped with a backslash; every snapshot
//! round-trips exactly (see `lemma_snapshot_round_trip`).

use vstd::prelude::*;
use vstd::string::StrSliceExecFns;
use vstd::string::StringExecFns;
use crate::registry::Entry;
use crate::registry::EntryV;
use crate::registry::GuildRecord;
use crate::registry::RecordV;
use crate::registry::Registry;

verus! {

/// Decimal digit characters.
pub open spec fn is_digit(c: char) -> bool {
    48 <= c as u32 <= 57
}

/// The numeric value of a digit character.
pub open spec fn digit_val(c: char) -> nat {
    (c as u32 - 48) as nat
}

/// The digit character for a value below ten.
pub open spec fn digit_char(d: nat) -> char {
    if d == 0 {
        '0'
    } else if d == 1 {
        '1'
    } else if d == 2 {
        '2'
    } else if d == 3 {
        '3'
    } else if d == 4 {
        '4'
    } else if d == 5 {
        '5'
    } else if d == 6 {
        '6'
    } else if d == 7 {
        '7'
    } else if d == 8 {
        '8'
    } else {
        '9'
    }
}

/// Decimal digits of `n`, most significant first.
pub open spec fn dec_digits(n: nat) -> Seq<char>
    decreases n,
{
    if n < 10 {
        seq![digit_char(n)]
    } else {
        dec_digits(n / 10) + seq![digit_char(n % 10)]
    }
}

/// One character as it stands inside a quoted string: quote and backslash
/// get a backslash in front, everything else stands as itself.
pub open spec fn esc_char(c: char) -> Seq<char> {
    if c == '"' || c == '\\' {
        seq!['\\', c]
    } else {
        seq![c]
    }
}

/// A whole string escaped.
pub open spec fn esc(s: Seq<char>) -> Seq<char>
    decreases s.len(),
{
    if s.len() == 0 {
        Seq::empty()
    } else {
        esc_char(s[0]) + esc(s.drop_first())
    }
}

/// A quoted, escaped string.
pub open spec fn enc_string(s: Seq<char>) -> Seq<char> {
    seq!['"'] + esc(s) + seq!['"']
}

/// One entry: `["person","zone"]`.
pub open spec fn enc_entry(e: EntryV) -> Seq<char> {
    seq!['['] + enc_string(e.person) + seq![','] + enc_string(e.tz) + seq![']']
}

/// The entries after the first, each with its leading comma.
pub open spec fn enc_entry_tail(es: Seq<EntryV>) -> Seq<char>
    decreases es.len(),
{
    if es.len() == 0 {
        Seq::empty()
    } else {
        seq![','] + enc_entry(es[0]) + enc_entry_tail(es.drop_first())
    }
}

/// A bracketed, comma-separated entry list.
pub open spec fn enc_entry_list(es: Seq<EntryV>) -> Seq<char> {
    if es.len() == 0 {
        seq!['[', ']']
    } else {
        seq!['['] + enc_entry(es[0]) + enc_entry_tail(es.drop_first()) + seq![']']
    }
}

/// One record: `[guild,[entries]]`.
pub open spec fn enc_record(r: RecordV) -> Seq<char> {
    seq!['['] + dec_digits(r.guild as nat) + seq![','] + enc_entry_list(r.entries) + seq![']']
}

/// The records after the first, each with its leading comma.
pub open spec fn enc_record_tail(recs: Seq<RecordV>) -> Seq<char>
    decreases recs.len(),
{
    if recs.len() == 0 {
        Seq::empty()
    } else {
        seq![','] + enc_record(recs[0]) + enc_record_tail(recs.drop_first())
    }
}

/// A bracketed, comma-separated record list.
pub open spec fn enc_record_list(recs: Seq<RecordV>) -> Seq<char> {
    if recs.len() == 0 {
        seq!['[', ']']
    } else {
        seq!['['] + enc_record(recs[0]) + enc_record_tail(recs.drop_first()) + seq![']']
    }
}

/// The whole persisted snapshot: `{"data":` records `}`.
pub open spec fn enc_snapshot(recs: Seq<RecordV>) -> Seq<char> {
    seq!['{', '"', 'd', 'a', 't', 'a', '"', ':'] + enc_record_list(recs) + seq!['}']
}

/// Consumes one expected character.
pub open spec fn p_char(s: Seq<char>, c: char) -> Option<Seq<char>> {
    if s.len() > 0 && s[0] == c {
        Some(s.drop_first())
    } else {
        None
    }
}

/// Consumes the inside of a quoted string up to and including the closing
/// quote, undoing the escapes; yields the content and the rest.
pub open spec fn p_str_body(s: Seq<char>) -> Option<(Seq<char>, Seq<char>)>
    decreases s.len(),
{
    if s.len() == 0 {
        None
    } else if s[0] == '"' {
        Some((Seq::empty(), s.drop_first()))
    } else if s[0] == '\\' {
        if s.len() >= 2 && (s[1] == '"' || s[1] == '\\') {
            match p_str_body(s.skip(2)) {
                Some(r) => Some((seq![s[1]] + r.0, r.1)),
                None => None,
            }
        } else {
            None
        }
    } else {
        match p_str_body(s.drop_first()) {
            Some(r) => Some((seq![s[0]] + r.0, r.1)),
            None => None,
        }
    }
}

/// Consumes a quoted string.
pub open spec fn p_string(s: Seq<char>) -> Option<(Seq<char>, Seq<char>)> {
    if s.len() > 0 && s[0] == '"' {
        p_str_body(s.drop_first())
    } else {
        None
    }
}

/// Consumes every leading digit, folding the value left to right.
pub open spec fn p_digits(s: Seq<char>, acc: nat) -> (nat, Seq<char>)
    decreases s.len(),
{
    if s.len() > 0 && is_digit(s[0]) {
        p_digits(s.drop_first(), acc * 10 + digit_val(s[0]))
    } else {
        (acc, s)
    }
}

/// Consumes a number of at least one digit.
pub open spec fn p_u64(s: Seq<char>) -> Option<(nat, Seq<char>)> {
    if s.len() > 0 && is_digit(s[0]) {
        Some(p_digits(s, 0))
    } else {
        None
    }
}

/// Consumes one entry: `["person","zone"]`.
pub open spec fn p_entry(s: Seq<char>) -> Option<(EntryV, Seq<char>)> {
    match p_char(s, '[') {
        None => None,
        Some(s1) => match p_string(s1) {
            None => None,
            Some((person, s2)) => match p_char(s2, ',') {
                None => None,
                Some(s3) => match p_string(s3) {
                    None => None,
                    Some((tz, s4)) => match p_char(s4, ']') {
                        None => None,
                        Some(s5) => Some((EntryV { person, tz }, s5)),
                    },
                },
            },
        },
    }
}

/// A successful string-body parse consumes at least one character.
proof fn lemma_p_str_body_len(s: Seq<char>)
    ensures
        p_str_body(s) matches Some(r) ==> r.1.len() < s.len(),
    decreases s.len(),
{
    if s.len() == 0 {
    } else if s[0] == '"' {
    } else if s[0] == '\\' {
        if s.len() >= 2 && (s[1] == '"' || s[1] == '\\') {
            lemma_p_str_body_len(s.skip(2));
        }
    } else {
        lemma_p_str_body_len(s.drop_first());
    }
}

/// A successful quoted-string parse consumes at least two characters.
proof fn lemma_p_string_len(s: Seq<char>)
    ensures
        p_string(s) matches Some(r) ==> r.1.len() + 2 <= s.len(),
{
    if s.len() > 0 && s[0] == '"' {
        lemma_p_str_body_len(s.drop_first());
    }
}

/// Digit folding never grows the rest.
proof fn lemma_p_digits_len(s: Seq<char>, acc: nat)
    ensures
        p_digits(s, acc).1.len() <= s.len(),
    decreases s.len(),
{
    if s.len() > 0 && is_digit(s[0]) {
        lemma_p_digits_len(s.drop_first(), acc * 10 + digit_val(s[0]));
    }
}

/// A successful entry parse consumes at least one character.
proof fn lemma_p_entry_len(s: Seq<char>)
    ensures
        p_entry(s) matches Some(r) ==> r.1.len() < s.len(),
{
    if let Some(s1) = p_char(s, '[') {
        lemma_p_string_len(s1);
        if let Some((person, s2)) = p_string(s1) {
            if let Some(s3) = p_char(s2, ',') {
                lemma_p_string_len(s3);
            }
        }
    }
}

/// Consumes `]`, or `,` followed by one more entry and the entries beyond.
pub open spec fn p_entry_tail(s: Seq<char>, acc: Seq<EntryV>) -> Option<
    (Seq<EntryV>, Seq<char>),
>
    decreases s.len(),
    via p_entry_tail_dec
{
    if s.len() > 0 && s[0] == ']' {
        Some((acc, s.drop_first()))
    } else if s.len() > 0 && s[0] == ',' {
        match p_entry(s.drop_first()) {
            None => None,
            Some((e, rest)) => p_entry_tail(rest, acc.push(e)),
        }
    } else {
        None
    }
}

#[via_fn]
proof fn p_entry_tail_dec(s: Seq<char>, acc: Seq<EntryV>) {
    if s.len() > 0 && s[0] == ',' {
        lemma_p_entry_len(s.drop_first());
    }
}

/// Consumes a bracketed entry list.
pub open spec fn p_entry_list(s: Seq<char>) -> Option<(Seq<EntryV>, Seq<char>)> {
    match p_char(s, '[') {
        None => None,
        Some(s1) => if s1.len() > 0 && s1[0] == ']' {
            Some((Seq::empty(), s1.drop_first()))
        } else {
            match p_entry(s1) {
                None => None,
                Some((e, rest)) => p_entry_tail(rest, seq![e]),
            }
        },
    }
}

/// A successful entry-tail parse consumes at least one character.
proof fn lemma_p_entry_tail_len(s: Seq<char>, acc: Seq<EntryV>)
    ensures
        p_entry_tail(s, acc) matches Some(r) ==> r.1.len() < s.len(),
    decreases s.len(),
{
    if s.len() > 0 && s[0] == ',' {
        lemma_p_entry_len(s.drop_first());
        if let Some((e, rest)) = p_entry(s.drop_first()) {
            lemma_p_entry_tail_len(rest, acc.push(e));
        }
    }
}

/// A successful entry-list parse consumes at least one character.
proof fn lemma_p_entry_list_len(s: Seq<char>)
    ensures
        p_entry_list(s) matches Some(r) ==> r.1.len() < s.len(),
{
    if let Some(s1) = p_char(s, '[') {
        if !(s1.len() > 0 && s1[0] == ']') {
            lemma_p_entry_len(s1);
            if let Some((e, rest)) = p_entry(s1) {
                lemma_p_entry_tail_len(rest, seq![e]);
            }
        }
    }
}

/// Consumes one record: `[guild,[entries]]`, rejecting a guild identifier
/// beyond the largest representable value.
pub open spec fn p_record(s: Seq<char>) -> Option<(RecordV, Seq<char>)> {
    match p_char(s, '[') {
        None => None,
        Some(s1) => match p_u64(s1) {
            None => None,
            Some((guild, s2)) => if guild > u64::MAX {
                None
            } else {
                match p_char(s2, ',') {
                    None => None,
                    Some(s3) => match p_entry_list(s3) {
                        None => None,
                        Some((entries, s4)) => match p_char(s4, ']') {
                            None => None,
                            Some(s5) => Some((RecordV { guild: guild as u64, entries }, s5)),
                        },
                    },
                }
            },
        },
    }
}

/// A successful record parse consumes at least one character.
proof fn lemma_p_record_len(s: Seq<char>)
    ensures
        p_record(s) matches Some(r) ==> r.1.len() < s.len(),
{
    if let Some(s1) = p_char(s, '[') {
        lemma_p_digits_len(s1, 0);
        if let Some((guild, s2)) = p_u64(s1) {
            if guild <= u64::MAX {
                if let Some(s3) = p_char(s2, ',') {
                    lemma_p_entry_list_len(s3);
                }
            }
        }
    }
}

/// Consumes `]`, or `,` followed by one more record and the records beyond.
pub open spec fn p_record_tail(s: Seq<char>, acc: Seq<RecordV>) -> Option<
    (Seq<RecordV>, Seq<char>),
>
    decreases s.len(),
    via p_record_tail_dec
{
    if s.len() > 0 && s[0] == ']' {
        Some((acc, s.drop_first()))
    } else if s.len() > 0 && s[0] == ',' {
        match p_record(s.drop_first()) {
            None => None,
            Some((r, rest)) => p_record_tail(rest, acc.push(r)),
        }
    } else {
        None
    }
}

#[via_fn]
proof fn p_record_tail_dec(s: Seq<char>, acc: Seq<RecordV>) {
    if s.len() > 0 && s[0] == ',' {
        lemma_p_record_len(s.drop_first());
    }
}

/// Consumes a bracketed record list.
pub open spec fn p_record_list(s: Seq<char>) -> Option<(Seq<RecordV>, Seq<char>)> {
    match p_char(s, '[') {
        None => None,
        Some(s1) => if s1.len() > 0 && s1[0] == ']' {
            Some((Seq::empty(), s1.drop_first()))
        } else {
            match p_record(s1) {
                None => None,
                Some((r, rest)) => p_record_tail(rest, seq![r]),
            }
        },
    }
}

/// Parses a whole snapshot text: the fixed `{"data":` head, the record
/// list, the closing brace, and nothing after it.
pub open spec fn p_snapshot(s: Seq<char>) -> Option<Seq<RecordV>> {
    match p_char(s, '{') {
        None => None,
        Some(s1) => match p_char(s1, '"') {
            None => None,
            Some(s2) => match p_char(s2, 'd') {
                None => None,
                Some(s3) => match p_char(s3, 'a') {
                    None => None,
                    Some(s4) => match p_char(s4, 't') {
                        None => None,
                        Some(s5) => match p_char(s5, 'a') {
                            None => None,
                            Some(s6) => match p_char(s6, '"') {
                                None => None,
                                Some(s7) => match p_char(s7, ':') {
                                    None => None,
                                    Some(s8) => match p_record_list(s8) {
                                        None => None,
                                        Some((recs, s9)) => match p_char(s9, '}') {
                                            None => None,
                                            Some(s10) => if s10.len() == 0 {
                                                Some(recs)
                                            } else {
                                                None
                                            },
                                        },
                                    },
                                },
                            },
                        },
                    },
                },
            },
        },
    }
}

/// What a snapshot text decodes to: the parsed records, provided their
/// guild identifiers are pairwise distinct; anything else is corrupt.
pub open spec fn decode_spec(s: Seq<char>) -> Option<Seq<RecordV>> {
    match p_snapshot(s) {
        None => None,
        Some(recs) => if crate::registry::wf(recs) {
            Some(recs)
        } else {
            None
        },
    }
}

/// Escaping distributes over appending one character at the end.
proof fn lemma_esc_push(s: Seq<char>, c: char)
    ensures
        esc(s.push(c)) == esc(s) + esc_char(c),
    decreases s.len(),
{
    if s.len() == 0 {
        reveal_with_fuel(esc, 2);
        assert(s.push(c).drop_first() =~= Seq::<char>::empty());
        assert(esc(s.push(c)) =~= esc(s) + esc_char(c));
    } else {
        assert(s.push(c).drop_first() =~= s.drop_first().push(c));
        lemma_esc_push(s.drop_first(), c);
        assert(esc(s.push(c)) =~= esc(s) + esc_char(c));
    }
}

/// The entry tail grows at the end by one comma and one entry.
proof fn lemma_entry_tail_push(es: Seq<EntryV>, e: EntryV)
    ensures
        enc_entry_tail(es.push(e)) == enc_entry_tail(es) + seq![','] + enc_entry(e),
    decreases es.len(),
{
    if es.len() == 0 {
        reveal_with_fuel(enc_entry_tail, 2);
        assert(es.push(e).drop_first() =~= Seq::<EntryV>::empty());
        assert(enc_entry_tail(es.push(e)) =~= enc_entry_tail(es) + seq![','] + enc_entry(e));
    } else {
        assert(es.push(e).drop_first() =~= es.drop_first().push(e));
        lemma_entry_tail_push(es.drop_first(), e);
        assert(enc_entry_tail(es.push(e)) =~= enc_entry_tail(es) + seq![','] + enc_entry(e));
    }
}

/// The record tail grows at the end by one comma and one record.
proof fn lemma_record_tail_push(recs: Seq<RecordV>, r: RecordV)
    ensures
        enc_record_tail(recs.push(r)) == enc_record_tail(recs) + seq![','] + enc_record(r),
    decreases recs.len(),
{
    if recs.len() == 0 {
        reveal_with_fuel(enc_record_tail, 2);
        assert(recs.push(r).drop_first() =~= Seq::<RecordV>::empty());
        assert(enc_record_tail(recs.push(r)) =~= enc_record_tail(recs) + seq![','] + enc_record(r));
    } else {
        assert(recs.push(r).drop_first() =~= recs.drop_first().push(r));
        lemma_record_tail_push(recs.drop_first(), r);
        assert(enc_record_tail(recs.push(r)) =~= enc_record_tail(recs) + seq![','] + enc_record(r));
    }
}

/// Digit folding runs through a block of digits and goes on behind it.
proof fn lemma_p_digits_concat(ds: Seq<char>, rest: Seq<char>, acc: nat)
    requires
        forall|i: int| 0 <= i < ds.len() ==> is_digit(ds[i]),
    ensures
        p_digits(ds + rest, acc) == p_digits(rest, p_digits(ds, acc).0),
    decreases ds.len(),
{
    if ds.len() == 0 {
        assert(ds + rest =~= rest);
    } else {
        assert((ds + rest)[0] == ds[0]);
        assert((ds + rest).drop_first() =~= ds.drop_first() + rest);
        lemma_p_digits_concat(ds.drop_first(), rest, acc * 10 + digit_val(ds[0]));
    }
}

/// Every character of a decimal rendering is a digit.
proof fn lemma_dec_digits_are_digits(n: nat)
    ensures
        dec_digits(n).len() >= 1,
        forall|i: int| 0 <= i < dec_digits(n).len() ==> is_digit(#[trigger] dec_digits(n)[i]),
    decreases n,
{
    if n < 10 {
    } else {
        lemma_dec_digits_are_digits(n / 10);
        assert forall|i: int| 0 <= i < dec_digits(n).len() implies is_digit(
            #[trigger] dec_digits(n)[i],
        ) by {
            if i < dec_digits(n / 10).len() {
                assert(dec_digits(n)[i] == dec_digits(n / 10)[i]);
            } else {
                assert(dec_digits(n)[i] == digit_char(n % 10));
            }
        }
    }
}

/// Folding the decimal rendering of `n` gives `n` back, consuming it all.
proof fn lemma_dec_digits_value(n: nat)
    ensures
        p_digits(dec_digits(n), 0) == ((n, Seq::<char>::empty())),
    decreases n,
{
    reveal_with_fuel(p_digits, 3);
    lemma_dec_digits_are_digits(n);
    if n < 10 {
        assert(dec_digits(n).drop_first() =~= Seq::<char>::empty());
        assert(digit_val(digit_char(n)) == n);
    } else {
        lemma_dec_digits_value(n / 10);
        lemma_dec_digits_are_digits(n / 10);
        lemma_p_digits_concat(dec_digits(n / 10), seq![digit_char(n % 10)], 0);
        assert(p_digits(dec_digits(n), 0) == p_digits(
            seq![digit_char(n % 10)],
            n / 10,
        ));
        assert(seq![digit_char(n % 10)].drop_first() =~= Seq::<char>::empty());
        assert(digit_val(digit_char(n % 10)) == n % 10);
        assert(n / 10 * 10 + n % 10 == n) by (nonlinear_arith);
    }
}

/// A rendered number followed by a non-digit parses back to itself.
proof fn lemma_p_u64_enc(n: nat, rest: Seq<char>)
    requires
        rest.len() == 0 || !is_digit(rest[0]),
    ensures
        p_u64(dec_digits(n) + rest) == Some(((n, rest))),
{
    lemma_dec_digits_are_digits(n);
    assert((dec_digits(n) + rest)[0] == dec_digits(n)[0]);
    lemma_p_digits_concat(dec_digits(n), rest, 0);
    lemma_dec_digits_value(n);
}

/// An escaped string body followed by its closing quote parses back to the
/// original content.
proof fn lemma_p_str_body_enc(v: Seq<char>, rest: Seq<char>)
    ensures
        p_str_body(esc(v) + seq!['"'] + rest) == Some(((v, rest))),
    decreases v.len(),
{
    let s = esc(v) + seq!['"'] + rest;
    if v.len() == 0 {
        assert(s =~= seq!['"'] + rest);
        assert(s[0] == '"');
        assert(s.drop_first() =~= rest);
        assert(v =~= Seq::<char>::empty());
    } else {
        lemma_p_str_body_enc(v.drop_first(), rest);
        let tail = esc(v.drop_first()) + seq!['"'] + rest;
        if v[0] == '"' || v[0] == '\\' {
            assert(s =~= seq!['\\', v[0]] + tail);
            assert(s[0] == '\\');
            assert(s[1] == v[0]);
            assert(s.len() >= 2);
            assert(s.skip(2) =~= tail);
            assert(seq![v[0]] + v.drop_first() =~= v);
        } else {
            assert(s =~= seq![v[0]] + tail);
            assert(s[0] == v[0]);
            assert(s[0] != '"' && s[0] != '\\');
            assert(s.drop_first() =~= tail);
            assert(seq![v[0]] + v.drop_first() =~= v);
        }
    }
}

/// A quoted, escaped string parses back to the original content.
proof fn lemma_p_string_enc(v: Seq<char>, rest: Seq<char>)
    ensures
        p_string(enc_string(v) + rest) == Some(((v, rest))),
{
    let s = enc_string(v) + rest;
    assert(s[0] == '"');
    assert(s.drop_first() =~= esc(v) + seq!['"'] + rest);
    lemma_p_str_body_enc(v, rest);
}

/// An encoded entry parses back to itself.
proof fn lemma_p_entry_enc(e: EntryV, rest: Seq<char>)
    ensures
        p_entry(enc_entry(e) + rest) == Some(((e, rest))),
{
    let s = enc_entry(e) + rest;
    let r1 = seq![','] + enc_string(e.tz) + seq![']'] + rest;
    let r2 = seq![']'] + rest;
    assert(s[0] == '[');
    let s1 = s.drop_first();
    assert(s1 =~= enc_string(e.person) + r1);
    lemma_p_string_enc(e.person, r1);
    assert(r1[0] == ',');
    let s3 = r1.drop_first();
    assert(s3 =~= enc_string(e.tz) + r2);
    lemma_p_string_enc(e.tz, r2);
    assert(r2[0] == ']');
    assert(r2.drop_first() =~= rest);
    assert(EntryV { person: e.person, tz: e.tz } =~= e);
}

/// An encoded entry tail closed with `]` parses back, extending what was
/// already collected.
proof fn lemma_p_entry_tail_enc(es: Seq<EntryV>, acc: Seq<EntryV>, rest: Seq<char>)
    ensures
        p_entry_tail(enc_entry_tail(es) + seq![']'] + rest, acc) == Some(((acc + es, rest))),
    decreases es.len(),
{
    let s = enc_entry_tail(es) + seq![']'] + rest;
    if es.len() == 0 {
        assert(s =~= seq![']'] + rest);
        assert(s[0] == ']');
        assert(s.drop_first() =~= rest);
        assert(acc + es =~= acc);
    } else {
        let t = enc_entry_tail(es.drop_first()) + seq![']'] + rest;
        assert(s =~= seq![','] + (enc_entry(es[0]) + t));
        assert(s[0] == ',');
        assert(s.drop_first() =~= enc_entry(es[0]) + t);
        lemma_p_entry_enc(es[0], t);
        lemma_p_entry_tail_enc(es.drop_first(), acc.push(es[0]), rest);
        assert(acc.push(es[0]) + es.drop_first() =~= acc + es);
    }
}

/// An encoded entry list parses back to itself.
proof fn lemma_p_entry_list_enc(es: Seq<EntryV>, rest: Seq<char>)
    ensures
        p_entry_list(enc_entry_list(es) + rest) == Some(((es, rest))),
{
    let s = enc_entry_list(es) + rest;
    if es.len() == 0 {
        assert(s =~= seq!['[', ']'] + rest);
        assert(s[0] == '[');
        let s1 = s.drop_first();
        assert(s1 =~= seq![']'] + rest);
        assert(s1[0] == ']');
        assert(s1.drop_first() =~= rest);
        assert(Seq::<EntryV>::empty() =~= es);
    } else {
        let t = enc_entry_tail(es.drop_first()) + seq![']'] + rest;
        assert(s[0] == '[');
        let s1 = s.drop_first();
        assert(s1 =~= enc_entry(es[0]) + t);
        lemma_p_entry_enc(es[0], t);
        assert(s1.len() > 0 && s1[0] == '[');
        assert(s1[0] != ']');
        lemma_p_entry_tail_enc(es.drop_first(), seq![es[0]], rest);
        assert(seq![es[0]] + es.drop_first() =~= es);
    }
}

/// An encoded record parses back to itself.
proof fn lemma_p_record_enc(r: RecordV, rest: Seq<char>)
    ensures
        p_record(enc_record(r) + rest) == Some(((r, rest))),
{
    let s = enc_record(r) + rest;
    let r1 = seq![','] + enc_entry_list(r.entries) + seq![']'] + rest;
    let r2 = seq![']'] + rest;
    assert(s[0] == '[');
    let s1 = s.drop_first();
    assert(s1 =~= dec_digits(r.guild as nat) + r1);
    assert(!is_digit(r1[0]));
    lemma_p_u64_enc(r.guild as nat, r1);
    assert(r.guild as nat <= u64::MAX);
    assert(r1[0] == ',');
    let s3 = r1.drop_first();
    assert(s3 =~= enc_entry_list(r.entries) + r2);
    lemma_p_entry_list_enc(r.entries, r2);
    assert(r2[0] == ']');
    assert(r2.drop_first() =~= rest);
    assert(RecordV { guild: r.guild, entries: r.entries } =~= r);
}

/// An encoded record tail closed with `]` parses back, extending what was
/// already collected.
proof fn lemma_p_record_tail_enc(recs: Seq<RecordV>, acc: Seq<RecordV>, rest: Seq<char>)
    ensures
        p_record_tail(enc_record_tail(recs) + seq![']'] + rest, acc) == Some(((acc + recs, rest))),
    decreases recs.len(),
{
    let s = enc_record_tail(recs) + seq![']'] + rest;
    if recs.len() == 0 {
        assert(s =~= seq![']'] + rest);
        assert(s[0] == ']');
        assert(s.drop_first() =~= rest);
        assert(acc + recs =~= acc);
    } else {
        let t = enc_record_tail(recs.drop_first()) + seq![']'] + rest;
        assert(s =~= seq![','] + (enc_record(recs[0]) + t));
        assert(s[0] == ',');
        assert(s.drop_first() =~= enc_record(recs[0]) + t);
        lemma_p_record_enc(recs[0], t);
        lemma_p_record_tail_enc(recs.drop_first(), acc.push(recs[0]), rest);
        assert(acc.push(recs[0]) + recs.drop_first() =~= acc + recs);
    }
}

/// An encoded record list parses back to itself.
proof fn lemma_p_record_list_enc(recs: Seq<RecordV>, rest: Seq<char>)
    ensures
        p_record_list(enc_record_list(recs) + rest) == Some(((recs, rest))),
{
    let s = enc_record_list(recs) + rest;
    if recs.len() == 0 {
        assert(s =~= seq!['[', ']'] + rest);
        assert(s[0] == '[');
        let s1 = s.drop_first();
        assert(s1 =~= seq![']'] + rest);
        assert(s1[0] == ']');
        assert(s1.drop_first() =~= rest);
        assert(Seq::<RecordV>::empty() =~= recs);
    } else {
        let t = enc_record_tail(recs.drop_first()) + seq![']'] + rest;
        assert(s[0] == '[');
        let s1 = s.drop_first();
        assert(s1 =~= enc_record(recs[0]) + t);
        lemma_p_record_enc(recs[0], t);
        assert(s1.len() > 0 && s1[0] == '[');
        assert(s1[0] != ']');
        lemma_p_record_tail_enc(recs.drop_first(), seq![recs[0]], rest);
        assert(seq![recs[0]] + recs.drop_first() =~= recs);
    }
}

/// An encoded snapshot parses back to its records.
#[verifier::rlimit(100)]
proof fn lemma_p_snapshot_enc(recs: Seq<RecordV>)
    ensures
        p_snapshot(enc_snapshot(recs)) == Some(recs),
{
    let head = seq!['{', '"', 'd', 'a', 't', 'a', '"', ':'];
    let s = enc_snapshot(recs);
    let body = enc_record_list(recs) + seq!['}'];
    assert(s =~= head + body);
    assert(s[0] == '{');
    let s1 = s.drop_first();
    assert(s1 =~= seq!['"', 'd', 'a', 't', 'a', '"', ':'] + body);
    assert(s1[0] == '"');
    let s2 = s1.drop_first();
    assert(s2 =~= seq!['d', 'a', 't', 'a', '"', ':'] + body);
    assert(s2[0] == 'd');
    let s3 = s2.drop_first();
    assert(s3 =~= seq!['a', 't', 'a', '"', ':'] + body);
    assert(s3[0] == 'a');
    let s4 = s3.drop_first();
    assert(s4 =~= seq!['t', 'a', '"', ':'] + body);
    assert(s4[0] == 't');
    let s5 = s4.drop_first();
    assert(s5 =~= seq!['a', '"', ':'] + body);
    assert(s5[0] == 'a');
    let s6 = s5.drop_first();
    assert(s6 =~= seq!['"', ':'] + body);
    assert(s6[0] == '"');
    let s7 = s6.drop_first();
    assert(s7 =~= seq![':'] + body);
    assert(s7[0] == ':');
    let s8 = s7.drop_first();
    assert(s8 =~= enc_record_list(recs) + seq!['}']);
    lemma_p_record_list_enc(recs, seq!['}']);
    let s9 = seq!['}'];
    assert(s9[0] == '}');
    assert(s9.drop_first() =~= Seq::<char>::empty());
}

/// Law: round trip. Any snapshot whose guild identifiers are pairwise
/// distinct decodes from its own encoding exactly — guild set, entry lists,
/// and per-guild order all preserved.
pub proof fn lemma_snapshot_round_trip(recs: Seq<RecordV>)
    requires
        crate::registry::wf(recs),
    ensures
        decode_spec(enc_snapshot(recs)) == Some(recs),
{
    lemma_p_snapshot_enc(recs);
}

/// Digit folding only ever grows the accumulator.
proof fn lemma_p_digits_ge(s: Seq<char>, acc: nat)
    ensures
        p_digits(s, acc).0 >= acc,
    decreases s.len(),
{
    if s.len() > 0 && is_digit(s[0]) {
        lemma_p_digits_ge(s.drop_first(), acc * 10 + digit_val(s[0]));
    }
}

/// Consumes one expected character at position `i`.
fn expect_char(s: &str, i: usize, c: char) -> (r: Option<usize>)
    requires
        i <= s@.len(),
    ensures
        match p_char(s@.skip(i as int), c) {
            Some(v) => r matches Some(j) && j == i + 1 && i + 1 <= s@.len() && s@.skip(i as int + 1) == v,
            None => r is None,
        },
{
    let n = s.unicode_len();
    if i < n && s.get_char(i) == c {
        proof {
            assert(s@.skip(i as int)[0] == s@[i as int]);
            assert(s@.skip(i as int).drop_first() =~= s@.skip(i as int + 1));
        }
        Some(i + 1)
    } else {
        None
    }
}

/// Parses a string body from position `i`, appending the content to `out`.
fn parse_str_body(s: &str, i: usize, out: &mut String) -> (r: Option<usize>)
    requires
        i <= s@.len(),
    ensures
        match p_str_body(s@.skip(i as int)) {
            Some(v) => r matches Some(j) && i <= j <= s@.len() && final(out)@ == old(out)@ + v.0
                && s@.skip(j as int) == v.1,
            None => r is None,
        },
    decreases s@.len() - i,
{
    let n = s.unicode_len();
    if i >= n {
        return None;
    }
    let c = s.get_char(i);
    proof {
        assert(s@.skip(i as int)[0] == s@[i as int]);
    }
    if c == '"' {
        proof {
            assert(s@.skip(i as int).drop_first() =~= s@.skip(i as int + 1));
            assert(out@ =~= out@ + Seq::<char>::empty());
        }
        Some(i + 1)
    } else if c == '\\' {
        if i + 1 < n {
            let c2 = s.get_char(i + 1);
            proof {
                assert(s@.skip(i as int)[1] == s@[i as int + 1]);
            }
            if c2 == '"' || c2 == '\\' {
                let piece = s.substring_char(i + 1, i + 2);
                out.append(piece);
                proof {
                    assert(s@.skip(i as int).skip(2) =~= s@.skip(i as int + 2));
                    assert(piece@ =~= seq![s@[i as int + 1]]);
                }
                let r = parse_str_body(s, i + 2, out);
                proof {
                    if let Some(v) = p_str_body(s@.skip(i as int)) {
                        let inner = p_str_body(s@.skip(i as int + 2)).unwrap();
                        assert(v.0 =~= seq![s@[i as int + 1]] + inner.0);
                        assert(final(out)@ =~= old(out)@ + v.0);
                    }
                }
                r
            } else {
                None
            }
        } else {
            proof {
                assert(s@.skip(i as int).len() == s@.len() - i);
            }
            None
        }
    } else {
        let piece = s.substring_char(i, i + 1);
        out.append(piece);
        proof {
            assert(s@.skip(i as int).drop_first() =~= s@.skip(i as int + 1));
            assert(piece@ =~= seq![s@[i as int]]);
        }
        let r = parse_str_body(s, i + 1, out);
        proof {
            if let Some(v) = p_str_body(s@.skip(i as int)) {
                let inner = p_str_body(s@.skip(i as int + 1)).unwrap();
                assert(v.0 =~= seq![s@[i as int]] + inner.0);
                assert(final(out)@ =~= old(out)@ + v.0);
            }
        }
        r
    }
}

/// Parses a quoted string from position `i`.
fn parse_string(s: &str, i: usize) -> (r: Option<(String, usize)>)
    requires
        i <= s@.len(),
    ensures
        match p_string(s@.skip(i as int)) {
            Some(v) => r matches Some(p) && i <= p.1 <= s@.len() && p.0@ == v.0 && s@.skip(
                p.1 as int,
            ) == v.1,
            None => r is None,
        },
{
    let n = s.unicode_len();
    if i < n && s.get_char(i) == '"' {
        proof {
            assert(s@.skip(i as int)[0] == s@[i as int]);
            assert(s@.skip(i as int).drop_first() =~= s@.skip(i as int + 1));
        }
        let mut out = String::new();
        match parse_str_body(s, i + 1, &mut out) {
            Some(j) => Some((out, j)),
            None => None,
        }
    } else {
        proof {
            if i < s@.len() {
                assert(s@.skip(i as int)[0] == s@[i as int]);
            } else {
                assert(s@.skip(i as int).len() == 0);
            }
        }
        None
    }
}

/// Parses the leading digits from position `i`, failing on a value that does
/// not fit.
fn parse_digits(s: &str, i: usize, acc: u64) -> (r: Option<(u64, usize)>)
    requires
        i <= s@.len(),
    ensures
        ({
            let sp = p_digits(s@.skip(i as int), acc as nat);
            if sp.0 <= u64::MAX {
                r matches Some(p) && p.0 == sp.0 && i <= p.1 <= s@.len() && s@.skip(p.1 as int)
                    == sp.1
            } else {
                r is None
            }
        }),
    decreases s@.len() - i,
{
    let n = s.unicode_len();
    if i < n {
        let c = s.get_char(i);
        proof {
            assert(s@.skip(i as int)[0] == s@[i as int]);
        }
        let cv = c as u32;
        if 48 <= cv && cv <= 57 {
            let d = ((cv - 48) as u8) as u64;
            proof {
                assert(s@.skip(i as int).drop_first() =~= s@.skip(i as int + 1));
            }
            if acc > (u64::MAX - d) / 10 {
                proof {
                    lemma_p_digits_ge(s@.skip(i as int + 1), acc as nat * 10 + d as nat);
                    assert(acc as nat * 10 + d as nat > u64::MAX) by (nonlinear_arith)
                        requires
                            acc > (u64::MAX - d) / 10,
                            d <= 9,
                    ;
                }
                return None;
            }
            proof {
                assert(acc as nat * 10 + d as nat <= u64::MAX) by (nonlinear_arith)
                    requires
                        acc <= (u64::MAX - d) / 10,
                        d <= 9,
                ;
            }
            let acc2 = acc * 10 + d;
            return parse_digits(s, i + 1, acc2);
        }
    } else {
        proof {
            assert(s@.skip(i as int).len() == 0);
        }
    }
    Some((acc, i))
}

/// Parses a number of at least one digit from position `i`.
fn parse_u64(s: &str, i: usize) -> (r: Option<(u64, usize)>)
    requires
        i <= s@.len(),
    ensures
        match p_u64(s@.skip(i as int)) {
            Some(v) => if v.0 <= u64::MAX {
                r matches Some(p) && p.0 == v.0 && i <= p.1 <= s@.len() && s@.skip(p.1 as int)
                    == v.1
            } else {
                r is None
            },
            None => r is None,
        },
{
    let n = s.unicode_len();
    if i < n {
        let cv = s.get_char(i) as u32;
        proof {
            assert(s@.skip(i as int)[0] == s@[i as int]);
        }
        if 48 <= cv && cv <= 57 {
            return parse_digits(s, i, 0);
        }
    } else {
        proof {
            assert(s@.skip(i as int).len() == 0);
        }
    }
    None
}

/// Parses one entry from position `i`.
fn parse_entry(s: &str, i: usize) -> (r: Option<(Entry, usize)>)
    requires
        i <= s@.len(),
    ensures
        match p_entry(s@.skip(i as int)) {
            Some(v) => r matches Some(p) && i <= p.1 <= s@.len() && p.0@ == v.0 && s@.skip(
                p.1 as int,
            ) == v.1,
            None => r is None,
        },
{
    let i1 = match expect_char(s, i, '[') {
        Some(j) => j,
        None => {
            return None;
        },
    };
    let (person, i2) = match parse_string(s, i1) {
        Some(p) => p,
        None => {
            return None;
        },
    };
    let i3 = match expect_char(s, i2, ',') {
        Some(j) => j,
        None => {
            return None;
        },
    };
    let (tz, i4) = match parse_string(s, i3) {
        Some(p) => p,
        None => {
            return None;
        },
    };
    let i5 = match expect_char(s, i4, ']') {
        Some(j) => j,
        None => {
            return None;
        },
    };
    let e = Entry { person, tz };
    proof {
        let v = p_entry(s@.skip(i as int)).unwrap();
        assert(e@ =~= v.0);
    }
    Some((e, i5))
}

/// Parses `]`, or `,` and one more entry and the entries beyond, from
/// position `i`, pushing parsed entries onto `acc`.
fn parse_entry_tail(s: &str, i: usize, acc: &mut Vec<Entry>) -> (r: Option<usize>)
    requires
        i <= s@.len(),
    ensures
        match p_entry_tail(s@.skip(i as int), old(acc)@.map_values(|e: Entry| e@)) {
            Some(v) => r matches Some(j) && i <= j <= s@.len() && final(acc)@.map_values(
                |e: Entry| e@,
            ) == v.0 && s@.skip(j as int) == v.1,
            None => r is None,
        },
    decreases s@.len() - i,
{
    let n = s.unicode_len();
    if i >= n {
        proof {
            assert(s@.skip(i as int).len() == 0);
        }
        return None;
    }
    let c = s.get_char(i);
    proof {
        assert(s@.skip(i as int)[0] == s@[i as int]);
    }
    if c == ']' {
        proof {
            assert(s@.skip(i as int).drop_first() =~= s@.skip(i as int + 1));
        }
        Some(i + 1)
    } else if c == ',' {
        proof {
            assert(s@.skip(i as int).drop_first() =~= s@.skip(i as int + 1));
        }
        match parse_entry(s, i + 1) {
            None => None,
            Some((e, j)) => {
                proof {
                    lemma_p_entry_len(s@.skip(i as int + 1));
                }
                let ghost evs = acc@.map_values(|x: Entry| x@);
                let ghost ev = e@;
                acc.push(e);
                proof {
                    assert(acc@.map_values(|x: Entry| x@) =~= evs.push(ev));
                }
                parse_entry_tail(s, j, acc)
            },
        }
    } else {
        None
    }
}

/// Parses a bracketed entry list from position `i`.
fn parse_entry_list(s: &str, i: usize) -> (r: Option<(Vec<Entry>, usize)>)
    requires
        i <= s@.len(),
    ensures
        match p_entry_list(s@.skip(i as int)) {
            Some(v) => r matches Some(p) && i <= p.1 <= s@.len() && p.0@.map_values(|e: Entry| e@)
                == v.0 && s@.skip(p.1 as int) == v.1,
            None => r is None,
        },
{
    let i1 = match expect_char(s, i, '[') {
        Some(j) => j,
        None => {
            return None;
        },
    };
    let n = s.unicode_len();
    let mut out: Vec<Entry> = Vec::new();
    if i1 < n && s.get_char(i1) == ']' {
        proof {
            assert(s@.skip(i1 as int)[0] == s@[i1 as int]);
            assert(s@.skip(i1 as int).drop_first() =~= s@.skip(i1 as int + 1));
            assert(out@.map_values(|e: Entry| e@) =~= Seq::<EntryV>::empty());
        }
        return Some((out, i1 + 1));
    }
    proof {
        if i1 < s@.len() {
            assert(s@.skip(i1 as int)[0] == s@[i1 as int]);
        } else {
            assert(s@.skip(i1 as int).len() == 0);
        }
    }
    match parse_entry(s, i1) {
        None => None,
        Some((e, j)) => {
            let ghost ev = e@;
            out.push(e);
            proof {
                assert(out@.map_values(|x: Entry| x@) =~= seq![ev]);
            }
            match parse_entry_tail(s, j, &mut out) {
                None => None,
                Some(k) => Some((out, k)),
            }
        },
    }
}

/// Parses one record from position `i`.
fn parse_record(s: &str, i: usize) -> (r: Option<(GuildRecord, usize)>)
    requires
        i <= s@.len(),
    ensures
        match p_record(s@.skip(i as int)) {
            Some(v) => r matches Some(p) && i <= p.1 <= s@.len() && p.0@ == v.0 && s@.skip(
                p.1 as int,
            ) == v.1,
            None => r is None,
        },
{
    let i1 = match expect_char(s, i, '[') {
        Some(j) => j,
        None => {
            return None;
        },
    };
    let (guild, i2) = match parse_u64(s, i1) {
        Some(p) => p,
        None => {
            return None;
        },
    };
    let i3 = match expect_char(s, i2, ',') {
        Some(j) => j,
        None => {
            return None;
        },
    };
    let (entries, i4) = match parse_entry_list(s, i3) {
        Some(p) => p,
        None => {
            return None;
        },
    };
    let i5 = match expect_char(s, i4, ']') {
        Some(j) => j,
        None => {
            return None;
        },
    };
    let rec = GuildRecord { guild, entries };
    proof {
        let v = p_record(s@.skip(i as int)).unwrap();
        assert(rec@ =~= v.0);
    }
    Some((rec, i5))
}

/// Parses `]`, or `,` and one more record and the records beyond, from
/// position `i`, pushing parsed records onto `acc`.
fn parse_record_tail(s: &str, i: usize, acc: &mut Vec<GuildRecord>) -> (r: Option<usize>)
    requires
        i <= s@.len(),
    ensures
        match p_record_tail(s@.skip(i as int), old(acc)@.map_values(|x: GuildRecord| x@)) {
            Some(v) => r matches Some(j) && i <= j <= s@.len() && final(acc)@.map_values(
                |x: GuildRecord| x@,
            ) == v.0 && s@.skip(j as int) == v.1,
            None => r is None,
        },
    decreases s@.len() - i,
{
    let n = s.unicode_len();
    if i >= n {
        proof {
            assert(s@.skip(i as int).len() == 0);
        }
        return None;
    }
    let c = s.get_char(i);
    proof {
        assert(s@.skip(i as int)[0] == s@[i as int]);
    }
    if c == ']' {
        proof {
            assert(s@.skip(i as int).drop_first() =~= s@.skip(i as int + 1));
        }
        Some(i + 1)
    } else if c == ',' {
        proof {
            assert(s@.skip(i as int).drop_first() =~= s@.skip(i as int + 1));
        }
        match parse_record(s, i + 1) {
            None => None,
            Some((rec, j)) => {
                proof {
                    lemma_p_record_len(s@.skip(i as int + 1));
                }
                let ghost rvs = acc@.map_values(|x: GuildRecord| x@);
                let ghost rv = rec@;
                acc.push(rec);
                proof {
                    assert(acc@.map_values(|x: GuildRecord| x@) =~= rvs.push(rv));
                }
                parse_record_tail(s, j, acc)
            },
        }
    } else {
        None
    }
}

/// Parses a bracketed record list from position `i`.
fn parse_record_list(s: &str, i: usize) -> (r: Option<(Vec<GuildRecord>, usize)>)
    requires
        i <= s@.len(),
    ensures
        match p_record_list(s@.skip(i as int)) {
            Some(v) => r matches Some(p) && i <= p.1 <= s@.len() && p.0@.map_values(
                |x: GuildRecord| x@,
            ) == v.0 && s@.skip(p.1 as int) == v.1,
            None => r is None,
        },
{
    let i1 = match expect_char(s, i, '[') {
        Some(j) => j,
        None => {
            return None;
        },
    };
    let n = s.unicode_len();
    let mut out: Vec<GuildRecord> = Vec::new();
    if i1 < n && s.get_char(i1) == ']' {
        proof {
            assert(s@.skip(i1 as int)[0] == s@[i1 as int]);
            assert(s@.skip(i1 as int).drop_first() =~= s@.skip(i1 as int + 1));
            assert(out@.map_values(|x: GuildRecord| x@) =~= Seq::<RecordV>::empty());
        }
        return Some((out, i1 + 1));
    }
    proof {
        if i1 < s@.len() {
            assert(s@.skip(i1 as int)[0] == s@[i1 as int]);
        } else {
            assert(s@.skip(i1 as int).len() == 0);
        }
    }
    match parse_record(s, i1) {
        None => None,
        Some((rec, j)) => {
            let ghost rv = rec@;
            out.push(rec);
            proof {
                assert(out@.map_values(|x: GuildRecord| x@) =~= seq![rv]);
            }
            match parse_record_tail(s, j, &mut out) {
                None => None,
                Some(k) => Some((out, k)),
            }
        },
    }
}

/// Whether the records carry pairwise distinct guild identifiers.
fn guilds_unique(recs: &Vec<GuildRecord>) -> (r: bool)
    ensures
        r == crate::registry::wf(recs@.map_values(|x: GuildRecord| x@)),
{
    let ghost rv = recs@.map_values(|x: GuildRecord| x@);
    let n = recs.len();
    let mut i: usize = 0;
    while i < n
        invariant
            n == recs@.len(),
            rv == recs@.map_values(|x: GuildRecord| x@),
            rv.len() == n,
            0 <= i <= n,
            forall|a: int, b: int| 0 <= a < b < n && a < i ==> rv[a].guild != rv[b].guild,
        decreases n - i,
    {
        let mut j: usize = i + 1;
        while j < n
            invariant
                n == recs@.len(),
                rv == recs@.map_values(|x: GuildRecord| x@),
                rv.len() == n,
                0 <= i < j <= n,
                forall|b: int| i < b < j ==> rv[i as int].guild != rv[b].guild,
            decreases n - j,
        {
            if recs[i].guild == recs[j].guild {
                proof {
                    assert(rv[i as int].guild == rv[j as int].guild);
                }
                return false;
            }
            j = j + 1;
        }
        i = i + 1;
    }
    true
}

/// Parses a whole snapshot text, accepting exactly the persisted form with
/// pairwise distinct guild identifiers.
pub fn parse_snapshot(s: &str) -> (r: Option<Registry>)
    ensures
        match decode_spec(s@) {
            Some(recs) => r matches Some(reg) && reg@ == recs,
            None => r is None,
        },
{
    proof {
        assert(s@.skip(0) =~= s@);
    }
    let i1 = match expect_char(s, 0, '{') {
        Some(j) => j,
        None => {
            return None;
        },
    };
    let i2 = match expect_char(s, i1, '"') {
        Some(j) => j,
        None => {
            return None;
        },
    };
    let i3 = match expect_char(s, i2, 'd') {
        Some(j) => j,
        None => {
            return None;
        },
    };
    let i4 = match expect_char(s, i3, 'a') {
        Some(j) => j,
        None => {
            return None;
        },
    };
    let i5 = match expect_char(s, i4, 't') {
        Some(j) => j,
        None => {
            return None;
        },
    };
    let i6 = match expect_char(s, i5, 'a') {
        Some(j) => j,
        None => {
            return None;
        },
    };
    let i7 = match expect_char(s, i6, '"') {
        Some(j) => j,
        None => {
            return None;
        },
    };
    let i8 = match expect_char(s, i7, ':') {
        Some(j) => j,
        None => {
            return None;
        },
    };
    let (recs, i9) = match parse_record_list(s, i8) {
        Some(p) => p,
        None => {
            return None;
        },
    };
    let i10 = match expect_char(s, i9, '}') {
        Some(j) => j,
        None => {
            return None;
        },
    };
    let n = s.unicode_len();
    if i10 != n {
        proof {
            assert(s@.skip(i10 as int).len() == s@.len() - i10);
        }
        return None;
    }
    proof {
        assert(s@.skip(i10 as int).len() == 0);
    }
    if !guilds_unique(&recs) {
        return None;
    }
    Some(Registry { recs })
}

/// Reads a snapshot text into a registry: the parsed records when the text
/// is exactly a well-formed snapshot, an empty registry otherwise. A missing
/// or corrupt persistence file thus reads as "no data yet", never an error.
pub fn load_snapshot(s: &str) -> (reg: Registry)
    ensures
        match decode_spec(s@) {
            Some(recs) => reg@ == recs,
            None => reg@ =~= Seq::<RecordV>::empty(),
        },
        crate::registry::wf(reg@),
{
    match parse_snapshot(s) {
        Some(reg) => reg,
        None => Registry::new(),
    }
}

/// Appends the digit character of `d`.
pub(crate) fn append_digit(d: u64, out: &mut String)
    requires
        d < 10,
    ensures
        final(out)@ == old(out)@ + seq![digit_char(d as nat)],
{
    proof {
        reveal_strlit("0");
        reveal_strlit("1");
        reveal_strlit("2");
        reveal_strlit("3");
        reveal_strlit("4");
        reveal_strlit("5");
        reveal_strlit("6");
        reveal_strlit("7");
        reveal_strlit("8");
        reveal_strlit("9");
    }
    if d == 0 {
        out.append("0");
    } else if d == 1 {
        out.append("1");
    } else if d == 2 {
        out.append("2");
    } else if d == 3 {
        out.append("3");
    } else if d == 4 {
        out.append("4");
    } else if d == 5 {
        out.append("5");
    } else if d == 6 {
        out.append("6");
    } else if d == 7 {
        out.append("7");
    } else if d == 8 {
        out.append("8");
    } else {
        out.append("9");
    }
    proof {
        assert(final(out)@ =~= old(out)@ + seq![digit_char(d as nat)]);
    }
}

/// Appends the decimal digits of `n`.
pub(crate) fn append_u64(n: u64, out: &mut String)
    ensures
        final(out)@ == old(out)@ + dec_digits(n as nat),
    decreases n,
{
    if n < 10 {
        append_digit(n, out);
    } else {
        append_u64(n / 10, out);
        append_digit(n % 10, out);
        proof {
            assert(final(out)@ =~= old(out)@ + dec_digits(n as nat));
        }
    }
}

/// Appends `s` with quotes and backslashes escaped.
fn append_escaped(s: &str, out: &mut String)
    ensures
        final(out)@ == old(out)@ + esc(s@),
{
    let n = s.unicode_len();
    let mut i: usize = 0;
    proof {
        assert(s@.take(0) =~= Seq::<char>::empty());
        assert(out@ =~= old(out)@ + esc(s@.take(0)));
    }
    while i < n
        invariant
            n == s@.len(),
            0 <= i <= n,
            out@ == old(out)@ + esc(s@.take(i as int)),
        decreases n - i,
    {
        let c = s.get_char(i);
        if c == '"' || c == '\\' {
            proof {
                reveal_strlit("\\");
            }
            out.append("\\");
        }
        let piece = s.substring_char(i, i + 1);
        out.append(piece);
        proof {
            assert(piece@ =~= seq![s@[i as int]]);
            lemma_esc_push(s@.take(i as int), s@[i as int]);
            assert(s@.take(i as int).push(s@[i as int]) =~= s@.take(i + 1));
            assert(out@ =~= old(out)@ + esc(s@.take(i + 1)));
        }
        i = i + 1;
    }
    proof {
        assert(s@.take(n as int) =~= s@);
    }
}

/// Appends `s` as a quoted, escaped string.
fn append_string_enc(s: &str, out: &mut String)
    ensures
        final(out)@ == old(out)@ + enc_string(s@),
{
    proof {
        reveal_strlit("\"");
    }
    out.append("\"");
    append_escaped(s, out);
    out.append("\"");
    proof {
        assert(final(out)@ =~= old(out)@ + enc_string(s@));
    }
}

/// Appends one encoded entry.
fn append_entry(e: &Entry, out: &mut String)
    ensures
        final(out)@ == old(out)@ + enc_entry(e@),
{
    proof {
        reveal_strlit("[");
        reveal_strlit(",");
        reveal_strlit("]");
    }
    out.append("[");
    append_string_enc(e.person.as_str(), out);
    out.append(",");
    append_string_enc(e.tz.as_str(), out);
    out.append("]");
    proof {
        assert(final(out)@ =~= old(out)@ + enc_entry(e@));
    }
}

/// Appends one encoded entry list.
fn append_entry_list(es: &Vec<Entry>, out: &mut String)
    ensures
        final(out)@ == old(out)@ + enc_entry_list(es@.map_values(|e: Entry| e@)),
{
    proof {
        reveal_strlit("[");
        reveal_strlit(",");
        reveal_strlit("]");
    }
    let ghost esv = es@.map_values(|e: Entry| e@);
    out.append("[");
    let n = es.len();
    if n > 0 {
        append_entry(&es[0], out);
        let mut i: usize = 1;
        proof {
            assert(esv.subrange(1, 1) =~= Seq::<EntryV>::empty());
            assert(out@ =~= old(out)@ + seq!['['] + enc_entry(esv[0]) + enc_entry_tail(
                esv.subrange(1, 1),
            ));
        }
        while i < n
            invariant
                n == es@.len(),
                esv == es@.map_values(|e: Entry| e@),
                esv.len() == n,
                1 <= i <= n,
                out@ == old(out)@ + seq!['['] + enc_entry(esv[0]) + enc_entry_tail(
                    esv.subrange(1, i as int),
                ),
            decreases n - i,
        {
            proof {
                reveal_strlit(",");
            }
            out.append(",");
            append_entry(&es[i], out);
            proof {
                lemma_entry_tail_push(esv.subrange(1, i as int), esv[i as int]);
                assert(esv.subrange(1, i as int).push(esv[i as int]) =~= esv.subrange(
                    1,
                    i + 1,
                ));
                assert(out@ =~= old(out)@ + seq!['['] + enc_entry(esv[0]) + enc_entry_tail(
                    esv.subrange(1, i + 1),
                ));
            }
            i = i + 1;
        }
        proof {
            assert(esv.subrange(1, n as int) =~= esv.drop_first());
        }
    }
    out.append("]");
    proof {
        assert(final(out)@ =~= old(out)@ + enc_entry_list(esv));
    }
}

/// Appends one encoded record.
fn append_record(r: &GuildRecord, out: &mut String)
    ensures
        final(out)@ == old(out)@ + enc_record(r@),
{
    proof {
        reveal_strlit("[");
        reveal_strlit(",");
        reveal_strlit("]");
    }
    out.append("[");
    append_u64(r.guild, out);
    out.append(",");
    append_entry_list(&r.entries, out);
    out.append("]");
    proof {
        assert(final(out)@ =~= old(out)@ + enc_record(r@));
    }
}

/// Serializes the registry's full snapshot. This is the single persisted
/// artifact; writing it to disk (with a write-then-rename discipline) is the
/// caller's business and only ever reads the registry.
pub fn encode_snapshot(reg: &Registry) -> (r: String)
    ensures
        r@ == enc_snapshot(reg@),
{
    proof {
        reveal_strlit("{\"data\":");
        reveal_strlit("[");
        reveal_strlit(",");
        reveal_strlit("]");
        reveal_strlit("}");
    }
    let mut out = String::new();
    out.append("{\"data\":");
    let ghost rv = reg@;
    let ghost base = out@;
    proof {
        assert(base =~= seq!['{', '"', 'd', 'a', 't', 'a', '"', ':']);
    }
    out.append("[");
    let n = reg.recs.len();
    if n > 0 {
        append_record(&reg.recs[0], &mut out);
        let mut i: usize = 1;
        proof {
            assert(rv.subrange(1, 1) =~= Seq::<RecordV>::empty());
            assert(out@ =~= base + seq!['['] + enc_record(rv[0]) + enc_record_tail(
                rv.subrange(1, 1),
            ));
        }
        while i < n
            invariant
                n == reg.recs@.len(),
                rv == reg@,
                rv.len() == n,
                1 <= i <= n,
                out@ == base + seq!['['] + enc_record(rv[0]) + enc_record_tail(
                    rv.subrange(1, i as int),
                ),
            decreases n - i,
        {
            proof {
                reveal_strlit(",");
            }
            out.append(",");
            append_record(&reg.recs[i], &mut out);
            proof {
                lemma_record_tail_push(rv.subrange(1, i as int), rv[i as int]);
                assert(rv.subrange(1, i as int).push(rv[i as int]) =~= rv.subrange(1, i + 1));
                assert(out@ =~= base + seq!['['] + enc_record(rv[0]) + enc_record_tail(
                    rv.subrange(1, i + 1),
                ));
            }
            i = i + 1;
        }
        proof {
            assert(rv.subrange(1, n as int) =~= rv.drop_first());
        }
    }
    out.append("]");
    out.append("}");
    proof {
        assert(out@ =~= enc_snapshot(rv));
    }
    out
}

} // verus!
