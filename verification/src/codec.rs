//! Canonical byte encoding of the cache file.
//!
//! The cache file holds the application list as one JSON array of objects,
//! written compactly and in one fixed shape:
//!
//! ```text
//! [{"name":"Mail","path":"/Applications/Mail.app"},...]
//! ```
//!
//! Inside a string, `"` is written `\"`, `\` is written `\\`, and a control
//! byte below 0x20 is written `\u00xx` with two lowercase hex digits.  Every
//! other byte stands for itself.  The encoding is canonical: every list has
//! exactly one encoding, and the parser accepts exactly the encodings — any
//! other content is rejected as corrupt.  The subsystem is the only writer of
//! the cache file, so nothing is lost by insisting on the canonical form, and
//! re-serializing a parsed file reproduces it byte for byte.

use vstd::prelude::*;

use crate::model::AppEntry;
use crate::model::AppEntryModel;
use crate::model::models;

verus! {

pub const QUOTE: u8 = 34;
pub const COMMA: u8 = 44;
pub const COLON: u8 = 58;
pub const LBRACKET: u8 = 91;
pub const BACKSLASH: u8 = 92;
pub const RBRACKET: u8 = 93;
pub const LBRACE: u8 = 123;
pub const RBRACE: u8 = 125;
pub const LETTER_U: u8 = 117;
pub const DIGIT_ZERO: u8 = 48;
pub const DIGIT_ONE: u8 = 49;

/// The lowercase hex digit of a value below 16.
pub open spec fn hex_digit(n: u8) -> u8 {
    if n < 10 {
        (DIGIT_ZERO + n) as u8
    } else {
        (87 + n) as u8
    }
}

/// Whether `c` is a lowercase hex digit.
pub open spec fn is_hex_digit(c: u8) -> bool {
    (48 <= c && c <= 57) || (97 <= c && c <= 102)
}

/// The value of a lowercase hex digit.
pub open spec fn hex_value(c: u8) -> u8 {
    if c <= 57 {
        (c - 48) as u8
    } else {
        (c - 87) as u8
    }
}

/// High hex digit of a control byte (below 0x20).
pub open spec fn high_digit(b: u8) -> u8 {
    if b < 16 {
        DIGIT_ZERO
    } else {
        DIGIT_ONE
    }
}

/// Low hex digit of a control byte (below 0x20).
pub open spec fn low_digit(b: u8) -> u8 {
    if b < 16 {
        hex_digit(b)
    } else {
        hex_digit((b - 16) as u8)
    }
}

/// The encoding of one byte inside a string.
pub open spec fn esc_byte(b: u8) -> Seq<u8> {
    if b == QUOTE {
        seq![BACKSLASH, QUOTE]
    } else if b == BACKSLASH {
        seq![BACKSLASH, BACKSLASH]
    } else if b < 32 {
        seq![BACKSLASH, LETTER_U, DIGIT_ZERO, DIGIT_ZERO, high_digit(b), low_digit(b)]
    } else {
        seq![b]
    }
}

/// The encoding of a whole string body (without the surrounding quotes).
pub open spec fn esc(s: Seq<u8>) -> Seq<u8>
    decreases s.len(),
{
    if s.len() == 0 {
        Seq::empty()
    } else {
        esc_byte(s[0]) + esc(s.drop_first())
    }
}

/// The bytes `{"name":"` that open every entry.
pub open spec fn name_key() -> Seq<u8> {
    seq![LBRACE, QUOTE, 110u8, 97u8, 109u8, 101u8, QUOTE, COLON, QUOTE]
}

/// The bytes `,"path":"` that separate the two fields of an entry.
pub open spec fn path_key() -> Seq<u8> {
    seq![COMMA, QUOTE, 112u8, 97u8, 116u8, 104u8, QUOTE, COLON, QUOTE]
}

/// The encoding of one entry.
pub open spec fn ser_entry(e: AppEntryModel) -> Seq<u8> {
    name_key() + esc(e.name) + seq![QUOTE] + path_key() + esc(e.path) + seq![QUOTE, RBRACE]
}

/// The encodings of the entries of a list, joined by commas.
pub open spec fn ser_entries(l: Seq<AppEntryModel>) -> Seq<u8>
    decreases l.len(),
{
    if l.len() == 0 {
        Seq::empty()
    } else if l.len() == 1 {
        ser_entry(l[0])
    } else {
        ser_entry(l[0]) + seq![COMMA] + ser_entries(l.drop_first())
    }
}

/// The canonical encoding of an application list.
pub open spec fn spec_serialize(l: Seq<AppEntryModel>) -> Seq<u8> {
    seq![LBRACKET] + ser_entries(l) + seq![RBRACKET]
}

/// `esc` distributes over concatenation.
pub proof fn lemma_esc_add(a: Seq<u8>, b: Seq<u8>)
    ensures
        esc(a + b) == esc(a) + esc(b),
    decreases a.len(),
{
    if a.len() == 0 {
        assert(a + b =~= b);
        assert(esc(a) + esc(b) =~= esc(b));
    } else {
        assert((a + b).drop_first() =~= a.drop_first() + b);
        lemma_esc_add(a.drop_first(), b);
        assert(esc(a + b) =~= esc(a) + esc(b));
    }
}

/// `esc` of a prefix grows one group at a time.
pub proof fn lemma_esc_take_step(s: Seq<u8>, i: int)
    requires
        0 <= i < s.len(),
    ensures
        esc(s.take(i + 1)) == esc(s.take(i)) + esc_byte(s[i]),
{
    assert(s.take(i + 1) =~= s.take(i) + seq![s[i]]);
    lemma_esc_add(s.take(i), seq![s[i]]);
    assert(seq![s[i]].drop_first() =~= Seq::<u8>::empty());
    assert(seq![s[i]].len() == 1 && seq![s[i]][0] == s[i]);
    assert(esc(Seq::<u8>::empty()) == Seq::<u8>::empty());
    assert(esc(seq![s[i]]) == esc_byte(s[i]) + Seq::<u8>::empty());
    assert(esc_byte(s[i]) + Seq::<u8>::empty() =~= esc_byte(s[i]));
}

/// Appending an entry extends the joined encoding at the end.
pub proof fn lemma_ser_entries_push(l: Seq<AppEntryModel>, e: AppEntryModel)
    ensures
        l.len() == 0 ==> ser_entries(l.push(e)) == ser_entry(e),
        l.len() > 0 ==> ser_entries(l.push(e)) == ser_entries(l) + seq![COMMA] + ser_entry(e),
    decreases l.len(),
{
    if l.len() == 0 {
        assert(l.push(e).len() == 1);
        assert(l.push(e)[0] == e);
    } else if l.len() == 1 {
        assert(l.push(e).drop_first() =~= seq![e]);
        assert(l.push(e)[0] == l[0]);
        assert(seq![e].len() == 1 && seq![e][0] == e);
        assert(ser_entries(seq![e]) == ser_entry(e));
        assert(ser_entries(l.push(e)) == ser_entry(l[0]) + seq![COMMA] + ser_entry(e));
        assert(ser_entries(l) == ser_entry(l[0]));
    } else {
        assert(l.push(e).drop_first() =~= l.drop_first().push(e));
        lemma_ser_entries_push(l.drop_first(), e);
        assert(ser_entries(l.push(e)) == ser_entry(l[0]) + seq![COMMA] + (ser_entries(l.drop_first())
            + seq![COMMA] + ser_entry(e)));
        assert(ser_entry(l[0]) + seq![COMMA] + (ser_entries(l.drop_first()) + seq![COMMA]
            + ser_entry(e)) =~= (ser_entry(l[0]) + seq![COMMA] + ser_entries(l.drop_first()))
            + seq![COMMA] + ser_entry(e));
    }
}

/// Appends the encoding of one byte to `out`.
fn push_escaped_byte(out: &mut Vec<u8>, b: u8)
    ensures
        final(out)@ == old(out)@ + esc_byte(b),
{
    if b == QUOTE {
        out.push(BACKSLASH);
        out.push(QUOTE);
    } else if b == BACKSLASH {
        out.push(BACKSLASH);
        out.push(BACKSLASH);
    } else if b < 32 {
        out.push(BACKSLASH);
        out.push(LETTER_U);
        out.push(DIGIT_ZERO);
        out.push(DIGIT_ZERO);
        if b < 16 {
            out.push(DIGIT_ZERO);
            if b < 10 {
                out.push(DIGIT_ZERO + b);
            } else {
                out.push(87 + b);
            }
        } else {
            out.push(DIGIT_ONE);
            let low = b - 16;
            if low < 10 {
                out.push(DIGIT_ZERO + low);
            } else {
                out.push(87 + low);
            }
        }
    } else {
        out.push(b);
    }
    proof {
        assert(out@ =~= old(out)@ + esc_byte(b));
    }
}

/// Appends the encoding of a whole string body to `out`.
fn push_escaped(out: &mut Vec<u8>, s: &Vec<u8>)
    ensures
        final(out)@ == old(out)@ + esc(s@),
{
    let mut i: usize = 0;
    while i < s.len()
        invariant
            i <= s.len(),
            out@ == old(out)@ + esc(s@.take(i as int)),
        decreases s.len() - i,
    {
        proof {
            lemma_esc_take_step(s@, i as int);
        }
        push_escaped_byte(out, s[i]);
        i = i + 1;
        proof {
            assert(old(out)@ + esc(s@.take(i - 1)) + esc_byte(s@[i - 1]) =~= old(out)@ + (esc(
                s@.take(i - 1)) + esc_byte(s@[i - 1])));
        }
    }
    proof {
        assert(s@.take(s@.len() as int) =~= s@);
    }
}

/// Appends the encoding of one entry to `out`.
fn push_entry(out: &mut Vec<u8>, e: &AppEntry)
    ensures
        final(out)@ == old(out)@ + ser_entry(e@),
{
    out.push(LBRACE);
    out.push(QUOTE);
    out.push(110);
    out.push(97);
    out.push(109);
    out.push(101);
    out.push(QUOTE);
    out.push(COLON);
    out.push(QUOTE);
    proof {
        assert(out@ =~= old(out)@ + name_key());
    }
    push_escaped(out, &e.name);
    out.push(QUOTE);
    out.push(COMMA);
    out.push(QUOTE);
    out.push(112);
    out.push(97);
    out.push(116);
    out.push(104);
    out.push(QUOTE);
    out.push(COLON);
    out.push(QUOTE);
    push_escaped(out, &e.path);
    out.push(QUOTE);
    out.push(RBRACE);
    proof {
        assert(out@ =~= old(out)@ + ser_entry(e@));
    }
}

/// Serializes an application list into its canonical cache-file bytes.
pub fn serialize_apps(apps: &Vec<AppEntry>) -> (out: Vec<u8>)
    ensures
        out@ == spec_serialize(models(apps@)),
{
    let mut out: Vec<u8> = Vec::new();
    out.push(LBRACKET);
    let mut i: usize = 0;
    while i < apps.len()
        invariant
            i <= apps.len(),
            out@ == seq![LBRACKET] + ser_entries(models(apps@).take(i as int)),
        decreases apps.len() - i,
    {
        if i > 0 {
            out.push(COMMA);
        }
        push_entry(&mut out, &apps[i]);
        i = i + 1;
        proof {
            let m = models(apps@);
            assert(m.take(i as int) =~= m.take(i - 1).push(m[i - 1]));
            lemma_ser_entries_push(m.take(i - 1), m[i - 1]);
            assert(out@ =~= seq![LBRACKET] + ser_entries(m.take(i as int)));
        }
    }
    out.push(RBRACKET);
    proof {
        assert(models(apps@).take(apps@.len() as int) =~= models(apps@));
        assert(out@ =~= spec_serialize(models(apps@)));
    }
    out
}

/// Whether `pat` occurs in `s` at position `i`.
pub open spec fn matches_at(s: Seq<u8>, i: int, pat: Seq<u8>) -> bool {
    0 <= i && i + pat.len() <= s.len() && s.subrange(i, i + pat.len()) == pat
}

/// The byte a canonical `\u00xx` escape stands for.
pub open spec fn escape_code(hi: u8, lo: u8) -> u8 {
    if hi == DIGIT_ZERO {
        hex_value(lo)
    } else {
        (16 + hex_value(lo)) as u8
    }
}

/// Scans a string body from position `i` up to and including its closing
/// quote.  `acc` carries the bytes already decoded.  Returns the decoded
/// body and the position just past the closing quote, or `None` when the
/// bytes are not a canonical encoding.
pub open spec fn scan_string(s: Seq<u8>, i: int, acc: Seq<u8>) -> Option<(Seq<u8>, int)>
    decreases s.len() - i,
{
    if i < 0 || i >= s.len() {
        None
    } else if s[i] == QUOTE {
        Some((acc, i + 1))
    } else if s[i] == BACKSLASH {
        if i + 1 < s.len() && (s[i + 1] == QUOTE || s[i + 1] == BACKSLASH) {
            scan_string(s, i + 2, acc.push(s[i + 1]))
        } else if i + 5 < s.len() && s[i + 1] == LETTER_U && s[i + 2] == DIGIT_ZERO && s[i + 3]
            == DIGIT_ZERO && (s[i + 4] == DIGIT_ZERO || s[i + 4] == DIGIT_ONE) && is_hex_digit(
            s[i + 5]) {
            scan_string(s, i + 6, acc.push(escape_code(s[i + 4], s[i + 5])))
        } else {
            None
        }
    } else if s[i] >= 32 {
        scan_string(s, i + 1, acc.push(s[i]))
    } else {
        None
    }
}

/// Parses one entry starting at position `i`; returns its value and the
/// position just past its closing brace.
pub open spec fn parse_entry(s: Seq<u8>, i: int) -> Option<(AppEntryModel, int)> {
    if matches_at(s, i, name_key()) {
        match scan_string(s, i + 9, Seq::empty()) {
            Some((name, j)) => if matches_at(s, j, path_key()) {
                match scan_string(s, j + 9, Seq::empty()) {
                    Some((path, k)) => if k < s.len() && s[k] == RBRACE {
                        Some((AppEntryModel { name, path }, k + 1))
                    } else {
                        None
                    },
                    None => None,
                }
            } else {
                None
            },
            None => None,
        }
    } else {
        None
    }
}

/// A successful scan moves forward and stays inside the input.
pub proof fn lemma_scan_bounds(s: Seq<u8>, i: int, acc: Seq<u8>)
    requires
        scan_string(s, i, acc) is Some,
    ensures
        0 <= i < scan_string(s, i, acc).unwrap().1 <= s.len(),
    decreases s.len() - i,
{
    if s[i] == QUOTE {
    } else if s[i] == BACKSLASH {
        if i + 1 < s.len() && (s[i + 1] == QUOTE || s[i + 1] == BACKSLASH) {
            lemma_scan_bounds(s, i + 2, acc.push(s[i + 1]));
        } else {
            lemma_scan_bounds(s, i + 6, acc.push(escape_code(s[i + 4], s[i + 5])));
        }
    } else {
        lemma_scan_bounds(s, i + 1, acc.push(s[i]));
    }
}

/// A successful entry parse moves forward and stays inside the input.
pub proof fn lemma_parse_entry_bounds(s: Seq<u8>, i: int)
    requires
        parse_entry(s, i) is Some,
    ensures
        0 <= i < parse_entry(s, i).unwrap().1 <= s.len(),
{
    let (name, j) = scan_string(s, i + 9, Seq::empty()).unwrap();
    lemma_scan_bounds(s, i + 9, Seq::empty());
    let (path, k) = scan_string(s, j + 9, Seq::empty()).unwrap();
    lemma_scan_bounds(s, j + 9, Seq::empty());
}

/// Parses the comma-separated entries of a non-empty list, starting at
/// position `i`, up to the closing bracket, which must end the input.
/// `acc` carries the entries already parsed.
pub open spec fn parse_entries(s: Seq<u8>, i: int, acc: Seq<AppEntryModel>) -> Option<
    Seq<AppEntryModel>,
>
    decreases s.len() - i,
{
    match parse_entry(s, i) {
        None => None,
        Some((e, j)) => if j < s.len() && s[j] == COMMA {
            proof {
                lemma_parse_entry_bounds(s, i);
            }
            parse_entries(s, j + 1, acc.push(e))
        } else if j == s.len() - 1 && s[j] == RBRACKET {
            Some(acc.push(e))
        } else {
            None
        },
    }
}

/// Parses a whole cache file.  Returns the application list exactly when the
/// bytes are the canonical encoding of one.
pub open spec fn spec_parse(s: Seq<u8>) -> Option<Seq<AppEntryModel>> {
    if s.len() == 2 && s[0] == LBRACKET && s[1] == RBRACKET {
        Some(Seq::empty())
    } else if s.len() > 0 && s[0] == LBRACKET {
        parse_entries(s, 1, Seq::empty())
    } else {
        None
    }
}

/// The value of a lowercase hex digit, executable.
fn hex_value_exec(c: u8) -> (r: u8)
    requires
        is_hex_digit(c),
    ensures
        r == hex_value(c),
{
    if c <= 57 {
        c - 48
    } else {
        c - 87
    }
}

/// Scans a string body, mirroring [`scan_string`].
fn scan_exec(s: &Vec<u8>, i: usize, acc: Vec<u8>) -> (r: Option<(Vec<u8>, usize)>)
    ensures
        ({
            let sp = scan_string(s@, i as int, acc@);
            match r {
                None => sp is None,
                Some(p) => sp == Some((p.0@, p.1 as int)),
            }
        }),
    decreases s@.len() - i,
{
    if i >= s.len() {
        return None;
    }
    let c = s[i];
    if c == QUOTE {
        Some((acc, i + 1))
    } else if c == BACKSLASH {
        if s.len() - i > 1 && (s[i + 1] == QUOTE || s[i + 1] == BACKSLASH) {
            let b = s[i + 1];
            let mut acc2 = acc;
            acc2.push(b);
            scan_exec(s, i + 2, acc2)
        } else if s.len() - i > 5 && s[i + 1] == LETTER_U && s[i + 2] == DIGIT_ZERO && s[i + 3]
            == DIGIT_ZERO && (s[i + 4] == DIGIT_ZERO || s[i + 4] == DIGIT_ONE) && (s[i + 5] >= 48
            && s[i + 5] <= 57 || s[i + 5] >= 97 && s[i + 5] <= 102) {
            let v = hex_value_exec(s[i + 5]);
            let b = if s[i + 4] == DIGIT_ZERO {
                v
            } else {
                16 + v
            };
            let mut acc2 = acc;
            acc2.push(b);
            scan_exec(s, i + 6, acc2)
        } else {
            None
        }
    } else if c >= 32 {
        let mut acc2 = acc;
        acc2.push(c);
        scan_exec(s, i + 1, acc2)
    } else {
        None
    }
}

/// Whether the bytes of `name_key` stand at position `i`.
fn has_name_key(s: &Vec<u8>, i: usize) -> (r: bool)
    ensures
        r == matches_at(s@, i as int, name_key()),
{
    let r = i < s.len() && s.len() - i >= 9 && s[i] == LBRACE && s[i + 1] == QUOTE && s[i + 2]
        == 110 && s[i + 3] == 97 && s[i + 4] == 109 && s[i + 5] == 101 && s[i + 6] == QUOTE && s[i
        + 7] == COLON && s[i + 8] == QUOTE;
    proof {
        if r {
            assert(s@.subrange(i as int, i + 9) =~= name_key());
        } else {
            if i + 9 <= s@.len() {
                assert(s@.subrange(i as int, i + 9).len() == 9);
                if s@.subrange(i as int, i + 9) == name_key() {
                    assert(forall|k: int| 0 <= k < 9 ==> s@.subrange(i as int, i + 9)[k]
                        == name_key()[k]);
                    assert(false);
                }
            }
        }
    }
    r
}

/// Whether the bytes of `path_key` stand at position `i`.
fn has_path_key(s: &Vec<u8>, i: usize) -> (r: bool)
    ensures
        r == matches_at(s@, i as int, path_key()),
{
    let r = i < s.len() && s.len() - i >= 9 && s[i] == COMMA && s[i + 1] == QUOTE && s[i + 2]
        == 112 && s[i + 3] == 97 && s[i + 4] == 116 && s[i + 5] == 104 && s[i + 6] == QUOTE && s[i
        + 7] == COLON && s[i + 8] == QUOTE;
    proof {
        if r {
            assert(s@.subrange(i as int, i + 9) =~= path_key());
        } else {
            if i + 9 <= s@.len() {
                assert(s@.subrange(i as int, i + 9).len() == 9);
                if s@.subrange(i as int, i + 9) == path_key() {
                    assert(forall|k: int| 0 <= k < 9 ==> s@.subrange(i as int, i + 9)[k]
                        == path_key()[k]);
                    assert(false);
                }
            }
        }
    }
    r
}

/// Parses one entry, mirroring [`parse_entry`].
fn parse_entry_exec(s: &Vec<u8>, i: usize) -> (r: Option<(AppEntry, usize)>)
    ensures
        ({
            let sp = parse_entry(s@, i as int);
            match r {
                None => sp is None,
                Some(p) => sp == Some((p.0@, p.1 as int)),
            }
        }),
{
    if !has_name_key(s, i) {
        return None;
    }
    let n = s.len();
    proof {
        assert(i + 9 <= n);
    }
    let empty_acc: Vec<u8> = Vec::new();
    let name_scan = scan_exec(s, i + 9, empty_acc);
    match name_scan {
        None => None,
        Some((name, j)) => {
            if !has_path_key(s, j) {
                return None;
            }
            let n2 = s.len();
            proof {
                assert(j + 9 <= n2);
            }
            let empty_acc2: Vec<u8> = Vec::new();
            let path_scan = scan_exec(s, j + 9, empty_acc2);
            match path_scan {
                None => None,
                Some((path, k)) => {
                    if k < s.len() && s[k] == RBRACE {
                        Some((AppEntry { name, path }, k + 1))
                    } else {
                        None
                    }
                },
            }
        },
    }
}

/// Parses the entries of a non-empty list, mirroring [`parse_entries`].
fn parse_entries_exec(s: &Vec<u8>, i: usize, acc: Vec<AppEntry>) -> (r: Option<Vec<AppEntry>>)
    ensures
        ({
            let sp = parse_entries(s@, i as int, models(acc@));
            match r {
                None => sp is None,
                Some(v) => sp == Some(models(v@)),
            }
        }),
    decreases s@.len() - i,
{
    match parse_entry_exec(s, i) {
        None => None,
        Some((e, j)) => {
            proof {
                lemma_parse_entry_bounds(s@, i as int);
            }
            if j < s.len() && s[j] == COMMA {
                let mut acc2 = acc;
                acc2.push(e);
                proof {
                    assert(models(acc2@) =~= models(acc@).push(e@));
                }
                parse_entries_exec(s, j + 1, acc2)
            } else if j == s.len() - 1 && s[j] == RBRACKET {
                let mut acc2 = acc;
                acc2.push(e);
                proof {
                    assert(models(acc2@) =~= models(acc@).push(e@));
                }
                Some(acc2)
            } else {
                None
            }
        },
    }
}

/// Parses cache-file bytes into an application list.  Returns the list
/// exactly when the bytes are the canonical encoding of one (see
/// [`spec_parse`]); any other content is rejected.
pub fn parse_apps(bytes: &Vec<u8>) -> (r: Option<Vec<AppEntry>>)
    ensures
        ({
            let sp = spec_parse(bytes@);
            match r {
                None => sp is None,
                Some(apps) => sp == Some(models(apps@)),
            }
        }),
{
    if bytes.len() == 2 && bytes[0] == LBRACKET && bytes[1] == RBRACKET {
        let empty_list: Vec<AppEntry> = Vec::new();
        proof {
            assert(models(empty_list@) =~= Seq::<AppEntryModel>::empty());
        }
        Some(empty_list)
    } else if bytes.len() > 0 && bytes[0] == LBRACKET {
        let empty_acc: Vec<AppEntry> = Vec::new();
        proof {
            assert(models(empty_acc@) =~= Seq::<AppEntryModel>::empty());
        }
        parse_entries_exec(bytes, 1, empty_acc)
    } else {
        None
    }
}


/// Pointwise consequence of a subrange equality.
proof fn lemma_index_of_match(s: Seq<u8>, i: int, p: Seq<u8>, k: int)
    requires
        0 <= i,
        i + p.len() <= s.len(),
        s.subrange(i, i + p.len()) == p,
        0 <= k < p.len(),
    ensures
        s[i + k] == p[k],
{
    assert(s.subrange(i, i + p.len())[k] == s[i + k]);
}

/// A subrange of a matched pattern is itself matched, shifted.
proof fn lemma_sub_sub(s: Seq<u8>, i: int, p: Seq<u8>, g: int, q: Seq<u8>)
    requires
        0 <= i,
        i + p.len() <= s.len(),
        s.subrange(i, i + p.len()) == p,
        0 <= g,
        g + q.len() <= p.len(),
        p.subrange(g, g + q.len()) == q,
    ensures
        s.subrange(i + g, i + g + q.len()) == q,
{
    assert forall|k: int| 0 <= k < q.len() implies s.subrange(i + g, i + g + q.len())[k] == q[k] by {
        assert(s.subrange(i + g, i + g + q.len())[k] == s[i + g + k]);
        assert(s.subrange(i, i + p.len())[g + k] == s[i + g + k]);
        assert(p.subrange(g, g + q.len())[k] == p[g + k]);
    }
    assert(s.subrange(i + g, i + g + q.len()) =~= q);
}

/// Adjacent subranges concatenate.
proof fn lemma_glue(s: Seq<u8>, a: int, b: int, c: int)
    requires
        0 <= a <= b <= c <= s.len(),
    ensures
        s.subrange(a, c) == s.subrange(a, b) + s.subrange(b, c),
{
    assert(s.subrange(a, c) =~= s.subrange(a, b) + s.subrange(b, c));
}

/// Scanning the encoding of `t` followed by a closing quote decodes `t`.
pub proof fn lemma_scan_complete(s: Seq<u8>, i: int, acc: Seq<u8>, t: Seq<u8>)
    requires
        0 <= i,
        i + esc(t).len() + 1 <= s.len(),
        s.subrange(i, i + esc(t).len() + 1) == esc(t) + seq![QUOTE],
    ensures
        scan_string(s, i, acc) == Some((acc + t, i + esc(t).len() + 1)),
    decreases t.len(),
{
    let p = esc(t) + seq![QUOTE];
    if t.len() == 0 {
        assert(esc(t).len() == 0);
        lemma_index_of_match(s, i, p, 0);
        assert(s[i] == QUOTE);
        assert(acc + t =~= acc);
    } else {
        let b = t[0];
        let t2 = t.drop_first();
        assert(esc(t) == esc_byte(b) + esc(t2));
        let g = esc_byte(b).len() as int;
        assert forall|k: int| 0 <= k < g implies s[i + k] == esc_byte(b)[k] by {
            lemma_index_of_match(s, i, p, k);
            assert(p[k] == esc(t)[k]);
            assert(esc(t)[k] == esc_byte(b)[k]);
        }
        // the bytes after the first group encode the rest of `t`
        assert(p.subrange(g, g + (esc(t2).len() + 1)) =~= esc(t2) + seq![QUOTE]);
        lemma_sub_sub(s, i, p, g, esc(t2) + seq![QUOTE]);
        if b == QUOTE {
            assert(s[i] == BACKSLASH && s[i + 1] == QUOTE);
            lemma_scan_complete(s, i + 2, acc.push(b), t2);
            assert(acc.push(b) + t2 =~= acc + t);
        } else if b == BACKSLASH {
            assert(s[i] == BACKSLASH && s[i + 1] == BACKSLASH);
            lemma_scan_complete(s, i + 2, acc.push(b), t2);
            assert(acc.push(b) + t2 =~= acc + t);
        } else if b < 32 {
            assert(s[i] == BACKSLASH && s[i + 1] == LETTER_U && s[i + 2] == DIGIT_ZERO && s[i + 3]
                == DIGIT_ZERO && s[i + 4] == high_digit(b) && s[i + 5] == low_digit(b));
            assert(is_hex_digit(low_digit(b)));
            assert(escape_code(high_digit(b), low_digit(b)) == b);
            lemma_scan_complete(s, i + 6, acc.push(b), t2);
            assert(acc.push(b) + t2 =~= acc + t);
        } else {
            assert(s[i + 0] == esc_byte(b)[0]);
            assert(s[i] == b);
            lemma_scan_complete(s, i + 1, acc.push(b), t2);
            assert(acc.push(b) + t2 =~= acc + t);
        }
    }
}

/// What a successful scan consumed is exactly the encoding of what it
/// decoded, closing quote included.
pub proof fn lemma_scan_sound(s: Seq<u8>, i: int, acc: Seq<u8>)
    requires
        scan_string(s, i, acc) is Some,
    ensures
        ({
            let (out, j) = scan_string(s, i, acc).unwrap();
            &&& 0 <= i < j <= s.len()
            &&& acc.len() <= out.len()
            &&& out.take(acc.len() as int) == acc
            &&& s.subrange(i, j) == esc(out.skip(acc.len() as int)) + seq![QUOTE]
        }),
    decreases s.len() - i,
{
    let (out, j) = scan_string(s, i, acc).unwrap();
    let m = acc.len() as int;
    if s[i] == QUOTE {
        assert(out.take(m) =~= acc);
        assert(out.skip(m) =~= Seq::<u8>::empty());
        assert(esc(Seq::<u8>::empty()) == Seq::<u8>::empty());
        assert(s.subrange(i, j) =~= Seq::<u8>::empty() + seq![QUOTE]);
    } else {
        let (c, step): (u8, int) = if s[i] == BACKSLASH {
            if i + 1 < s.len() && (s[i + 1] == QUOTE || s[i + 1] == BACKSLASH) {
                (s[i + 1], 2int)
            } else {
                (escape_code(s[i + 4], s[i + 5]), 6int)
            }
        } else {
            (s[i], 1int)
        };
        lemma_scan_sound(s, i + step, acc.push(c));
        assert(scan_string(s, i + step, acc.push(c)) == Some((out, j)));
        assert(out.take(m + 1) == acc.push(c));
        assert forall|k: int| 0 <= k < m implies out[k] == acc[k] by {
            assert(out.take(m + 1)[k] == out[k]);
            assert(acc.push(c)[k] == acc[k]);
        }
        assert(out.take(m) =~= acc);
        let rest = out.skip(m);
        assert(out.take(m + 1)[m] == out[m]);
        assert(rest[0] == c);
        assert(rest.drop_first() =~= out.skip(m + 1));
        assert(rest.len() >= 1);
        assert(esc(rest) == esc_byte(c) + esc(out.skip(m + 1)));
        // the consumed group is the encoding of `c`
        if step == 2 {
            assert(s.subrange(i, i + 2) =~= esc_byte(c));
        } else if step == 6 {
            let hi = s[i + 4];
            let lo = s[i + 5];
            assert(c < 32);
            assert(high_digit(c) == hi);
            assert(low_digit(c) == lo);
            assert(s.subrange(i, i + 6) =~= esc_byte(c));
        } else {
            assert(s.subrange(i, i + 1) =~= esc_byte(c));
        }
        lemma_glue(s, i, i + step, j);
        assert(s.subrange(i, j) =~= esc(rest) + seq![QUOTE]);
    }
}


/// Length of one encoded entry.
proof fn lemma_ser_entry_len(e: AppEntryModel)
    ensures
        ser_entry(e).len() == 21 + esc(e.name).len() + esc(e.path).len(),
{
}

/// Parsing the encoding of one entry from inside a longer input yields that
/// entry and stops right after it.
pub proof fn lemma_parse_entry_complete(s: Seq<u8>, i: int, e: AppEntryModel)
    requires
        0 <= i,
        i + ser_entry(e).len() <= s.len(),
        s.subrange(i, i + ser_entry(e).len()) == ser_entry(e),
    ensures
        parse_entry(s, i) == Some((e, i + ser_entry(e).len())),
{
    let p = ser_entry(e);
    let en = esc(e.name).len() as int;
    let ep = esc(e.path).len() as int;
    lemma_ser_entry_len(e);
    assert(p.subrange(0, 9) =~= name_key());
    lemma_sub_sub(s, i, p, 0, name_key());
    assert(matches_at(s, i, name_key()));
    assert(p.subrange(9, 9 + (en + 1)) =~= esc(e.name) + seq![QUOTE]);
    lemma_sub_sub(s, i, p, 9, esc(e.name) + seq![QUOTE]);
    lemma_scan_complete(s, i + 9, Seq::empty(), e.name);
    let j = i + 9 + en + 1;
    assert(Seq::empty() + e.name =~= e.name);
    assert(scan_string(s, i + 9, Seq::empty()) == Some((e.name, j)));
    assert(p.subrange(10 + en, 10 + en + 9) =~= path_key());
    lemma_sub_sub(s, i, p, 10 + en, path_key());
    assert(matches_at(s, j, path_key()));
    assert(p.subrange(19 + en, 19 + en + (ep + 1)) =~= esc(e.path) + seq![QUOTE]);
    lemma_sub_sub(s, i, p, 19 + en, esc(e.path) + seq![QUOTE]);
    lemma_scan_complete(s, j + 9, Seq::empty(), e.path);
    let k = j + 9 + ep + 1;
    assert(Seq::empty() + e.path =~= e.path);
    assert(scan_string(s, j + 9, Seq::empty()) == Some((e.path, k)));
    lemma_index_of_match(s, i, p, 20 + en + ep);
    assert(p[20 + en + ep] == RBRACE);
    assert(k < s.len() && s[k] == RBRACE);
    assert(AppEntryModel { name: e.name, path: e.path } == e);
}

/// Parsing the joined encodings of `l` (non-empty), followed by the closing
/// bracket at the very end of the input, appends `l` to the accumulator.
pub proof fn lemma_parse_entries_complete(
    s: Seq<u8>,
    i: int,
    acc: Seq<AppEntryModel>,
    l: Seq<AppEntryModel>,
)
    requires
        l.len() >= 1,
        0 <= i,
        s.len() == i + ser_entries(l).len() + 1,
        s.subrange(i, s.len() as int) == ser_entries(l) + seq![RBRACKET],
    ensures
        parse_entries(s, i, acc) == Some(acc + l),
    decreases l.len(),
{
    let e0 = l[0];
    let rest = l.drop_first();
    let p = ser_entries(l) + seq![RBRACKET];
    if l.len() == 1 {
        assert(ser_entries(l) == ser_entry(e0));
        assert(p.subrange(0, ser_entry(e0).len() as int) =~= ser_entry(e0));
        lemma_sub_sub(s, i, p, 0, ser_entry(e0));
        lemma_parse_entry_complete(s, i, e0);
        let j = i + ser_entry(e0).len();
        lemma_index_of_match(s, i, p, p.len() - 1);
        assert(p[p.len() - 1] == RBRACKET);
        assert(j == s.len() - 1 && s[j] == RBRACKET);
        assert(acc + l =~= acc.push(e0));
    } else {
        assert(ser_entries(l) == ser_entry(e0) + seq![COMMA] + ser_entries(rest));
        let w = ser_entry(e0).len() as int;
        assert(p.subrange(0, w) =~= ser_entry(e0));
        lemma_sub_sub(s, i, p, 0, ser_entry(e0));
        lemma_parse_entry_complete(s, i, e0);
        let j = i + w;
        lemma_index_of_match(s, i, p, w);
        assert(p[w] == COMMA);
        assert(j < s.len() && s[j] == COMMA);
        assert(p.subrange(w + 1, p.len() as int) =~= ser_entries(rest) + seq![RBRACKET]);
        lemma_sub_sub(s, i, p, w + 1, ser_entries(rest) + seq![RBRACKET]);
        assert(s.subrange(j + 1, s.len() as int) == ser_entries(rest) + seq![RBRACKET]);
        lemma_parse_entries_complete(s, j + 1, acc.push(e0), rest);
        assert(acc.push(e0) + rest =~= acc + l);
    }
}

/// Every encoded entry takes at least 21 bytes, so the joined encodings of a
/// non-empty list are never empty.
proof fn lemma_ser_entries_len(l: Seq<AppEntryModel>)
    requires
        l.len() >= 1,
    ensures
        ser_entries(l).len() >= 21,
{
    lemma_ser_entry_len(l[0]);
}

/// Round trip: parsing the canonical encoding of any list gives back exactly
/// that list.  With [`lemma_serialize_of_parse`] this makes the encoding a
/// bijection between lists and valid cache files.
pub proof fn lemma_parse_of_serialize(l: Seq<AppEntryModel>)
    ensures
        spec_parse(spec_serialize(l)) == Some(l),
{
    let s = spec_serialize(l);
    if l.len() == 0 {
        assert(ser_entries(l) == Seq::<u8>::empty());
        assert(s =~= seq![LBRACKET, RBRACKET]);
        assert(s.len() == 2 && s[0] == LBRACKET && s[1] == RBRACKET);
        assert(Seq::<AppEntryModel>::empty() =~= l);
    } else {
        lemma_ser_entries_len(l);
        assert(s.len() > 2);
        assert(s[0] == LBRACKET);
        assert(s.subrange(1, s.len() as int) =~= ser_entries(l) + seq![RBRACKET]);
        lemma_parse_entries_complete(s, 1, Seq::empty(), l);
        assert(Seq::empty() + l =~= l);
    }
}

/// What a successful entry parse consumed is exactly the encoding of the
/// entry it returned.
pub proof fn lemma_parse_entry_sound(s: Seq<u8>, i: int)
    requires
        parse_entry(s, i) is Some,
    ensures
        ({
            let (e, j) = parse_entry(s, i).unwrap();
            &&& 0 <= i < j <= s.len()
            &&& s.subrange(i, j) == ser_entry(e)
        }),
{
    let (e, j) = parse_entry(s, i).unwrap();
    let (name, j1) = scan_string(s, i + 9, Seq::empty()).unwrap();
    lemma_scan_sound(s, i + 9, Seq::empty());
    assert(name.skip(0) =~= name);
    assert(name.take(0) =~= Seq::<u8>::empty());
    let (path, k) = scan_string(s, j1 + 9, Seq::empty()).unwrap();
    lemma_scan_sound(s, j1 + 9, Seq::empty());
    assert(path.skip(0) =~= path);
    assert(e == AppEntryModel { name, path });
    assert(j == k + 1);
    assert(s.subrange(i, i + 9) == name_key());
    assert(s.subrange(j1, j1 + 9) == path_key());
    assert(s.subrange(k, k + 1) =~= seq![RBRACE]);
    lemma_glue(s, i, i + 9, j1);
    lemma_glue(s, i, j1, j1 + 9);
    lemma_glue(s, i, j1 + 9, k);
    lemma_glue(s, i, k, k + 1);
    assert(s.subrange(i, j) =~= name_key() + esc(name) + seq![QUOTE] + path_key() + esc(path)
        + seq![QUOTE, RBRACE]);
}

/// What a successful entries parse consumed is exactly the joined encodings
/// of the entries it appended, with the closing bracket ending the input.
pub proof fn lemma_parse_entries_sound(s: Seq<u8>, i: int, acc: Seq<AppEntryModel>)
    requires
        parse_entries(s, i, acc) is Some,
    ensures
        ({
            let out = parse_entries(s, i, acc).unwrap();
            &&& acc.len() < out.len()
            &&& out.take(acc.len() as int) == acc
            &&& 0 <= i < s.len()
            &&& s.subrange(i, s.len() as int) == ser_entries(out.skip(acc.len() as int))
                + seq![RBRACKET]
        }),
    decreases s.len() - i,
{
    let (e, j) = parse_entry(s, i).unwrap();
    lemma_parse_entry_sound(s, i);
    let out = parse_entries(s, i, acc).unwrap();
    let m = acc.len() as int;
    if j < s.len() && s[j] == COMMA {
        lemma_parse_entries_sound(s, j + 1, acc.push(e));
        assert(parse_entries(s, j + 1, acc.push(e)) == Some(out));
        assert(out.take(m + 1) == acc.push(e));
        assert forall|k: int| 0 <= k < m implies out[k] == acc[k] by {
            assert(out.take(m + 1)[k] == out[k]);
            assert(acc.push(e)[k] == acc[k]);
        }
        assert(out.take(m) =~= acc);
        let lall = out.skip(m);
        assert(out.take(m + 1)[m] == out[m]);
        assert(lall[0] == e);
        assert(lall.drop_first() =~= out.skip(m + 1));
        assert(lall.len() >= 2);
        assert(ser_entries(lall) == ser_entry(e) + seq![COMMA] + ser_entries(out.skip(m + 1)));
        assert(s.subrange(j, j + 1) =~= seq![COMMA]);
        lemma_glue(s, i, j, j + 1);
        lemma_glue(s, i, j + 1, s.len() as int);
        assert(s.subrange(i, s.len() as int) =~= ser_entries(lall) + seq![RBRACKET]);
    } else {
        assert(j == s.len() - 1 && s[j] == RBRACKET);
        assert(out == acc.push(e));
        assert(out.take(m) =~= acc);
        assert(out.skip(m) =~= seq![e]);
        assert(seq![e].len() == 1 && seq![e][0] == e);
        assert(ser_entries(seq![e]) == ser_entry(e));
        assert(s.subrange(j, s.len() as int) =~= seq![RBRACKET]);
        lemma_glue(s, i, j, s.len() as int);
        assert(s.subrange(i, s.len() as int) =~= ser_entries(seq![e]) + seq![RBRACKET]);
    }
}

/// Canonicality: any bytes that parse re-serialize to themselves.  A valid
/// cache file is byte-for-byte reproducible from its parsed contents.
pub proof fn lemma_serialize_of_parse(s: Seq<u8>, l: Seq<AppEntryModel>)
    requires
        spec_parse(s) == Some(l),
    ensures
        s == spec_serialize(l),
{
    if s.len() == 2 && s[0] == LBRACKET && s[1] == RBRACKET {
        assert(l == Seq::<AppEntryModel>::empty());
        assert(ser_entries(l) == Seq::<u8>::empty());
        assert(spec_serialize(l) =~= s);
    } else {
        lemma_parse_entries_sound(s, 1, Seq::empty());
        let out = parse_entries(s, 1, Seq::empty()).unwrap();
        assert(out == l);
        assert(out.skip(0) =~= out);
        lemma_glue(s, 0, 1, s.len() as int);
        assert(s.subrange(0, 1) =~= seq![LBRACKET]);
        assert(s.subrange(0, s.len() as int) =~= s);
        assert(s =~= seq![LBRACKET] + ser_entries(l) + seq![RBRACKET]);
    }
}


/// The encoding is injective: structurally different lists always produce
/// different cache-file bytes, so a stale-cache update never writes the
/// bytes that were already there.
pub proof fn lemma_serialize_injective(a: Seq<AppEntryModel>, b: Seq<AppEntryModel>)
    requires
        spec_serialize(a) == spec_serialize(b),
    ensures
        a == b,
{
    lemma_parse_of_serialize(a);
    lemma_parse_of_serialize(b);
}

} // verus!
