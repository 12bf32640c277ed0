use vstd::prelude::*;

verus! {

// ============================================================================
// Command records and their mathematical form
// ============================================================================

/// A command record as written to a generation log. Keys and values are
/// sequences of Unicode characters; the on-disk form is the record's
/// JSON encoding (see `enc_cmd`) written as UTF-8.
pub enum Cmd {
    /// Bind a key to a value; written as a JSON `Set` value.
    Put(Vec<char>, Vec<char>),
    /// Record the deletion of a key.
    Rm(Vec<char>),
}

/// The mathematical form of a command record.
pub enum CmdModel {
    Put(Seq<char>, Seq<char>),
    Rm(Seq<char>),
}

impl View for Cmd {
    type V = CmdModel;

    open spec fn view(&self) -> CmdModel {
        match self {
            Cmd::Put(k, v) => CmdModel::Put(k@, v@),
            Cmd::Rm(k) => CmdModel::Rm(k@),
        }
    }
}

// ============================================================================
// String escaping: the canonical JSON form of a character sequence
// ============================================================================

/// The lower-case hex digit for a nibble.
pub open spec fn hex_char(n: int) -> char {
    if n == 0 { '0' } else if n == 1 { '1' } else if n == 2 { '2' } else if n == 3 { '3' }
    else if n == 4 { '4' } else if n == 5 { '5' } else if n == 6 { '6' } else if n == 7 { '7' }
    else if n == 8 { '8' } else if n == 9 { '9' } else if n == 10 { 'a' } else if n == 11 { 'b' }
    else if n == 12 { 'c' } else if n == 13 { 'd' } else if n == 14 { 'e' } else if n == 15 { 'f' }
    else { '0' }
}

/// The value of a canonical (lower-case) hex digit, or -1 if the character
/// is not one.
pub open spec fn hex_val(c: char) -> int {
    if c == '0' { 0 } else if c == '1' { 1 } else if c == '2' { 2 } else if c == '3' { 3 }
    else if c == '4' { 4 } else if c == '5' { 5 } else if c == '6' { 6 } else if c == '7' { 7 }
    else if c == '8' { 8 } else if c == '9' { 9 } else if c == 'a' { 10 } else if c == 'b' { 11 }
    else if c == 'c' { 12 } else if c == 'd' { 13 } else if c == 'e' { 14 } else if c == 'f' { 15 }
    else { -1 }
}

/// Whether a character is a canonical hex digit.
pub open spec fn is_hex(c: char) -> bool {
    hex_val(c) >= 0
}

/// The character encoded by a `\u00XX` escape with hex digits `h` and `l`.
pub open spec fn unesc_char(h: char, l: char) -> char {
    ((hex_val(h) * 16 + hex_val(l)) as u8) as char
}

/// The canonical escape of one character inside a JSON string: quotes and
/// backslashes get a two-character escape, control characters a `\u00XX`
/// escape, and every other character stands for itself.
pub open spec fn esc_char(c: char) -> Seq<char> {
    if c == '"' {
        seq!['\\', '"']
    } else if c == '\\' {
        seq!['\\', '\\']
    } else if (c as u32) < 32 {
        seq!['\\', 'u', '0', '0', hex_char(c as u32 as int / 16), hex_char(c as u32 as int % 16)]
    } else {
        seq![c]
    }
}

/// The canonical escaped form of a character sequence.
pub open spec fn esc(s: Seq<char>) -> Seq<char>
    decreases s.len(),
{
    if s.len() == 0 {
        Seq::empty()
    } else {
        esc_char(s[0]) + esc(s.skip(1))
    }
}

// ============================================================================
// Record encodings
// ============================================================================

/// The opening characters of a `Set` record.
pub open spec fn set_open() -> Seq<char> {
    seq!['{', '"', 'S', 'e', 't', '"', ':', '[', '"']
}

/// The opening characters of a `Rm` record.
pub open spec fn rm_open() -> Seq<char> {
    seq!['{', '"', 'R', 'm', '"', ':', '[', '"']
}

/// The characters between the two strings of a `Set` record.
pub open spec fn mid_sep() -> Seq<char> {
    seq!['"', ',', '"']
}

/// The closing characters of a record.
pub open spec fn arr_close() -> Seq<char> {
    seq!['"', ']', '}']
}

/// The encoding of one command record: a single self-delimiting JSON value,
/// with no separators before or after.
pub open spec fn enc_cmd(c: CmdModel) -> Seq<char> {
    match c {
        CmdModel::Put(k, v) => set_open() + esc(k) + mid_sep() + esc(v) + arr_close(),
        CmdModel::Rm(k) => rm_open() + esc(k) + arr_close(),
    }
}

/// The contents of a log that holds the given records back to back.
pub open spec fn encodes_all(rs: Seq<CmdModel>) -> Seq<char>
    decreases rs.len(),
{
    if rs.len() == 0 {
        Seq::empty()
    } else {
        encodes_all(rs.drop_last()) + enc_cmd(rs.last())
    }
}

/// The key/value map obtained by replaying a sequence of records in order:
/// later records shadow earlier ones.
pub open spec fn replay(rs: Seq<CmdModel>) -> Map<Seq<char>, Seq<char>>
    decreases rs.len(),
{
    if rs.len() == 0 {
        Map::empty()
    } else {
        let m = replay(rs.drop_last());
        match rs.last() {
            CmdModel::Put(k, v) => m.insert(k, v),
            CmdModel::Rm(k) => m.remove(k),
        }
    }
}

// ============================================================================
// The canonical parser, at the specification level
// ============================================================================

/// Whether `s` begins with the characters of `p`.
pub open spec fn starts_with(s: Seq<char>, p: Seq<char>) -> bool {
    p.len() <= s.len() && s.subrange(0, p.len() as int) == p
}

/// Parse the remainder of a JSON string (the opening quote has already been
/// consumed). On success, yields the decoded characters and the number of
/// characters consumed, including the closing quote. Only the canonical
/// escapes produced by `esc` are accepted.
pub open spec fn p_str(s: Seq<char>) -> Option<(Seq<char>, int)>
    decreases s.len(),
{
    if s.len() == 0 {
        None
    } else if s[0] == '"' {
        Some((Seq::empty(), 1))
    } else if s[0] == '\\' {
        if s.len() < 2 {
            None
        } else if s[1] == '"' || s[1] == '\\' {
            match p_str(s.skip(2)) {
                Some((t, n)) => Some((seq![s[1]] + t, n + 2)),
                None => None,
            }
        } else if s[1] == 'u' {
            if s.len() < 6 {
                None
            } else if s[2] == '0' && s[3] == '0' && is_hex(s[4]) && is_hex(s[5])
                && hex_val(s[4]) * 16 + hex_val(s[5]) < 32 {
                match p_str(s.skip(6)) {
                    Some((t, n)) => Some((seq![unesc_char(s[4], s[5])] + t, n + 6)),
                    None => None,
                }
            } else {
                None
            }
        } else {
            None
        }
    } else if (s[0] as u32) < 32 {
        None
    } else {
        match p_str(s.skip(1)) {
            Some((t, n)) => Some((seq![s[0]] + t, n + 1)),
            None => None,
        }
    }
}

/// Parse exactly one command record from the front of `s`. On success,
/// yields the record and the number of characters consumed.
pub open spec fn p_cmd(s: Seq<char>) -> Option<(CmdModel, int)> {
    if starts_with(s, set_open()) {
        match p_str(s.skip(9)) {
            Some((k, n1)) => {
                if starts_with(s.skip(9 + n1), seq![',', '"']) {
                    match p_str(s.skip(9 + n1 + 2)) {
                        Some((v, n2)) => {
                            if starts_with(s.skip(9 + n1 + 2 + n2), seq![']', '}']) {
                                Some((CmdModel::Put(k, v), 9 + n1 + 2 + n2 + 2))
                            } else {
                                None
                            }
                        },
                        None => None,
                    }
                } else {
                    None
                }
            },
            None => None,
        }
    } else if starts_with(s, rm_open()) {
        match p_str(s.skip(8)) {
            Some((k, n1)) => {
                if starts_with(s.skip(8 + n1), seq![']', '}']) {
                    Some((CmdModel::Rm(k), 8 + n1 + 2))
                } else {
                    None
                }
            },
            None => None,
        }
    } else {
        None
    }
}

/// Parse a whole log: a sequence of records back to back, consuming all of
/// `s`. `None` means the log is malformed or truncated.
pub open spec fn p_records(s: Seq<char>) -> Option<Seq<CmdModel>>
    decreases s.len(),
{
    if s.len() == 0 {
        Some(Seq::empty())
    } else {
        match p_cmd(s) {
            Some((c, n)) => {
                if 1 <= n <= s.len() {
                    match p_records(s.skip(n)) {
                        Some(rs) => Some(seq![c] + rs),
                        None => None,
                    }
                } else {
                    None
                }
            },
            None => None,
        }
    }
}

// ============================================================================
// Facts about escaping and the parser
// ============================================================================

/// Escaping distributes over concatenation.
pub proof fn lemma_esc_concat(a: Seq<char>, b: Seq<char>)
    ensures
        esc(a + b) == esc(a) + esc(b),
    decreases a.len(),
{
    if a.len() == 0 {
        assert(a + b =~= b);
        assert(esc(a) + esc(b) =~= esc(b));
    } else {
        assert((a + b).skip(1) =~= a.skip(1) + b);
        lemma_esc_concat(a.skip(1), b);
        assert((a + b)[0] == a[0]);
        assert(esc_char(a[0]) + (esc(a.skip(1)) + esc(b)) =~= (esc_char(a[0]) + esc(a.skip(1)))
            + esc(b));
    }
}

/// `hex_char` yields a canonical digit whose value is the nibble given.
pub proof fn lemma_hex_char_val(n: int)
    requires
        0 <= n < 16,
    ensures
        is_hex(hex_char(n)),
        hex_val(hex_char(n)) == n,
{
}

/// Completeness of the string parser: the escaped form of any character
/// sequence, followed by a closing quote and anything at all, parses back to
/// that sequence, consuming exactly the escaped form and the quote.
pub proof fn lemma_p_str_complete(x: Seq<char>, rest: Seq<char>)
    ensures
        p_str(esc(x) + seq!['"'] + rest) == Some((x, esc(x).len() + 1 as int)),
    decreases x.len(),
{
    let s = esc(x) + seq!['"'] + rest;
    if x.len() == 0 {
        assert(esc(x) =~= Seq::<char>::empty());
        assert(s =~= seq!['"'] + rest);
        assert(s[0] == '"');
    } else {
        let c = x[0];
        let tail = esc(x.skip(1)) + seq!['"'] + rest;
        assert(esc(x) == esc_char(c) + esc(x.skip(1)));
        assert(s =~= esc_char(c) + tail);
        lemma_p_str_complete(x.skip(1), rest);
        assert(seq![c] + x.skip(1) =~= x);
        if c == '"' {
            assert(s[0] == '\\' && s[1] == '"');
            assert(s.skip(2) =~= tail);
        } else if c == '\\' {
            assert(s[0] == '\\' && s[1] == '\\');
            assert(s.skip(2) =~= tail);
        } else if (c as u32) < 32 {
            let u = c as u32 as int;
            lemma_hex_char_val(u / 16);
            lemma_hex_char_val(u % 16);
            assert(s[0] == '\\' && s[1] == 'u' && s[2] == '0' && s[3] == '0');
            assert(s[4] == hex_char(u / 16) && s[5] == hex_char(u % 16));
            assert(hex_val(s[4]) * 16 + hex_val(s[5]) == u);
            let d = unesc_char(s[4], s[5]);
            assert(d as u32 == u);
            vstd::utf8::char_u32_cast(c, u as u32);
            vstd::utf8::char_u32_cast(d, u as u32);
            assert(d == c);
            assert(s.len() >= 6);
            assert(s.skip(6) =~= tail);
        } else {
            assert(s[0] == c);
            assert(s.skip(1) =~= tail);
        }
    }
}

/// Soundness of the string parser: whatever it accepts is exactly the
/// canonical escaped form of its result, followed by the closing quote.
pub proof fn lemma_p_str_sound(s: Seq<char>)
    ensures
        match p_str(s) {
            Some((t, n)) => {
                &&& 1 <= n <= s.len()
                &&& n == esc(t).len() + 1
                &&& s.subrange(0, n) == esc(t) + seq!['"']
            },
            None => true,
        },
    decreases s.len(),
{
    if s.len() == 0 {
    } else if s[0] == '"' {
        assert(s.subrange(0, 1) =~= esc(Seq::<char>::empty()) + seq!['"']);
    } else if s[0] == '\\' {
        if s.len() < 2 {
        } else if s[1] == '"' || s[1] == '\\' {
            lemma_p_str_sound(s.skip(2));
            match p_str(s.skip(2)) {
                Some((t, n)) => {
                    let t2 = seq![s[1]] + t;
                    assert(t2.skip(1) =~= t);
                    assert(esc(t2) == esc_char(s[1]) + esc(t));
                    assert(esc_char(s[1]) =~= seq![s[0], s[1]]);
                    assert(s.subrange(0, n + 2) =~= s.subrange(0, 2) + s.skip(2).subrange(0, n));
                    assert(s.subrange(0, 2) =~= seq![s[0], s[1]]);
                    assert(esc(t2) + seq!['"'] =~= s.subrange(0, 2) + (esc(t) + seq!['"']));
                },
                None => {},
            }
        } else if s[1] == 'u' {
            if s.len() < 6 {
            } else if s[2] == '0' && s[3] == '0' && is_hex(s[4]) && is_hex(s[5])
                && hex_val(s[4]) * 16 + hex_val(s[5]) < 32 {
                lemma_p_str_sound(s.skip(6));
                match p_str(s.skip(6)) {
                    Some((t, n)) => {
                        let c = unesc_char(s[4], s[5]);
                        let v = hex_val(s[4]) * 16 + hex_val(s[5]);
                        assert(c as u32 == v);
                        assert(c != '"' && c != '\\');
                        let t2 = seq![c] + t;
                        assert(t2.skip(1) =~= t);
                        assert(esc(t2) == esc_char(c) + esc(t));
                        assert(hex_val(s[4]) == v / 16 && hex_val(s[5]) == v % 16);
                        assert(hex_char(hex_val(s[4])) == s[4] && hex_char(hex_val(s[5]))
                            == s[5]);
                        assert(esc_char(c) =~= seq![s[0], s[1], s[2], s[3], s[4], s[5]]);
                        assert(s.subrange(0, n + 6) =~= s.subrange(0, 6) + s.skip(6).subrange(
                            0,
                            n,
                        ));
                        assert(s.subrange(0, 6) =~= seq![s[0], s[1], s[2], s[3], s[4], s[5]]);
                        assert(esc(t2) + seq!['"'] =~= s.subrange(0, 6) + (esc(t) + seq!['"']));
                    },
                    None => {},
                }
            }
        }
    } else if (s[0] as u32) < 32 {
    } else {
        lemma_p_str_sound(s.skip(1));
        match p_str(s.skip(1)) {
            Some((t, n)) => {
                let t2 = seq![s[0]] + t;
                assert(t2.skip(1) =~= t);
                assert(esc(t2) == esc_char(s[0]) + esc(t));
                assert(esc_char(s[0]) =~= seq![s[0]]);
                assert(s.subrange(0, n + 1) =~= s.subrange(0, 1) + s.skip(1).subrange(0, n));
                assert(s.subrange(0, 1) =~= seq![s[0]]);
                assert(esc(t2) + seq!['"'] =~= s.subrange(0, 1) + (esc(t) + seq!['"']));
            },
            None => {},
        }
    }
}

/// Completeness of the record parser: any record's encoding, followed by
/// anything at all, parses back to that record, consuming exactly the
/// encoding. In particular the encoding is self-delimiting, and two distinct
/// records never share an encoding.
#[verifier::rlimit(60)]
pub proof fn lemma_p_cmd_complete(c: CmdModel, rest: Seq<char>)
    ensures
        p_cmd(enc_cmd(c) + rest) == Some((c, enc_cmd(c).len() as int)),
{
    let s = enc_cmd(c) + rest;
    match c {
        CmdModel::Put(k, v) => {
            let after_k = seq![',', '"'] + (esc(v) + seq!['"'] + (seq![']', '}'] + rest));
            let after_v = seq![']', '}'] + rest;
            assert(s =~= set_open() + (esc(k) + seq!['"'] + after_k));
            assert(s.subrange(0, 9) =~= set_open());
            assert(starts_with(s, set_open()));
            assert(s.skip(9) =~= esc(k) + seq!['"'] + after_k);
            lemma_p_str_complete(k, after_k);
            let n1 = esc(k).len() as int + 1;
            assert(p_str(s.skip(9)) == Some((k, n1 as int)));
            assert(s.skip(9 + n1) =~= after_k);
            assert(after_k.subrange(0, 2) =~= seq![',', '"']);
            assert(starts_with(after_k, seq![',', '"']));
            assert(s.skip(9 + n1 + 2) =~= esc(v) + seq!['"'] + after_v);
            lemma_p_str_complete(v, after_v);
            let n2 = esc(v).len() as int + 1;
            assert(p_str(s.skip(9 + n1 + 2)) == Some((v, n2 as int)));
            assert(s.skip(9 + n1 + 2 + n2) =~= after_v);
            assert(after_v.subrange(0, 2) =~= seq![']', '}']);
            assert(starts_with(after_v, seq![']', '}']));
            assert(enc_cmd(c).len() == 9 + n1 + 2 + n2 + 2);
        },
        CmdModel::Rm(k) => {
            let after_k = seq![']', '}'] + rest;
            assert(s =~= rm_open() + (esc(k) + seq!['"'] + after_k));
            assert(s[2] == 'R');
            assert(set_open()[2] == 'S');
            assert(!starts_with(s, set_open())) by {
                if starts_with(s, set_open()) {
                    assert(s.subrange(0, 9)[2] == s[2]);
                }
            }
            assert(s.subrange(0, 8) =~= rm_open());
            assert(starts_with(s, rm_open()));
            assert(s.skip(8) =~= esc(k) + seq!['"'] + after_k);
            lemma_p_str_complete(k, after_k);
            let n1 = esc(k).len() as int + 1;
            assert(s.skip(8 + n1) =~= after_k);
            assert(after_k.subrange(0, 2) =~= seq![']', '}']);
            assert(starts_with(after_k, seq![']', '}']));
            assert(enc_cmd(c).len() == 8 + n1 + 2);
        },
    }
}

/// Soundness of the record parser: whatever it accepts is exactly the
/// encoding of its result.
pub proof fn lemma_p_cmd_sound(s: Seq<char>)
    ensures
        match p_cmd(s) {
            Some((c, n)) => {
                &&& 1 <= n <= s.len()
                &&& n == enc_cmd(c).len()
                &&& s.subrange(0, n) == enc_cmd(c)
            },
            None => true,
        },
{
    if starts_with(s, set_open()) {
        lemma_p_str_sound(s.skip(9));
        match p_str(s.skip(9)) {
            Some((k, n1)) => {
                if starts_with(s.skip(9 + n1), seq![',', '"']) {
                    lemma_p_str_sound(s.skip(9 + n1 + 2));
                    match p_str(s.skip(9 + n1 + 2)) {
                        Some((v, n2)) => {
                            if starts_with(s.skip(9 + n1 + 2 + n2), seq![']', '}']) {
                                let n = 9 + n1 + 2 + n2 + 2;
                                let c = CmdModel::Put(k, v);
                                assert(s.skip(9).subrange(0, n1) == esc(k) + seq!['"']);
                                assert(s.skip(9 + n1 + 2).subrange(0, n2) == esc(v)
                                    + seq!['"']);
                                assert(s.skip(9 + n1).subrange(0, 2) == seq![',', '"']);
                                assert(s.skip(9 + n1 + 2 + n2).subrange(0, 2) == seq![
                                    ']',
                                    '}',
                                ]);
                                assert(enc_cmd(c).len() == n);
                                assert(s.subrange(0, n) =~= s.subrange(0, 9) + s.skip(
                                    9,
                                ).subrange(0, n1) + s.skip(9 + n1).subrange(0, 2) + s.skip(
                                    9 + n1 + 2,
                                ).subrange(0, n2) + s.skip(9 + n1 + 2 + n2).subrange(0, 2));
                                assert(s.subrange(0, n) =~= enc_cmd(c));
                            }
                        },
                        None => {},
                    }
                }
            },
            None => {},
        }
    } else if starts_with(s, rm_open()) {
        lemma_p_str_sound(s.skip(8));
        match p_str(s.skip(8)) {
            Some((k, n1)) => {
                if starts_with(s.skip(8 + n1), seq![']', '}']) {
                    let n = 8 + n1 + 2;
                    let c = CmdModel::Rm(k);
                    assert(s.skip(8).subrange(0, n1) == esc(k) + seq!['"']);
                    assert(s.skip(8 + n1).subrange(0, 2) == seq![']', '}']);
                    assert(enc_cmd(c).len() == n);
                    assert(s.subrange(0, n) =~= s.subrange(0, 8) + s.skip(8).subrange(0, n1)
                        + s.skip(8 + n1).subrange(0, 2));
                    assert(s.subrange(0, n) =~= enc_cmd(c));
                }
            },
            None => {},
        }
    }
}

/// Concatenating record sequences concatenates their encodings.
pub proof fn lemma_encodes_all_concat(a: Seq<CmdModel>, b: Seq<CmdModel>)
    ensures
        encodes_all(a + b) == encodes_all(a) + encodes_all(b),
    decreases b.len(),
{
    if b.len() == 0 {
        assert(a + b =~= a);
        assert(encodes_all(a) + encodes_all(b) =~= encodes_all(a));
    } else {
        lemma_encodes_all_concat(a, b.drop_last());
        assert((a + b).drop_last() =~= a + b.drop_last());
        assert((a + b).last() == b.last());
        assert(encodes_all(a) + (encodes_all(b.drop_last()) + enc_cmd(b.last())) =~= (
        encodes_all(a) + encodes_all(b.drop_last())) + enc_cmd(b.last()));
    }
}

/// The encoding of a one-record log is the record's encoding.
pub proof fn lemma_encodes_one(c: CmdModel)
    ensures
        encodes_all(seq![c]) == enc_cmd(c),
{
    assert(seq![c].drop_last() =~= Seq::<CmdModel>::empty());
    assert(encodes_all(Seq::<CmdModel>::empty()) == Seq::<char>::empty());
    assert(seq![c].last() == c);
    assert(encodes_all(seq![c]) == encodes_all(seq![c].drop_last()) + enc_cmd(c));
    assert(Seq::<char>::empty() + enc_cmd(c) =~= enc_cmd(c));
}

/// Completeness of the log parser: a log that holds the encodings of a
/// record sequence back to back parses to exactly that sequence.
pub proof fn lemma_p_records_complete(rs: Seq<CmdModel>)
    ensures
        p_records(encodes_all(rs)) == Some(rs),
    decreases rs.len(),
{
    if rs.len() == 0 {
    } else {
        let head = rs[0];
        let tail = rs.skip(1);
        assert(rs =~= seq![head] + tail);
        lemma_encodes_all_concat(seq![head], tail);
        lemma_encodes_one(head);
        let s = encodes_all(rs);
        assert(s =~= enc_cmd(head) + encodes_all(tail));
        lemma_p_cmd_complete(head, encodes_all(tail));
        let n = enc_cmd(head).len() as int;
        assert(1 <= n <= s.len());
        assert(s.skip(n) =~= encodes_all(tail));
        lemma_p_records_complete(tail);
        assert(p_records(s) == Some(seq![head] + tail));
    }
}

/// Soundness of the log parser: a log it accepts holds exactly the
/// encodings of the parsed records, back to back.
#[verifier::rlimit(50)]
pub proof fn lemma_p_records_sound(s: Seq<char>)
    ensures
        match p_records(s) {
            Some(rs) => s == encodes_all(rs),
            None => true,
        },
    decreases s.len(),
{
    if s.len() == 0 {
        assert(s =~= encodes_all(Seq::<CmdModel>::empty()));
    } else {
        match p_cmd(s) {
            Some((c, n)) => {
                if 1 <= n <= s.len() {
                    lemma_p_cmd_sound(s);
                    lemma_p_records_sound(s.skip(n));
                    match p_records(s.skip(n)) {
                        Some(rs2) => {
                            lemma_encodes_all_concat(seq![c], rs2);
                            lemma_encodes_one(c);
                            assert(s =~= s.subrange(0, n) + s.skip(n));
                            assert(s =~= encodes_all(seq![c] + rs2));
                        },
                        None => {},
                    }
                }
            },
            None => {},
        }
    }
}

/// Replaying one more record applies it to the replayed map.
pub proof fn lemma_replay_push(rs: Seq<CmdModel>, c: CmdModel)
    ensures
        replay(rs.push(c)) == match c {
            CmdModel::Put(k, v) => replay(rs).insert(k, v),
            CmdModel::Rm(k) => replay(rs).remove(k),
        },
{
    assert(rs.push(c).drop_last() =~= rs);
    assert(rs.push(c).last() == c);
}

// ============================================================================
// Executable encoding
// ============================================================================

/// The escape of a single character, as a sequence.
pub proof fn lemma_esc_one(c: char)
    ensures
        esc(seq![c]) == esc_char(c),
{
    assert(seq![c].skip(1) =~= Seq::<char>::empty());
    assert(esc(Seq::<char>::empty()) == Seq::<char>::empty());
    assert(esc_char(c) + Seq::<char>::empty() =~= esc_char(c));
}

/// The canonical hex digit for a nibble.
pub(crate) fn hex_digit_char(n: u8) -> (c: char)
    requires
        n < 16,
    ensures
        c == hex_char(n as int),
{
    match n {
        0 => '0',
        1 => '1',
        2 => '2',
        3 => '3',
        4 => '4',
        5 => '5',
        6 => '6',
        7 => '7',
        8 => '8',
        9 => '9',
        10 => 'a',
        11 => 'b',
        12 => 'c',
        13 => 'd',
        14 => 'e',
        _ => 'f',
    }
}

/// The value of a canonical hex digit, or `None` for any other character.
pub(crate) fn hex_digit_val(c: char) -> (r: Option<u8>)
    ensures
        match r {
            Some(v) => is_hex(c) && v as int == hex_val(c) && v < 16,
            None => !is_hex(c),
        },
{
    match c {
        '0' => Some(0),
        '1' => Some(1),
        '2' => Some(2),
        '3' => Some(3),
        '4' => Some(4),
        '5' => Some(5),
        '6' => Some(6),
        '7' => Some(7),
        '8' => Some(8),
        '9' => Some(9),
        'a' => Some(10),
        'b' => Some(11),
        'c' => Some(12),
        'd' => Some(13),
        'e' => Some(14),
        'f' => Some(15),
        _ => None,
    }
}

/// Append the canonical escaped form of `s` to `out`.
pub(crate) fn write_escaped(out: &mut Vec<char>, s: &Vec<char>)
    ensures
        final(out)@ == old(out)@ + esc(s@),
{
    let ghost base = old(out)@;
    let mut i: usize = 0;
    while i < s.len()
        invariant
            i <= s@.len(),
            out@ == base + esc(s@.take(i as int)),
        decreases s@.len() - i,
    {
        let c = s[i];
        proof {
            assert(s@.take(i as int + 1) =~= s@.take(i as int) + seq![c]);
            lemma_esc_concat(s@.take(i as int), seq![c]);
            lemma_esc_one(c);
        }
        if c == '"' {
            out.push('\\');
            out.push('"');
        } else if c == '\\' {
            out.push('\\');
            out.push('\\');
        } else if (c as u32) < 32 {
            let u = c as u32;
            out.push('\\');
            out.push('u');
            out.push('0');
            out.push('0');
            out.push(hex_digit_char((u / 16) as u8));
            out.push(hex_digit_char((u % 16) as u8));
        } else {
            out.push(c);
        }
        proof {
            assert(out@ =~= base + esc(s@.take(i as int + 1)));
        }
        i = i + 1;
    }
    proof {
        assert(s@.take(s@.len() as int) =~= s@);
    }
}

/// Encode one command record as its canonical JSON form.
pub fn encode_cmd(c: &Cmd) -> (r: Vec<char>)
    ensures
        r@ == enc_cmd(c@),
{
    let mut out: Vec<char> = Vec::new();
    match c {
        Cmd::Put(k, v) => {
            out.push('{');
            out.push('"');
            out.push('S');
            out.push('e');
            out.push('t');
            out.push('"');
            out.push(':');
            out.push('[');
            out.push('"');
            assert(out@ =~= set_open());
            write_escaped(&mut out, k);
            out.push('"');
            out.push(',');
            out.push('"');
            write_escaped(&mut out, v);
            out.push('"');
            out.push(']');
            out.push('}');
            assert(out@ =~= set_open() + esc(k@) + mid_sep() + esc(v@) + arr_close());
        },
        Cmd::Rm(k) => {
            out.push('{');
            out.push('"');
            out.push('R');
            out.push('m');
            out.push('"');
            out.push(':');
            out.push('[');
            out.push('"');
            assert(out@ =~= rm_open());
            write_escaped(&mut out, k);
            out.push('"');
            out.push(']');
            out.push('}');
            assert(out@ =~= rm_open() + esc(k@) + arr_close());
        },
    }
    out
}

// ============================================================================
// Executable decoding
// ============================================================================

/// The outcome of decoding one value from a buffer starting at some
/// position. `Done` carries the value and the position just past it.
/// `Incomplete` and `Malformed` both mean that no value stands there
/// (`Incomplete` is a hint that more input may still complete one; the
/// distinction carries no proof weight).
pub enum Decoded<T> {
    Done(T, usize),
    Incomplete,
    Malformed,
}

/// Decode the remainder of a JSON string (the opening quote already
/// consumed), starting at `start`.
pub fn decode_str(data: &Vec<char>, start: usize) -> (r: Decoded<Vec<char>>)
    requires
        start <= data@.len(),
    ensures
        match r {
            Decoded::Done(t, end) => start < end <= data@.len() && p_str(
                data@.skip(start as int),
            ) == Some((t@, end as int - start as int)),
            _ => p_str(data@.skip(start as int)) is None,
        },
    decreases data@.len() - start,
{
    let ghost s = data@.skip(start as int);
    if start == data.len() {
        return Decoded::Incomplete;
    }
    let c = data[start];
    assert(c == s[0]);
    if c == '"' {
        let out: Vec<char> = Vec::new();
        assert(out@ =~= Seq::<char>::empty());
        return Decoded::Done(out, start + 1);
    }
    if c == '\\' {
        if data.len() - start < 2 {
            return Decoded::Incomplete;
        }
        let e = data[start + 1];
        assert(e == s[1]);
        if e == '"' || e == '\\' {
            assert(data@.skip(start as int + 2) =~= s.skip(2));
            match decode_str(data, start + 2) {
                Decoded::Done(mut t, end) => {
                    let ghost t0 = t@;
                    t.insert(0, e);
                    assert(t@ =~= seq![s[1]] + t0);
                    Decoded::Done(t, end)
                },
                Decoded::Incomplete => Decoded::Incomplete,
                Decoded::Malformed => Decoded::Malformed,
            }
        } else if e == 'u' {
            if data.len() - start < 6 {
                return Decoded::Incomplete;
            }
            let d2 = data[start + 2];
            let d3 = data[start + 3];
            let h1 = data[start + 4];
            let h2 = data[start + 5];
            assert(d2 == s[2] && d3 == s[3] && h1 == s[4] && h2 == s[5]);
            if d2 != '0' || d3 != '0' {
                return Decoded::Malformed;
            }
            match (hex_digit_val(h1), hex_digit_val(h2)) {
                (Some(a), Some(b)) => {
                    let v: u8 = a * 16 + b;
                    assert(v as int == hex_val(s[4]) * 16 + hex_val(s[5]));
                    if v < 32 {
                        let ch = v as char;
                        assert(ch == unesc_char(s[4], s[5]));
                        assert(data@.skip(start as int + 6) =~= s.skip(6));
                        match decode_str(data, start + 6) {
                            Decoded::Done(mut t, end) => {
                                let ghost t0 = t@;
                                t.insert(0, ch);
                                assert(t@ =~= seq![unesc_char(s[4], s[5])] + t0);
                                Decoded::Done(t, end)
                            },
                            Decoded::Incomplete => Decoded::Incomplete,
                            Decoded::Malformed => Decoded::Malformed,
                        }
                    } else {
                        Decoded::Malformed
                    }
                },
                _ => Decoded::Malformed,
            }
        } else {
            Decoded::Malformed
        }
    } else if (c as u32) < 32 {
        Decoded::Malformed
    } else {
        assert(data@.skip(start as int + 1) =~= s.skip(1));
        match decode_str(data, start + 1) {
            Decoded::Done(mut t, end) => {
                let ghost t0 = t@;
                t.insert(0, c);
                assert(t@ =~= seq![s[0]] + t0);
                Decoded::Done(t, end)
            },
            Decoded::Incomplete => Decoded::Incomplete,
            Decoded::Malformed => Decoded::Malformed,
        }
    }
}

/// Decode exactly one command record starting at `start`.
#[verifier::rlimit(80)]
pub fn decode_cmd(data: &Vec<char>, start: usize) -> (r: Decoded<Cmd>)
    requires
        start <= data@.len(),
    ensures
        match r {
            Decoded::Done(c, end) => start < end <= data@.len() && p_cmd(
                data@.skip(start as int),
            ) == Some((c@, end as int - start as int)),
            _ => p_cmd(data@.skip(start as int)) is None,
        },
{
    let ghost s = data@.skip(start as int);
    proof {
        assert(set_open()[0] == '{' && set_open()[1] == '"' && set_open()[2] == 'S');
        assert(rm_open()[0] == '{' && rm_open()[1] == '"' && rm_open()[2] == 'R');
    }
    if data.len() - start < 3 {
        proof {
            assert(!starts_with(s, set_open()));
            assert(!starts_with(s, rm_open()));
        }
        return Decoded::Incomplete;
    }
    let c0 = data[start];
    let c1 = data[start + 1];
    let c2 = data[start + 2];
    assert(c0 == s[0] && c1 == s[1] && c2 == s[2]);
    if c0 != '{' || c1 != '"' {
        proof {
            assert(!starts_with(s, set_open())) by {
                if starts_with(s, set_open()) {
                    assert(s.subrange(0, 9)[0] == s[0] && s.subrange(0, 9)[1] == s[1]);
                }
            }
            assert(!starts_with(s, rm_open())) by {
                if starts_with(s, rm_open()) {
                    assert(s.subrange(0, 8)[0] == s[0] && s.subrange(0, 8)[1] == s[1]);
                }
            }
        }
        return Decoded::Malformed;
    }
    if c2 == 'S' {
        proof {
            assert(!starts_with(s, rm_open())) by {
                if starts_with(s, rm_open()) {
                    assert(s.subrange(0, 8)[2] == s[2]);
                }
            }
        }
        if data.len() - start < 9 {
            proof {
                assert(!starts_with(s, set_open()));
            }
            return Decoded::Incomplete;
        }
        let c3 = data[start + 3];
        let c4 = data[start + 4];
        let c5 = data[start + 5];
        let c6 = data[start + 6];
        let c7 = data[start + 7];
        let c8 = data[start + 8];
        assert(c3 == s[3] && c4 == s[4] && c5 == s[5] && c6 == s[6] && c7 == s[7] && c8
            == s[8]);
        if c3 != 'e' || c4 != 't' || c5 != '"' || c6 != ':' || c7 != '[' || c8 != '"' {
            proof {
                assert(!starts_with(s, set_open())) by {
                    if starts_with(s, set_open()) {
                        assert(forall|i: int|
                            0 <= i < 9 ==> s.subrange(0, 9)[i] == s[i]);
                    }
                }
            }
            return Decoded::Malformed;
        }
        proof {
            assert(s.subrange(0, 9) =~= set_open());
            assert(starts_with(s, set_open()));
            assert(data@.skip(start as int + 9) =~= s.skip(9));
        }
        match decode_str(data, start + 9) {
            Decoded::Done(k, end1) => {
                let ghost n1 = end1 as int - start as int - 9;
                assert(p_str(s.skip(9)) == Some((k@, n1)));
                if data.len() - end1 < 2 {
                    proof {
                        assert(s.skip(9 + n1).len() < 2);
                        assert(!starts_with(s.skip(9 + n1), seq![',', '"']));
                    }
                    return Decoded::Incomplete;
                }
                let m0 = data[end1];
                let m1 = data[end1 + 1];
                assert(m0 == s.skip(9 + n1)[0] && m1 == s.skip(9 + n1)[1]);
                if m0 != ',' || m1 != '"' {
                    proof {
                        assert(!starts_with(s.skip(9 + n1), seq![',', '"'])) by {
                            if starts_with(s.skip(9 + n1), seq![',', '"']) {
                                assert(s.skip(9 + n1).subrange(0, 2)[0] == s.skip(9 + n1)[0]);
                                assert(s.skip(9 + n1).subrange(0, 2)[1] == s.skip(9 + n1)[1]);
                            }
                        }
                    }
                    return Decoded::Malformed;
                }
                proof {
                    assert(s.skip(9 + n1).subrange(0, 2) =~= seq![',', '"']);
                    assert(starts_with(s.skip(9 + n1), seq![',', '"']));
                    assert(data@.skip(end1 as int + 2) =~= s.skip(9 + n1 + 2));
                }
                match decode_str(data, end1 + 2) {
                    Decoded::Done(v, end2) => {
                        let ghost n2 = end2 as int - end1 as int - 2;
                        assert(p_str(s.skip(9 + n1 + 2)) == Some((v@, n2)));
                        if data.len() - end2 < 2 {
                            proof {
                                assert(s.skip(9 + n1 + 2 + n2).len() < 2);
                                assert(!starts_with(s.skip(9 + n1 + 2 + n2), seq![']', '}']));
                            }
                            return Decoded::Incomplete;
                        }
                        let e0 = data[end2];
                        let e1 = data[end2 + 1];
                        assert(e0 == s.skip(9 + n1 + 2 + n2)[0] && e1 == s.skip(
                            9 + n1 + 2 + n2,
                        )[1]);
                        if e0 != ']' || e1 != '}' {
                            proof {
                                assert(!starts_with(s.skip(9 + n1 + 2 + n2), seq![']', '}']))
                                    by {
                                    if starts_with(s.skip(9 + n1 + 2 + n2), seq![']', '}']) {
                                        assert(s.skip(9 + n1 + 2 + n2).subrange(0, 2)[0]
                                            == s.skip(9 + n1 + 2 + n2)[0]);
                                        assert(s.skip(9 + n1 + 2 + n2).subrange(0, 2)[1]
                                            == s.skip(9 + n1 + 2 + n2)[1]);
                                    }
                                }
                            }
                            return Decoded::Malformed;
                        }
                        proof {
                            assert(s.skip(9 + n1 + 2 + n2).subrange(0, 2) =~= seq![']', '}']);
                            assert(starts_with(s.skip(9 + n1 + 2 + n2), seq![']', '}']));
                        }
                        Decoded::Done(Cmd::Put(k, v), end2 + 2)
                    },
                    Decoded::Incomplete => Decoded::Incomplete,
                    Decoded::Malformed => Decoded::Malformed,
                }
            },
            Decoded::Incomplete => Decoded::Incomplete,
            Decoded::Malformed => Decoded::Malformed,
        }
    } else if c2 == 'R' {
        proof {
            assert(!starts_with(s, set_open())) by {
                if starts_with(s, set_open()) {
                    assert(s.subrange(0, 9)[2] == s[2]);
                }
            }
        }
        if data.len() - start < 8 {
            proof {
                assert(!starts_with(s, rm_open()));
            }
            return Decoded::Incomplete;
        }
        let c3 = data[start + 3];
        let c4 = data[start + 4];
        let c5 = data[start + 5];
        let c6 = data[start + 6];
        let c7 = data[start + 7];
        assert(c3 == s[3] && c4 == s[4] && c5 == s[5] && c6 == s[6] && c7 == s[7]);
        if c3 != 'm' || c4 != '"' || c5 != ':' || c6 != '[' || c7 != '"' {
            proof {
                assert(!starts_with(s, rm_open())) by {
                    if starts_with(s, rm_open()) {
                        assert(forall|i: int|
                            0 <= i < 8 ==> s.subrange(0, 8)[i] == s[i]);
                    }
                }
            }
            return Decoded::Malformed;
        }
        proof {
            assert(s.subrange(0, 8) =~= rm_open());
            assert(starts_with(s, rm_open()));
            assert(data@.skip(start as int + 8) =~= s.skip(8));
        }
        match decode_str(data, start + 8) {
            Decoded::Done(k, end1) => {
                let ghost n1 = end1 as int - start as int - 8;
                assert(p_str(s.skip(8)) == Some((k@, n1)));
                if data.len() - end1 < 2 {
                    proof {
                        assert(s.skip(8 + n1).len() < 2);
                        assert(!starts_with(s.skip(8 + n1), seq![']', '}']));
                    }
                    return Decoded::Incomplete;
                }
                let e0 = data[end1];
                let e1 = data[end1 + 1];
                assert(e0 == s.skip(8 + n1)[0] && e1 == s.skip(8 + n1)[1]);
                if e0 != ']' || e1 != '}' {
                    proof {
                        assert(!starts_with(s.skip(8 + n1), seq![']', '}'])) by {
                            if starts_with(s.skip(8 + n1), seq![']', '}']) {
                                assert(s.skip(8 + n1).subrange(0, 2)[0] == s.skip(8 + n1)[0]);
                                assert(s.skip(8 + n1).subrange(0, 2)[1] == s.skip(8 + n1)[1]);
                            }
                        }
                    }
                    return Decoded::Malformed;
                }
                proof {
                    assert(s.skip(8 + n1).subrange(0, 2) =~= seq![']', '}']);
                    assert(starts_with(s.skip(8 + n1), seq![']', '}']));
                }
                Decoded::Done(Cmd::Rm(k), end1 + 2)
            },
            Decoded::Incomplete => Decoded::Incomplete,
            Decoded::Malformed => Decoded::Malformed,
        }
    } else {
        proof {
            assert(!starts_with(s, set_open())) by {
                if starts_with(s, set_open()) {
                    assert(s.subrange(0, 9)[2] == s[2]);
                }
            }
            assert(!starts_with(s, rm_open())) by {
                if starts_with(s, rm_open()) {
                    assert(s.subrange(0, 8)[2] == s[2]);
                }
            }
        }
        Decoded::Malformed
    }
}

} // verus!
