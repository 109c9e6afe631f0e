//! The envelope format `ENVCIPHER:v1:<base64 nonce>:<base64 ciphertext>`, the
//! classification of file contents, and the `KEY=value` lines of a plain file.
use vstd::prelude::*;

use crate::env::text::{
    chars_of, content_lines, first_newline, is_space, kept, lemma_first_newline_at, lemma_padded_line,
    lemma_trim_back_at,
    lemma_trim_front_at, line_bounds, segments, starts_with, trim_bounds, trimmed,
};
use crate::error::{EnvcipherError, FormatFault};

verus! {

pub open spec fn envelope_prefix() -> Seq<char> {
    seq!['E', 'N', 'V', 'C', 'I', 'P', 'H', 'E', 'R', ':', 'v', '1', ':']
}

/// A symbol of the standard base64 alphabet, padding included.
pub open spec fn is_base64_symbol(c: char) -> bool {
    ('A' <= c && c <= 'Z') || ('a' <= c && c <= 'z') || ('0' <= c && c <= '9') || c == '+'
        || c == '/' || c == '='
}

/// The symbol of the standard base64 alphabet for a value below 64.
pub open spec fn base64_symbol(n: int) -> char {
    if n < 26 {
        ((65 + n) as u8) as char
    } else if n < 52 {
        ((71 + n) as u8) as char
    } else if n < 62 {
        ((n - 4) as u8) as char
    } else if n == 62 {
        '+'
    } else {
        '/'
    }
}

/// Standard padded base64 text of some bytes: four symbols for each group of
/// three bytes, the last group padded with `=`.
pub open spec fn base64_text(b: Seq<u8>) -> Seq<char>
    decreases b.len(),
{
    let x = b[0] as int;
    let y = b[1] as int;
    let z = b[2] as int;
    if b.len() == 0 {
        seq![]
    } else if b.len() == 1 {
        seq![base64_symbol(x / 4), base64_symbol((x % 4) * 16), '=', '=']
    } else if b.len() == 2 {
        seq![
            base64_symbol(x / 4),
            base64_symbol((x % 4) * 16 + y / 16),
            base64_symbol((y % 16) * 4),
            '=',
        ]
    } else {
        seq![
            base64_symbol(x / 4),
            base64_symbol((x % 4) * 16 + y / 16),
            base64_symbol((y % 16) * 4 + z / 64),
            base64_symbol(z % 64),
        ] + base64_text(b.subrange(3, b.len() as int))
    }
}

/// The bytes that standard padded base64 text stands for, if it is valid.
pub uninterp spec fn base64_bytes(s: Seq<char>) -> Option<Seq<u8>>;

/// Relies on base64's `STANDARD` engine `encode`: standard padded base64,
/// which `decode` takes back to the same bytes.
#[verifier::external_body]
pub(crate) fn base64_encode(b: &[u8]) -> (r: String)
    ensures
        r@ == base64_text(b@),
        forall|i: int| 0 <= i < r@.len() ==> is_base64_symbol(#[trigger] r@[i]),
        base64_bytes(r@) == Some(b@),
{
    base64::Engine::encode(&base64::engine::general_purpose::STANDARD, b)
}

/// Relies on base64's `STANDARD` engine `decode`: it refuses any symbol
/// outside the alphabet.
#[verifier::external_body]
pub(crate) fn base64_decode(s: &str) -> (r: Option<Vec<u8>>)
    ensures
        match r {
            Some(v) => base64_bytes(s@) == Some(v@),
            None => base64_bytes(s@) is None,
        },
        (exists|i: int| 0 <= i < s@.len() && !is_base64_symbol(#[trigger] s@[i])) ==> r is None,
{
    base64::Engine::decode(&base64::engine::general_purpose::STANDARD, s).ok()
}

pub open spec fn count_of(s: Seq<char>, c: char) -> nat
    decreases s.len(),
{
    if s.len() == 0 {
        0
    } else {
        count_of(s.drop_last(), c) + if s.last() == c { 1nat } else { 0nat }
    }
}

/// Index of the first `c` in `s`, or its length when there is none.
pub open spec fn first_of(s: Seq<char>, c: char) -> nat
    decreases s.len(),
{
    if s.len() == 0 || s[0] == c {
        0
    } else {
        1 + first_of(s.drop_first(), c)
    }
}

/// The text after the prefix, in a trimmed text that starts with it.
pub open spec fn payload_of(t: Seq<char>) -> Seq<char> {
    t.subrange(13, t.len() as int)
}

/// What decoding an envelope gives: the nonce and the ciphertext, or the first
/// fault found.
pub open spec fn decoded_envelope(text: Seq<char>) -> Result<(Seq<u8>, Seq<u8>), FormatFault> {
    let t = trimmed(text);
    if !starts_with(t, envelope_prefix()) {
        Err(FormatFault::MissingPrefix)
    } else if count_of(payload_of(t), ':') != 1 {
        Err(FormatFault::FieldCount)
    } else {
        let p = payload_of(t);
        let k = first_of(p, ':') as int;
        match base64_bytes(p.subrange(0, k)) {
            None => Err(FormatFault::NonceEncoding),
            Some(n) => if n.len() != 12 {
                Err(FormatFault::NonceLength)
            } else {
                match base64_bytes(p.subrange(k + 1, p.len() as int)) {
                    None => Err(FormatFault::CiphertextEncoding),
                    Some(c) => Ok((n, c)),
                }
            },
        }
    }
}

/// The one line that stands for a nonce and a ciphertext.
pub open spec fn envelope_text(nonce: Seq<u8>, ciphertext: Seq<u8>) -> Seq<char> {
    envelope_prefix() + base64_text(nonce) + seq![':'] + base64_text(ciphertext) + seq!['\n']
}

/// Whether text has the outward shape of an envelope: it holds exactly one
/// line with content, that line starts with the prefix, and two fields follow.
pub open spec fn envelope_shaped(text: Seq<char>) -> bool {
    let lines = content_lines(text);
    &&& lines.len() == 1
    &&& starts_with(lines[0], envelope_prefix())
    &&& count_of(payload_of(lines[0]), ':') == 1
}

/// Whether some line with content starts with the prefix.
pub open spec fn has_prefixed_line(text: Seq<char>) -> bool {
    exists|i: int|
        0 <= i < content_lines(text).len() && starts_with(
            #[trigger] content_lines(text)[i],
            envelope_prefix(),
        )
}

#[derive(Debug, Clone, Copy, PartialEq, Eq, Structural)]
pub enum EncryptionState {
    Plaintext,
    Enciphered,
    CorruptedMixed,
}

/// The state of file contents: one line that decodes as an envelope, envelope
/// lines mixed with others or not decoding, or plain text.
pub open spec fn classification(text: Seq<char>) -> EncryptionState {
    if content_lines(text).len() == 1 && starts_with(content_lines(text)[0], envelope_prefix())
        && decoded_envelope(text) is Ok {
        EncryptionState::Enciphered
    } else if has_prefixed_line(text) {
        EncryptionState::CorruptedMixed
    } else {
        EncryptionState::Plaintext
    }
}


/// Whether `s[lo..hi]` starts with the envelope prefix.
fn prefix_at(s: &Vec<char>, lo: usize, hi: usize) -> (r: bool)
    requires
        lo <= hi <= s@.len(),
    ensures
        r == starts_with(s@.subrange(lo as int, hi as int), envelope_prefix()),
{
    let p = "ENVCIPHER:v1:";
    proof {
        reveal_strlit("ENVCIPHER:v1:");
    }
    assert(p@ =~= envelope_prefix());
    let ghost w = s@.subrange(lo as int, hi as int);
    if hi - lo < 13 {
        return false;
    }
    let mut i: usize = 0;
    while i < 13
        invariant
            i <= 13,
            lo + 13 <= hi <= s@.len(),
            p@ == envelope_prefix(),
            w == s@.subrange(lo as int, hi as int),
            forall|j: int| 0 <= j < i ==> s@[lo + j] == envelope_prefix()[j],
        decreases 13 - i,
    {
        if s[lo + i] != p.get_char(i) {
            assert(w[i as int] != envelope_prefix()[i as int]);
            assert(w.subrange(0, 13) != envelope_prefix());
            return false;
        }
        i = i + 1;
    }
    assert(w.subrange(0, 13) =~= envelope_prefix());
    true
}

/// How many times `c` occurs in `s[lo..hi]`, and where it first stands (as an
/// offset from `lo`, or `hi - lo` when it does not occur).
fn occurrences(s: &Vec<char>, lo: usize, hi: usize, c: char) -> (r: (usize, usize))
    requires
        lo <= hi <= s@.len(),
    ensures
        r.0 == count_of(s@.subrange(lo as int, hi as int), c),
        r.1 == first_of(s@.subrange(lo as int, hi as int), c),
        r.1 <= hi - lo,
        r.0 > 0 ==> r.1 < hi - lo,
        r.1 < hi - lo ==> s@[lo + r.1] == c,
{
    let mut count: usize = 0;
    let mut first: usize = hi - lo;
    let mut i: usize = lo;
    while i < hi
        invariant
            lo <= i <= hi <= s@.len(),
            count == count_of(s@.subrange(lo as int, i as int), c),
            count <= i - lo,
            count > 0 ==> first < hi - lo,
            first <= hi - lo,
            first == hi - lo ==> forall|j: int| lo <= j < i ==> s@[j] != c,
            first < hi - lo ==> first < i - lo && s@[lo + first] == c && forall|j: int|
                lo <= j < lo + first ==> s@[j] != c,
        decreases hi - i,
    {
        assert(s@.subrange(lo as int, i + 1).drop_last() =~= s@.subrange(lo as int, i as int));
        if s[i] == c {
            count = count + 1;
            if first == hi - lo {
                first = i - lo;
            }
        }
        i = i + 1;
    }
    assert(s@.subrange(lo as int, hi as int) == s@.subrange(lo as int, i as int));
    proof {
        let w = s@.subrange(lo as int, hi as int);
        assert forall|j: int| 0 <= j < first implies #[trigger] w[j] != c by {
            assert(w[j] == s@[lo + j]);
        }
        lemma_first_of_at(w, c, first as int);
    }
    (count, first)
}

proof fn lemma_first_of_at(t: Seq<char>, c: char, k: int)
    requires
        0 <= k <= t.len(),
        forall|i: int| 0 <= i < k ==> #[trigger] t[i] != c,
        k == t.len() || t[k] == c,
    ensures
        first_of(t, c) == k,
    decreases k,
{
    if k > 0 {
        let u = t.drop_first();
        assert forall|i: int| 0 <= i < k - 1 implies #[trigger] u[i] != c by {
            assert(u[i] == t[i + 1]);
        }
        lemma_first_of_at(u, c, k - 1);
    }
}

/// Decodes an envelope into its nonce and ciphertext. Surrounding whitespace
/// is ignored; any other deviation from the format is `InvalidFormat`.
pub fn parse_enciphered_file(contents: &str) -> (r: Result<([u8; 12], Vec<u8>), EnvcipherError>)
    ensures
        match r {
            Ok((n, c)) => decoded_envelope(contents@) == Ok::<(Seq<u8>, Seq<u8>), FormatFault>((n@, c@)),
            Err(e) => exists|f: FormatFault| e == EnvcipherError::InvalidFormat(f)
                && decoded_envelope(contents@) == Err::<(Seq<u8>, Seq<u8>), FormatFault>(f),
        },
        !starts_with(trimmed(contents@), envelope_prefix()) ==> r is Err,
        starts_with(trimmed(contents@), envelope_prefix()) && count_of(payload_of(trimmed(contents@)), ':') != 1 ==> r is Err,
        (exists|i: int| 0 <= i < payload_of(trimmed(contents@)).len() &&
            !is_base64_symbol(#[trigger] payload_of(trimmed(contents@))[i]) && payload_of(trimmed(contents@))[i] != ':')
            ==> r is Err,
{
    let s = chars_of(contents);
    let (lo, hi) = trim_bounds(&s, 0, s.len());
    assert(s@.subrange(0, s@.len() as int) =~= s@);
    let ghost t = trimmed(contents@);
    if !prefix_at(&s, lo, hi) {
        return Err(EnvcipherError::InvalidFormat(FormatFault::MissingPrefix));
    }
    let a = lo + 13;
    assert(payload_of(t) =~= s@.subrange(a as int, hi as int));
    let (count, first) = occurrences(&s, a, hi, ':');
    if count != 1 {
        return Err(EnvcipherError::InvalidFormat(FormatFault::FieldCount));
    }
    let ghost p = payload_of(t);
    let nonce_field = contents.substring_char(a, a + first);
    let cipher_field = contents.substring_char(a + first + 1, hi);
    assert(nonce_field@ =~= p.subrange(0, first as int));
    assert(cipher_field@ =~= p.subrange(first + 1, p.len() as int));
    proof {
        if exists|i: int| 0 <= i < p.len() && !is_base64_symbol(#[trigger] p[i]) && p[i] != ':' {
            let i = choose|i: int| 0 <= i < p.len() && !is_base64_symbol(#[trigger] p[i]) && p[i] != ':';
            if i < first {
                assert(nonce_field@[i] == p[i]);
            } else {
                assert(p[first as int] == s@[a + first]);
                assert(i != first);
                assert(cipher_field@[i - first - 1] == p[i]);
            }
        }
    }
    let nonce_bytes = match base64_decode(nonce_field) {
        Some(v) => v,
        None => {
            return Err(EnvcipherError::InvalidFormat(FormatFault::NonceEncoding));
        },
    };
    if nonce_bytes.len() != 12 {
        return Err(EnvcipherError::InvalidFormat(FormatFault::NonceLength));
    }
    let nonce = crate::crypto::aead::nonce_from(&nonce_bytes);
    match base64_decode(cipher_field) {
        Some(c) => Ok((nonce, c)),
        None => Err(EnvcipherError::InvalidFormat(FormatFault::CiphertextEncoding)),
    }
}


proof fn lemma_count_concat(a: Seq<char>, b: Seq<char>, c: char)
    ensures
        count_of(a + b, c) == count_of(a, c) + count_of(b, c),
    decreases b.len(),
{
    if b.len() == 0 {
        assert(a + b =~= a);
    } else {
        lemma_count_concat(a, b.drop_last(), c);
        assert((a + b).drop_last() =~= a + b.drop_last());
    }
}

proof fn lemma_count_absent(a: Seq<char>, c: char)
    requires
        forall|i: int| 0 <= i < a.len() ==> #[trigger] a[i] != c,
    ensures
        count_of(a, c) == 0,
    decreases a.len(),
{
    if a.len() > 0 {
        lemma_count_absent(a.drop_last(), c);
    }
}

/// The two fields of an envelope payload are found again where they were put.
proof fn lemma_payload_fields(e1: Seq<char>, e2: Seq<char>)
    requires
        forall|i: int| 0 <= i < e1.len() ==> is_base64_symbol(#[trigger] e1[i]),
        forall|i: int| 0 <= i < e2.len() ==> is_base64_symbol(#[trigger] e2[i]),
    ensures
        ({
            let p = e1 + seq![':'] + e2;
            &&& count_of(p, ':') == 1
            &&& first_of(p, ':') == e1.len()
            &&& p.subrange(0, e1.len() as int) == e1
            &&& p.subrange(e1.len() as int + 1, p.len() as int) == e2
        }),
{
    let p = e1 + seq![':'] + e2;
    assert forall|i: int| 0 <= i < e1.len() implies #[trigger] e1[i] != ':' by {
        assert(is_base64_symbol(e1[i]));
    }
    assert forall|i: int| 0 <= i < e2.len() implies #[trigger] e2[i] != ':' by {
        assert(is_base64_symbol(e2[i]));
    }
    lemma_count_absent(e1, ':');
    lemma_count_absent(e2, ':');
    lemma_count_concat(e1, seq![':'], ':');
    lemma_count_concat(e1 + seq![':'], e2, ':');
    assert(seq![':'].drop_last() =~= Seq::<char>::empty());
    assert(count_of(Seq::<char>::empty(), ':') == 0);
    assert(seq![':'].last() == ':');
    assert(count_of(seq![':'], ':') == 1);
    assert forall|i: int| 0 <= i < e1.len() implies #[trigger] p[i] != ':' by {
        assert(p[i] == e1[i]);
    }
    lemma_first_of_at(p, ':', e1.len() as int);
    assert(p.subrange(0, e1.len() as int) =~= e1);
    assert(p.subrange(e1.len() as int + 1, p.len() as int) =~= e2);
}

/// A non-empty line with no whitespace, newline-ended, is its own trimmed
/// text and its only line with content.
proof fn lemma_single_line(b: Seq<char>)
    requires
        b.len() > 0,
        forall|i: int| 0 <= i < b.len() ==> !is_space(#[trigger] b[i]) && b[i] != '\n',
    ensures
        trimmed(b + seq!['\n']) == b,
        content_lines(b + seq!['\n']) == seq![b],
{
    let t = b + seq!['\n'];
    assert(t[0] == b[0]);
    lemma_trim_front_at(t, 0);
    assert(t.subrange(0, t.len() as int) =~= t);
    assert(t[t.len() - 2] == b[b.len() - 1]);
    lemma_trim_back_at(t, b.len() as int);
    assert(t.subrange(0, b.len() as int) =~= b);
    assert forall|i: int| 0 <= i < b.len() implies #[trigger] t[i] != '\n' by {
        assert(t[i] == b[i]);
    }
    lemma_first_newline_at(t, b.len() as int);
    let rest = t.subrange(b.len() as int + 1, t.len() as int);
    assert(rest =~= Seq::<char>::empty());
    assert(segments(rest) == seq![rest]);
    assert(segments(t) =~= seq![b, rest]);
    let segs = seq![b, rest];
    assert(trimmed(rest) == rest) by {
        lemma_trim_front_at(rest, 0);
        assert(rest.subrange(0, 0) =~= rest);
        lemma_trim_back_at(rest, 0);
    }
    assert(segs.drop_last() =~= seq![b]);
    assert(seq![b].drop_last() =~= Seq::<Seq<char>>::empty());
    lemma_trim_front_at(b, 0);
    assert(b.subrange(0, b.len() as int) =~= b);
    lemma_trim_back_at(b, b.len() as int);
    assert(trimmed(b) == b);
    assert(seq![b].last() == b);
    assert(kept(seq![b].drop_last()) == Seq::<Seq<char>>::empty());
    assert(kept(seq![b]) == Seq::<Seq<char>>::empty().push(b));
    assert(kept(seq![b]) =~= seq![b]);
    assert(kept(segs) == kept(seq![b]));
}

/// Facts on the text of an envelope, given fields over the base64 alphabet.
proof fn lemma_envelope_shape(e1: Seq<char>, e2: Seq<char>)
    requires
        forall|i: int| 0 <= i < e1.len() ==> is_base64_symbol(#[trigger] e1[i]),
        forall|i: int| 0 <= i < e2.len() ==> is_base64_symbol(#[trigger] e2[i]),
    ensures
        ({
            let b = envelope_prefix() + e1 + seq![':'] + e2;
            &&& trimmed(b + seq!['\n']) == b
            &&& starts_with(b, envelope_prefix())
            &&& payload_of(b) == e1 + seq![':'] + e2
            &&& content_lines(b + seq!['\n']) == seq![b]
            &&& forall|i: int| 0 <= i < b.len() ==> !is_space(#[trigger] b[i])
        }),
{
    let b = envelope_prefix() + e1 + seq![':'] + e2;
    let p = e1 + seq![':'] + e2;
    assert(b =~= envelope_prefix() + p);
    assert forall|i: int| 0 <= i < b.len() implies !is_space(#[trigger] b[i]) && b[i] != '\n' by {
        if i >= 13 {
            assert(b[i] == p[i - 13]);
            if i - 13 < e1.len() {
                assert(p[i - 13] == e1[i - 13]);
            } else if i - 13 > e1.len() {
                assert(p[i - 13] == e2[i - 14 - e1.len()]);
            }
        }
    }
    lemma_single_line(b);
    assert(b.subrange(0, 13) =~= envelope_prefix());
    assert(payload_of(b) =~= p);
}

/// Writes the envelope of a nonce and a ciphertext: one line, newline-ended.
/// It decodes to the same pair and classifies as enciphered.
pub fn format_enciphered_text(nonce: &[u8; 12], ciphertext: &[u8]) -> (r: String)
    ensures
        r@ == envelope_text(nonce@, ciphertext@),
        decoded_envelope(r@) == Ok::<(Seq<u8>, Seq<u8>), FormatFault>((nonce@, ciphertext@)),
        classification(r@) == EncryptionState::Enciphered,
        r@.len() > 13 && r@.last() == '\n',
        forall|i: int| 0 <= i < r@.len() - 1 ==> !is_space(#[trigger] r@[i]),
{
    let e1 = base64_encode(nonce.as_slice());
    let e2 = base64_encode(ciphertext);
    let mut r = String::from_str("ENVCIPHER:v1:");
    r.append(e1.as_str());
    r.append(":");
    r.append(e2.as_str());
    r.append("\n");
    proof {
        reveal_strlit("ENVCIPHER:v1:");
        reveal_strlit(":");
        reveal_strlit("\n");
        assert(r@ =~= envelope_text(nonce@, ciphertext@));
        lemma_envelope_shape(e1@, e2@);
        lemma_payload_fields(e1@, e2@);
        let b = envelope_prefix() + e1@ + seq![':'] + e2@;
        assert(r@ =~= b + seq!['\n']);
        assert(content_lines(r@)[0] == b);
        assert forall|i: int| 0 <= i < r@.len() - 1 implies !is_space(#[trigger] r@[i]) by {
            assert(r@[i] == b[i]);
        }
    }
    r
}


/// Whether one of the given lines starts with the envelope prefix.
fn any_prefixed(s: &Vec<char>, lines: &Vec<(usize, usize)>) -> (r: bool)
    requires
        lines@.len() == content_lines(s@).len(),
        forall|i: int|
            0 <= i < lines@.len() ==> {
                &&& (#[trigger] lines@[i]).0 <= lines@[i].1 <= s@.len()
                &&& s@.subrange(lines@[i].0 as int, lines@[i].1 as int) == content_lines(s@)[i]
            },
    ensures
        r == has_prefixed_line(s@),
{
    let mut i: usize = 0;
    while i < lines.len()
        invariant
            i <= lines@.len() == content_lines(s@).len(),
            forall|j: int| 0 <= j < i ==> !starts_with(#[trigger] content_lines(s@)[j], envelope_prefix()),
            forall|i: int|
                0 <= i < lines@.len() ==> {
                    &&& (#[trigger] lines@[i]).0 <= lines@[i].1 <= s@.len()
                    &&& s@.subrange(lines@[i].0 as int, lines@[i].1 as int) == content_lines(s@)[i]
                },
        decreases lines@.len() - i,
    {
        let (lo, hi) = lines[i];
        if prefix_at(s, lo, hi) {
            assert(starts_with(content_lines(s@)[i as int], envelope_prefix()));
            return true;
        }
        i = i + 1;
    }
    false
}

/// Whether the contents have the outward shape of an envelope: they hold
/// exactly one line with content, it starts with `ENVCIPHER:v1:`, and two
/// colon-separated fields follow the prefix. The fields themselves are not
/// decoded.
pub fn is_enciphered(contents: &str) -> (r: bool)
    ensures
        r == envelope_shaped(contents@),
{
    let s = chars_of(contents);
    let lines = line_bounds(&s);
    if lines.len() != 1 {
        return false;
    }
    let (lo, hi) = lines[0];
    if !prefix_at(&s, lo, hi) {
        return false;
    }
    assert(payload_of(content_lines(contents@)[0]) =~= s@.subrange(lo + 13, hi as int));
    let (count, _) = occurrences(&s, lo + 13, hi, ':');
    count == 1
}

/// Whether some line carries the envelope prefix while the whole is not
/// shaped as an envelope.
pub fn has_corrupted_format(contents: &str) -> (r: bool)
    ensures
        r == (has_prefixed_line(contents@) && !envelope_shaped(contents@)),
{
    let s = chars_of(contents);
    let lines = line_bounds(&s);
    if !any_prefixed(&s, &lines) {
        return false;
    }
    !is_enciphered(contents)
}

/// Classifies contents as one decodable envelope line, envelope lines mixed
/// with others or failing to decode, or plain text (the empty text included).
pub fn classify(contents: &str) -> (r: EncryptionState)
    ensures
        r == classification(contents@),
{
    let s = chars_of(contents);
    let lines = line_bounds(&s);
    if lines.len() == 1 {
        let (lo, hi) = lines[0];
        if prefix_at(&s, lo, hi) && parse_enciphered_file(contents).is_ok() {
            return EncryptionState::Enciphered;
        }
    }
    if any_prefixed(&s, &lines) {
        EncryptionState::CorruptedMixed
    } else {
        EncryptionState::Plaintext
    }
}

/// Text with no line that starts with the prefix is plain, the empty text
/// included, and does not have the shape of an envelope.
pub proof fn lemma_unprefixed_is_plaintext(text: Seq<char>)
    requires
        forall|i: int| 0 <= i < content_lines(text).len() ==> !starts_with(
            #[trigger] content_lines(text)[i],
            envelope_prefix(),
        ),
    ensures
        classification(text) == EncryptionState::Plaintext,
        !envelope_shaped(text),
{
    if content_lines(text).len() == 1 {
        assert(!starts_with(content_lines(text)[0], envelope_prefix()));
    }
}

/// Whitespace and blank lines around a line without whitespace change
/// neither its classification nor whether it has the shape of an envelope. So
/// a written envelope, padded so, still classifies as enciphered.
pub proof fn lemma_padded_envelope(w1: Seq<char>, line: Seq<char>, w2: Seq<char>)
    requires
        line.len() > 0,
        forall|i: int| 0 <= i < line.len() ==> !is_space(#[trigger] line[i]),
        forall|i: int| 0 <= i < w1.len() ==> is_space(#[trigger] w1[i]),
        forall|i: int| 0 <= i < w2.len() ==> is_space(#[trigger] w2[i]),
    ensures
        classification(w1 + line + w2) == classification(line),
        envelope_shaped(w1 + line + w2) == envelope_shaped(line),
{
    let e = Seq::<char>::empty();
    lemma_padded_line(w1, line, w2);
    lemma_padded_line(e, line, e);
    assert(e + line + e =~= line);
}

/// The empty text is plain.
pub proof fn lemma_empty_is_plaintext()
    ensures
        classification(Seq::<char>::empty()) == EncryptionState::Plaintext,
{
    let e = Seq::<char>::empty();
    assert(e.subrange(0, 0) =~= e);
    lemma_first_newline_at(e, 0);
    assert(segments(e) =~= seq![e]);
    lemma_trim_front_at(e, 0);
    lemma_trim_back_at(e, 0);
    assert(trimmed(e) == e);
    assert(seq![e].drop_last() =~= Seq::<Seq<char>>::empty());
    assert(seq![e].last() == e);
    assert(trimmed(seq![e].last()).len() == 0);
    assert(kept(seq![e]) == kept(Seq::<Seq<char>>::empty()));
    assert(kept(seq![e]) =~= Seq::<Seq<char>>::empty());
    lemma_unprefixed_is_plaintext(e);
}

/// A line with the prefix beside another line with content, or a prefixed
/// line that does not decode, makes the contents corrupted.
pub proof fn lemma_prefixed_mixed_is_corrupted(text: Seq<char>, i: int)
    requires
        0 <= i < content_lines(text).len(),
        starts_with(content_lines(text)[i], envelope_prefix()),
        content_lines(text).len() >= 2 || decoded_envelope(text) is Err,
    ensures
        classification(text) == EncryptionState::CorruptedMixed,
{
}


/// Lower-case hexadecimal digit of a value below sixteen.
pub open spec fn hex_digit(n: u8) -> char {
    if n < 10 {
        ((48 + n) as u8) as char
    } else {
        ((87 + n) as u8) as char
    }
}

/// Two lower-case hexadecimal digits for each byte, high digit first.
pub open spec fn hex_of(b: Seq<u8>) -> Seq<char>
    decreases b.len(),
{
    if b.len() == 0 {
        seq![]
    } else {
        hex_of(b.drop_last()) + seq![hex_digit(b.last() / 16), hex_digit(b.last() % 16)]
    }
}

proof fn lemma_hex_len(b: Seq<u8>)
    ensures
        hex_of(b).len() == 2 * b.len(),
    decreases b.len(),
{
    if b.len() > 0 {
        lemma_hex_len(b.drop_last());
    }
}

/// The SHA-256 digest of some bytes.
pub uninterp spec fn sha256_of(b: Seq<u8>) -> Seq<u8>;

/// Relies on sha2's `Sha256::digest`: a 32-byte digest of the input.
#[verifier::external_body]
fn sha256(b: &[u8]) -> (r: Vec<u8>)
    ensures
        r@ == sha256_of(b@),
        r@.len() == 32,
{
    <sha2::Sha256 as sha2::Digest>::digest(b).to_vec()
}

/// Relies on `hex::encode`: two lower-case digits per byte, in order.
#[verifier::external_body]
fn hex_encode(b: &[u8]) -> (r: String)
    ensures
        r@ == hex_of(b@),
{
    hex::encode(b)
}

/// The identity of a project directory: the first eight bytes of the SHA-256
/// digest of its UTF-8 path, in hexadecimal.
pub open spec fn project_identity(dir: Seq<char>) -> Seq<char> {
    hex_of(sha256_of(vstd::utf8::encode_utf8(dir)).subrange(0, 8))
}

/// Derives the identity of a project from its directory, taken as given (no
/// normalisation): sixteen hexadecimal digits.
pub fn hash_directory_path(dir: &str) -> (r: String)
    ensures
        r@ == project_identity(dir@),
        r@.len() == 16,
{
    let digest = sha256(dir.as_bytes());
    let mut head: Vec<u8> = Vec::new();
    let mut i: usize = 0;
    while i < 8
        invariant
            i <= 8,
            digest@.len() == 32,
            head@ == digest@.subrange(0, i as int),
        decreases 8 - i,
    {
        head.push(digest[i]);
        i = i + 1;
        assert(head@ =~= digest@.subrange(0, i as int));
    }
    proof {
        lemma_hex_len(head@);
    }
    hex_encode(head.as_slice())
}

/// The same directory string always gives the same identity.
pub proof fn lemma_identity_stable(d1: Seq<char>, d2: Seq<char>)
    requires
        d1 == d2,
    ensures
        project_identity(d1) == project_identity(d2),
{
}


/// A value without one pair of matching surrounding quotes, double or single.
pub open spec fn unquoted(v: Seq<char>) -> Seq<char> {
    if v.len() >= 2 && ((v[0] == '"' && v.last() == '"') || (v[0] == '\'' && v.last() == '\'')) {
        v.subrange(1, v.len() - 1)
    } else {
        v
    }
}

/// The variable a trimmed, non-empty line sets: none for a comment or a line
/// without `=`; otherwise the trimmed text before the first `=` and the
/// trimmed, unquoted text after it.
pub open spec fn env_entry(line: Seq<char>) -> Option<(Seq<char>, Seq<char>)> {
    let k = first_of(line, '=') as int;
    if line.len() > 0 && line[0] == '#' {
        None
    } else if k >= line.len() {
        None
    } else {
        Some((trimmed(line.subrange(0, k)), unquoted(trimmed(line.subrange(k + 1, line.len() as int)))))
    }
}

pub open spec fn env_entries(lines: Seq<Seq<char>>) -> Seq<(Seq<char>, Seq<char>)>
    decreases lines.len(),
{
    if lines.len() == 0 {
        seq![]
    } else {
        match env_entry(lines.last()) {
            Some(e) => env_entries(lines.drop_last()).push(e),
            None => env_entries(lines.drop_last()),
        }
    }
}

/// Reads the `KEY=value` assignments of a plain `.env` text, in order.
pub fn parse_env_content(content: &str) -> (r: Vec<(String, String)>)
    ensures
        r@.len() == env_entries(content_lines(content@)).len(),
        forall|i: int|
            0 <= i < r@.len() ==> (#[trigger] r@[i]).0@ == env_entries(content_lines(content@))[i].0
                && r@[i].1@ == env_entries(content_lines(content@))[i].1,
{
    let s = chars_of(content);
    let lines = line_bounds(&s);
    let ghost ls = content_lines(content@);
    let mut vars: Vec<(String, String)> = Vec::new();
    let mut i: usize = 0;
    assert(ls.subrange(0, 0) =~= Seq::<Seq<char>>::empty());
    while i < lines.len()
        invariant
            s@ == content@,
            ls == content_lines(content@),
            i <= lines@.len() == ls.len(),
            forall|i: int|
                0 <= i < lines@.len() ==> {
                    &&& (#[trigger] lines@[i]).0 <= lines@[i].1 <= s@.len()
                    &&& s@.subrange(lines@[i].0 as int, lines@[i].1 as int) == ls[i]
                },
            vars@.len() == env_entries(ls.subrange(0, i as int)).len(),
            forall|j: int|
                0 <= j < vars@.len() ==> (#[trigger] vars@[j]).0@ == env_entries(ls.subrange(0, i as int))[j].0
                    && vars@[j].1@ == env_entries(ls.subrange(0, i as int))[j].1,
        decreases lines@.len() - i,
    {
        let (lo, hi) = lines[i];
        let ghost line = ls[i as int];
        let ghost sub = ls.subrange(0, i + 1);
        assert(sub.drop_last() =~= ls.subrange(0, i as int));
        assert(sub.last() == line);
        if lo < hi && s[lo] != '#' {
            let (_, k) = occurrences(&s, lo, hi, '=');
            if k < hi - lo {
                let (klo, khi) = trim_bounds(&s, lo, lo + k);
                let (vlo, vhi) = trim_bounds(&s, lo + k + 1, hi);
                let mut a = vlo;
                let mut b = vhi;
                if vhi - vlo >= 2 && ((s[vlo] == '"' && s[vhi - 1] == '"') || (s[vlo] == '\'' && s[vhi
                    - 1] == '\'')) {
                    a = vlo + 1;
                    b = vhi - 1;
                }
                let key = String::from_str(content.substring_char(klo, khi));
                let value = String::from_str(content.substring_char(a, b));
                proof {
                    assert(line.subrange(0, k as int) =~= s@.subrange(lo as int, lo + k));
                    assert(line.subrange(k + 1, line.len() as int) =~= s@.subrange(lo + k + 1, hi as int));
                    let v = s@.subrange(vlo as int, vhi as int);
                    assert(value@ =~= unquoted(v));
                }
                vars.push((key, value));
            }
        }
        assert(vars@.len() == env_entries(sub).len());
        i = i + 1;
    }
    assert(ls.subrange(0, i as int) =~= ls);
    vars
}

} // verus!
