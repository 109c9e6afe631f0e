//! Unlocking: removes one or more layers of encipherment, salvaging lines of
//! mixed content one by one, within a fixed number of rounds.
use vstd::prelude::*;
use vstd::utf8::{decode_utf8, encode_utf8, encode_utf8_decode_utf8, encode_utf8_valid_utf8, valid_utf8};

use crate::crypto::aead::{aes_decipher, aes_encipher, gcm_open, PLAINTEXT_MAX};
use crate::crypto::secret::SecretKey;
use crate::env::parser::{
    classification, classify, decoded_envelope, envelope_prefix, envelope_shaped, has_prefixed_line,
    lemma_unprefixed_is_plaintext,
    envelope_text, format_enciphered_text, is_enciphered, parse_enciphered_file, EncryptionState,
};
use crate::env::text::{
    chars_of, content_lines, is_space, lemma_two_lines, raw_lines, segment_bounds, starts_with,
    trim_bounds, trimmed,
};
use crate::error::{EnvcipherError, FormatFault};

verus! {

/// Most layers that one unlock removes.
pub const MAX_LAYERS: usize = 10;

/// Relies on `String::from_utf8`: it succeeds exactly on valid UTF-8, and the
/// text is what those bytes encode.
#[verifier::external_body]
fn utf8_text(b: Vec<u8>) -> (r: Option<String>)
    ensures
        match r {
            Some(t) => valid_utf8(b@) && t@ == decode_utf8(b@),
            None => !valid_utf8(b@),
        },
{
    String::from_utf8(b).ok()
}

/// The text inside one envelope, or why it cannot be had.
pub open spec fn opened_text(key: Seq<u8>, nonce: Seq<u8>, ciphertext: Seq<u8>) -> Result<Seq<char>, EnvcipherError> {
    match gcm_open(key, nonce, ciphertext) {
        None => Err(EnvcipherError::Decipherment),
        Some(b) => if valid_utf8(b) {
            Ok(decode_utf8(b))
        } else {
            Err(EnvcipherError::NonUtf8Plaintext)
        },
    }
}

/// What salvage makes of one line: its deciphered text when it is an envelope
/// that opens, nothing (keep the line verbatim) when it is not or does not open.
pub open spec fn salvaged_line(key: Seq<u8>, line: Seq<char>) -> Result<Option<Seq<char>>, EnvcipherError> {
    if !starts_with(trimmed(line), envelope_prefix()) {
        Ok(None)
    } else {
        match decoded_envelope(line) {
            Err(_) => Ok(None),
            Ok((n, c)) => match gcm_open(key, n, c) {
                None => Ok(None),
                Some(b) => if valid_utf8(b) {
                    Ok(Some(decode_utf8(b)))
                } else {
                    Err(EnvcipherError::NonUtf8Plaintext)
                },
            },
        }
    }
}

/// One salvage pass over lines: each line (or what it deciphers to) followed by
/// a newline, and whether any line was deciphered.
pub open spec fn salvaged(key: Seq<u8>, lines: Seq<Seq<char>>) -> Result<(Seq<char>, bool), EnvcipherError>
    decreases lines.len(),
{
    if lines.len() == 0 {
        Ok((Seq::empty(), false))
    } else {
        match salvaged(key, lines.drop_last()) {
            Err(e) => Err(e),
            Ok((out, progress)) => match salvaged_line(key, lines.last()) {
                Err(e) => Err(e),
                Ok(None) => Ok((out + lines.last() + seq!['\n'], progress)),
                Ok(Some(t)) => Ok((out + t + seq!['\n'], true)),
            },
        }
    }
}

/// One round: nothing more to do, the next contents, or an error.
pub open spec fn unwind_step(key: Seq<u8>, text: Seq<char>) -> Result<Option<Seq<char>>, EnvcipherError> {
    match classification(text) {
        EncryptionState::Plaintext => Ok(None),
        EncryptionState::Enciphered => match decoded_envelope(text) {
            Err(f) => Err(EnvcipherError::InvalidFormat(f)),
            Ok((n, c)) => match opened_text(key, n, c) {
                Err(e) => Err(e),
                Ok(t) => Ok(Some(t)),
            },
        },
        EncryptionState::CorruptedMixed => match salvaged(key, raw_lines(text)) {
            Err(e) => Err(e),
            Ok((out, progress)) => if progress {
                Ok(Some(out))
            } else {
                Ok(None)
            },
        },
    }
}

/// The contents after at most `rounds` rounds, and how many layers came off.
pub open spec fn unwound(key: Seq<u8>, text: Seq<char>, rounds: nat) -> Result<(Seq<char>, nat), EnvcipherError>
    decreases rounds,
{
    if rounds == 0 {
        Ok((text, 0))
    } else {
        match unwind_step(key, text) {
            Err(e) => Err(e),
            Ok(None) => Ok((text, 0)),
            Ok(Some(t)) => match unwound(key, t, (rounds - 1) as nat) {
                Err(e) => Err(e),
                Ok((u, k)) => Ok((u, k + 1)),
            },
        }
    }
}

pub open spec fn shifted(r: Result<(Seq<char>, nat), EnvcipherError>, by: nat) -> Result<(Seq<char>, nat), EnvcipherError> {
    match r {
        Err(e) => Err(e),
        Ok((u, k)) => Ok((u, k + by)),
    }
}

/// Opens one envelope and reads its plaintext as text.
fn open_text(key: &SecretKey, nonce: &[u8; 12], ciphertext: &[u8]) -> (r: Result<String, EnvcipherError>)
    ensures
        match r {
            Ok(t) => opened_text(key.0@, nonce@, ciphertext@) == Ok::<Seq<char>, EnvcipherError>(t@),
            Err(e) => opened_text(key.0@, nonce@, ciphertext@) == Err::<Seq<char>, EnvcipherError>(e),
        },
{
    let b = match aes_decipher(key, nonce, ciphertext) {
        Ok(b) => b,
        Err(e) => {
            return Err(e);
        },
    };
    match utf8_text(b) {
        Some(t) => Ok(t),
        None => Err(EnvcipherError::NonUtf8Plaintext),
    }
}

proof fn lemma_salvage_error_stays(key: Seq<u8>, lines: Seq<Seq<char>>, i: int)
    requires
        0 <= i <= lines.len(),
        salvaged(key, lines.subrange(0, i)) is Err,
    ensures
        salvaged(key, lines) == salvaged(key, lines.subrange(0, i)),
    decreases lines.len() - i,
{
    if i == lines.len() {
        assert(lines.subrange(0, i) =~= lines);
    } else {
        let next = lines.subrange(0, i + 1);
        assert(next.drop_last() =~= lines.subrange(0, i));
        lemma_salvage_error_stays(key, lines, i + 1);
    }
}

/// One salvage pass over the lines of `text` that hold content; each line that
/// does not open is kept as it stands.
pub fn salvage_lines(key: &SecretKey, text: &str) -> (r: Result<(String, bool), EnvcipherError>)
    ensures
        match r {
            Ok((out, progress)) => salvaged(key.0@, raw_lines(text@))
                == Ok::<(Seq<char>, bool), EnvcipherError>((out@, progress)),
            Err(e) => salvaged(key.0@, raw_lines(text@)) == Err::<(Seq<char>, bool), EnvcipherError>(e),
        },
{
    let s = chars_of(text);
    let lines = segment_bounds(&s);
    let ghost ls = raw_lines(text@);
    let mut out = String::new();
    let mut progress = false;
    let mut i: usize = 0;
    assert(ls.subrange(0, 0) =~= Seq::<Seq<char>>::empty());
    while i < lines.len()
        invariant
            s@ == text@,
            ls == raw_lines(text@),
            i <= lines@.len() == ls.len(),
            forall|i: int|
                0 <= i < lines@.len() ==> {
                    &&& (#[trigger] lines@[i]).0 <= lines@[i].1 <= s@.len()
                    &&& s@.subrange(lines@[i].0 as int, lines@[i].1 as int) == ls[i]
                },
            salvaged(key.0@, ls.subrange(0, i as int)) == Ok::<(Seq<char>, bool), EnvcipherError>((out@, progress)),
        decreases lines@.len() - i,
    {
        let (lo, hi) = lines[i];
        let line = text.substring_char(lo, hi);
        let ghost before = out@;
        let ghost progress_before = progress;
        let ghost mut piece = line@;
        let ghost sub = ls.subrange(0, i + 1);
        assert(sub.drop_last() =~= ls.subrange(0, i as int));
        assert(sub.last() == line@);
        let mut replaced = false;
        let (tlo, thi) = trim_bounds(&s, lo, hi);
        let core = text.substring_char(tlo, thi);
        assert(core@ == trimmed(line@));
        if starts_with_prefix(core) {
            if let Ok((n, c)) = parse_enciphered_file(line) {
                if let Ok(b) = aes_decipher(key, &n, &c) {
                    assert(gcm_open(key.0@, n@, c@) == Some(b@));
                    match utf8_text(b) {
                        Some(t) => {
                            assert(salvaged_line(key.0@, line@) == Ok::<Option<Seq<char>>, EnvcipherError>(Some(t@)));
                            out.append(t.as_str());
                            proof {
                                piece = t@;
                            }
                            replaced = true;
                            progress = true;
                        },
                        None => {
                            proof {
                                assert(salvaged(key.0@, sub) == Err::<(Seq<char>, bool), EnvcipherError>(EnvcipherError::NonUtf8Plaintext));
                                lemma_salvage_error_stays(key.0@, ls, i + 1);
                            }
                            return Err(EnvcipherError::NonUtf8Plaintext);
                        },
                    }
                } else {
                    assert(gcm_open(key.0@, n@, c@) is None);
                }
            }
        }
        if !replaced {
            assert(salvaged_line(key.0@, line@) == Ok::<Option<Seq<char>>, EnvcipherError>(None));
            out.append(line);
        }
        out.append("\n");
        proof {
            reveal_strlit("\n");
        }
        assert(out@ =~= before + piece + seq!['\n']);
        assert(salvaged(key.0@, sub.drop_last()) == Ok::<(Seq<char>, bool), EnvcipherError>((before, progress_before)));
        assert(salvaged(key.0@, sub) == Ok::<(Seq<char>, bool), EnvcipherError>((out@, progress)));
        i = i + 1;
    }
    assert(ls.subrange(0, i as int) =~= ls);
    Ok((out, progress))
}

/// Whether `line` starts with the envelope prefix.
fn starts_with_prefix(line: &str) -> (r: bool)
    ensures
        r == starts_with(line@, envelope_prefix()),
{
    let p = "ENVCIPHER:v1:";
    proof {
        reveal_strlit("ENVCIPHER:v1:");
    }
    assert(p@ =~= envelope_prefix());
    let n = line.unicode_len();
    if n < 13 {
        return false;
    }
    let mut i: usize = 0;
    while i < 13
        invariant
            i <= 13 <= n == line@.len(),
            p@ == envelope_prefix(),
            forall|j: int| 0 <= j < i ==> line@[j] == envelope_prefix()[j],
        decreases 13 - i,
    {
        if line.get_char(i) != p.get_char(i) {
            assert(line@.subrange(0, 13)[i as int] != envelope_prefix()[i as int]);
            return false;
        }
        i = i + 1;
    }
    assert(line@.subrange(0, 13) =~= envelope_prefix());
    true
}

/// Removes layers of encipherment from `contents` until they are plain, no
/// round makes progress, or `MAX_LAYERS` rounds have run; returns the text and
/// how many layers came off. A failure to open a whole-file envelope is
/// reported at once; lines of mixed content that do not open are kept as they
/// are.
pub fn unwind_layers(key: &SecretKey, contents: &str) -> (r: Result<(String, usize), EnvcipherError>)
    ensures
        match r {
            Ok((t, k)) => unwound(key.0@, contents@, MAX_LAYERS as nat)
                == Ok::<(Seq<char>, nat), EnvcipherError>((t@, k as nat)),
            Err(e) => unwound(key.0@, contents@, MAX_LAYERS as nat) == Err::<(Seq<char>, nat), EnvcipherError>(e),
        },
{
    let mut cur = String::from_str(contents);
    let mut count: usize = 0;
    while count < MAX_LAYERS
        invariant
            count <= MAX_LAYERS,
            unwound(key.0@, contents@, MAX_LAYERS as nat) == shifted(
                unwound(key.0@, cur@, (MAX_LAYERS - count) as nat),
                count as nat,
            ),
        decreases MAX_LAYERS - count,
    {
        let ghost rounds = (MAX_LAYERS - count) as nat;
        let ghost before = cur@;
        match classify(cur.as_str()) {
            EncryptionState::Plaintext => {
                return Ok((cur, count));
            },
            EncryptionState::Enciphered => {
                let (n, c) = match parse_enciphered_file(cur.as_str()) {
                    Ok(p) => p,
                    Err(e) => {
                        return Err(e);
                    },
                };
                match open_text(key, &n, &c) {
                    Ok(t) => {
                        cur = t;
                    },
                    Err(e) => {
                        return Err(e);
                    },
                }
            },
            EncryptionState::CorruptedMixed => {
                match salvage_lines(key, cur.as_str()) {
                    Err(e) => {
                        return Err(e);
                    },
                    Ok((out, progress)) => {
                        if !progress {
                            return Ok((cur, count));
                        }
                        cur = out;
                    },
                }
            },
        }
        assert(unwind_step(key.0@, before) == Ok::<Option<Seq<char>>, EnvcipherError>(Some(cur@)));
        count = count + 1;
    }
    Ok((cur, count))
}


/// Opens the one envelope that `contents` hold and reads its plaintext as text.
pub fn open_envelope(key: &SecretKey, contents: &str) -> (r: Result<String, EnvcipherError>)
    ensures
        match decoded_envelope(contents@) {
            Err(f) => r == Err::<String, EnvcipherError>(EnvcipherError::InvalidFormat(f)),
            Ok((n, c)) => match r {
                Ok(t) => opened_text(key.0@, n, c) == Ok::<Seq<char>, EnvcipherError>(t@),
                Err(e) => opened_text(key.0@, n, c) == Err::<Seq<char>, EnvcipherError>(e),
            },
        },
{
    let (n, c) = match parse_enciphered_file(contents) {
        Ok(p) => p,
        Err(e) => {
            return Err(e);
        },
    };
    open_text(key, &n, &c)
}

/// Unwinding plain contents changes nothing and removes no layer.
pub proof fn lemma_plaintext_unwinds_to_itself(key: Seq<u8>, text: Seq<char>, rounds: nat)
    requires
        classification(text) == EncryptionState::Plaintext,
    ensures
        unwound(key, text, rounds) == Ok::<(Seq<char>, nat), EnvcipherError>((text, 0)),
{
}

/// An envelope line beside a plain line: one round deciphers the envelope in
/// place and keeps the plain line as it is, and the next round finds plain
/// text, so one layer comes off.
pub proof fn lemma_mixed_line_recovery(
    key: Seq<u8>,
    envelope: Seq<char>,
    nonce: Seq<u8>,
    ciphertext: Seq<u8>,
    plain: Seq<char>,
    other: Seq<char>,
)
    requires
        envelope.len() > 0,
        forall|i: int| 0 <= i < envelope.len() ==> !is_space(#[trigger] envelope[i]),
        starts_with(envelope, envelope_prefix()),
        decoded_envelope(envelope) == Ok::<(Seq<u8>, Seq<u8>), FormatFault>((nonce, ciphertext)),
        opened_text(key, nonce, ciphertext) == Ok::<Seq<char>, EnvcipherError>(plain),
        plain.len() > 0,
        forall|i: int| 0 <= i < plain.len() ==> !is_space(#[trigger] plain[i]),
        !starts_with(plain, envelope_prefix()),
        other.len() > 0,
        forall|i: int| 0 <= i < other.len() ==> !is_space(#[trigger] other[i]),
        !starts_with(other, envelope_prefix()),
    ensures
        classification(envelope + seq!['\n'] + other + seq!['\n']) == EncryptionState::CorruptedMixed,
        unwound(key, envelope + seq!['\n'] + other + seq!['\n'], MAX_LAYERS as nat)
            == Ok::<(Seq<char>, nat), EnvcipherError>((plain + seq!['\n'] + other + seq!['\n'], 1)),
{
    let t = envelope + seq!['\n'] + other + seq!['\n'];
    let out = plain + seq!['\n'] + other + seq!['\n'];
    lemma_two_lines(envelope, other);
    lemma_two_lines(plain, other);
    let lines = seq![envelope, other];
    assert(content_lines(t)[0] == envelope);
    assert(has_prefixed_line(t));
    assert(classification(t) == EncryptionState::CorruptedMixed);
    assert(lines.drop_last() =~= seq![envelope]);
    assert(seq![envelope].drop_last() =~= Seq::<Seq<char>>::empty());
    assert(salvaged_line(key, envelope) == Ok::<Option<Seq<char>>, EnvcipherError>(Some(plain)));
    assert(salvaged_line(key, other) == Ok::<Option<Seq<char>>, EnvcipherError>(None));
    assert(seq![envelope].last() == envelope);
    assert(salvaged(key, Seq::<Seq<char>>::empty()) == Ok::<(Seq<char>, bool), EnvcipherError>((Seq::<char>::empty(), false)));
    assert(salvaged(key, seq![envelope]) == Ok::<(Seq<char>, bool), EnvcipherError>((Seq::<char>::empty() + plain + seq!['\n'], true)));
    assert(Seq::<char>::empty() + plain + seq!['\n'] + other + seq!['\n'] =~= out);
    assert(salvaged(key, lines) == Ok::<(Seq<char>, bool), EnvcipherError>((out, true)));
    assert(unwind_step(key, t) == Ok::<Option<Seq<char>>, EnvcipherError>(Some(out)));
    assert forall|i: int| 0 <= i < content_lines(out).len() implies !starts_with(
        #[trigger] content_lines(out)[i],
        envelope_prefix(),
    ) by {
        assert(content_lines(out) == seq![plain, other]);
    }
    lemma_unprefixed_is_plaintext(out);
    assert(unwound(key, out, (MAX_LAYERS - 1) as nat) == Ok::<(Seq<char>, nat), EnvcipherError>((out, 0)));
}

/// Enciphers the whole of `contents` into one envelope line. Contents that
/// already have the shape of an envelope are refused. Unlocking the result
/// with the same key gives `contents` back, one layer removed, when they are
/// plain text.
pub fn lock_text(key: &SecretKey, contents: &str) -> (r: Result<String, EnvcipherError>)
    ensures
        envelope_shaped(contents@) ==> r == Err::<String, EnvcipherError>(EnvcipherError::AlreadyEnciphered),
        !envelope_shaped(contents@) && encode_utf8(contents@).len() <= PLAINTEXT_MAX ==> r is Ok,
        !envelope_shaped(contents@) && encode_utf8(contents@).len() > PLAINTEXT_MAX
            ==> r == Err::<String, EnvcipherError>(EnvcipherError::Encipherment),
        r matches Ok(t) ==> exists|n: Seq<u8>, c: Seq<u8>|
            t@ == envelope_text(n, c) && opened_text(key.0@, n, c) == Ok::<Seq<char>, EnvcipherError>(contents@),
        r matches Ok(t) ==> classification(t@) == EncryptionState::Enciphered,
        r matches Ok(t) ==> (classification(contents@) == EncryptionState::Plaintext ==> unwound(
            key.0@,
            t@,
            MAX_LAYERS as nat,
        ) == Ok::<(Seq<char>, nat), EnvcipherError>((contents@, 1))),
{
    if is_enciphered(contents) {
        return Err(EnvcipherError::AlreadyEnciphered);
    }
    let bytes = contents.as_bytes();
    match aes_encipher(key, bytes) {
        Err(e) => Err(e),
        Ok((c, n)) => {
            let t = format_enciphered_text(&n, c.as_slice());
            proof {
                encode_utf8_valid_utf8(contents@);
                encode_utf8_decode_utf8(contents@);
                assert(opened_text(key.0@, n@, c@) == Ok::<Seq<char>, EnvcipherError>(contents@));
                assert(unwind_step(key.0@, t@) == Ok::<Option<Seq<char>>, EnvcipherError>(Some(contents@)));
                if classification(contents@) == EncryptionState::Plaintext {
                    assert(unwound(key.0@, contents@, (MAX_LAYERS - 1) as nat)
                        == Ok::<(Seq<char>, nat), EnvcipherError>((contents@, 0)));
                }
            }
            Ok(t)
        },
    }
}

/// Unlocks contents that have the shape of an envelope, removing as many
/// layers as `unwind_layers` does; other contents are refused.
pub fn unlock_text(key: &SecretKey, contents: &str) -> (r: Result<(String, usize), EnvcipherError>)
    ensures
        !envelope_shaped(contents@) ==> r == Err::<(String, usize), EnvcipherError>(EnvcipherError::NotEnciphered),
        envelope_shaped(contents@) ==> match r {
            Ok((t, k)) => unwound(key.0@, contents@, MAX_LAYERS as nat)
                == Ok::<(Seq<char>, nat), EnvcipherError>((t@, k as nat)),
            Err(e) => unwound(key.0@, contents@, MAX_LAYERS as nat) == Err::<(Seq<char>, nat), EnvcipherError>(e),
        },
{
    if !is_enciphered(contents) {
        return Err(EnvcipherError::NotEnciphered);
    }
    unwind_layers(key, contents)
}

} // verus!
