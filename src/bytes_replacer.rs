use crate::case_matcher::{
    apply_case, lemma_apply_chars, lemma_case_preserved, lemma_lower_apply, lower_char, lower_seq,
    lowercase, match_case, matched_case, push_char, shows_case, upper_char, Case,
};
use crate::dictionary::Dictionary;
use crate::utils::{push_utf16, utf16_bytes};
use vstd::prelude::*;
use vstd::utf8::{encode_utf8, is_ascii_chars, is_ascii_chars_encode_utf8};

verus! {

/// A code that starts a word: an ASCII digit or letter.
pub open spec fn is_word_start(v: int) -> bool {
    (48 <= v <= 57) || (65 <= v <= 90) || (97 <= v <= 122)
}

/// A code that continues a word: an ASCII digit, letter or underscore.
pub open spec fn is_word_code(v: int) -> bool {
    is_word_start(v) || v == 95
}

/// The replacement for word `w`: the dictionary value of its lowercase form,
/// recased after `w`.
pub open spec fn replacement(d: Map<Seq<char>, Seq<char>>, w: Seq<char>) -> Seq<char> {
    matched_case(w, d[lower_seq(w)])
}

pub open spec fn is_hit(d: Map<Seq<char>, Seq<char>>, w: Seq<char>) -> bool {
    d.contains_key(lower_seq(w))
}

/// Recasing keeps a character's class: word start, word code, or neither.
pub proof fn lemma_case_keeps_class(c: char)
    ensures
        is_word_start(lower_char(c) as u32 as int) == is_word_start(c as u32 as int),
        is_word_start(upper_char(c) as u32 as int) == is_word_start(c as u32 as int),
        is_word_code(lower_char(c) as u32 as int) == is_word_code(c as u32 as int),
        is_word_code(upper_char(c) as u32 as int) == is_word_code(c as u32 as int),
{
}

/// A lowercase word made only of word characters, that starts with a word
/// start: the shape of a key that the scans can match.
pub open spec fn is_key_word(k: Seq<char>) -> bool {
    &&& k.len() > 0
    &&& lower_seq(k) == k
    &&& is_word_start(k[0] as u32 as int)
    &&& forall|i: int| 0 <= i < k.len() ==> is_word_code(#[trigger] k[i] as u32 as int)
}

/// Recasing a key word by a pattern it can show leaves a word of word
/// characters whose lowercase form is the key and whose replacement is the
/// value recased by the same pattern.
pub proof fn lemma_recased_key(d: Map<Seq<char>, Seq<char>>, t: Case, k: Seq<char>)
    requires
        d.contains_key(k),
        is_key_word(k),
        shows_case(t, k),
    ensures
        apply_case(t, k).len() == k.len(),
        is_word_start(apply_case(t, k)[0] as u32 as int),
        forall|i: int|
            0 <= i < k.len() ==> is_word_code(#[trigger] apply_case(t, k)[i] as u32 as int),
        is_hit(d, apply_case(t, k)),
        replacement(d, apply_case(t, k)) == apply_case(t, d[k]),
{
    let w = apply_case(t, k);
    lemma_apply_chars(t, k);
    lemma_lower_apply(t, k);
    lemma_case_preserved(t, k, d[k]);
    lemma_case_keeps_class(k[0]);
    assert forall|i: int| 0 <= i < k.len() implies is_word_code(#[trigger] w[i] as u32 as int) by {
        lemma_case_keeps_class(k[i]);
    }
}

// ---------------------------------------------------------------- ASCII

/// Number of word bytes from position `i` on.
pub open spec fn run8(b: Seq<u8>, i: int) -> nat
    decreases b.len() - i,
{
    if 0 <= i < b.len() && is_word_code(b[i] as int) {
        1 + run8(b, i + 1)
    } else {
        0
    }
}

/// The word that starts at position `i`, one character per byte.
pub open spec fn word8(b: Seq<u8>, i: int) -> Seq<char> {
    Seq::new(run8(b, i), |k: int| b[i + k] as char)
}

pub proof fn lemma_run8_bound(b: Seq<u8>, i: int)
    requires
        0 <= i <= b.len(),
    ensures
        i + run8(b, i) <= b.len(),
        i < b.len() && is_word_code(b[i] as int) ==> run8(b, i) >= 1,
    decreases b.len() - i,
{
    if i < b.len() && is_word_code(b[i] as int) {
        lemma_run8_bound(b, i + 1);
    }
}

/// The ASCII scan of `b` from position `i` on: the number of replaced words
/// and the bytes emitted. A byte that starts no word is copied; a word whose
/// lowercase form is a key is replaced by the UTF-8 bytes of its recased
/// value; any other word is copied.
pub open spec fn scan_ascii(d: Map<Seq<char>, Seq<char>>, b: Seq<u8>, i: int) -> (nat, Seq<u8>)
    decreases b.len() - i,
    via scan_ascii_decreases
{
    if i < 0 || i >= b.len() {
        (0, Seq::empty())
    } else if is_word_start(b[i] as int) {
        let n = run8(b, i);
        let w = word8(b, i);
        let rest = scan_ascii(d, b, i + n);
        if is_hit(d, w) {
            (rest.0 + 1, encode_utf8(replacement(d, w)) + rest.1)
        } else {
            (rest.0, b.subrange(i, i + n) + rest.1)
        }
    } else {
        let rest = scan_ascii(d, b, i + 1);
        (rest.0, seq![b[i]] + rest.1)
    }
}

#[via_fn]
proof fn scan_ascii_decreases(d: Map<Seq<char>, Seq<char>>, b: Seq<u8>, i: int) {
    if 0 <= i < b.len() {
        lemma_run8_bound(b, i);
    }
}

/// Number of words in `ws` whose lowercase form is a key of `d`.
pub open spec fn count_hits(d: Map<Seq<char>, Seq<char>>, ws: Seq<Seq<char>>) -> nat
    decreases ws.len(),
{
    if ws.len() == 0 {
        0
    } else {
        (if is_hit(d, ws[0]) {
            1nat
        } else {
            0nat
        }) + count_hits(d, ws.drop_first())
    }
}

/// The word runs that the ASCII scan meets from position `i` on, in order.
pub open spec fn words8(b: Seq<u8>, i: int) -> Seq<Seq<char>>
    decreases b.len() - i,
    via words8_decreases
{
    if i < 0 || i >= b.len() {
        Seq::empty()
    } else if is_word_start(b[i] as int) {
        seq![word8(b, i)] + words8(b, i + run8(b, i))
    } else {
        words8(b, i + 1)
    }
}

#[via_fn]
proof fn words8_decreases(b: Seq<u8>, i: int) {
    if 0 <= i < b.len() {
        lemma_run8_bound(b, i);
    }
}

/// The runs of an ASCII buffer from position `i` on: each word run, and
/// each byte that starts no word.
pub open spec fn runs8(b: Seq<u8>, i: int) -> Seq<Seq<u8>>
    decreases b.len() - i,
    via runs8_decreases
{
    if i < 0 || i >= b.len() {
        Seq::empty()
    } else if is_word_start(b[i] as int) {
        seq![b.subrange(i, i + run8(b, i))] + runs8(b, i + run8(b, i))
    } else {
        seq![seq![b[i]]] + runs8(b, i + 1)
    }
}

#[via_fn]
proof fn runs8_decreases(b: Seq<u8>, i: int) {
    if 0 <= i < b.len() {
        lemma_run8_bound(b, i);
    }
}

/// What the ASCII scan emits for each run of `runs8(b, i)`.
pub open spec fn emitted8(d: Map<Seq<char>, Seq<char>>, b: Seq<u8>, i: int) -> Seq<Seq<u8>>
    decreases b.len() - i,
    via emitted8_decreases
{
    if i < 0 || i >= b.len() {
        Seq::empty()
    } else if is_word_start(b[i] as int) {
        let w = word8(b, i);
        seq![
            if is_hit(d, w) {
                encode_utf8(replacement(d, w))
            } else {
                b.subrange(i, i + run8(b, i))
            },
        ] + emitted8(d, b, i + run8(b, i))
    } else {
        seq![seq![b[i]]] + emitted8(d, b, i + 1)
    }
}

#[via_fn]
proof fn emitted8_decreases(d: Map<Seq<char>, Seq<char>>, b: Seq<u8>, i: int) {
    if 0 <= i < b.len() {
        lemma_run8_bound(b, i);
    }
}

proof fn lemma_ascii_count_from(d: Map<Seq<char>, Seq<char>>, b: Seq<u8>, i: int)
    requires
        0 <= i <= b.len(),
    ensures
        scan_ascii(d, b, i).0 == count_hits(d, words8(b, i)),
    decreases b.len() - i,
{
    if i < b.len() {
        lemma_run8_bound(b, i);
        if is_word_start(b[i] as int) {
            let n = run8(b, i) as int;
            lemma_ascii_count_from(d, b, i + n);
            assert(words8(b, i).drop_first() =~= words8(b, i + n));
        } else {
            lemma_ascii_count_from(d, b, i + 1);
        }
    }
}

/// Count correctness: the ASCII scan's count is the number of word runs of
/// `b` whose lowercase form is a key.
pub proof fn lemma_ascii_count(d: Map<Seq<char>, Seq<char>>, b: Seq<u8>)
    ensures
        scan_ascii(d, b, 0).0 == count_hits(d, words8(b, 0)),
{
    lemma_ascii_count_from(d, b, 0);
}

proof fn lemma_ascii_no_hits_from(d: Map<Seq<char>, Seq<char>>, b: Seq<u8>, i: int)
    requires
        0 <= i <= b.len(),
        forall|j: int| 0 <= j < words8(b, i).len() ==> !is_hit(d, #[trigger] words8(b, i)[j]),
    ensures
        scan_ascii(d, b, i) == (0nat, b.subrange(i, b.len() as int)),
    decreases b.len() - i,
{
    if i < b.len() {
        lemma_run8_bound(b, i);
        if is_word_start(b[i] as int) {
            let n = run8(b, i) as int;
            let ws = words8(b, i);
            assert(ws[0] == word8(b, i));
            assert forall|j: int| 0 <= j < words8(b, i + n).len() implies !is_hit(
                d,
                #[trigger] words8(b, i + n)[j],
            ) by {
                assert(words8(b, i + n)[j] == ws[j + 1]);
            }
            lemma_ascii_no_hits_from(d, b, i + n);
            assert(b.subrange(i, i + n) + b.subrange(i + n, b.len() as int) =~= b.subrange(
                i,
                b.len() as int,
            ));
        } else {
            assert(words8(b, i) == words8(b, i + 1));
            lemma_ascii_no_hits_from(d, b, i + 1);
            assert(seq![b[i]] + b.subrange(i + 1, b.len() as int) =~= b.subrange(
                i,
                b.len() as int,
            ));
        }
    } else {
        assert(b.subrange(i, i) =~= Seq::<u8>::empty());
    }
}

/// No-op on absent matches: when no word run of `b` has its lowercase form
/// among the keys, the ASCII scan returns `b` unchanged with count zero.
pub proof fn lemma_ascii_no_hits(d: Map<Seq<char>, Seq<char>>, b: Seq<u8>)
    requires
        forall|j: int| 0 <= j < words8(b, 0).len() ==> !is_hit(d, #[trigger] words8(b, 0)[j]),
    ensures
        scan_ascii(d, b, 0) == (0nat, b),
{
    lemma_ascii_no_hits_from(d, b, 0);
    assert(b.subrange(0, b.len() as int) =~= b);
}

proof fn lemma_ascii_passthrough_from(d: Map<Seq<char>, Seq<char>>, b: Seq<u8>, i: int)
    requires
        0 <= i <= b.len(),
        forall|k: int| 0 <= k < b.len() ==> !is_word_start(#[trigger] b[k] as int),
    ensures
        scan_ascii(d, b, i) == (0nat, b.subrange(i, b.len() as int)),
    decreases b.len() - i,
{
    if i < b.len() {
        lemma_ascii_passthrough_from(d, b, i + 1);
        assert(seq![b[i]] + b.subrange(i + 1, b.len() as int) =~= b.subrange(i, b.len() as int));
    } else {
        assert(b.subrange(i, i) =~= Seq::<u8>::empty());
    }
}

/// Non-text pass-through: a buffer in which no byte is an ASCII letter or
/// digit comes out of the ASCII scan unchanged, with count zero.
pub proof fn lemma_ascii_passthrough(d: Map<Seq<char>, Seq<char>>, b: Seq<u8>)
    requires
        forall|k: int| 0 <= k < b.len() ==> !is_word_start(#[trigger] b[k] as int),
    ensures
        scan_ascii(d, b, 0) == (0nat, b),
{
    lemma_ascii_passthrough_from(d, b, 0);
    assert(b.subrange(0, b.len() as int) =~= b);
}

proof fn lemma_ascii_runs_from(d: Map<Seq<char>, Seq<char>>, b: Seq<u8>, i: int)
    requires
        0 <= i <= b.len(),
    ensures
        runs8(b, i).flatten() == b.subrange(i, b.len() as int),
        emitted8(d, b, i).flatten() == scan_ascii(d, b, i).1,
        emitted8(d, b, i).len() == runs8(b, i).len(),
        forall|j: int|
            0 <= j < runs8(b, i).len() && !is_word_start((#[trigger] runs8(b, i)[j])[0] as int)
                ==> emitted8(d, b, i)[j] == runs8(b, i)[j],
    decreases b.len() - i,
{
    let rs = runs8(b, i);
    let es = emitted8(d, b, i);
    if i < b.len() {
        lemma_run8_bound(b, i);
        let n = if is_word_start(b[i] as int) {
            run8(b, i) as int
        } else {
            1
        };
        lemma_ascii_runs_from(d, b, i + n);
        assert(rs.drop_first() =~= runs8(b, i + n));
        assert(es.drop_first() =~= emitted8(d, b, i + n));
        assert(rs[0] + b.subrange(i + n, b.len() as int) =~= b.subrange(i, b.len() as int));
        assert forall|j: int|
            0 <= j < rs.len() && !is_word_start((#[trigger] rs[j])[0] as int) implies es[j]
            == rs[j] by {
            if j > 0 {
                assert(rs[j] == runs8(b, i + n)[j - 1]);
                assert(es[j] == emitted8(d, b, i + n)[j - 1]);
            }
        }
    } else {
        assert(b.subrange(i, i) =~= Seq::<u8>::empty());
    }
}

/// Byte conservation: the ASCII buffer is the concatenation of its runs in
/// order, the output is the concatenation of what is emitted for each run,
/// and every run that is no word comes out byte for byte.
pub proof fn lemma_ascii_runs(d: Map<Seq<char>, Seq<char>>, b: Seq<u8>)
    ensures
        runs8(b, 0).flatten() == b,
        emitted8(d, b, 0).flatten() == scan_ascii(d, b, 0).1,
        emitted8(d, b, 0).len() == runs8(b, 0).len(),
        forall|j: int|
            0 <= j < runs8(b, 0).len() && !is_word_start((#[trigger] runs8(b, 0)[j])[0] as int)
                ==> emitted8(d, b, 0)[j] == runs8(b, 0)[j],
{
    lemma_ascii_runs_from(d, b, 0);
    assert(b.subrange(0, b.len() as int) =~= b);
}

proof fn lemma_run8_full(b: Seq<u8>, i: int)
    requires
        0 <= i <= b.len(),
        forall|k: int| i <= k < b.len() ==> is_word_code(#[trigger] b[k] as int),
    ensures
        run8(b, i) == b.len() - i,
    decreases b.len() - i,
{
    if i < b.len() {
        lemma_run8_full(b, i + 1);
    }
}

/// Case preservation through the ASCII scan: for an entry `k` to `v` whose
/// key is a lowercase word, and a pattern `t` that `k` can show, the buffer
/// holding `t(k)` becomes the buffer holding `t(v)`, with one replacement.
pub proof fn lemma_ascii_case_preserved(d: Map<Seq<char>, Seq<char>>, t: Case, k: Seq<char>)
    requires
        d.contains_key(k),
        is_key_word(k),
        shows_case(t, k),
    ensures
        scan_ascii(d, encode_utf8(apply_case(t, k)), 0) == (1nat, encode_utf8(apply_case(t, d[k]))),
{
    let w = apply_case(t, k);
    lemma_recased_key(d, t, k);
    assert(is_ascii_chars(w));
    is_ascii_chars_encode_utf8(w);
    let b = encode_utf8(w);
    assert forall|i: int| 0 <= i < b.len() implies is_word_code(#[trigger] b[i] as int) by {
        assert(w[i] as u8 == b[i]);
    }
    lemma_run8_full(b, 0);
    assert(w[0] as u8 == b[0]);
    assert(is_word_start(b[0] as int));
    assert forall|i: int| 0 <= i < w.len() implies #[trigger] word8(b, 0)[i] == w[i] by {
        assert(w[i] as u8 == b[i]);
    }
    assert(word8(b, 0) =~= w);
    assert(scan_ascii(d, b, b.len() as int) == (0nat, Seq::<u8>::empty()));
    assert(encode_utf8(apply_case(t, d[k])) + Seq::<u8>::empty() =~= encode_utf8(
        apply_case(t, d[k]),
    ));
}

fn push_all(out: &mut Vec<u8>, src: &[u8])
    ensures
        final(out)@ == old(out)@ + src@,
{
    let mut i: usize = 0;
    while i < src.len()
        invariant
            i <= src@.len(),
            out@ == old(out)@ + src@.subrange(0, i as int),
        decreases src@.len() - i,
    {
        out.push(src[i]);
        i = i + 1;
        assert(out@ =~= old(out)@ + src@.subrange(0, i as int));
    }
    assert(src@.subrange(0, src@.len() as int) =~= src@);
}

fn is_word_start_exec(v: u32) -> (r: bool)
    ensures
        r == is_word_start(v as int),
{
    (48 <= v && v <= 57) || (65 <= v && v <= 90) || (97 <= v && v <= 122)
}

fn is_word_code_exec(v: u32) -> (r: bool)
    ensures
        r == is_word_code(v as int),
{
    is_word_start_exec(v) || v == 95
}

/// Replaces every word of an ASCII buffer whose lowercase form is a key of
/// `dictionary`, keeping the word's casing pattern; returns the number of
/// replaced words and the new buffer.
pub fn replace_ascii(dictionary: &Dictionary, bytes: &[u8]) -> (r: (u128, Vec<u8>))
    ensures
        r.0 as nat == scan_ascii(dictionary@, bytes@, 0).0,
        r.1@ == scan_ascii(dictionary@, bytes@, 0).1,
{
    let ghost d = dictionary@;
    let ghost b = bytes@;
    let mut new_bytes: Vec<u8> = Vec::new();
    let mut cursor: usize = 0;
    let mut count: u128 = 0;
    while cursor < bytes.len()
        invariant
            cursor <= b.len(),
            b == bytes@,
            d == dictionary@,
            count <= cursor,
            scan_ascii(d, b, 0).0 == count + scan_ascii(d, b, cursor as int).0,
            scan_ascii(d, b, 0).1 == new_bytes@ + scan_ascii(d, b, cursor as int).1,
        decreases b.len() - cursor,
    {
        let start = cursor;
        let ghost before = new_bytes@;
        if is_word_start_exec(bytes[cursor] as u32) {
            let mut word = String::new();
            while cursor < bytes.len() && is_word_code_exec(bytes[cursor] as u32)
                invariant
                    start <= cursor <= b.len(),
                    b == bytes@,
                    run8(b, start as int) == (cursor - start) + run8(b, cursor as int),
                    word@.len() == cursor - start,
                    forall|k: int| 0 <= k < word@.len() ==> word@[k] == b[start + k] as char,
                decreases b.len() - cursor,
            {
                push_char(&mut word, bytes[cursor] as char);
                cursor = cursor + 1;
            }
            proof {
                lemma_run8_bound(b, start as int);
                assert(word@ =~= word8(b, start as int));
            }
            let key = lowercase(word.as_str());
            match dictionary.get(&key) {
                Some(value) => {
                    count = count + 1;
                    let new_word = match_case(word.as_str(), value.as_str());
                    push_all(&mut new_bytes, new_word.as_str().as_bytes());
                },
                None => {
                    push_all(&mut new_bytes, &bytes[start..cursor]);
                },
            }
            proof {
                assert(new_bytes@ + scan_ascii(d, b, cursor as int).1 =~= before + scan_ascii(
                    d,
                    b,
                    start as int,
                ).1);
            }
        } else {
            new_bytes.push(bytes[cursor]);
            cursor = cursor + 1;
            assert(new_bytes@ + scan_ascii(d, b, cursor as int).1 =~= before + scan_ascii(
                d,
                b,
                start as int,
            ).1);
        }
    }
    (count, new_bytes)
}

// ---------------------------------------------------------------- UTF-16

/// The 16-bit code unit made of bytes `i` and `i + 1`.
pub open spec fn code_at(b: Seq<u8>, i: int, big: bool) -> int {
    if big {
        b[i] as int * 256 + b[i + 1] as int
    } else {
        b[i + 1] as int * 256 + b[i] as int
    }
}

/// Number of word code units from position `i` on.
pub open spec fn run16(b: Seq<u8>, i: int, big: bool) -> nat
    decreases b.len() - i,
{
    if 0 <= i && i + 2 <= b.len() && is_word_code(code_at(b, i, big)) {
        1 + run16(b, i + 2, big)
    } else {
        0
    }
}

/// The word that starts at position `i`, one character per code unit.
pub open spec fn word16(b: Seq<u8>, i: int, big: bool) -> Seq<char> {
    Seq::new(run16(b, i, big), |k: int| code_at(b, i + 2 * k, big) as char)
}

pub proof fn lemma_run16_bound(b: Seq<u8>, i: int, big: bool)
    requires
        0 <= i <= b.len(),
    ensures
        i + 2 * run16(b, i, big) <= b.len(),
        i + 2 <= b.len() && is_word_code(code_at(b, i, big)) ==> run16(b, i, big) >= 1,
    decreases b.len() - i,
{
    if i + 2 <= b.len() && is_word_code(code_at(b, i, big)) {
        lemma_run16_bound(b, i + 2, big);
    }
}

/// The UTF-16 scan of `b` from position `i` on, in the given byte order: the
/// number of replaced words and the bytes emitted. The scan moves in steps
/// of one 2-byte code unit: a unit that starts no word is copied whole; a
/// word whose lowercase form is a key is replaced by the UTF-16 encoding of
/// its recased value; any other word is copied. A last lone byte is copied.
pub open spec fn scan16(d: Map<Seq<char>, Seq<char>>, b: Seq<u8>, i: int, big: bool) -> (
    nat,
    Seq<u8>,
)
    decreases b.len() - i,
    via scan16_decreases
{
    if i < 0 || i >= b.len() {
        (0, Seq::empty())
    } else if i + 2 > b.len() {
        (0, seq![b[i]])
    } else if is_word_start(code_at(b, i, big)) {
        let n = run16(b, i, big);
        let w = word16(b, i, big);
        let rest = scan16(d, b, i + 2 * n, big);
        if is_hit(d, w) {
            (rest.0 + 1, utf16_bytes(replacement(d, w), big) + rest.1)
        } else {
            (rest.0, b.subrange(i, i + 2 * n) + rest.1)
        }
    } else {
        let rest = scan16(d, b, i + 2, big);
        (rest.0, b.subrange(i, i + 2) + rest.1)
    }
}

#[via_fn]
proof fn scan16_decreases(d: Map<Seq<char>, Seq<char>>, b: Seq<u8>, i: int, big: bool) {
    if 0 <= i < b.len() {
        lemma_run16_bound(b, i, big);
    }
}

/// The word runs that the UTF-16 scan meets from position `i` on, in order.
pub open spec fn words16(b: Seq<u8>, i: int, big: bool) -> Seq<Seq<char>>
    decreases b.len() - i,
    via words16_decreases
{
    if i < 0 || i + 2 > b.len() {
        Seq::empty()
    } else if is_word_start(code_at(b, i, big)) {
        seq![word16(b, i, big)] + words16(b, i + 2 * run16(b, i, big), big)
    } else {
        words16(b, i + 2, big)
    }
}

#[via_fn]
proof fn words16_decreases(b: Seq<u8>, i: int, big: bool) {
    if 0 <= i < b.len() {
        lemma_run16_bound(b, i, big);
    }
}

/// The runs of a UTF-16 buffer from position `i` on: each word run, each
/// code unit that starts no word, and a last lone byte.
pub open spec fn runs16(b: Seq<u8>, i: int, big: bool) -> Seq<Seq<u8>>
    decreases b.len() - i,
    via runs16_decreases
{
    if i < 0 || i >= b.len() {
        Seq::empty()
    } else if i + 2 <= b.len() && is_word_start(code_at(b, i, big)) {
        seq![b.subrange(i, i + 2 * run16(b, i, big))] + runs16(b, i + 2 * run16(b, i, big), big)
    } else if i + 2 <= b.len() {
        seq![b.subrange(i, i + 2)] + runs16(b, i + 2, big)
    } else {
        seq![seq![b[i]]]
    }
}

#[via_fn]
proof fn runs16_decreases(b: Seq<u8>, i: int, big: bool) {
    if 0 <= i < b.len() {
        lemma_run16_bound(b, i, big);
    }
}

/// A run of `runs16` that is a word: it starts with a code unit that starts
/// a word.
pub open spec fn is_word_run16(r: Seq<u8>, big: bool) -> bool {
    r.len() >= 2 && is_word_start(code_at(r, 0, big))
}

/// What the UTF-16 scan emits for each run of `runs16(b, i, big)`.
pub open spec fn emitted16(d: Map<Seq<char>, Seq<char>>, b: Seq<u8>, i: int, big: bool) -> Seq<
    Seq<u8>,
>
    decreases b.len() - i,
    via emitted16_decreases
{
    if i < 0 || i >= b.len() {
        Seq::empty()
    } else if i + 2 <= b.len() && is_word_start(code_at(b, i, big)) {
        let w = word16(b, i, big);
        seq![
            if is_hit(d, w) {
                utf16_bytes(replacement(d, w), big)
            } else {
                b.subrange(i, i + 2 * run16(b, i, big))
            },
        ] + emitted16(d, b, i + 2 * run16(b, i, big), big)
    } else if i + 2 <= b.len() {
        seq![b.subrange(i, i + 2)] + emitted16(d, b, i + 2, big)
    } else {
        seq![seq![b[i]]]
    }
}

#[via_fn]
proof fn emitted16_decreases(d: Map<Seq<char>, Seq<char>>, b: Seq<u8>, i: int, big: bool) {
    if 0 <= i < b.len() {
        lemma_run16_bound(b, i, big);
    }
}

proof fn lemma_count16_from(d: Map<Seq<char>, Seq<char>>, b: Seq<u8>, i: int, big: bool)
    requires
        0 <= i <= b.len(),
    ensures
        scan16(d, b, i, big).0 == count_hits(d, words16(b, i, big)),
    decreases b.len() - i,
{
    if i + 2 <= b.len() {
        lemma_run16_bound(b, i, big);
        if is_word_start(code_at(b, i, big)) {
            let n = 2 * run16(b, i, big);
            lemma_count16_from(d, b, i + n, big);
            assert(words16(b, i, big).drop_first() =~= words16(b, i + n, big));
        } else {
            lemma_count16_from(d, b, i + 2, big);
        }
    }
}

/// Count correctness: the UTF-16 scan's count is the number of word runs of
/// `b` whose lowercase form is a key.
pub proof fn lemma_count16(d: Map<Seq<char>, Seq<char>>, b: Seq<u8>, big: bool)
    ensures
        scan16(d, b, 0, big).0 == count_hits(d, words16(b, 0, big)),
{
    lemma_count16_from(d, b, 0, big);
}

proof fn lemma_no_hits16_from(d: Map<Seq<char>, Seq<char>>, b: Seq<u8>, i: int, big: bool)
    requires
        0 <= i <= b.len(),
        forall|j: int|
            0 <= j < words16(b, i, big).len() ==> !is_hit(d, #[trigger] words16(b, i, big)[j]),
    ensures
        scan16(d, b, i, big) == (0nat, b.subrange(i, b.len() as int)),
    decreases b.len() - i,
{
    if i + 2 <= b.len() {
        lemma_run16_bound(b, i, big);
        if is_word_start(code_at(b, i, big)) {
            let n = 2 * run16(b, i, big);
            let ws = words16(b, i, big);
            assert(ws[0] == word16(b, i, big));
            assert forall|j: int| 0 <= j < words16(b, i + n, big).len() implies !is_hit(
                d,
                #[trigger] words16(b, i + n, big)[j],
            ) by {
                assert(words16(b, i + n, big)[j] == ws[j + 1]);
            }
            lemma_no_hits16_from(d, b, i + n, big);
            assert(b.subrange(i, i + n) + b.subrange(i + n, b.len() as int) =~= b.subrange(
                i,
                b.len() as int,
            ));
        } else {
            assert(words16(b, i, big) == words16(b, i + 2, big));
            lemma_no_hits16_from(d, b, i + 2, big);
            assert(b.subrange(i, i + 2) + b.subrange(i + 2, b.len() as int) =~= b.subrange(
                i,
                b.len() as int,
            ));
        }
    } else if i < b.len() {
        assert(seq![b[i]] =~= b.subrange(i, b.len() as int));
    } else {
        assert(b.subrange(i, i) =~= Seq::<u8>::empty());
    }
}

/// No-op on absent matches: when no word run of `b` has its lowercase form
/// among the keys, the UTF-16 scan returns `b` unchanged with count zero.
pub proof fn lemma_no_hits16(d: Map<Seq<char>, Seq<char>>, b: Seq<u8>, big: bool)
    requires
        forall|j: int|
            0 <= j < words16(b, 0, big).len() ==> !is_hit(d, #[trigger] words16(b, 0, big)[j]),
    ensures
        scan16(d, b, 0, big) == (0nat, b),
{
    lemma_no_hits16_from(d, b, 0, big);
    assert(b.subrange(0, b.len() as int) =~= b);
}

/// The code unit at unit index `u`, the bytes `2 * u` and `2 * u + 1`.
pub open spec fn unit_at(b: Seq<u8>, u: int, big: bool) -> int {
    code_at(b, 2 * u, big)
}

proof fn lemma_passthrough16_from(d: Map<Seq<char>, Seq<char>>, b: Seq<u8>, u: int, big: bool)
    requires
        0 <= 2 * u <= b.len(),
        forall|k: int| 0 <= k && 2 * k + 2 <= b.len() ==> !is_word_start(#[trigger] unit_at(b, k, big)),
    ensures
        scan16(d, b, 2 * u, big) == (0nat, b.subrange(2 * u, b.len() as int)),
    decreases b.len() - 2 * u,
{
    let i = 2 * u;
    if i + 2 <= b.len() {
        assert(!is_word_start(unit_at(b, u, big)));
        lemma_passthrough16_from(d, b, u + 1, big);
        assert(2 * (u + 1) == i + 2);
        assert(b.subrange(i, i + 2) + b.subrange(i + 2, b.len() as int) =~= b.subrange(i, b.len() as int));
    } else if i < b.len() {
        assert(seq![b[i]] =~= b.subrange(i, b.len() as int));
    } else {
        assert(b.subrange(i, i) =~= Seq::<u8>::empty());
    }
}

/// Non-text pass-through: a buffer in which no code unit is an ASCII letter
/// or digit comes out of the UTF-16 scan unchanged, with count zero.
pub proof fn lemma_passthrough16(d: Map<Seq<char>, Seq<char>>, b: Seq<u8>, big: bool)
    requires
        forall|k: int| 0 <= k && 2 * k + 2 <= b.len() ==> !is_word_start(#[trigger] unit_at(b, k, big)),
    ensures
        scan16(d, b, 0, big) == (0nat, b),
{
    lemma_passthrough16_from(d, b, 0, big);
    assert(b.subrange(0, b.len() as int) =~= b);
}

proof fn lemma_runs16_from(d: Map<Seq<char>, Seq<char>>, b: Seq<u8>, i: int, big: bool)
    requires
        0 <= i <= b.len(),
    ensures
        runs16(b, i, big).flatten() == b.subrange(i, b.len() as int),
        emitted16(d, b, i, big).flatten() == scan16(d, b, i, big).1,
        emitted16(d, b, i, big).len() == runs16(b, i, big).len(),
        forall|j: int|
            0 <= j < runs16(b, i, big).len() && !is_word_run16(#[trigger] runs16(b, i, big)[j], big)
                ==> emitted16(d, b, i, big)[j] == runs16(b, i, big)[j],
    decreases b.len() - i,
{
    let rs = runs16(b, i, big);
    let es = emitted16(d, b, i, big);
    if i < b.len() {
        lemma_run16_bound(b, i, big);
        let n = if i + 2 <= b.len() && is_word_start(code_at(b, i, big)) {
            2 * run16(b, i, big)
        } else if i + 2 <= b.len() {
            2
        } else {
            1
        };
        lemma_runs16_from(d, b, i + n, big);
        assert(rs.drop_first() =~= runs16(b, i + n, big));
        assert(es.drop_first() =~= emitted16(d, b, i + n, big));
        assert(rs[0] + b.subrange(i + n, b.len() as int) =~= b.subrange(i, b.len() as int));
        if i + 2 > b.len() {
            assert(runs16(b, i + n, big) =~= Seq::<Seq<u8>>::empty());
            assert(emitted16(d, b, i + n, big) =~= Seq::<Seq<u8>>::empty());
            assert(emitted16(d, b, i + n, big).flatten() =~= Seq::<u8>::empty());
        }
        assert forall|j: int|
            0 <= j < rs.len() && !is_word_run16(#[trigger] rs[j], big) implies es[j] == rs[j] by {
            if j == 0 && i + 2 <= b.len() && is_word_start(code_at(b, i, big)) {
                assert(code_at(rs[0], 0, big) == code_at(b, i, big));
            }
            if j > 0 {
                assert(rs[j] == runs16(b, i + n, big)[j - 1]);
                assert(es[j] == emitted16(d, b, i + n, big)[j - 1]);
            }
        }
    } else {
        assert(b.subrange(i, i) =~= Seq::<u8>::empty());
    }
}

/// Byte conservation: the UTF-16 buffer is the concatenation of its runs in
/// order, the output is the concatenation of what is emitted for each run,
/// and every run that is no word (a code unit that starts no word, or a
/// last lone byte) comes out unchanged.
pub proof fn lemma_runs16(d: Map<Seq<char>, Seq<char>>, b: Seq<u8>, big: bool)
    ensures
        runs16(b, 0, big).flatten() == b,
        emitted16(d, b, 0, big).flatten() == scan16(d, b, 0, big).1,
        emitted16(d, b, 0, big).len() == runs16(b, 0, big).len(),
        forall|j: int|
            0 <= j < runs16(b, 0, big).len() && !is_word_run16(#[trigger] runs16(b, 0, big)[j], big)
                ==> emitted16(d, b, 0, big)[j] == runs16(b, 0, big)[j],
{
    lemma_runs16_from(d, b, 0, big);
    assert(b.subrange(0, b.len() as int) =~= b);
}

/// The UTF-16 encoding of ASCII text holds one code unit per character.
pub proof fn lemma_utf16_ascii(s: Seq<char>, big: bool)
    requires
        is_ascii_chars(s),
    ensures
        utf16_bytes(s, big).len() == 2 * s.len(),
        forall|i: int|
            0 <= i < s.len() ==> code_at(utf16_bytes(s, big), 2 * i, big) == #[trigger] s[i] as u32
                as int,
    decreases s.len(),
{
    if s.len() > 0 {
        let p = s.drop_last();
        assert(is_ascii_chars(p));
        lemma_utf16_ascii(p, big);
        let b = utf16_bytes(s, big);
        assert forall|i: int| 0 <= i < s.len() implies code_at(b, 2 * i, big)
            == #[trigger] s[i] as u32 as int by {
            if i < p.len() {
                assert(p[i] == s[i]);
                assert(code_at(utf16_bytes(p, big), 2 * i, big) == p[i] as u32 as int);
            }
        }
    }
}

proof fn lemma_run16_full(b: Seq<u8>, i: int, m: int, big: bool)
    requires
        0 <= i,
        0 <= m,
        i + 2 * m == b.len(),
        forall|k: int| 0 <= k < m ==> is_word_code(#[trigger] code_at(b, i + 2 * k, big)),
    ensures
        run16(b, i, big) == m,
    decreases m,
{
    if m > 0 {
        assert(is_word_code(code_at(b, i + 2 * (0 as int), big)));
        assert(is_word_code(code_at(b, i, big)));
        assert forall|k: int| 0 <= k < m - 1 implies is_word_code(
            #[trigger] code_at(b, (i + 2) + 2 * k, big),
        ) by {
            assert(is_word_code(code_at(b, i + 2 * (k + 1), big)));
        }
        lemma_run16_full(b, i + 2, m - 1, big);
    }
}

/// Case preservation through the UTF-16 scan: for an entry `k` to `v` whose
/// key is a lowercase word, and a pattern `t` that `k` can show, the buffer
/// holding `t(k)` becomes the buffer holding `t(v)`, with one replacement.
pub proof fn lemma_case_preserved16(d: Map<Seq<char>, Seq<char>>, t: Case, k: Seq<char>, big: bool)
    requires
        d.contains_key(k),
        is_key_word(k),
        shows_case(t, k),
    ensures
        scan16(d, utf16_bytes(apply_case(t, k), big), 0, big) == (1nat, utf16_bytes(
            apply_case(t, d[k]),
            big,
        )),
{
    let w = apply_case(t, k);
    lemma_recased_key(d, t, k);
    assert(is_ascii_chars(w));
    lemma_utf16_ascii(w, big);
    let b = utf16_bytes(w, big);
    assert forall|i: int| 0 <= i < w.len() implies is_word_code(
        #[trigger] code_at(b, 0 + 2 * i, big),
    ) by {
        assert(code_at(b, 2 * i, big) == w[i] as u32 as int);
    }
    lemma_run16_full(b, 0, w.len() as int, big);
    assert(code_at(b, 0, big) == w[0] as u32 as int);
    assert forall|i: int| 0 <= i < w.len() implies #[trigger] word16(b, 0, big)[i] == w[i] by {
        assert(code_at(b, 2 * i, big) == w[i] as u32 as int);
    }
    assert(word16(b, 0, big) =~= w);
    assert(scan16(d, b, b.len() as int, big) == (0nat, Seq::<u8>::empty()));
    assert(utf16_bytes(apply_case(t, d[k]), big) + Seq::<u8>::empty() =~= utf16_bytes(
        apply_case(t, d[k]),
        big,
    ));
}

fn code_at_exec(bytes: &[u8], i: usize, big: bool) -> (r: u32)
    requires
        i + 2 <= bytes@.len(),
    ensures
        r as int == code_at(bytes@, i as int, big),
{
    let n = bytes.len();
    assert(i + 1 < n);
    if big {
        bytes[i] as u32 * 256 + bytes[i + 1] as u32
    } else {
        bytes[i + 1] as u32 * 256 + bytes[i] as u32
    }
}

fn replace_16(dictionary: &Dictionary, bytes: &[u8], big: bool) -> (r: (u128, Vec<u8>))
    ensures
        r.0 as nat == scan16(dictionary@, bytes@, 0, big).0,
        r.1@ == scan16(dictionary@, bytes@, 0, big).1,
{
    let ghost d = dictionary@;
    let ghost b = bytes@;
    let mut new_bytes: Vec<u8> = Vec::new();
    let mut cursor: usize = 0;
    let mut count: u128 = 0;
    while bytes.len() - cursor > 1
        invariant
            cursor <= b.len(),
            b == bytes@,
            d == dictionary@,
            count <= cursor,
            scan16(d, b, 0, big).0 == count + scan16(d, b, cursor as int, big).0,
            scan16(d, b, 0, big).1 == new_bytes@ + scan16(d, b, cursor as int, big).1,
        decreases b.len() - cursor,
    {
        let start = cursor;
        let ghost before = new_bytes@;
        if is_word_start_exec(code_at_exec(bytes, cursor, big)) {
            let mut word = String::new();
            while bytes.len() - cursor > 1 && is_word_code_exec(code_at_exec(bytes, cursor, big))
                invariant
                    start <= cursor <= b.len(),
                    b == bytes@,
                    run16(b, start as int, big) == word@.len() + run16(b, cursor as int, big),
                    cursor == start + 2 * word@.len(),
                    forall|k: int|
                        0 <= k < word@.len() ==> word@[k] == code_at(b, start + 2 * k, big) as char,
                decreases b.len() - cursor,
            {
                let c = code_at_exec(bytes, cursor, big);
                push_char(&mut word, c as u8 as char);
                cursor = cursor + 2;
            }
            proof {
                lemma_run16_bound(b, start as int, big);
                assert(word@ =~= word16(b, start as int, big));
            }
            let key = lowercase(word.as_str());
            match dictionary.get(&key) {
                Some(value) => {
                    count = count + 1;
                    let new_word = match_case(word.as_str(), value.as_str());
                    push_utf16(&mut new_bytes, new_word.as_str(), big);
                },
                None => {
                    push_all(&mut new_bytes, &bytes[start..cursor]);
                },
            }
            assert(new_bytes@ + scan16(d, b, cursor as int, big).1 =~= before + scan16(
                d,
                b,
                start as int,
                big,
            ).1);
        } else {
            new_bytes.push(bytes[cursor]);
            new_bytes.push(bytes[cursor + 1]);
            cursor = cursor + 2;
            assert(new_bytes@ + scan16(d, b, cursor as int, big).1 =~= before + scan16(
                d,
                b,
                start as int,
                big,
            ).1);
        }
    }
    if cursor < bytes.len() {
        new_bytes.push(bytes[cursor]);
        assert(new_bytes@ =~= scan16(d, b, 0, big).1);
    } else {
        assert(new_bytes@ =~= scan16(d, b, 0, big).1);
    }
    (count, new_bytes)
}

/// Replaces every word of a UTF-16LE buffer whose lowercase form is a key of
/// `dictionary`, keeping the word's casing pattern; returns the number of
/// replaced words and the new buffer.
pub fn replace_le_16(dictionary: &Dictionary, bytes: &[u8]) -> (r: (u128, Vec<u8>))
    ensures
        r.0 as nat == scan16(dictionary@, bytes@, 0, false).0,
        r.1@ == scan16(dictionary@, bytes@, 0, false).1,
{
    replace_16(dictionary, bytes, false)
}

/// Replaces every word of a UTF-16BE buffer whose lowercase form is a key of
/// `dictionary`, keeping the word's casing pattern; returns the number of
/// replaced words and the new buffer.
pub fn replace_be_16(dictionary: &Dictionary, bytes: &[u8]) -> (r: (u128, Vec<u8>))
    ensures
        r.0 as nat == scan16(dictionary@, bytes@, 0, true).0,
        r.1@ == scan16(dictionary@, bytes@, 0, true).1,
{
    replace_16(dictionary, bytes, true)
}

} // verus!
