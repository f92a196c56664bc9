use crate::bytes_replacer::{
    count_hits, is_hit, is_key_word, is_word_code, is_word_start, lemma_recased_key, replacement,
};
use crate::case_matcher::{apply_case, shows_case, Case};
use crate::case_matcher::{chars_of, lowercase, match_case, push_char};
use crate::dictionary::Dictionary;
use vstd::prelude::*;
use vstd::string::*;

verus! {

/// Number of word characters from position `i` on.
pub open spec fn run_text(s: Seq<char>, i: int) -> nat
    decreases s.len() - i,
{
    if 0 <= i < s.len() && is_word_code(s[i] as u32 as int) {
        1 + run_text(s, i + 1)
    } else {
        0
    }
}

pub proof fn lemma_run_text_bound(s: Seq<char>, i: int)
    requires
        0 <= i <= s.len(),
    ensures
        i + run_text(s, i) <= s.len(),
        i < s.len() && is_word_code(s[i] as u32 as int) ==> run_text(s, i) >= 1,
    decreases s.len() - i,
{
    if i < s.len() && is_word_code(s[i] as u32 as int) {
        lemma_run_text_bound(s, i + 1);
    }
}

/// The scan of decoded text from position `i` on: the number of replaced
/// words and the text emitted, with the rules of the byte scanners applied
/// to characters.
pub open spec fn scan_text(d: Map<Seq<char>, Seq<char>>, s: Seq<char>, i: int) -> (
    nat,
    Seq<char>,
)
    decreases s.len() - i,
    via scan_text_decreases
{
    if i < 0 || i >= s.len() {
        (0, Seq::empty())
    } else if is_word_start(s[i] as u32 as int) {
        let n = run_text(s, i);
        let w = s.subrange(i, i + n);
        let rest = scan_text(d, s, i + n);
        if is_hit(d, w) {
            (rest.0 + 1, replacement(d, w) + rest.1)
        } else {
            (rest.0, w + rest.1)
        }
    } else {
        let rest = scan_text(d, s, i + 1);
        (rest.0, seq![s[i]] + rest.1)
    }
}

#[via_fn]
proof fn scan_text_decreases(d: Map<Seq<char>, Seq<char>>, s: Seq<char>, i: int) {
    if 0 <= i < s.len() {
        lemma_run_text_bound(s, i);
    }
}

/// The word runs that the text scan meets from position `i` on, in order.
pub open spec fn words_text(s: Seq<char>, i: int) -> Seq<Seq<char>>
    decreases s.len() - i,
    via words_text_decreases
{
    if i < 0 || i >= s.len() {
        Seq::empty()
    } else if is_word_start(s[i] as u32 as int) {
        seq![s.subrange(i, i + run_text(s, i))] + words_text(s, i + run_text(s, i))
    } else {
        words_text(s, i + 1)
    }
}

#[via_fn]
proof fn words_text_decreases(s: Seq<char>, i: int) {
    if 0 <= i < s.len() {
        lemma_run_text_bound(s, i);
    }
}

proof fn lemma_text_count_from(d: Map<Seq<char>, Seq<char>>, s: Seq<char>, i: int)
    requires
        0 <= i <= s.len(),
    ensures
        scan_text(d, s, i).0 == count_hits(d, words_text(s, i)),
    decreases s.len() - i,
{
    if i < s.len() {
        lemma_run_text_bound(s, i);
        if is_word_start(s[i] as u32 as int) {
            let n = run_text(s, i) as int;
            lemma_text_count_from(d, s, i + n);
            assert(words_text(s, i).drop_first() =~= words_text(s, i + n));
        } else {
            lemma_text_count_from(d, s, i + 1);
        }
    }
}

/// Count correctness: the text scan's count is the number of word runs of
/// `s` whose lowercase form is a key.
pub proof fn lemma_text_count(d: Map<Seq<char>, Seq<char>>, s: Seq<char>)
    ensures
        scan_text(d, s, 0).0 == count_hits(d, words_text(s, 0)),
{
    lemma_text_count_from(d, s, 0);
}

proof fn lemma_text_no_hits_from(d: Map<Seq<char>, Seq<char>>, s: Seq<char>, i: int)
    requires
        0 <= i <= s.len(),
        forall|j: int| 0 <= j < words_text(s, i).len() ==> !is_hit(d, #[trigger] words_text(s, i)[j]),
    ensures
        scan_text(d, s, i) == (0nat, s.subrange(i, s.len() as int)),
    decreases s.len() - i,
{
    if i < s.len() {
        lemma_run_text_bound(s, i);
        if is_word_start(s[i] as u32 as int) {
            let n = run_text(s, i) as int;
            let ws = words_text(s, i);
            assert(ws[0] == s.subrange(i, i + n));
            assert forall|j: int| 0 <= j < words_text(s, i + n).len() implies !is_hit(
                d,
                #[trigger] words_text(s, i + n)[j],
            ) by {
                assert(words_text(s, i + n)[j] == ws[j + 1]);
            }
            lemma_text_no_hits_from(d, s, i + n);
            assert(s.subrange(i, i + n) + s.subrange(i + n, s.len() as int) =~= s.subrange(
                i,
                s.len() as int,
            ));
        } else {
            assert(words_text(s, i) == words_text(s, i + 1));
            lemma_text_no_hits_from(d, s, i + 1);
            assert(seq![s[i]] + s.subrange(i + 1, s.len() as int) =~= s.subrange(
                i,
                s.len() as int,
            ));
        }
    } else {
        assert(s.subrange(i, i) =~= Seq::<char>::empty());
    }
}

/// No-op on absent matches: when no word run of `s` has its lowercase form
/// among the keys, the text scan returns `s` unchanged with count zero.
pub proof fn lemma_text_no_hits(d: Map<Seq<char>, Seq<char>>, s: Seq<char>)
    requires
        forall|j: int| 0 <= j < words_text(s, 0).len() ==> !is_hit(d, #[trigger] words_text(s, 0)[j]),
    ensures
        scan_text(d, s, 0) == (0nat, s),
{
    lemma_text_no_hits_from(d, s, 0);
    assert(s.subrange(0, s.len() as int) =~= s);
}

proof fn lemma_text_passthrough_from(d: Map<Seq<char>, Seq<char>>, s: Seq<char>, i: int)
    requires
        0 <= i <= s.len(),
        forall|k: int| 0 <= k < s.len() ==> !is_word_start(#[trigger] s[k] as u32 as int),
    ensures
        scan_text(d, s, i) == (0nat, s.subrange(i, s.len() as int)),
    decreases s.len() - i,
{
    if i < s.len() {
        lemma_text_passthrough_from(d, s, i + 1);
        assert(seq![s[i]] + s.subrange(i + 1, s.len() as int) =~= s.subrange(i, s.len() as int));
    } else {
        assert(s.subrange(i, i) =~= Seq::<char>::empty());
    }
}

/// Non-text pass-through: a text with no ASCII letter or digit comes out of
/// the text scan unchanged, with count zero.
pub proof fn lemma_text_passthrough(d: Map<Seq<char>, Seq<char>>, s: Seq<char>)
    requires
        forall|k: int| 0 <= k < s.len() ==> !is_word_start(#[trigger] s[k] as u32 as int),
    ensures
        scan_text(d, s, 0) == (0nat, s),
{
    lemma_text_passthrough_from(d, s, 0);
    assert(s.subrange(0, s.len() as int) =~= s);
}

proof fn lemma_run_text_full(s: Seq<char>, i: int)
    requires
        0 <= i <= s.len(),
        forall|k: int| i <= k < s.len() ==> is_word_code(#[trigger] s[k] as u32 as int),
    ensures
        run_text(s, i) == s.len() - i,
    decreases s.len() - i,
{
    if i < s.len() {
        lemma_run_text_full(s, i + 1);
    }
}

/// Case preservation through the text scan: for an entry `k` to `v` whose
/// key is a lowercase word, and a pattern `t` that `k` can show, the text
/// `t(k)` becomes `t(v)`, with one replacement.
pub proof fn lemma_text_case_preserved(d: Map<Seq<char>, Seq<char>>, t: Case, k: Seq<char>)
    requires
        d.contains_key(k),
        is_key_word(k),
        shows_case(t, k),
    ensures
        scan_text(d, apply_case(t, k), 0) == (1nat, apply_case(t, d[k])),
{
    let w = apply_case(t, k);
    lemma_recased_key(d, t, k);
    lemma_run_text_full(w, 0);
    assert(w.subrange(0, w.len() as int) =~= w);
    assert(scan_text(d, w, w.len() as int) == (0nat, Seq::<char>::empty()));
    assert(apply_case(t, d[k]) + Seq::<char>::empty() =~= apply_case(t, d[k]));
}

fn is_word_start_char(c: char) -> (r: bool)
    ensures
        r == is_word_start(c as u32 as int),
{
    ('0' <= c && c <= '9') || ('A' <= c && c <= 'Z') || ('a' <= c && c <= 'z')
}

fn is_word_char(c: char) -> (r: bool)
    ensures
        r == is_word_code(c as u32 as int),
{
    ('0' <= c && c <= '9') || ('A' <= c && c <= 'Z') || ('a' <= c && c <= 'z') || c == '_'
}

/// Replaces every word of `content` whose lowercase form is a key of
/// `dictionary`, keeping the word's casing pattern; returns the number of
/// replaced words and the new text.
pub fn text_replace(dictionary: &Dictionary, content: String) -> (r: (u128, String))
    ensures
        r.0 as nat == scan_text(dictionary@, content@, 0).0,
        r.1@ == scan_text(dictionary@, content@, 0).1,
{
    let ghost d = dictionary@;
    let ghost s = content@;
    let cs = chars_of(content.as_str());
    let n = cs.len();
    let mut new_content = String::new();
    let mut cursor: usize = 0;
    let mut count: u128 = 0;
    while cursor < n
        invariant
            cursor <= n,
            n == s.len(),
            s == content@,
            cs@ == s,
            d == dictionary@,
            count <= cursor,
            scan_text(d, s, 0).0 == count + scan_text(d, s, cursor as int).0,
            scan_text(d, s, 0).1 == new_content@ + scan_text(d, s, cursor as int).1,
        decreases n - cursor,
    {
        let start = cursor;
        let ghost before = new_content@;
        let ch = cs[cursor];
        if is_word_start_char(ch) {
            let mut word = String::new();
            while cursor < n && is_word_char(cs[cursor])
                invariant
                    start <= cursor <= n,
                    n == s.len(),
                    s == content@,
                    cs@ == s,
                    run_text(s, start as int) == (cursor - start) + run_text(s, cursor as int),
                    word@ == s.subrange(start as int, cursor as int),
                decreases n - cursor,
            {
                push_char(&mut word, cs[cursor]);
                cursor = cursor + 1;
                assert(word@ =~= s.subrange(start as int, cursor as int));
            }
            proof {
                lemma_run_text_bound(s, start as int);
            }
            let key = lowercase(word.as_str());
            match dictionary.get(&key) {
                Some(value) => {
                    count = count + 1;
                    let new_word = match_case(word.as_str(), value.as_str());
                    new_content.append(new_word.as_str());
                },
                None => {
                    new_content.append(word.as_str());
                },
            }
            assert(new_content@ + scan_text(d, s, cursor as int).1 =~= before + scan_text(
                d,
                s,
                start as int,
            ).1);
        } else {
            push_char(&mut new_content, ch);
            cursor = cursor + 1;
            assert(new_content@ + scan_text(d, s, cursor as int).1 =~= before + scan_text(
                d,
                s,
                start as int,
            ).1);
        }
    }
    (count, new_content)
}

} // verus!
