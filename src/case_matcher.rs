use vstd::prelude::*;

verus! {

pub open spec fn is_lower(c: char) -> bool {
    'a' <= c && c <= 'z'
}

pub open spec fn is_upper(c: char) -> bool {
    'A' <= c && c <= 'Z'
}

/// ASCII lowercase of one character; every other character is kept.
pub open spec fn lower_char(c: char) -> char {
    if is_upper(c) {
        ((c as u32) + 32) as char
    } else {
        c
    }
}

/// ASCII uppercase of one character; every other character is kept.
pub open spec fn upper_char(c: char) -> char {
    if is_lower(c) {
        ((c as u32) - 32) as char
    } else {
        c
    }
}

pub open spec fn lower_seq(s: Seq<char>) -> Seq<char> {
    Seq::new(s.len(), |i: int| lower_char(s[i]))
}

pub open spec fn upper_seq(s: Seq<char>) -> Seq<char> {
    Seq::new(s.len(), |i: int| upper_char(s[i]))
}

/// First character uppercased, the rest lowercased.
pub open spec fn capitalize_seq(s: Seq<char>) -> Seq<char> {
    if s.len() == 0 {
        s
    } else {
        seq![upper_char(s[0])] + lower_seq(s.subrange(1, s.len() as int))
    }
}

/// The casing pattern of a word.
#[derive(Clone, Copy, Debug, PartialEq, Eq, Structural)]
pub enum Case {
    Capitalized,
    Lowercase,
    Uppercase,
}

/// Empty or starting with a lowercase letter: lowercase. Otherwise capitalized
/// when a lowercase letter follows somewhere, uppercase when none does.
pub open spec fn case_of(w: Seq<char>) -> Case {
    if w.len() == 0 || is_lower(w[0]) {
        Case::Lowercase
    } else if exists|i: int| 1 <= i < w.len() && is_lower(#[trigger] w[i]) {
        Case::Capitalized
    } else {
        Case::Uppercase
    }
}

pub open spec fn apply_case(case: Case, s: Seq<char>) -> Seq<char> {
    match case {
        Case::Lowercase => lower_seq(s),
        Case::Uppercase => upper_seq(s),
        Case::Capitalized => capitalize_seq(s),
    }
}

/// The replacement `second` recased after the pattern of `first`.
pub open spec fn matched_case(first: Seq<char>, second: Seq<char>) -> Seq<char> {
    apply_case(case_of(first), second)
}

/// Relies on String::push: appends one character to the string.
#[verifier::external_body]
pub(crate) fn push_char(s: &mut String, c: char)
    ensures
        final(s)@ == old(s)@.push(c),
{
    s.push(c)
}

/// The characters of `s`, in order.
pub fn chars_of(s: &str) -> (r: Vec<char>)
    ensures
        r@ == s@,
{
    let mut r: Vec<char> = Vec::new();
    for c in iter: s.chars()
        invariant
            r@ == iter.seq().subrange(0, iter.index() as int),
    {
        r.push(c);
    }
    r
}

pub fn to_lower(c: char) -> (r: char)
    ensures
        r == lower_char(c),
{
    if 'A' <= c && c <= 'Z' {
        ((c as u8) + 32) as char
    } else {
        c
    }
}

pub fn to_upper(c: char) -> (r: char)
    ensures
        r == upper_char(c),
{
    if 'a' <= c && c <= 'z' {
        ((c as u8) - 32) as char
    } else {
        c
    }
}

/// Appends the characters `s[from..]`, each mapped by the pattern's rule
/// (`upper` true: uppercase, else lowercase).
fn push_cased(out: &mut String, s: &str, from: usize, upper: bool)
    requires
        from <= s@.len(),
    ensures
        final(out)@ == old(out)@ + (if upper {
            upper_seq(s@.subrange(from as int, s@.len() as int))
        } else {
            lower_seq(s@.subrange(from as int, s@.len() as int))
        }),
{
    let cs = chars_of(s);
    let n = cs.len();
    let mut i: usize = from;
    while i < n
        invariant
            from <= i <= n,
            n == s@.len(),
            cs@ == s@,
            out@ == old(out)@ + (if upper {
                upper_seq(s@.subrange(from as int, i as int))
            } else {
                lower_seq(s@.subrange(from as int, i as int))
            }),
        decreases n - i,
    {
        let c = cs[i];
        let d = if upper { to_upper(c) } else { to_lower(c) };
        push_char(out, d);
        i = i + 1;
        proof {
            if upper {
                assert(upper_seq(s@.subrange(from as int, i as int)) =~= upper_seq(
                    s@.subrange(from as int, i - 1),
                ).push(d));
            } else {
                assert(lower_seq(s@.subrange(from as int, i as int)) =~= lower_seq(
                    s@.subrange(from as int, i - 1),
                ).push(d));
            }
        }
    }
    proof {
        assert(s@.subrange(from as int, n as int) =~= s@.subrange(from as int, s@.len() as int));
    }
}

/// ASCII lowercase of a whole string.
pub fn lowercase(s: &str) -> (r: String)
    ensures
        r@ == lower_seq(s@),
{
    let mut r = String::new();
    push_cased(&mut r, s, 0, false);
    assert(s@.subrange(0, s@.len() as int) =~= s@);
    assert(r@ =~= lower_seq(s@));
    r
}

/// The casing pattern of `string`.
pub fn find_case(string: &str) -> (r: Case)
    ensures
        r == case_of(string@),
{
    let cs = chars_of(string);
    let n = cs.len();
    if n == 0 {
        return Case::Lowercase;
    }
    let first = cs[0];
    if 'a' <= first && first <= 'z' {
        return Case::Lowercase;
    }
    let mut i: usize = 1;
    while i < n
        invariant
            1 <= i <= n,
            n == string@.len(),
            cs@ == string@,
            !is_lower(string@[0]),
            forall|j: int| 1 <= j < i ==> !is_lower(#[trigger] string@[j]),
        decreases n - i,
    {
        let c = cs[i];
        if 'a' <= c && c <= 'z' {
            assert(is_lower(string@[i as int]));
            return Case::Capitalized;
        }
        i = i + 1;
    }
    Case::Uppercase
}

/// `second` recased after the pattern of `first`: all lowercase, all
/// uppercase, or first character uppercase and the rest lowercase.
pub fn match_case(first: &str, second: &str) -> (r: String)
    ensures
        r@ == matched_case(first@, second@),
{
    let case = find_case(first);
    let mut r = String::new();
    match case {
        Case::Lowercase => {
            push_cased(&mut r, second, 0, false);
            assert(second@.subrange(0, second@.len() as int) =~= second@);
            assert(r@ =~= lower_seq(second@));
        },
        Case::Uppercase => {
            push_cased(&mut r, second, 0, true);
            assert(second@.subrange(0, second@.len() as int) =~= second@);
            assert(r@ =~= upper_seq(second@));
        },
        Case::Capitalized => {
            let cs = chars_of(second);
            if cs.len() > 0 {
                let c = cs[0];
                push_char(&mut r, to_upper(c));
                push_cased(&mut r, second, 1, false);
                assert(r@ =~= capitalize_seq(second@));
            }
        },
    }
    r
}

pub open spec fn is_letter(c: char) -> bool {
    is_lower(c) || is_upper(c)
}

/// Whether recasing `k` by pattern `t` leaves a word that still shows `t`:
/// a lowercase word needs a letter first (or no character at all), an
/// uppercase one a first character, a capitalized one a letter after the
/// first character.
pub open spec fn shows_case(t: Case, k: Seq<char>) -> bool {
    match t {
        Case::Lowercase => k.len() == 0 || is_letter(k[0]),
        Case::Uppercase => k.len() > 0,
        Case::Capitalized => exists|i: int| 1 <= i < k.len() && is_letter(#[trigger] k[i]),
    }
}

pub proof fn lemma_char_cases(c: char)
    ensures
        is_lower(lower_char(c)) == is_letter(c),
        !is_lower(upper_char(c)),
        lower_char(lower_char(c)) == lower_char(c),
        lower_char(upper_char(c)) == lower_char(c),
{
}

/// Recasing a word by a pattern it can show, then taking the pattern of the
/// result, gives back that pattern.
pub proof fn lemma_case_of_apply(t: Case, k: Seq<char>)
    requires
        shows_case(t, k),
    ensures
        case_of(apply_case(t, k)) == t,
{
    let w = apply_case(t, k);
    match t {
        Case::Lowercase => {
            if k.len() > 0 {
                lemma_char_cases(k[0]);
            }
        },
        Case::Uppercase => {
            lemma_char_cases(k[0]);
            assert forall|i: int| 1 <= i < w.len() implies !is_lower(#[trigger] w[i]) by {
                lemma_char_cases(k[i]);
            }
        },
        Case::Capitalized => {
            let i = choose|i: int| 1 <= i < k.len() && is_letter(#[trigger] k[i]);
            lemma_char_cases(k[0]);
            lemma_char_cases(k[i]);
            assert(w[i] == lower_char(k[i]));
            assert(is_lower(w[i]));
        },
    }
}

/// Case preservation: for a dictionary entry `k` to `v` and a casing
/// pattern `t` that `k` can show, the replacement chosen for `t(k)` is `t(v)`.
pub proof fn lemma_case_preserved(t: Case, k: Seq<char>, v: Seq<char>)
    requires
        shows_case(t, k),
    ensures
        matched_case(apply_case(t, k), v) == apply_case(t, v),
{
    lemma_case_of_apply(t, k);
}

/// Lowercasing a recased word gives the lowercase form of the word before recasing.
pub proof fn lemma_lower_apply(t: Case, k: Seq<char>)
    ensures
        lower_seq(apply_case(t, k)) == lower_seq(k),
{
    let w = apply_case(t, k);
    assert forall|i: int| 0 <= i < k.len() implies lower_seq(w)[i] == lower_seq(k)[i] by {
        lemma_char_cases(k[i]);
    }
    assert(lower_seq(w) =~= lower_seq(k));
}

/// Recasing maps each character to its lowercase or its uppercase form.
pub proof fn lemma_apply_chars(t: Case, k: Seq<char>)
    ensures
        apply_case(t, k).len() == k.len(),
        forall|i: int|
            0 <= i < k.len() ==> #[trigger] apply_case(t, k)[i] == lower_char(k[i])
                || apply_case(t, k)[i] == upper_char(k[i]),
{
    let w = apply_case(t, k);
    if t == Case::Capitalized && k.len() > 0 {
        assert forall|i: int| 0 <= i < k.len() implies #[trigger] w[i] == lower_char(k[i]) || w[i]
            == upper_char(k[i]) by {
            if i > 0 {
                assert(w[i] == lower_seq(k.subrange(1, k.len() as int))[i - 1]);
            }
        }
    }
}

} // verus!
