//! The text form of a weight distribution, `KIND:A,B`: a kind (`normal` or
//! `uniform`, in any case) and its parameters, separated by commas. The
//! parameters are real numbers; they are handed on as trimmed text.

use vstd::prelude::*;
use crate::text::{chars_of, trim, trim_chars};

verus! {

/// The kinds of distribution.
#[derive(Clone, Copy, Debug, PartialEq, Eq, Structural)]
pub enum DistKind {
    /// Normal, with a mean and a standard deviation.
    Normal,
    /// Uniform, with a lower and an upper bound.
    Uniform,
}

/// The index of the first `c` at or after `from`.
pub open spec fn find_char(s: Seq<char>, c: char, from: nat) -> Option<nat>
    decreases s.len() - from,
{
    if from >= s.len() {
        None
    } else if s[from as int] == c {
        Some(from)
    } else {
        find_char(s, c, from + 1)
    }
}

/// The pieces of a text between commas (as `str::split(',')`): one more than
/// there are commas, empty ones included.
pub open spec fn split_commas(s: Seq<char>) -> Seq<Seq<char>>
    decreases s.len(),
{
    match find_char(s, ',', 0) {
        None => seq![s],
        Some(i) => {
            proof {
                lemma_find_char_bound(s, ',', 0);
            }
            seq![s.take(i as int)] + split_commas(s.skip(i + 1 as int))
        },
    }
}

/// A character found lies in the text, is that character, and no earlier
/// one from where the search starts is.
pub proof fn lemma_find_char_bound(s: Seq<char>, c: char, from: nat)
    ensures
        find_char(s, c, from) matches Some(i) ==> from <= i < s.len() && s[i as int] == c
            && forall|k: int| from <= k < i ==> s[k] != c,
        find_char(s, c, from) is None ==> forall|k: int| from <= k < s.len() ==> s[k] != c,
    decreases s.len() - from,
{
    if from < s.len() && s[from as int] != c {
        lemma_find_char_bound(s, c, from + 1);
    }
}

/// The kind and the trimmed parameters of a distribution's text: none where
/// there is no colon. The kind is what stands before the first colon; the
/// parameters are the pieces between commas after it.
pub open spec fn dist_parts(s: Seq<char>) -> Option<(Seq<char>, Seq<Seq<char>>)> {
    match find_char(s, ':', 0) {
        None => None,
        Some(i) => {
            let pieces = split_commas(s.skip(i + 1 as int));
            Some((s.take(i as int), Seq::new(pieces.len(), |k: int| trim(pieces[k]))))
        },
    }
}

/// A character in lower case (for ASCII letters).
pub open spec fn lower(c: char) -> char {
    if 'A' <= c <= 'Z' {
        ((c as u32) + 32) as char
    } else {
        c
    }
}

/// A text in lower case (for ASCII letters).
pub open spec fn lower_text(s: Seq<char>) -> Seq<char> {
    Seq::new(s.len(), |i: int| lower(s[i]))
}

/// The distribution that a kind and a number of parameters name: `normal`
/// or `uniform` (in any case) with two parameters. (Of the characters outside
/// ASCII, none has a lower case that makes either word.)
pub open spec fn dist_kind_spec(kind: Seq<char>, n_params: nat) -> Option<DistKind> {
    if n_params != 2 {
        None
    } else if lower_text(kind) == "normal"@ {
        Some(DistKind::Normal)
    } else if lower_text(kind) == "uniform"@ {
        Some(DistKind::Uniform)
    } else {
        None
    }
}

/// `text` spells the lower-case word `word` up to the case of its ASCII
/// letters: each character is the word's character or, for a letter, its
/// capital.
pub open spec fn same_word_ignoring_case(text: Seq<char>, word: Seq<char>) -> bool {
    &&& text.len() == word.len()
    &&& forall|i: int|
        0 <= i < text.len() ==> #[trigger] text[i] == word[i] || ('A' <= text[i] <= 'Z'
            && ((text[i] as u32) + 32) as char == word[i])
}

/// The kinds are named in any case: with two parameters, a kind that spells
/// `normal` in any mix of upper and lower case names the normal
/// distribution, one that spells `uniform` names the uniform one, and any
/// other names none; with another number of parameters nothing is named.
pub proof fn lemma_kind_ignores_case(kind: Seq<char>, n_params: nat)
    ensures
        n_params == 2 && same_word_ignoring_case(kind, "normal"@) ==> dist_kind_spec(kind, n_params)
            == Some(DistKind::Normal),
        n_params == 2 && same_word_ignoring_case(kind, "uniform"@) ==> dist_kind_spec(
            kind,
            n_params,
        ) == Some(DistKind::Uniform),
        !same_word_ignoring_case(kind, "normal"@) && !same_word_ignoring_case(kind, "uniform"@)
            ==> dist_kind_spec(kind, n_params) is None,
        n_params != 2 ==> dist_kind_spec(kind, n_params) is None,
{
    reveal_strlit("normal");
    reveal_strlit("uniform");
    lemma_lower_matches(kind, "normal"@);
    lemma_lower_matches(kind, "uniform"@);
}

/// Lowering a text gives a word of lower-case letters exactly where the text
/// spells that word up to case.
proof fn lemma_lower_matches(text: Seq<char>, word: Seq<char>)
    requires
        forall|i: int| 0 <= i < word.len() ==> 'a' <= #[trigger] word[i] <= 'z',
    ensures
        (lower_text(text) == word) == same_word_ignoring_case(text, word),
{
    if same_word_ignoring_case(text, word) {
        assert forall|i: int| 0 <= i < text.len() implies #[trigger] lower_text(text)[i]
            == word[i] by {
            if text[i] == word[i] {
                assert('a' <= word[i] <= 'z');
            }
        }
        assert(lower_text(text) =~= word);
    }
    if lower_text(text) == word {
        assert forall|i: int| 0 <= i < text.len() implies #[trigger] text[i] == word[i] || (
        'A' <= text[i] <= 'Z' && ((text[i] as u32) + 32) as char == word[i]) by {
            assert(lower_text(text)[i] == word[i]);
        }
    }
}

/// The text from `a` up to `b`.
fn slice_chars(s: &Vec<char>, a: usize, b: usize) -> (r: Vec<char>)
    requires
        a <= b <= s@.len(),
    ensures
        r@ == s@.subrange(a as int, b as int),
{
    let mut r: Vec<char> = Vec::new();
    let mut i = a;
    while i < b
        invariant
            a <= i <= b,
            b <= s@.len(),
            r@ == s@.subrange(a as int, i as int),
        decreases b - i,
    {
        r.push(s[i]);
        i = i + 1;
        assert(r@ =~= s@.subrange(a as int, i as int));
    }
    r
}

/// The pieces of a text between commas, each trimmed.
fn split_commas_trimmed(s: &Vec<char>) -> (r: Vec<Vec<char>>)
    ensures
        r@.map_values(|t: Vec<char>| t@) == Seq::new(
            split_commas(s@).len(),
            |k: int| trim(split_commas(s@)[k]),
        ),
{
    let mut out: Vec<Vec<char>> = Vec::new();
    let mut start: usize = 0;
    let mut i: usize = 0;
    let n = s.len();
    assert(s@.skip(0) =~= s@);
    while i < n
        invariant
            n == s@.len(),
            start <= i <= n,
            forall|k: int| start <= k < i ==> s@[k] != ',',
            out@.map_values(|t: Vec<char>| t@) + Seq::new(
                split_commas(s@.skip(start as int)).len(),
                |k: int| trim(split_commas(s@.skip(start as int))[k]),
            ) == Seq::new(split_commas(s@).len(), |k: int| trim(split_commas(s@)[k])),
        decreases n - i,
    {
        if s[i] == ',' {
            let piece = slice_chars(s, start, i);
            let t = trim_chars(&piece);
            proof {
                let rest = s@.skip(start as int);
                assert(find_char(rest, ',', (i - start) as nat) == Some((i - start) as nat));
                lemma_find_char_from(rest, ',', 0, (i - start) as nat);
                assert(rest.take(i - start) =~= piece@);
                assert(rest.skip(i - start + 1) =~= s@.skip(i + 1));
                let before = out@.map_values(|t: Vec<char>| t@);
                let sc = split_commas(rest);
                let sc2 = split_commas(s@.skip(i + 1));
                assert(sc == seq![piece@] + sc2);
                assert(Seq::new(sc.len(), |k: int| trim(sc[k])) =~= seq![trim(piece@)] + Seq::new(
                    sc2.len(),
                    |k: int| trim(sc2[k]),
                ));
                assert(out@.push(t).map_values(|t: Vec<char>| t@) =~= before.push(t@));
                assert(before.push(t@) + Seq::new(sc2.len(), |k: int| trim(sc2[k])) =~= before + (
                seq![trim(piece@)] + Seq::new(sc2.len(), |k: int| trim(sc2[k]))));
            }
            out.push(t);
            start = i + 1;
        }
        i = i + 1;
    }
    let piece = slice_chars(s, start, n);
    let t = trim_chars(&piece);
    proof {
        let rest = s@.skip(start as int);
        lemma_find_char_none(rest, ',', 0);
        assert(rest =~= piece@);
        let before = out@.map_values(|t: Vec<char>| t@);
        assert(out@.push(t).map_values(|t: Vec<char>| t@) =~= before.push(t@));
        assert(Seq::new(split_commas(rest).len(), |k: int| trim(split_commas(rest)[k])) =~= seq![
            trim(piece@),
        ]);
    }
    out.push(t);
    out
}

/// No `c` from `from` up to `k` and a `c` at `k`: the search finds `k`.
proof fn lemma_find_char_from(s: Seq<char>, c: char, from: nat, k: nat)
    requires
        from <= k < s.len(),
        s[k as int] == c,
        forall|j: int| from <= j < k ==> s[j] != c,
    ensures
        find_char(s, c, from) == Some(k),
    decreases k - from,
{
    if from < k {
        lemma_find_char_from(s, c, from + 1, k);
    }
}

/// No `c` from `from` on: the search finds nothing.
proof fn lemma_find_char_none(s: Seq<char>, c: char, from: nat)
    requires
        forall|j: int| from <= j < s.len() ==> s[j] != c,
    ensures
        find_char(s, c, from) is None,
    decreases s.len() - from,
{
    if from < s.len() {
        lemma_find_char_none(s, c, from + 1);
    }
}

/// The kind and the trimmed parameters of a distribution's text, or none
/// where it has no colon.
pub fn dist_parts_of(s: &str) -> (r: Option<(Vec<char>, Vec<Vec<char>>)>)
    ensures
        match r {
            None => dist_parts(s@) is None,
            Some((kind, params)) => dist_parts(s@) == Some(
                (kind@, params@.map_values(|t: Vec<char>| t@)),
            ),
        },
{
    let cs = chars_of(s);
    let n = cs.len();
    let mut i: usize = 0;
    while i < n
        invariant
            n == cs@.len(),
            cs@ == s@,
            i <= n,
            forall|k: int| 0 <= k < i ==> cs@[k] != ':',
        decreases n - i,
    {
        if cs[i] == ':' {
            proof {
                lemma_find_char_from(cs@, ':', 0, i as nat);
            }
            let kind = slice_chars(&cs, 0, i);
            let rest = slice_chars(&cs, i + 1, n);
            assert(rest@ =~= cs@.skip(i + 1));
            assert(kind@ =~= cs@.take(i as int));
            let params = split_commas_trimmed(&rest);
            return Some((kind, params));
        }
        i = i + 1;
    }
    proof {
        lemma_find_char_none(cs@, ':', 0);
    }
    None
}

/// The distribution that a kind and a number of parameters name.
pub fn dist_kind(kind: &Vec<char>, n_params: usize) -> (r: Option<DistKind>)
    ensures
        r == dist_kind_spec(kind@, n_params as nat),
{
    if n_params != 2 {
        return None;
    }
    let mut low: Vec<char> = Vec::new();
    let mut i: usize = 0;
    while i < kind.len()
        invariant
            i <= kind@.len(),
            low@ == lower_text(kind@.take(i as int)),
        decreases kind@.len() - i,
    {
        let c = kind[i];
        let l = if 'A' <= c && c <= 'Z' {
            ((c as u32 + 32) as u8) as char
        } else {
            c
        };
        low.push(l);
        i = i + 1;
        assert(low@ =~= lower_text(kind@.take(i as int)));
    }
    assert(kind@.take(i as int) =~= kind@);
    let normal = chars_of("normal");
    let uniform = chars_of("uniform");
    if chars_equal(&low, &normal) {
        Some(DistKind::Normal)
    } else if chars_equal(&low, &uniform) {
        Some(DistKind::Uniform)
    } else {
        None
    }
}

/// Whether two texts are the same.
fn chars_equal(a: &Vec<char>, b: &Vec<char>) -> (r: bool)
    ensures
        r == (a@ == b@),
{
    if a.len() != b.len() {
        return false;
    }
    let mut i: usize = 0;
    while i < a.len()
        invariant
            a@.len() == b@.len(),
            i <= a@.len(),
            forall|k: int| 0 <= k < i ==> a@[k] == b@[k],
        decreases a@.len() - i,
    {
        if a[i] != b[i] {
            return false;
        }
        i = i + 1;
    }
    assert(a@ =~= b@);
    true
}

} // verus!
