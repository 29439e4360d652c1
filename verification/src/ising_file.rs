//! The Ising model file format, read line by line.
//!
//! A file is a sequence of sections, each opened by a line that starts with
//! a `$` keyword and searched for in this order: `$temp` (the temperature on
//! the next line), `$rng_seed` (a hex seed, optionally `0x`-prefixed),
//! `$dim_sizes` (the dimension, then that many side lengths),
//! `$edge_weights_start` (one weight per line, for each point and each of its
//! neighbours with a larger number), `$mu`, `$external_magnetic_field` (one
//! entry per point), and optionally `$starting_configs` (lines of hex bytes
//! and a weight, up to a blank line). `$ground_state_approx` may stand
//! anywhere; the line after it holds a configuration in hex.
//!
//! Real numbers are not read here: their tokens are handed on as text.

use vstd::prelude::*;
use crate::config_hex::{config_from_hex_tokens, config_from_tokens, hex_len, HexConfigError};
use crate::bits::{max_bits, Spins};
use crate::ising::IsingDisjoint;
use crate::lattice::{neighbour, opposite_slot, product, product_fits, sides_positive};
use crate::text::{
    chars_of, is_blank, line_is_blank, parse_unsigned, parse_unsigned_spec, split_whitespace,
    starts_with, string_of, tokens, trim, trim_chars,
};

verus! {

/// Why a model file could not be read.
#[derive(Clone, Copy, Debug, PartialEq, Eq, Structural)]
pub enum IsingFileError {
    /// No `$temp` line.
    NoTemperature,
    /// Nothing after the `$temp` line.
    NoTemperatureLine,
    /// The line after `$temp` is blank.
    BlankTemperature,
    /// No `$rng_seed` line, or nothing after it.
    NoSeed,
    /// The seed is no hex `u64`.
    BadSeed,
    /// No `$dim_sizes` line, or nothing after it.
    NoDimSizes,
    /// The dimension is missing or no `usize`.
    BadDimension,
    /// The dimension is zero.
    ZeroDimension,
    /// Fewer side lengths than the dimension.
    SizesMismatch,
    /// A side length is no `usize`.
    BadSize,
    /// The grid is too large to number its points and edges in a `usize`.
    GridTooLarge,
    /// No `$edge_weights_start` line.
    NoEdgeWeights,
    /// The file ends before the last weight.
    MissingWeight,
    /// A weight line is blank.
    BlankWeight,
    /// No `$mu` line, or nothing after it.
    NoMu,
    /// The line after `$mu` is blank.
    BlankMu,
    /// No `$external_magnetic_field` line.
    NoField,
    /// The file ends before the last magnetic field entry.
    MissingField,
    /// A magnetic field line is blank.
    BlankField,
    /// A starting configuration has too few hex entries.
    StartingConfigMissingEntry,
    /// A starting configuration entry is no hex byte.
    StartingConfigNotHex,
    /// A starting configuration has no weight after its hex entries.
    MissingProbability,
    /// The ground state has too few hex entries.
    GroundStateMissingEntry,
    /// A ground state entry is no hex byte.
    GroundStateNotHex,
}

/// The index of the first line at or after `from` that starts with `prefix`.
pub open spec fn find_line(ls: Seq<Seq<char>>, from: nat, prefix: Seq<char>) -> Option<nat>
    decreases ls.len() - from,
{
    if from >= ls.len() {
        None
    } else if prefix.is_prefix_of(ls[from as int]) {
        Some(from)
    } else {
        find_line(ls, from + 1, prefix)
    }
}

/// A line that the search finds lies within the file, at or after where
/// the search starts, and starts with the prefix.
pub proof fn lemma_find_line_found(ls: Seq<Seq<char>>, from: nat, prefix: Seq<char>)
    requires
        find_line(ls, from, prefix) is Some,
    ensures
        from <= find_line(ls, from, prefix)->0 < ls.len(),
        prefix.is_prefix_of(ls[find_line(ls, from, prefix)->0 as int]),
    decreases ls.len() - from,
{
    if from < ls.len() && !prefix.is_prefix_of(ls[from as int]) {
        lemma_find_line_found(ls, from + 1, prefix);
    }
}

/// Lines before `k` that lack the prefix, then one that has it: the search
/// from `from` finds that one.
pub proof fn lemma_find_line_at(ls: Seq<Seq<char>>, from: nat, prefix: Seq<char>, k: nat)
    requires
        from <= k < ls.len(),
        forall|i: int| from <= i < k ==> !prefix.is_prefix_of(#[trigger] ls[i]),
        prefix.is_prefix_of(ls[k as int]),
    ensures
        find_line(ls, from, prefix) == Some(k),
    decreases k - from,
{
    if from < k {
        lemma_find_line_at(ls, from + 1, prefix, k);
    }
}

/// A search over lines none of which has the prefix finds nothing.
pub proof fn lemma_find_line_absent(ls: Seq<Seq<char>>, from: nat, prefix: Seq<char>)
    requires
        forall|i: int| from <= i < ls.len() ==> !prefix.is_prefix_of(#[trigger] ls[i]),
    ensures
        find_line(ls, from, prefix) is None,
    decreases ls.len() - from,
{
    if from < ls.len() {
        lemma_find_line_absent(ls, from + 1, prefix);
    }
}

/// The first token of a line.
pub open spec fn first_token(line: Seq<char>) -> Option<Seq<char>> {
    if tokens(line).len() > 0 {
        Some(tokens(line)[0])
    } else {
        None
    }
}

/// The first token of the line after the first line at or after `from` that
/// starts with `prefix`, and the index of the line after that: an error where
/// there is no such line, nothing after it, or nothing on it.
pub open spec fn value_after(
    ls: Seq<Seq<char>>,
    from: nat,
    prefix: Seq<char>,
    no_section: IsingFileError,
    no_line: IsingFileError,
    blank: IsingFileError,
) -> Result<(Seq<char>, nat), IsingFileError> {
    match find_line(ls, from, prefix) {
        None => Err(no_section),
        Some(i) => if i + 1 >= ls.len() {
            Err(no_line)
        } else {
            match first_token(ls[(i + 1) as int]) {
                None => Err(blank),
                Some(t) => Ok((t, i + 2)),
            }
        },
    }
}

/// The temperature token, and where reading goes on.
pub open spec fn temp_step(ls: Seq<Seq<char>>) -> Result<(Seq<char>, nat), IsingFileError> {
    value_after(
        ls,
        0,
        "$temp"@,
        IsingFileError::NoTemperature,
        IsingFileError::NoTemperatureLine,
        IsingFileError::BlankTemperature,
    )
}

/// The text of a seed: trimmed, without a `0x` or `0X` prefix.
pub open spec fn seed_text(line: Seq<char>) -> Seq<char> {
    let t = trim(line);
    if "0x"@.is_prefix_of(t) || "0X"@.is_prefix_of(t) {
        t.skip(2)
    } else {
        t
    }
}

/// The seed, read in hex from the line after `$rng_seed`.
pub open spec fn seed_step(ls: Seq<Seq<char>>, from: nat) -> Result<(u64, nat), IsingFileError> {
    match find_line(ls, from, "$rng_seed"@) {
        None => Err(IsingFileError::NoSeed),
        Some(i) => if i + 1 >= ls.len() {
            Err(IsingFileError::NoSeed)
        } else {
            match parse_unsigned_spec(seed_text(ls[(i + 1) as int]), 16, u64::MAX as nat) {
                None => Err(IsingFileError::BadSeed),
                Some(v) => Ok((v as u64, i + 2)),
            }
        },
    }
}

/// A `usize` in decimal, as `str::parse` reads one.
pub open spec fn decimal(tok: Seq<char>) -> Option<nat> {
    parse_unsigned_spec(tok, 10, usize::MAX as nat)
}

/// The side lengths on a `$dim_sizes` line: the dimension, then that many
/// side lengths.
pub open spec fn sizes_of(toks: Seq<Seq<char>>) -> Result<Seq<usize>, IsingFileError> {
    if toks.len() == 0 || decimal(toks[0]) is None {
        Err(IsingFileError::BadDimension)
    } else if decimal(toks[0])->0 == 0 {
        Err(IsingFileError::ZeroDimension)
    } else {
        let dim = decimal(toks[0])->0;
        if exists|s: int| 0 <= s < dim && 1 + s < toks.len() && (#[trigger] decimal(toks[1 + s])) is None {
            Err(IsingFileError::BadSize)
        } else if toks.len() < 1 + dim {
            Err(IsingFileError::SizesMismatch)
        } else {
            Ok(Seq::new(dim, |s: int| decimal(toks[1 + s])->0 as usize))
        }
    }
}

/// The side lengths, read from the line after `$dim_sizes`.
pub open spec fn sizes_step(ls: Seq<Seq<char>>, from: nat) -> Result<
    (Seq<usize>, nat),
    IsingFileError,
> {
    match find_line(ls, from, "$dim_sizes"@) {
        None => Err(IsingFileError::NoDimSizes),
        Some(i) => if i + 1 >= ls.len() {
            Err(IsingFileError::NoDimSizes)
        } else {
            match sizes_of(tokens(ls[(i + 1) as int])) {
                Err(e) => Err(e),
                Ok(sizes) => Ok((sizes, i + 2)),
            }
        },
    }
}

/// The grid's points, edge slots and configurations can be numbered in a
/// `usize` and held in a `BitVec`.
pub open spec fn grid_fits(sizes: Seq<usize>) -> bool {
    &&& product_fits(sizes)
    &&& sizes.len() <= usize::MAX / 2
    &&& product(sizes) * (2 * sizes.len()) <= usize::MAX
    &&& product(sizes) + 2 * usize::BITS <= max_bits()
}

/// Edge slot `p` (slot `p % deg` of point `p / deg`) is read from the file:
/// its neighbour has a larger number.
pub open spec fn is_read(sizes: Seq<usize>, p: int) -> bool {
    let deg = (2 * sizes.len()) as int;
    neighbour(sizes, (p / deg) as nat, p % deg) > p / deg
}

/// The number of weight lines read before edge slot `p`.
pub open spec fn reads_before(sizes: Seq<usize>, p: nat) -> nat
    decreases p,
{
    if p == 0 {
        0
    } else {
        reads_before(sizes, (p - 1) as nat) + if is_read(sizes, p - 1) {
            1nat
        } else {
            0nat
        }
    }
}

/// The edge slot whose weight line gives slot `s` its weight: `s` itself
/// where its neighbour has a larger number, the opposite slot of that
/// neighbour where it has a smaller one, none where the slot points at its
/// own point.
pub open spec fn weight_source(sizes: Seq<usize>, s: int) -> Option<int> {
    let deg = (2 * sizes.len()) as int;
    let a = s / deg;
    let j = s % deg;
    let b = neighbour(sizes, a as nat, j);
    if b > a {
        Some(s)
    } else if b < a {
        Some(b * deg + opposite_slot(j))
    } else {
        None
    }
}

/// The weight lines: their tokens in order, for every edge slot the number of
/// the weight line that gives its weight (none for weight zero), and where
/// reading goes on.
pub open spec fn weights_step(ls: Seq<Seq<char>>, from: nat, sizes: Seq<usize>) -> Result<
    (Seq<Seq<char>>, Seq<Option<nat>>, nat),
    IsingFileError,
> {
    match find_line(ls, from, "$edge_weights_start"@) {
        None => Err(IsingFileError::NoEdgeWeights),
        Some(e) => {
            let slots = product(sizes) * (2 * sizes.len());
            let n_reads = reads_before(sizes, slots);
            if exists|r: int|
                0 <= r < n_reads && e + 1 + r < ls.len() && (#[trigger] first_token(
                    ls[e + 1 + r],
                )) is None {
                Err(IsingFileError::BlankWeight)
            } else if e + 1 + n_reads > ls.len() {
                Err(IsingFileError::MissingWeight)
            } else {
                Ok(
                    (
                        Seq::new(n_reads, |r: int| first_token(ls[e + 1 + r])->0),
                        Seq::new(
                            slots,
                            |s: int|
                                match weight_source(sizes, s) {
                                    Some(w) => Some(reads_before(sizes, w as nat)),
                                    None => None,
                                },
                        ),
                        e + 1 + n_reads,
                    ),
                )
            }
        },
    }
}

/// The magnetic field entries: the first tokens of the `n` lines after
/// `$external_magnetic_field`, and where reading goes on.
pub open spec fn field_step(ls: Seq<Seq<char>>, from: nat, n: nat) -> Result<
    (Seq<Seq<char>>, nat),
    IsingFileError,
> {
    match find_line(ls, from, "$external_magnetic_field"@) {
        None => Err(IsingFileError::NoField),
        Some(f) => if exists|r: int|
            0 <= r < n && f + 1 + r < ls.len() && (#[trigger] first_token(ls[f + 1 + r])) is None {
            Err(IsingFileError::BlankField)
        } else if f + 1 + n > ls.len() {
            Err(IsingFileError::MissingField)
        } else {
            Ok((Seq::new(n, |r: int| first_token(ls[f + 1 + r])->0), f + 1 + n))
        },
    }
}

/// One starting configuration line: its configuration and the token of its
/// weight.
pub open spec fn starting_line(line: Seq<char>, n: nat) -> Result<
    (Seq<bool>, Seq<char>),
    IsingFileError,
> {
    let toks = tokens(line);
    match config_from_tokens(toks, n) {
        Err(HexConfigError::MissingEntry) => Err(IsingFileError::StartingConfigMissingEntry),
        Err(HexConfigError::NotHex) => Err(IsingFileError::StartingConfigNotHex),
        Ok(c) => if toks.len() <= hex_len(n) {
            Err(IsingFileError::MissingProbability)
        } else {
            Ok((c, toks[hex_len(n) as int]))
        },
    }
}

/// A starting configuration line of an `n`-point model is read whenever its
/// first `ceil(n / 8)` tokens are hex bytes and one more token follows them;
/// the configuration then has `n` bits, and its weight is the token right
/// after the hex bytes, token number `ceil(n / 8)`.
pub proof fn lemma_starting_line_weight(line: Seq<char>, n: nat)
    ensures
        starting_line(line, n) is Ok <==> (tokens(line).len() > (n + 7) / 8 && forall|i: int|
            0 <= i < (n + 7) / 8 ==> (#[trigger] parse_unsigned_spec(tokens(line)[i], 16, 255))
                is Some),
        starting_line(line, n) matches Ok((c, w)) ==> c.len() == n && w == tokens(line)[((n + 7)
            / 8) as int],
{
    let toks = tokens(line);
    let h = (n + 7) / 8;
    if toks.len() > h && forall|i: int|
        0 <= i < h ==> (#[trigger] parse_unsigned_spec(toks[i], 16, 255)) is Some {
        assert(!(exists|i: int|
            0 <= i < h && i < toks.len() && (#[trigger] parse_unsigned_spec(toks[i], 16, 255))
                is None));
        assert(8 * h >= n);
    }
}

/// The starting configuration lines from line `i` up to the first blank line
/// or the end.
pub open spec fn starting_lines(ls: Seq<Seq<char>>, i: nat, n: nat) -> Result<
    Seq<(Seq<bool>, Seq<char>)>,
    IsingFileError,
>
    decreases ls.len() - i,
{
    if i >= ls.len() || is_blank(ls[i as int]) {
        Ok(seq![])
    } else {
        match starting_line(ls[i as int], n) {
            Err(e) => Err(e),
            Ok(x) => match starting_lines(ls, i + 1, n) {
                Err(e) => Err(e),
                Ok(rest) => Ok(seq![x] + rest),
            },
        }
    }
}

/// The starting configurations: none without a `$starting_configs` line.
pub open spec fn starting_step(ls: Seq<Seq<char>>, from: nat, n: nat) -> Result<
    Option<Seq<(Seq<bool>, Seq<char>)>>,
    IsingFileError,
> {
    match find_line(ls, from, "$starting_configs"@) {
        None => Ok(None),
        Some(s) => match starting_lines(ls, s + 1, n) {
            Err(e) => Err(e),
            Ok(v) => Ok(Some(v)),
        },
    }
}

/// What the `$ground_state_approx` section holds.
pub enum GroundStateSpec {
    /// There is no such section.
    Absent,
    /// The section has no line after it, or an empty one.
    Empty,
    /// The configuration it gives.
    Config(Seq<bool>),
}

/// The ground state of a model of `n` points, searched for from the first
/// line.
pub open spec fn ground_state_step(ls: Seq<Seq<char>>, n: nat) -> Result<
    GroundStateSpec,
    IsingFileError,
> {
    match find_line(ls, 0, "$ground_state_approx"@) {
        None => Ok(GroundStateSpec::Absent),
        Some(g) => if g + 1 >= ls.len() || ls[(g + 1) as int].len() == 0 {
            Ok(GroundStateSpec::Empty)
        } else {
            match config_from_tokens(tokens(ls[(g + 1) as int]), n) {
                Err(HexConfigError::MissingEntry) => Err(IsingFileError::GroundStateMissingEntry),
                Err(HexConfigError::NotHex) => Err(IsingFileError::GroundStateNotHex),
                Ok(c) => Ok(GroundStateSpec::Config(c)),
            }
        },
    }
}

/// The lines as character sequences.
pub open spec fn lines_view(ls: Seq<Vec<char>>) -> Seq<Seq<char>> {
    ls.map_values(|l: Vec<char>| l@)
}

/// The index of the first line at or after `from` that starts with `prefix`.
fn find_line_from(ls: &Vec<Vec<char>>, from: usize, prefix: &Vec<char>) -> (r: Option<usize>)
    ensures
        match r {
            Some(i) => find_line(lines_view(ls@), from as nat, prefix@) == Some(i as nat),
            None => find_line(lines_view(ls@), from as nat, prefix@) is None,
        },
        r matches Some(i) ==> from <= i < ls@.len(),
{
    let ghost v = lines_view(ls@);
    let mut i = from;
    while i < ls.len()
        invariant
            v == lines_view(ls@),
            from <= i,
            find_line(v, from as nat, prefix@) == find_line(v, i as nat, prefix@),
        decreases ls.len() - i,
    {
        assert(v[i as int] == ls@[i as int]@);
        if starts_with(&ls[i], prefix) {
            return Some(i);
        }
        i = i + 1;
    }
    None
}

/// The first token of a line.
fn first_token_of(line: &Vec<char>) -> (r: Option<Vec<char>>)
    ensures
        match r {
            Some(t) => first_token(line@) == Some(t@),
            None => first_token(line@) is None,
        },
{
    let toks = split_whitespace(line);
    if toks.len() > 0 {
        assert(toks@.map_values(|t: Vec<char>| t@)[0] == toks@[0]@);
        Some(toks[0].clone())
    } else {
        None
    }
}

/// The first token of the line after the first line at or after `from`
/// that starts with `prefix`, and the index of the line after that.
fn read_value_after(
    ls: &Vec<Vec<char>>,
    from: usize,
    prefix: &Vec<char>,
    no_section: IsingFileError,
    no_line: IsingFileError,
    blank: IsingFileError,
) -> (r: Result<(Vec<char>, usize), IsingFileError>)
    ensures
        match r {
            Ok((t, c)) => value_after(lines_view(ls@), from as nat, prefix@, no_section, no_line, blank)
                == Ok::<(Seq<char>, nat), IsingFileError>((t@, c as nat)),
            Err(e) => value_after(lines_view(ls@), from as nat, prefix@, no_section, no_line, blank)
                == Err::<(Seq<char>, nat), IsingFileError>(e),
        },
{
    match find_line_from(ls, from, prefix) {
        None => Err(no_section),
        Some(i) => {
            if ls.len() - i <= 1 {
                Err(no_line)
            } else {
                assert(lines_view(ls@)[i + 1] == ls@[i + 1]@);
                match first_token_of(&ls[i + 1]) {
                    None => Err(blank),
                    Some(t) => Ok((t, i + 2)),
                }
            }
        },
    }
}

/// The text of a seed: trimmed, without a `0x` or `0X` prefix.
fn seed_text_of(line: &Vec<char>) -> (r: Vec<char>)
    ensures
        r@ == seed_text(line@),
{
    let t = trim_chars(line);
    let lower = chars_of("0x");
    let upper = chars_of("0X");
    if starts_with(&t, &lower) || starts_with(&t, &upper) {
        proof {
            reveal_strlit("0x");
            reveal_strlit("0X");
        }
        let mut r: Vec<char> = Vec::new();
        let mut i: usize = 2;
        while i < t.len()
            invariant
                2 <= i <= t@.len(),
                r@ == t@.subrange(2, i as int),
            decreases t@.len() - i,
        {
            r.push(t[i]);
            i = i + 1;
            assert(r@ =~= t@.subrange(2, i as int));
        }
        assert(r@ =~= t@.skip(2));
        r
    } else {
        t
    }
}

/// The seed, read in hex from the line after `$rng_seed`.
fn read_seed(ls: &Vec<Vec<char>>, from: usize) -> (r: Result<(u64, usize), IsingFileError>)
    ensures
        match r {
            Ok((v, c)) => seed_step(lines_view(ls@), from as nat) == Ok::<(u64, nat), IsingFileError>(
                (v, c as nat),
            ),
            Err(e) => seed_step(lines_view(ls@), from as nat) == Err::<(u64, nat), IsingFileError>(e),
        },
{
    let prefix = chars_of("$rng_seed");
    match find_line_from(ls, from, &prefix) {
        None => Err(IsingFileError::NoSeed),
        Some(i) => {
            if ls.len() - i <= 1 {
                Err(IsingFileError::NoSeed)
            } else {
                assert(lines_view(ls@)[i + 1] == ls@[i + 1]@);
                let text = seed_text_of(&ls[i + 1]);
                match parse_unsigned(&text, 16, u64::MAX) {
                    None => Err(IsingFileError::BadSeed),
                    Some(v) => Ok((v, i + 2)),
                }
            }
        },
    }
}

/// A `usize` in decimal.
fn read_decimal(tok: &Vec<char>) -> (r: Option<usize>)
    ensures
        match r {
            Some(v) => decimal(tok@) == Some(v as nat),
            None => decimal(tok@) is None,
        },
{
    match parse_unsigned(tok, 10, usize::MAX as u64) {
        None => None,
        Some(v) => Some(v as usize),
    }
}

/// The side lengths on a `$dim_sizes` line.
fn read_sizes(toks: &Vec<Vec<char>>) -> (r: Result<Vec<usize>, IsingFileError>)
    ensures
        match r {
            Ok(sizes) => sizes_of(toks@.map_values(|t: Vec<char>| t@)) == Ok::<
                Seq<usize>,
                IsingFileError,
            >(sizes@),
            Err(e) => sizes_of(toks@.map_values(|t: Vec<char>| t@)) == Err::<
                Seq<usize>,
                IsingFileError,
            >(e),
        },
{
    let ghost tv = toks@.map_values(|t: Vec<char>| t@);
    if toks.len() == 0 {
        return Err(IsingFileError::BadDimension);
    }
    assert(tv[0] == toks@[0]@);
    let dim = match read_decimal(&toks[0]) {
        None => {
            return Err(IsingFileError::BadDimension);
        },
        Some(d) => d,
    };
    if dim == 0 {
        return Err(IsingFileError::ZeroDimension);
    }
    let mut sizes: Vec<usize> = Vec::new();
    let mut s: usize = 0;
    while s < dim
        invariant
            tv == toks@.map_values(|t: Vec<char>| t@),
            decimal(tv[0]) == Some(dim as nat),
            s <= dim,
            1 + s <= toks@.len(),
            sizes@.len() == s,
            forall|k: int| 0 <= k < s ==> (#[trigger] decimal(tv[1 + k])) is Some,
            forall|k: int| 0 <= k < s ==> sizes@[k] == decimal(#[trigger] tv[1 + k])->0,
        decreases dim - s,
    {
        if s + 1 >= toks.len() {
            return Err(IsingFileError::SizesMismatch);
        }
        assert(tv[1 + s] == toks@[1 + s]@);
        match read_decimal(&toks[s + 1]) {
            None => {
                return Err(IsingFileError::BadSize);
            },
            Some(v) => {
                sizes.push(v);
            },
        }
        s = s + 1;
    }
    assert(sizes@ =~= Seq::new(dim as nat, |k: int| decimal(tv[1 + k])->0 as usize));
    Ok(sizes)
}

/// The side lengths, read from the line after `$dim_sizes`.
fn read_sizes_after(ls: &Vec<Vec<char>>, from: usize) -> (r: Result<
    (Vec<usize>, usize),
    IsingFileError,
>)
    ensures
        match r {
            Ok((sizes, c)) => sizes_step(lines_view(ls@), from as nat) == Ok::<
                (Seq<usize>, nat),
                IsingFileError,
            >((sizes@, c as nat)),
            Err(e) => sizes_step(lines_view(ls@), from as nat) == Err::<
                (Seq<usize>, nat),
                IsingFileError,
            >(e),
        },
{
    let prefix = chars_of("$dim_sizes");
    match find_line_from(ls, from, &prefix) {
        None => Err(IsingFileError::NoDimSizes),
        Some(i) => {
            if ls.len() - i <= 1 {
                Err(IsingFileError::NoDimSizes)
            } else {
                assert(lines_view(ls@)[i + 1] == ls@[i + 1]@);
                let toks = split_whitespace(&ls[i + 1]);
                match read_sizes(&toks) {
                    Err(e) => Err(e),
                    Ok(sizes) => Ok((sizes, i + 2)),
                }
            }
        },
    }
}

/// Optional indices as optional naturals.
pub open spec fn opt_nats(v: Seq<Option<usize>>) -> Seq<Option<nat>> {
    v.map_values(
        |o: Option<usize>|
            match o {
                Some(x) => Some(x as nat),
                None => None,
            },
    )
}

/// The slot that reading slot `p` also fills: the opposite slot of the
/// neighbour at the other end.
pub open spec fn partner_slot(sizes: Seq<usize>, p: int) -> int {
    let deg = (2 * sizes.len()) as int;
    neighbour(sizes, (p / deg) as nat, p % deg) * deg + opposite_slot(p % deg)
}

/// The weight line of slot `s` as far as slots before `p` have been read.
pub open spec fn source_read_before(sizes: Seq<usize>, s: int, p: int) -> Option<nat> {
    match weight_source(sizes, s) {
        Some(w) => if w < p {
            Some(reads_before(sizes, w as nat))
        } else {
            None
        },
        None => None,
    }
}

/// Splitting a slot position into point and slot.
proof fn lemma_slot_parts(p: int, deg: int)
    requires
        deg > 0,
        p >= 0,
    ensures
        p == (p / deg) * deg + p % deg,
        p / deg >= 0,
        0 <= p % deg < deg,
{
    vstd::arithmetic::div_mod::lemma_fundamental_div_mod(p, deg);
    vstd::arithmetic::mul::lemma_mul_is_commutative(deg, p / deg);
    vstd::arithmetic::div_mod::lemma_div_pos_is_pos(p, deg);
    vstd::arithmetic::div_mod::lemma_mod_bound(p, deg);
}

/// Splitting a slot position into point and slot.
proof fn lemma_slot_split(p: int, deg: int, a: int, j: int)
    requires
        deg > 0,
        0 <= j < deg,
        a >= 0,
        p == a * deg + j,
    ensures
        p / deg == a,
        p % deg == j,
{
    vstd::arithmetic::div_mod::lemma_fundamental_div_mod_converse(p, deg, a, j);
}

/// A slot position of a point of the grid is below the number of slots.
proof fn lemma_slot_bound(a: int, j: int, n: int, deg: int)
    requires
        0 <= a < n,
        0 <= j < deg,
    ensures
        0 <= a * deg + j < n * deg,
{
    assert(a * deg + j < n * deg) by (nonlinear_arith)
        requires
            0 <= a < n,
            0 <= j < deg,
    ;
    assert(a * deg >= 0) by (nonlinear_arith)
        requires
            0 <= a,
            0 <= j < deg,
    ;
}

/// The opposite slot is a slot of the same point.
proof fn lemma_opposite_slot(j: int, deg: int)
    requires
        0 <= j < deg,
        deg % 2 == 0,
    ensures
        0 <= opposite_slot(j) < deg,
        opposite_slot(opposite_slot(j)) == j,
        opposite_slot(j) / 2 == j / 2,
{
}

/// A slot that is read is the source of its own weight and of its partner's.
proof fn lemma_read_sources(sizes: Seq<usize>, p: int)
    requires
        sides_positive(sizes),
        0 <= p < product(sizes) * (2 * sizes.len()),
        is_read(sizes, p),
    ensures
        weight_source(sizes, p) == Some(p),
        weight_source(sizes, partner_slot(sizes, p)) == Some(p),
        0 <= partner_slot(sizes, p) < product(sizes) * (2 * sizes.len()),
        partner_slot(sizes, p) != p,
{
    let deg = (2 * sizes.len()) as int;
    let n = product(sizes) as int;
    assert(deg > 0) by (nonlinear_arith)
        requires
            0 <= p < n * deg,
            n >= 0,
    ;
    let a = p / deg;
    let j = p % deg;
    assert(0 <= a < n) by (nonlinear_arith)
        requires
            0 <= p < n * deg,
            deg > 0,
            a == p / deg,
    ;
    lemma_slot_parts(p, deg);
    let b = neighbour(sizes, a as nat, j);
    crate::lattice::lemma_neighbour_in_grid(sizes, a as nat, j);
    crate::lattice::lemma_neighbour_symmetric(sizes, a as nat, j);
    lemma_opposite_slot(j, deg);
    let q = partner_slot(sizes, p);
    assert(q == b * deg + opposite_slot(j));
    lemma_slot_bound(b as int, opposite_slot(j), n, deg);
    lemma_slot_split(q, deg, b as int, opposite_slot(j));
    lemma_slot_split(p, deg, a, j);
    assert(neighbour(sizes, b, opposite_slot(j)) == a);
}

/// The source of a weight, where there is one, is a slot that is read, and
/// only it and its partner draw their weight from it.
proof fn lemma_source_unique(sizes: Seq<usize>, s: int, w: int)
    requires
        sides_positive(sizes),
        0 <= s < product(sizes) * (2 * sizes.len()),
        weight_source(sizes, s) == Some(w),
    ensures
        0 <= w < product(sizes) * (2 * sizes.len()),
        is_read(sizes, w),
        s == w || s == partner_slot(sizes, w),
{
    let deg = (2 * sizes.len()) as int;
    let n = product(sizes) as int;
    assert(deg > 0) by (nonlinear_arith)
        requires
            0 <= s < n * deg,
            n >= 0,
    ;
    let a = s / deg;
    let j = s % deg;
    assert(0 <= a < n) by (nonlinear_arith)
        requires
            0 <= s < n * deg,
            deg > 0,
            a == s / deg,
    ;
    lemma_slot_parts(s, deg);
    let b = neighbour(sizes, a as nat, j);
    crate::lattice::lemma_neighbour_in_grid(sizes, a as nat, j);
    crate::lattice::lemma_neighbour_symmetric(sizes, a as nat, j);
    lemma_opposite_slot(j, deg);
    if b > a {
        assert(w == s);
    } else {
        assert(b < a);
        assert(w == b * deg + opposite_slot(j));
        lemma_slot_bound(b as int, opposite_slot(j), n, deg);
        lemma_slot_split(w, deg, b as int, opposite_slot(j));
        assert(neighbour(sizes, b, opposite_slot(j)) == a);
        assert(is_read(sizes, w));
        assert(partner_slot(sizes, w) == a * deg + j);
        lemma_slot_split(s, deg, a, j);
    }
}

/// The partner of a read slot's partner is the slot itself.
proof fn lemma_partner_twice(sizes: Seq<usize>, w: int)
    requires
        sides_positive(sizes),
        0 <= w < product(sizes) * (2 * sizes.len()),
        is_read(sizes, w),
    ensures
        partner_slot(sizes, partner_slot(sizes, w)) == w,
{
    let deg = (2 * sizes.len()) as int;
    let n = product(sizes) as int;
    lemma_read_sources(sizes, w);
    assert(deg > 0) by (nonlinear_arith)
        requires
            0 <= w < n * deg,
            n >= 0,
    ;
    lemma_slot_parts(w, deg);
    let a = w / deg;
    let j = w % deg;
    assert(0 <= a < n) by (nonlinear_arith)
        requires
            0 <= w < n * deg,
            deg > 0,
            a == w / deg,
    ;
    let b = neighbour(sizes, a as nat, j);
    crate::lattice::lemma_neighbour_in_grid(sizes, a as nat, j);
    crate::lattice::lemma_neighbour_symmetric(sizes, a as nat, j);
    lemma_opposite_slot(j, deg);
    let q = partner_slot(sizes, w);
    lemma_slot_split(q, deg, b as int, opposite_slot(j));
}

/// Weights are symmetric: an edge slot that gets its weight from a weight
/// line shares that line with its partner, the opposite slot of the
/// neighbour at the other end.
pub proof fn lemma_weight_slots_symmetric(
    ls: Seq<Seq<char>>,
    from: nat,
    sizes: Seq<usize>,
    s: int,
)
    requires
        sides_positive(sizes),
        weights_step(ls, from, sizes) is Ok,
        0 <= s < product(sizes) * (2 * sizes.len()),
        weights_step(ls, from, sizes)->Ok_0.1[s] is Some,
    ensures
        0 <= partner_slot(sizes, s) < product(sizes) * (2 * sizes.len()),
        weights_step(ls, from, sizes)->Ok_0.1[partner_slot(sizes, s)]
            == weights_step(ls, from, sizes)->Ok_0.1[s],
{
    let w = weight_source(sizes, s)->0;
    lemma_source_unique(sizes, s, w);
    lemma_read_sources(sizes, w);
    if s != w {
        lemma_partner_twice(sizes, w);
    }
}

/// The slots below `p` that are read.
pub open spec fn read_set(sizes: Seq<usize>, p: int) -> Set<int> {
    Set::new(|s: int| 0 <= s < p && is_read(sizes, s))
}

/// The slots below `p` that are read are as many as the reads before `p`.
proof fn lemma_read_set_len(sizes: Seq<usize>, p: nat)
    ensures
        read_set(sizes, p as int).finite(),
        read_set(sizes, p as int).len() == reads_before(sizes, p),
    decreases p,
{
    if p == 0 {
        assert(read_set(sizes, 0) =~= Set::<int>::empty());
    } else {
        let q = (p - 1) as nat;
        lemma_read_set_len(sizes, q);
        if is_read(sizes, q as int) {
            assert(read_set(sizes, p as int) =~= read_set(sizes, q as int).insert(q as int));
        } else {
            assert(read_set(sizes, p as int) =~= read_set(sizes, q as int));
        }
    }
}

/// At most half of all edge slots are read: every read slot has a partner
/// that is not read, and no two read slots share a partner. So a grid is
/// read from at most one weight line per point and axis.
pub proof fn lemma_reads_at_most_half(sizes: Seq<usize>)
    ensures
        2 * reads_before(sizes, product(sizes) * (2 * sizes.len())) <= product(sizes) * (2
            * sizes.len()),
{
    let total = product(sizes) * (2 * sizes.len());
    lemma_read_set_len(sizes, total);
    if total > 0 {
        if product(sizes) == 0 {
            assert(total == 0);
        }
        crate::lattice::lemma_product_positive_sides(sizes);
        let reads = read_set(sizes, total as int);
        let f = |w: int| partner_slot(sizes, w);
        let partners = reads.map(f);
        assert(vstd::relations::injective_on(f, reads)) by {
            assert forall|x1: int, x2: int|
                reads.contains(x1) && reads.contains(x2) && #[trigger] f(x1) == #[trigger] f(x2)
                    implies x1 == x2 by {
                lemma_partner_twice(sizes, x1);
                lemma_partner_twice(sizes, x2);
            }
        }
        vstd::set_lib::lemma_map_size(reads, partners, f);
        let all = vstd::set_lib::set_int_range(0, total as int);
        vstd::set_lib::lemma_int_range(0, total as int);
        assert(reads.disjoint(partners)) by {
            assert forall|t: int| reads.contains(t) implies !partners.contains(t) by {
                if partners.contains(t) {
                    let w = choose|w: int| reads.contains(w) && f(w) == t;
                    lemma_read_sources(sizes, w);
                    lemma_read_sources(sizes, t);
                }
            }
        }
        assert((reads + partners).subset_of(all)) by {
            assert forall|t: int| (reads + partners).contains(t) implies all.contains(t) by {
                if partners.contains(t) {
                    let w = choose|w: int| reads.contains(w) && f(w) == t;
                    lemma_read_sources(sizes, w);
                }
            }
        }
        vstd::set_lib::lemma_set_disjoint_lens(reads, partners);
        vstd::set_lib::lemma_len_subset(reads + partners, all);
    }
}

/// More slots never mean fewer reads.
proof fn lemma_reads_before_monotone(sizes: Seq<usize>, p: nat, q: nat)
    requires
        p <= q,
    ensures
        reads_before(sizes, p) <= reads_before(sizes, q),
    decreases q - p,
{
    if p < q {
        lemma_reads_before_monotone(sizes, p, (q - 1) as nat);
    }
}

/// The weight lines after `$edge_weights_start`: for each point and each of
/// its slots whose neighbour has a larger number, one line, whose first token
/// is the weight of that slot and of the neighbour's opposite slot.
fn read_weights(ls: &Vec<Vec<char>>, from: usize, model: &IsingDisjoint) -> (r: Result<
    (Vec<Vec<char>>, Vec<Option<usize>>, usize),
    IsingFileError,
>)
    requires
        model.n_points == product(model.sizes@),
        model.deg == 2 * model.sizes@.len(),
        grid_fits(model.sizes@),
    ensures
        match r {
            Ok((toks, slots, c)) => weights_step(lines_view(ls@), from as nat, model.sizes@) == Ok::<
                (Seq<Seq<char>>, Seq<Option<nat>>, nat),
                IsingFileError,
            >((toks@.map_values(|t: Vec<char>| t@), opt_nats(slots@), c as nat)),
            Err(e) => weights_step(lines_view(ls@), from as nat, model.sizes@) == Err::<
                (Seq<Seq<char>>, Seq<Option<nat>>, nat),
                IsingFileError,
            >(e),
        },
{
    let ghost lv = lines_view(ls@);
    let ghost sizes = model.sizes@;
    let prefix = chars_of("$edge_weights_start");
    let e = match find_line_from(ls, from, &prefix) {
        None => {
            return Err(IsingFileError::NoEdgeWeights);
        },
        Some(e) => e,
    };
    let deg = model.deg;
    let n = model.n_points;
    let ghost total = (n * deg) as nat;
    let ghost n_reads = reads_before(sizes, total);
    assert(n * deg <= usize::MAX);
    proof {
        if n > 0 {
            crate::lattice::lemma_product_positive_sides(sizes);
        }
        if n == 0 {
            assert(n * deg == 0) by (nonlinear_arith)
                requires
                    n == 0,
            ;
        }
    }
    let n_slots = n * deg;
    let mut slots: Vec<Option<usize>> = Vec::new();
    let mut k: usize = 0;
    while k < n_slots
        invariant
            k <= n_slots,
            slots@.len() == k,
            forall|t: int| 0 <= t < k ==> #[trigger] slots@[t] is None,
        decreases n_slots - k,
    {
        slots.push(None);
        k = k + 1;
    }
    let mut toks: Vec<Vec<char>> = Vec::new();
    let ls_len = ls.len();
    assert(e < ls_len);
    let mut cursor: usize = e + 1;
    let mut node: usize = 0;
    let ghost mut p: int = 0;
    assert forall|s: int| 0 <= s < total implies #[trigger] opt_nats(slots@)[s]
        == source_read_before(sizes, s, 0) by {
        if let Some(w) = weight_source(sizes, s) {
            lemma_source_unique(sizes, s, w);
        }
    }
    while node < n
        invariant
            lv == lines_view(ls@),
            sizes == model.sizes@,
            model.n_points == product(sizes),
            n > 0 ==> sides_positive(sizes),
            n == 0 ==> total == 0,
            model.deg == 2 * sizes.len(),
            grid_fits(sizes),
            deg == model.deg,
            n == model.n_points,
            n_slots == n * deg,
            total == n_slots,
            n_reads == reads_before(sizes, total),
            find_line(lv, from as nat, "$edge_weights_start"@) == Some(e as nat),
            node <= n,
            p == node * deg,
            slots@.len() == total,
            toks@.len() == reads_before(sizes, p as nat),
            cursor == e + 1 + toks@.len(),
            cursor <= ls@.len(),
            forall|r: int|
                0 <= r < toks@.len() ==> first_token(#[trigger] lv[e + 1 + r]) == Some(
                    toks@[r]@,
                ),
            forall|s: int|
                0 <= s < total ==> #[trigger] opt_nats(slots@)[s] == source_read_before(
                    sizes,
                    s,
                    p,
                ),
        decreases n - node,
    {
        let neighbours = model.neighbours_disjoint(node);
        let mut i: usize = 0;
        while i < deg
            invariant
                lv == lines_view(ls@),
                sizes == model.sizes@,
                model.n_points == product(sizes),
                sides_positive(sizes),
                model.deg == 2 * sizes.len(),
                grid_fits(sizes),
                deg == model.deg,
                n == model.n_points,
                n_slots == n * deg,
                total == n_slots,
                n_reads == reads_before(sizes, total),
                find_line(lv, from as nat, "$edge_weights_start"@) == Some(e as nat),
                node < n,
                i <= deg,
                p == node * deg + i,
                neighbours@.len() == deg,
                forall|t: int|
                    0 <= t < neighbours@.len() ==> neighbours@[t] == neighbour(
                        sizes,
                        node as nat,
                        t,
                    ),
                slots@.len() == total,
                toks@.len() == reads_before(sizes, p as nat),
                cursor == e + 1 + toks@.len(),
                cursor <= ls@.len(),
                forall|r: int|
                    0 <= r < toks@.len() ==> first_token(#[trigger] lv[e + 1 + r]) == Some(
                        toks@[r]@,
                    ),
                forall|s: int|
                    0 <= s < total ==> #[trigger] opt_nats(slots@)[s] == source_read_before(
                        sizes,
                        s,
                        p,
                    ),
            decreases deg - i,
        {
            proof {
                lemma_slot_bound(node as int, i as int, n as int, deg as int);
                lemma_slot_split(p, deg as int, node as int, i as int);
                lemma_reads_before_monotone(sizes, (p + 1) as nat, total);
            }
            let nb = neighbours[i];
            if nb > node {
                assert(is_read(sizes, p));
                if cursor >= ls.len() {
                    proof {
                        assert(!exists|r: int|
                            0 <= r < n_reads && e + 1 + r < lv.len() && (#[trigger] first_token(
                                lv[e + 1 + r],
                            )) is None);
                    }
                    return Err(IsingFileError::MissingWeight);
                }
                assert(lv[cursor as int] == ls@[cursor as int]@);
                let tok = match first_token_of(&ls[cursor]) {
                    None => {
                        proof {
                            let r = toks@.len() as int;
                            assert(lv[e + 1 + r] == lv[cursor as int]);
                        }
                        return Err(IsingFileError::BlankWeight);
                    },
                    Some(t) => t,
                };
                let read_index = toks.len();
                let opp = if i % 2 == 0 {
                    i + 1
                } else {
                    i - 1
                };
                proof {
                    lemma_read_sources(sizes, p);
                    lemma_opposite_slot(i as int, deg as int);
                    assert(opp == opposite_slot(i as int));
                    crate::lattice::lemma_neighbour_in_grid(sizes, node as nat, i as int);
                    lemma_slot_bound(nb as int, opp as int, n as int, deg as int);
                    assert(partner_slot(sizes, p) == nb * deg + opp);
                }
                let own = node * deg + i;
                let other = nb * deg + opp;
                let ghost old_slots = slots@;
                slots.set(own, Some(read_index));
                slots.set(other, Some(read_index));
                toks.push(tok);
                cursor = cursor + 1;
                proof {
                    assert(own == p);
                    assert(other == partner_slot(sizes, p));
                    assert forall|s: int| 0 <= s < total implies #[trigger] opt_nats(slots@)[s]
                        == source_read_before(sizes, s, p + 1) by {
                        if s == own {
                            assert(opt_nats(slots@)[s] == Some(read_index as nat));
                        } else if s == other {
                            assert(opt_nats(slots@)[s] == Some(read_index as nat));
                        } else {
                            assert(slots@[s] == old_slots[s]);
                            assert(opt_nats(old_slots)[s] == source_read_before(sizes, s, p));
                            if let Some(w) = weight_source(sizes, s) {
                                lemma_source_unique(sizes, s, w);
                            }
                        }
                    }
                    assert forall|r: int| 0 <= r < toks@.len() implies first_token(
                        #[trigger] lv[e + 1 + r],
                    ) == Some(toks@[r]@) by {
                        if r == read_index {
                            assert(e + 1 + r == cursor - 1);
                        }
                    }
                }
            } else {
                proof {
                    assert(!is_read(sizes, p));
                    assert forall|s: int| 0 <= s < total implies #[trigger] opt_nats(slots@)[s]
                        == source_read_before(sizes, s, p + 1) by {
                        if let Some(w) = weight_source(sizes, s) {
                            lemma_source_unique(sizes, s, w);
                        }
                    }
                }
            }
            i = i + 1;
            proof {
                p = p + 1;
            }
        }
        assert(p == (node + 1) * deg) by (nonlinear_arith)
            requires
                p == node * deg + deg,
        ;
        node = node + 1;
    }
    proof {
        assert(p == total);
        assert(!exists|r: int|
            0 <= r < n_reads && e + 1 + r < lv.len() && (#[trigger] first_token(lv[e + 1 + r]))
                is None);
        assert(toks@.map_values(|t: Vec<char>| t@) =~= Seq::new(
            n_reads,
            |r: int| first_token(lv[e + 1 + r])->0,
        ));
        assert(opt_nats(slots@) =~= Seq::new(
            total,
            |s: int|
                match weight_source(sizes, s) {
                    Some(w) => Some(reads_before(sizes, w as nat)),
                    None => None,
                },
        )) by {
            assert forall|s: int| 0 <= s < total implies #[trigger] opt_nats(slots@)[s] == match weight_source(
                sizes,
                s,
            ) {
                Some(w) => Some(reads_before(sizes, w as nat)),
                None => None,
            } by {
                if let Some(w) = weight_source(sizes, s) {
                    lemma_source_unique(sizes, s, w);
                }
            }
        }
    }
    Ok((toks, slots, cursor))
}

/// The magnetic field entries: the first tokens of the `n` lines after
/// `$external_magnetic_field`.
fn read_field(ls: &Vec<Vec<char>>, from: usize, n: usize) -> (r: Result<
    (Vec<Vec<char>>, usize),
    IsingFileError,
>)
    ensures
        match r {
            Ok((toks, c)) => field_step(lines_view(ls@), from as nat, n as nat) == Ok::<
                (Seq<Seq<char>>, nat),
                IsingFileError,
            >((toks@.map_values(|t: Vec<char>| t@), c as nat)),
            Err(e) => field_step(lines_view(ls@), from as nat, n as nat) == Err::<
                (Seq<Seq<char>>, nat),
                IsingFileError,
            >(e),
        },
{
    let ghost lv = lines_view(ls@);
    let prefix = chars_of("$external_magnetic_field");
    let f = match find_line_from(ls, from, &prefix) {
        None => {
            return Err(IsingFileError::NoField);
        },
        Some(f) => f,
    };
    let ls_len = ls.len();
    let mut toks: Vec<Vec<char>> = Vec::new();
    let mut cursor = f + 1;
    let mut k: usize = 0;
    while k < n
        invariant
            lv == lines_view(ls@),
            ls_len == ls@.len(),
            find_line(lv, from as nat, "$external_magnetic_field"@) == Some(f as nat),
            k <= n,
            toks@.len() == k,
            cursor == f + 1 + k,
            cursor <= ls_len,
            forall|r: int|
                0 <= r < k ==> first_token(#[trigger] lv[f + 1 + r]) == Some(toks@[r]@),
        decreases n - k,
    {
        if cursor >= ls_len {
            proof {
                assert(!exists|r: int|
                    0 <= r < n && f + 1 + r < lv.len() && (#[trigger] first_token(lv[f + 1 + r]))
                        is None);
            }
            return Err(IsingFileError::MissingField);
        }
        assert(lv[cursor as int] == ls@[cursor as int]@);
        match first_token_of(&ls[cursor]) {
            None => {
                assert(lv[f + 1 + k] == lv[cursor as int]);
                return Err(IsingFileError::BlankField);
            },
            Some(t) => {
                toks.push(t);
            },
        }
        cursor = cursor + 1;
        k = k + 1;
    }
    proof {
        assert(!exists|r: int|
            0 <= r < n && f + 1 + r < lv.len() && (#[trigger] first_token(lv[f + 1 + r])) is None);
        assert(toks@.map_values(|t: Vec<char>| t@) =~= Seq::new(
            n as nat,
            |r: int| first_token(lv[f + 1 + r])->0,
        ));
    }
    Ok((toks, cursor))
}

/// A starting configuration as read from a file: its configuration and the
/// token of its weight.
pub struct StartingConfigText {
    /// The configuration.
    pub config: Spins,
    /// The token that holds its weight.
    pub weight: Vec<char>,
}

/// Starting configurations as sequences.
pub open spec fn starting_view(v: Seq<StartingConfigText>) -> Seq<(Seq<bool>, Seq<char>)> {
    v.map_values(|c: StartingConfigText| (c.config@, c.weight@))
}

/// One starting configuration line.
fn read_starting_line(line: &Vec<char>, n: usize) -> (r: Result<StartingConfigText, IsingFileError>)
    requires
        n + 2 * usize::BITS <= max_bits(),
    ensures
        match r {
            Ok(c) => starting_line(line@, n as nat) == Ok::<(Seq<bool>, Seq<char>), IsingFileError>(
                (c.config@, c.weight@),
            ),
            Err(e) => starting_line(line@, n as nat) == Err::<
                (Seq<bool>, Seq<char>),
                IsingFileError,
            >(e),
        },
{
    let toks = split_whitespace(line);
    let ghost tv = toks@.map_values(|t: Vec<char>| t@);
    match config_from_hex_tokens(&toks, n) {
        Err(HexConfigError::MissingEntry) => Err(IsingFileError::StartingConfigMissingEntry),
        Err(HexConfigError::NotHex) => Err(IsingFileError::StartingConfigNotHex),
        Ok(config) => {
            let h = n / 8 + if n % 8 != 0 {
                1
            } else {
                0
            };
            assert(h == hex_len(n as nat));
            if toks.len() <= h {
                Err(IsingFileError::MissingProbability)
            } else {
                assert(tv[h as int] == toks@[h as int]@);
                Ok(StartingConfigText { config, weight: toks[h].clone() })
            }
        },
    }
}

/// The starting configurations: none without a `$starting_configs` line;
/// otherwise one per line after it, up to the first blank line or the end.
fn read_starting(ls: &Vec<Vec<char>>, from: usize, n: usize) -> (r: Result<
    Option<Vec<StartingConfigText>>,
    IsingFileError,
>)
    requires
        n + 2 * usize::BITS <= max_bits(),
    ensures
        match r {
            Ok(None) => starting_step(lines_view(ls@), from as nat, n as nat) == Ok::<
                Option<Seq<(Seq<bool>, Seq<char>)>>,
                IsingFileError,
            >(None),
            Ok(Some(v)) => starting_step(lines_view(ls@), from as nat, n as nat) == Ok::<
                Option<Seq<(Seq<bool>, Seq<char>)>>,
                IsingFileError,
            >(Some(starting_view(v@))),
            Err(e) => starting_step(lines_view(ls@), from as nat, n as nat) == Err::<
                Option<Seq<(Seq<bool>, Seq<char>)>>,
                IsingFileError,
            >(e),
        },
{
    let ghost lv = lines_view(ls@);
    let prefix = chars_of("$starting_configs");
    let s = match find_line_from(ls, from, &prefix) {
        None => {
            return Ok(None);
        },
        Some(s) => s,
    };
    let ls_len = ls.len();
    let mut configs: Vec<StartingConfigText> = Vec::new();
    let mut i = s + 1;
    while i < ls_len
        invariant
            lv == lines_view(ls@),
            ls_len == ls@.len(),
            n + 2 * usize::BITS <= max_bits(),
            find_line(lv, from as nat, "$starting_configs"@) == Some(s as nat),
            s + 1 <= i <= ls_len,
            starting_lines(lv, (s + 1) as nat, n as nat) == match starting_lines(
                lv,
                i as nat,
                n as nat,
            ) {
                Ok(rest) => Ok(starting_view(configs@) + rest),
                Err(e) => Err(e),
            },
        ensures
            lv == lines_view(ls@),
            find_line(lv, from as nat, "$starting_configs"@) == Some(s as nat),
            starting_lines(lv, (s + 1) as nat, n as nat) == Ok::<
                Seq<(Seq<bool>, Seq<char>)>,
                IsingFileError,
            >(starting_view(configs@)),
        decreases ls_len - i,
    {
        assert(lv[i as int] == ls@[i as int]@);
        if line_is_blank(&ls[i]) {
            assert(starting_view(configs@) + Seq::<(Seq<bool>, Seq<char>)>::empty()
                =~= starting_view(configs@));
            break;
        }
        match read_starting_line(&ls[i], n) {
            Err(e) => {
                return Err(e);
            },
            Ok(c) => {
                proof {
                    assert(starting_view(configs@.push(c)) =~= starting_view(configs@).push(
                        (c.config@, c.weight@),
                    ));
                    match starting_lines(lv, (i + 1) as nat, n as nat) {
                        Ok(rest) => {
                            assert(starting_view(configs@) + (seq![(c.config@, c.weight@)] + rest)
                                =~= starting_view(configs@.push(c)) + rest);
                        },
                        Err(e) => {},
                    }
                }
                configs.push(c);
            },
        }
        i = i + 1;
        proof {
            if i == ls_len {
                assert(starting_view(configs@) + Seq::<(Seq<bool>, Seq<char>)>::empty()
                    =~= starting_view(configs@));
            }
        }
    }
    Ok(Some(configs))
}

/// What the `$ground_state_approx` section of a file holds.
pub enum GroundState {
    /// There is no such section.
    Absent,
    /// The section has no line after it, or an empty one.
    Empty,
    /// The configuration it gives.
    Config(Spins),
}

/// The ground state as a specification value.
pub open spec fn ground_view(g: GroundState) -> GroundStateSpec {
    match g {
        GroundState::Absent => GroundStateSpec::Absent,
        GroundState::Empty => GroundStateSpec::Empty,
        GroundState::Config(c) => GroundStateSpec::Config(c@),
    }
}

/// The ground state of a model of `n` points: the configuration on the line
/// after the first `$ground_state_approx` line.
pub fn read_ground_state(ls: &Vec<Vec<char>>, n: usize) -> (r: Result<GroundState, IsingFileError>)
    requires
        n + 2 * usize::BITS <= max_bits(),
    ensures
        match r {
            Ok(g) => ground_state_step(lines_view(ls@), n as nat) == Ok::<
                GroundStateSpec,
                IsingFileError,
            >(ground_view(g)),
            Err(e) => ground_state_step(lines_view(ls@), n as nat) == Err::<
                GroundStateSpec,
                IsingFileError,
            >(e),
        },
{
    let prefix = chars_of("$ground_state_approx");
    match find_line_from(ls, 0, &prefix) {
        None => Ok(GroundState::Absent),
        Some(g) => {
            if ls.len() - g <= 1 {
                return Ok(GroundState::Empty);
            }
            assert(lines_view(ls@)[g + 1] == ls@[g + 1]@);
            if ls[g + 1].len() == 0 {
                return Ok(GroundState::Empty);
            }
            let toks = split_whitespace(&ls[g + 1]);
            match config_from_hex_tokens(&toks, n) {
                Err(HexConfigError::MissingEntry) => Err(IsingFileError::GroundStateMissingEntry),
                Err(HexConfigError::NotHex) => Err(IsingFileError::GroundStateNotHex),
                Ok(c) => Ok(GroundState::Config(c)),
            }
        },
    }
}

/// Everything a model file holds, real numbers as the text of their tokens.
pub struct IsingFileSpec {
    /// The temperature token.
    pub temp: Seq<char>,
    /// The generator's seed.
    pub seed: u64,
    /// The side lengths.
    pub sizes: Seq<usize>,
    /// The weight tokens, in file order.
    pub weight_tokens: Seq<Seq<char>>,
    /// For every edge slot, the weight token that gives its weight.
    pub weight_slots: Seq<Option<nat>>,
    /// The magnetic moment token.
    pub mu: Seq<char>,
    /// The magnetic field tokens.
    pub field: Seq<Seq<char>>,
    /// The starting configurations and their weight tokens.
    pub starting: Option<Seq<(Seq<bool>, Seq<char>)>>,
    /// The ground state section.
    pub ground: GroundStateSpec,
}

/// What a model file holds, or the first thing wrong with it, in the order
/// in which the file is read.
pub open spec fn ising_file_spec(ls: Seq<Seq<char>>) -> Result<IsingFileSpec, IsingFileError> {
    match temp_step(ls) {
        Err(e) => Err(e),
        Ok((temp, c1)) => match seed_step(ls, c1) {
            Err(e) => Err(e),
            Ok((seed, c2)) => match sizes_step(ls, c2) {
                Err(e) => Err(e),
                Ok((sizes, c3)) => if !grid_fits(sizes) {
                    Err(IsingFileError::GridTooLarge)
                } else {
                    match weights_step(ls, c3, sizes) {
                        Err(e) => Err(e),
                        Ok((weight_tokens, weight_slots, c4)) => match value_after(
                            ls,
                            c4,
                            "$mu"@,
                            IsingFileError::NoMu,
                            IsingFileError::NoMu,
                            IsingFileError::BlankMu,
                        ) {
                            Err(e) => Err(e),
                            Ok((mu, c5)) => match field_step(ls, c5, product(sizes)) {
                                Err(e) => Err(e),
                                Ok((field, c6)) => match starting_step(ls, c6, product(sizes)) {
                                    Err(e) => Err(e),
                                    Ok(starting) => match ground_state_step(ls, product(sizes)) {
                                        Err(e) => Err(e),
                                        Ok(ground) => Ok(
                                            IsingFileSpec {
                                                temp,
                                                seed,
                                                sizes,
                                                weight_tokens,
                                                weight_slots,
                                                mu,
                                                field,
                                                starting,
                                                ground,
                                            },
                                        ),
                                    },
                                },
                            },
                        },
                    }
                },
            },
        },
    }
}

/// What a model file holds, real numbers as the text of their tokens.
pub struct IsingFile {
    /// The temperature token.
    pub temp_token: Vec<char>,
    /// The generator's seed.
    pub seed: u64,
    /// The side lengths (as many as the dimension).
    pub sizes: Vec<usize>,
    /// The weight tokens, in file order.
    pub weight_tokens: Vec<Vec<char>>,
    /// For every edge slot (point times degree plus slot), the number of the
    /// weight token that gives its weight; none for weight zero.
    pub weight_slots: Vec<Option<usize>>,
    /// The magnetic moment token.
    pub mu_token: Vec<char>,
    /// The magnetic field tokens, one per point.
    pub field_tokens: Vec<Vec<char>>,
    /// The starting configurations, if the file has that section.
    pub starting_configs: Option<Vec<StartingConfigText>>,
    /// The ground state section.
    pub ground_state: GroundState,
}

/// A read file holds what the specification says.
pub open spec fn file_matches(f: IsingFile, s: IsingFileSpec) -> bool {
    &&& f.temp_token@ == s.temp
    &&& f.seed == s.seed
    &&& f.sizes@ == s.sizes
    &&& f.weight_tokens@.map_values(|t: Vec<char>| t@) == s.weight_tokens
    &&& opt_nats(f.weight_slots@) == s.weight_slots
    &&& f.mu_token@ == s.mu
    &&& f.field_tokens@.map_values(|t: Vec<char>| t@) == s.field
    &&& match f.starting_configs {
        None => s.starting is None,
        Some(v) => s.starting == Some(starting_view(v@)),
    }
    &&& ground_view(f.ground_state) == s.ground
}

/// Whether a grid fits the machine.
fn check_grid(sizes: &Vec<usize>) -> (b: bool)
    ensures
        b == grid_fits(sizes@),
{
    let mut acc: usize = 1;
    let mut i: usize = 0;
    assert(sizes@.take(0) =~= Seq::<usize>::empty());
    while i < sizes.len()
        invariant
            i <= sizes@.len(),
            acc == product(sizes@.take(i as int)),
            forall|k: int| 0 <= k <= i ==> #[trigger] product(sizes@.take(k)) <= usize::MAX,
        decreases sizes@.len() - i,
    {
        proof {
            crate::lattice::lemma_product_take(sizes@, i as int);
        }
        match acc.checked_mul(sizes[i]) {
            None => {
                assert(!(product(sizes@.take(i + 1)) <= usize::MAX));
                return false;
            },
            Some(v) => {
                acc = v;
            },
        }
        i = i + 1;
    }
    assert(sizes@.take(sizes@.len() as int) =~= sizes@);
    assert(product_fits(sizes@));
    let dim = sizes.len();
    if dim > usize::MAX / 2 {
        return false;
    }
    match acc.checked_mul(2 * dim) {
        None => false,
        Some(_) => {
            let max = usize::MAX >> 3u32;
            let bits = usize::BITS as usize;
            acc <= max && max - acc >= 2 * bits
        },
    }
}

/// Reads a model file, given as its lines: what it holds, or the first thing
/// wrong with it.
pub fn read_ising_lines(ls: &Vec<Vec<char>>) -> (r: Result<IsingFile, IsingFileError>)
    ensures
        match r {
            Ok(f) => ising_file_spec(lines_view(ls@)) matches Ok(s) && file_matches(f, s),
            Err(e) => ising_file_spec(lines_view(ls@)) == Err::<IsingFileSpec, IsingFileError>(e),
        },
{
    let temp_prefix = chars_of("$temp");
    let (temp_token, c1) = match read_value_after(
        ls,
        0,
        &temp_prefix,
        IsingFileError::NoTemperature,
        IsingFileError::NoTemperatureLine,
        IsingFileError::BlankTemperature,
    ) {
        Err(e) => {
            return Err(e);
        },
        Ok(v) => v,
    };
    let (seed, c2) = match read_seed(ls, c1) {
        Err(e) => {
            return Err(e);
        },
        Ok(v) => v,
    };
    let (sizes, c3) = match read_sizes_after(ls, c2) {
        Err(e) => {
            return Err(e);
        },
        Ok(v) => v,
    };
    if !check_grid(&sizes) {
        return Err(IsingFileError::GridTooLarge);
    }
    let dim = sizes.len();
    let model = IsingDisjoint::new(dim, sizes.clone(), seed);
    let (weight_tokens, weight_slots, c4) = match read_weights(ls, c3, &model) {
        Err(e) => {
            return Err(e);
        },
        Ok(v) => v,
    };
    let mu_prefix = chars_of("$mu");
    let (mu_token, c5) = match read_value_after(
        ls,
        c4,
        &mu_prefix,
        IsingFileError::NoMu,
        IsingFileError::NoMu,
        IsingFileError::BlankMu,
    ) {
        Err(e) => {
            return Err(e);
        },
        Ok(v) => v,
    };
    let n = model.n_points;
    let (field_tokens, c6) = match read_field(ls, c5, n) {
        Err(e) => {
            return Err(e);
        },
        Ok(v) => v,
    };
    let starting_configs = match read_starting(ls, c6, n) {
        Err(e) => {
            return Err(e);
        },
        Ok(v) => v,
    };
    let ground_state = match read_ground_state(ls, n) {
        Err(e) => {
            return Err(e);
        },
        Ok(v) => v,
    };
    Ok(
        IsingFile {
            temp_token,
            seed,
            sizes,
            weight_tokens,
            weight_slots,
            mu_token,
            field_tokens,
            starting_configs,
            ground_state,
        },
    )
}

/// The lines of a text, each as its characters.
pub fn lines_as_chars(lines: &Vec<String>) -> (r: Vec<Vec<char>>)
    ensures
        lines_view(r@) == lines@.map_values(|l: String| l@),
{
    let mut r: Vec<Vec<char>> = Vec::new();
    let mut i: usize = 0;
    while i < lines.len()
        invariant
            i <= lines@.len(),
            lines_view(r@) == lines@.take(i as int).map_values(|l: String| l@),
        decreases lines@.len() - i,
    {
        let line = chars_of(lines[i].as_str());
        let ghost before = r@;
        r.push(line);
        proof {
            assert(lines_view(r@) =~= lines_view(before).push(line@));
            assert(lines@.take(i + 1).map_values(|l: String| l@) =~= lines@.take(
                i as int,
            ).map_values(|l: String| l@).push(lines@[i as int]@));
        }
        i = i + 1;
    }
    assert(lines@.take(i as int) =~= lines@);
    r
}

/// Reads a model file, given as its lines.
pub fn read_ising_file(lines: &Vec<String>) -> (r: Result<IsingFile, IsingFileError>)
    ensures
        match r {
            Ok(f) => ising_file_spec(lines@.map_values(|l: String| l@)) matches Ok(s) && file_matches(
                f,
                s,
            ),
            Err(e) => ising_file_spec(lines@.map_values(|l: String| l@)) == Err::<
                IsingFileSpec,
                IsingFileError,
            >(e),
        },
{
    let ls = lines_as_chars(lines);
    read_ising_lines(&ls)
}

} // verus!
