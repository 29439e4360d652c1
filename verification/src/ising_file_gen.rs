//! Writing a model file: the lines of a new file, with the real numbers
//! already written out as text.

use vstd::prelude::*;
use vstd::arithmetic::div_mod::{lemma_div_decreases, lemma_div_pos_is_pos, lemma_fundamental_div_mod};
use crate::ising_file::{
    decimal, find_line, first_token, grid_fits, ising_file_spec, lemma_find_line_absent,
    lemma_find_line_at, lemma_reads_at_most_half, reads_before, seed_step, seed_text, sizes_of,
    sizes_step, temp_step, value_after, IsingFileError,
};
use crate::lattice::product;
use crate::text::{
    all_digits, chars_of, digit_value, digits_value, is_ws, parse_unsigned_spec, string_of, tokens,
    trim, trim_end, trim_start, unsigned_digits, word_len,
};

verus! {

/// The character of a digit below 36 (lowercase letters past 9).
pub open spec fn digit_char(d: nat) -> char {
    if d < 10 {
        (48 + d) as char
    } else {
        (87 + d) as char
    }
}

/// `x` written in the given radix, most significant digit first, with no
/// leading zeros (`0` for zero), as `format!` writes it.
pub open spec fn radix_text(x: nat, radix: nat) -> Seq<char>
    decreases x,
{
    if radix < 2 || radix > 36 {
        seq![]
    } else if x < radix {
        seq![digit_char(x)]
    } else {
        proof {
            lemma_div_decreases(x as int, radix as int);
        }
        radix_text(x / radix, radix).push(digit_char(x % radix))
    }
}

/// Writes `x` in radix `radix` (2 to 36).
pub fn format_radix(x: u64, radix: u64) -> (r: Vec<char>)
    requires
        2 <= radix <= 36,
    ensures
        r@ == radix_text(x as nat, radix as nat),
{
    let mut q = x;
    let mut rev: Vec<char> = Vec::new();
    loop
        invariant_except_break
            radix_text(x as nat, radix as nat) == radix_text(q as nat, radix as nat) + rev@.reverse(),
        invariant
            2 <= radix <= 36,
        ensures
            radix_text(x as nat, radix as nat) == rev@.reverse(),
        decreases q,
    {
        let d = q % radix;
        let c = digit_to_char(d);
        if q < radix {
            proof {
                vstd::arithmetic::div_mod::lemma_small_mod(q as nat, radix as nat);
                assert(q % radix == q);
                assert(radix_text(q as nat, radix as nat) == seq![c]);
                assert(rev@.push(c).reverse() =~= seq![c] + rev@.reverse());
            }
            rev.push(c);
            break;
        }
        proof {
            assert(rev@.push(c).reverse() =~= seq![c] + rev@.reverse());
            lemma_div_decreases(q as int, radix as int);
        }
        rev.push(c);
        q = q / radix;
    }
    let mut out: Vec<char> = Vec::new();
    let mut i = rev.len();
    while i > 0
        invariant
            i <= rev@.len(),
            out@ == rev@.reverse().take(rev@.len() - i),
        decreases i,
    {
        i = i - 1;
        out.push(rev[i]);
        assert(out@ =~= rev@.reverse().take(rev@.len() - i));
    }
    assert(rev@.reverse().take(rev@.len() as int) =~= rev@.reverse());
    out
}

/// The character of a digit below 36.
fn digit_to_char(d: u64) -> (c: char)
    requires
        d < 36,
    ensures
        c == digit_char(d as nat),
{
    if d < 10 {
        ((48 + d) as u8) as char
    } else {
        ((87 + d) as u8) as char
    }
}

/// The side lengths after the dimension, each after a space.
pub open spec fn spaced_sizes(sizes: Seq<usize>) -> Seq<char>
    decreases sizes.len(),
{
    if sizes.len() == 0 {
        seq![]
    } else {
        seq![' '] + radix_text(sizes[0] as nat, 10) + spaced_sizes(sizes.skip(1))
    }
}

/// The lines of a new model file: temperature, seed (hex), dimension and
/// side lengths, one edge weight per line, the magnetic moment and one
/// magnetic field entry per line, the sections separated by blank lines.
pub open spec fn generated_lines(
    temp: Seq<char>,
    seed: u64,
    dim: usize,
    sizes: Seq<usize>,
    edges: Seq<Seq<char>>,
    ext_field: Seq<char>,
    field: Seq<Seq<char>>,
) -> Seq<Seq<char>> {
    seq![
        "$temp"@,
        temp,
        ""@,
        "$rng_seed"@,
        radix_text(seed as nat, 16),
        ""@,
        "$dim_sizes"@,
        radix_text(dim as nat, 10) + spaced_sizes(sizes),
        ""@,
        "$edge_weights_start"@,
    ] + edges + seq![""@, "$mu"@, ext_field, ""@, "$external_magnetic_field"@] + field
}

/// The lines of a new model file (see `generated_lines`), the temperature,
/// weights, moment and field given as the text they are written as.
pub fn ising_file_lines(
    temp: &String,
    rng_seed: u64,
    dim: usize,
    sizes: &Vec<usize>,
    edges: &Vec<String>,
    ext_field: &String,
    field: &Vec<String>,
) -> (r: Vec<String>)
    ensures
        r@.map_values(|l: String| l@) == generated_lines(
            temp@,
            rng_seed,
            dim,
            sizes@,
            edges@.map_values(|l: String| l@),
            ext_field@,
            field@.map_values(|l: String| l@),
        ),
{
    let mut dims = format_radix(dim as u64, 10);
    let mut k: usize = 0;
    assert(sizes@.skip(0) =~= sizes@);
    while k < sizes.len()
        invariant
            k <= sizes@.len(),
            dims@ + spaced_sizes(sizes@.skip(k as int)) == radix_text(dim as nat, 10)
                + spaced_sizes(sizes@),
        decreases sizes@.len() - k,
    {
        let ghost before = dims@;
        let digits = format_radix(sizes[k] as u64, 10);
        dims.push(' ');
        let mut j: usize = 0;
        while j < digits.len()
            invariant
                j <= digits@.len(),
                dims@ == before.push(' ') + digits@.take(j as int),
            decreases digits@.len() - j,
        {
            dims.push(digits[j]);
            j = j + 1;
            assert(dims@ =~= before.push(' ') + digits@.take(j as int));
        }
        proof {
            let rest = sizes@.skip(k as int);
            assert(rest[0] == sizes@[k as int]);
            assert(rest.skip(1) =~= sizes@.skip(k + 1));
            assert(digits@.take(j as int) =~= digits@);
            assert(dims@ + spaced_sizes(sizes@.skip(k + 1)) =~= before + spaced_sizes(rest));
        }
        k = k + 1;
    }
    assert(spaced_sizes(sizes@.skip(k as int)) =~= Seq::<char>::empty());
    assert(dims@ + Seq::<char>::empty() =~= dims@);
    let ghost edges_v = edges@.map_values(|l: String| l@);
    let ghost field_v = field@.map_values(|l: String| l@);
    let mut out: Vec<String> = Vec::new();
    push_line(&mut out, "$temp".to_owned());
    push_line(&mut out, temp.clone());
    push_line(&mut out, empty_line());
    push_line(&mut out, "$rng_seed".to_owned());
    push_line(&mut out, string_of(&format_radix(rng_seed, 16)));
    push_line(&mut out, empty_line());
    push_line(&mut out, "$dim_sizes".to_owned());
    push_line(&mut out, string_of(&dims));
    push_line(&mut out, empty_line());
    push_line(&mut out, "$edge_weights_start".to_owned());
    let ghost head = out@.map_values(|l: String| l@);
    append_lines(&mut out, edges);
    push_line(&mut out, empty_line());
    push_line(&mut out, "$mu".to_owned());
    push_line(&mut out, ext_field.clone());
    push_line(&mut out, empty_line());
    push_line(&mut out, "$external_magnetic_field".to_owned());
    let ghost mid = out@.map_values(|l: String| l@);
    append_lines(&mut out, field);
    proof {
        assert(head =~= seq![
            "$temp"@,
            temp@,
            ""@,
            "$rng_seed"@,
            radix_text(rng_seed as nat, 16),
            ""@,
            "$dim_sizes"@,
            radix_text(dim as nat, 10) + spaced_sizes(sizes@),
            ""@,
            "$edge_weights_start"@,
        ]);
        assert(mid =~= head + edges_v + seq![
            ""@,
            "$mu"@,
            ext_field@,
            ""@,
            "$external_magnetic_field"@,
        ]);
    }
    out
}

/// An empty line.
fn empty_line() -> (s: String)
    ensures
        s@ == ""@,
{
    proof {
        reveal_strlit("");
    }
    String::new()
}

/// Appends one line.
fn push_line(out: &mut Vec<String>, line: String)
    ensures
        final(out)@.map_values(|l: String| l@) == old(out)@.map_values(|l: String| l@).push(
            line@,
        ),
{
    out.push(line);
    assert(out@.map_values(|l: String| l@) =~= old(out)@.map_values(|l: String| l@).push(line@));
}

/// Appends copies of lines.
fn append_lines(out: &mut Vec<String>, lines: &Vec<String>)
    ensures
        final(out)@.map_values(|l: String| l@) == old(out)@.map_values(|l: String| l@)
            + lines@.map_values(|l: String| l@),
{
    let mut i: usize = 0;
    while i < lines.len()
        invariant
            i <= lines@.len(),
            out@.map_values(|l: String| l@) == old(out)@.map_values(|l: String| l@) + lines@.take(
                i as int,
            ).map_values(|l: String| l@),
        decreases lines@.len() - i,
    {
        let ghost before = out@.map_values(|l: String| l@);
        push_line(out, lines[i].clone());
        proof {
            assert(lines@.take(i + 1).map_values(|l: String| l@) =~= lines@.take(
                i as int,
            ).map_values(|l: String| l@).push(lines@[i as int]@));
        }
        i = i + 1;
    }
    assert(lines@.take(i as int) =~= lines@);
}

/// A digit character reads back as its value and is neither whitespace nor
/// a sign.
proof fn lemma_digit_char(d: nat)
    requires
        d < 36,
    ensures
        digit_value(digit_char(d)) == d,
        !is_ws(digit_char(d)),
        digit_char(d) != '+',
        d > 0 ==> digit_char(d) != '0',
{
}

/// A number written in a radix is a nonempty string of digits below the
/// radix, with no whitespace, no sign and no leading zero, whose value is the
/// number.
pub proof fn lemma_radix_text(x: nat, radix: nat)
    requires
        2 <= radix <= 36,
    ensures
        radix_text(x, radix).len() > 0,
        all_digits(radix_text(x, radix), radix),
        digits_value(radix_text(x, radix), radix) == x,
        forall|i: int| 0 <= i < radix_text(x, radix).len() ==> !is_ws(#[trigger] radix_text(x, radix)[i]),
        radix_text(x, radix)[0] != '+',
        x >= radix ==> radix_text(x, radix)[0] != '0',
    decreases x,
{
    let t = radix_text(x, radix);
    if x < radix {
        lemma_digit_char(x);
        assert(t.drop_last().len() == 0);
        assert(digits_value(t.drop_last(), radix) == 0);
    } else {
        lemma_div_decreases(x as int, radix as int);
        lemma_div_pos_is_pos(x as int, radix as int);
        let q = x / radix;
        lemma_radix_text(q, radix);
        lemma_digit_char(x % radix);
        let h = radix_text(q, radix);
        assert(t == h.push(digit_char(x % radix)));
        assert(t.drop_last() =~= h);
        lemma_fundamental_div_mod(x as int, radix as int);
        assert(digits_value(t, radix) == q * radix + x % radix);
        assert(q * radix + x % radix == x) by (nonlinear_arith)
            requires
                x == radix * q + x % radix,
        ;
        assert forall|i: int| 0 <= i < t.len() implies !is_ws(#[trigger] t[i]) by {
            if i < h.len() {
                assert(t[i] == h[i]);
            }
        }
        assert forall|i: int| 0 <= i < t.len() implies #[trigger] digit_value(t[i]) < radix by {
            if i < h.len() {
                assert(t[i] == h[i]);
            }
        }
        assert(t[0] == h[0]);
        if q < radix {
            assert(q > 0) by (nonlinear_arith)
                requires
                    x >= radix,
                    q == x / radix,
                    radix > 0,
            ;
            assert(h == seq![digit_char(q)]);
            lemma_digit_char(q);
        }
    }
}

/// A number written in a radix reads back as itself.
pub proof fn lemma_radix_text_parses(x: nat, radix: nat, max: nat)
    requires
        2 <= radix <= 36,
        x <= max,
    ensures
        parse_unsigned_spec(radix_text(x, radix), radix, max) == Some(x),
{
    lemma_radix_text(x, radix);
    assert(unsigned_digits(radix_text(x, radix)) == radix_text(x, radix));
}

/// A word of characters other than whitespace, followed by nothing or by
/// whitespace, is the first token.
proof fn lemma_tokens_word(w: Seq<char>, rest: Seq<char>)
    requires
        w.len() > 0,
        forall|i: int| 0 <= i < w.len() ==> !is_ws(#[trigger] w[i]),
        rest.len() == 0 || is_ws(rest[0]),
    ensures
        tokens(w + rest) == seq![w] + tokens(rest),
{
    let s = w + rest;
    lemma_word_len_prefix(w, rest);
    assert(s.take(w.len() as int) =~= w);
    assert(s.skip(w.len() as int) =~= rest);
    assert(s[0] == w[0]);
}

/// The word at the front of `w + rest` is `w`.
proof fn lemma_word_len_prefix(w: Seq<char>, rest: Seq<char>)
    requires
        forall|i: int| 0 <= i < w.len() ==> !is_ws(#[trigger] w[i]),
        rest.len() == 0 || is_ws(rest[0]),
    ensures
        word_len(w + rest) == w.len(),
    decreases w.len(),
{
    let s = w + rest;
    if w.len() == 0 {
        assert(s =~= rest);
    } else {
        let w1 = w.skip(1);
        assert forall|i: int| 0 <= i < w1.len() implies !is_ws(#[trigger] w1[i]) by {
            assert(w1[i] == w[i + 1]);
        }
        lemma_word_len_prefix(w1, rest);
        assert(s.skip(1) =~= w1 + rest);
        assert(s[0] == w[0]);
    }
}

/// The tokens of the side lengths after the dimension are the side lengths
/// in decimal.
proof fn lemma_spaced_sizes_tokens(sizes: Seq<usize>)
    ensures
        tokens(spaced_sizes(sizes)) == Seq::new(
            sizes.len(),
            |i: int| radix_text(sizes[i] as nat, 10),
        ),
    decreases sizes.len(),
{
    if sizes.len() == 0 {
        assert(tokens(spaced_sizes(sizes)) =~= Seq::new(
            sizes.len(),
            |i: int| radix_text(sizes[i] as nat, 10),
        ));
    } else {
        let w = radix_text(sizes[0] as nat, 10);
        let rest = spaced_sizes(sizes.skip(1));
        lemma_spaced_sizes_tokens(sizes.skip(1));
        lemma_radix_text(sizes[0] as nat, 10);
        if rest.len() > 0 {
            assert(rest[0] == ' ');
        }
        assert(is_ws(' '));
        lemma_tokens_word(w, rest);
        let s = spaced_sizes(sizes);
        assert(s == seq![' '] + w + rest);
        assert(s.skip(1) =~= w + rest);
        assert(s[0] == ' ');
        assert(tokens(s) == tokens(s.skip(1)));
        assert(tokens(s) =~= Seq::new(sizes.len(), |i: int| radix_text(sizes[i] as nat, 10)));
    }
}

/// Text with no whitespace trims to itself.
proof fn lemma_trim_no_ws(t: Seq<char>)
    requires
        t.len() > 0,
        forall|i: int| 0 <= i < t.len() ==> !is_ws(#[trigger] t[i]),
    ensures
        trim(t) == t,
{
    assert(trim_start(t) == t);
    assert(t.last() == t[t.len() - 1]);
    assert(trim_end(t) == t);
}

/// Reading the header of a generated file gives back the temperature token,
/// the seed and the side lengths it was generated with, for a temperature
/// written as a single token and a dimension that is the number of side
/// lengths and not zero.
pub proof fn lemma_generated_header_reads_back(
    temp: Seq<char>,
    seed: u64,
    sizes: Seq<usize>,
    edges: Seq<Seq<char>>,
    ext_field: Seq<char>,
    field: Seq<Seq<char>>,
)
    requires
        first_token(temp) == Some(temp),
        0 < sizes.len() <= usize::MAX,
    ensures
        ({
            let ls = generated_lines(
                temp,
                seed,
                sizes.len() as usize,
                sizes,
                edges,
                ext_field,
                field,
            );
            &&& temp_step(ls) == Ok::<(Seq<char>, nat), IsingFileError>((temp, 2))
            &&& seed_step(ls, 2) == Ok::<(u64, nat), IsingFileError>((seed, 5))
            &&& sizes_step(ls, 5) == Ok::<(Seq<usize>, nat), IsingFileError>((sizes, 8))
        }),
{
    let dim = sizes.len() as usize;
    let ls = generated_lines(temp, seed, dim, sizes, edges, ext_field, field);
    reveal_strlit("$temp");
    reveal_strlit("$rng_seed");
    reveal_strlit("$dim_sizes");
    reveal_strlit("");
    reveal_strlit("0x");
    reveal_strlit("0X");
    assert(ls[0] == "$temp"@);
    assert(ls[1] == temp);
    assert(ls[2] == ""@);
    assert(ls[3] == "$rng_seed"@);
    assert(ls[5] == ""@);
    assert(ls[6] == "$dim_sizes"@);
    assert("$temp"@.is_prefix_of(ls[0]));
    assert(find_line(ls, 0, "$temp"@) == Some(0nat));
    assert(!"$rng_seed"@.is_prefix_of(ls[2]));
    assert("$rng_seed"@.is_prefix_of(ls[3]));
    assert(find_line(ls, 3, "$rng_seed"@) == Some(3nat));
    assert(find_line(ls, 2, "$rng_seed"@) == Some(3nat));
    assert(!"$dim_sizes"@.is_prefix_of(ls[5]));
    assert("$dim_sizes"@.is_prefix_of(ls[6]));
    assert(find_line(ls, 6, "$dim_sizes"@) == Some(6nat));
    assert(find_line(ls, 5, "$dim_sizes"@) == Some(6nat));
    let hex = radix_text(seed as nat, 16);
    assert(ls[4] == hex);
    lemma_radix_text(seed as nat, 16);
    lemma_trim_no_ws(hex);
    if hex.len() >= 2 {
        if seed < 16 {
            assert(hex.len() == 1);
        }
        assert(hex[0] != '0');
        assert(!"0x"@.is_prefix_of(hex)) by {
            assert("0x"@[0] == '0');
            assert(hex.subrange(0, 2)[0] == hex[0]);
        }
        assert(!"0X"@.is_prefix_of(hex)) by {
            assert("0X"@[0] == '0');
            assert(hex.subrange(0, 2)[0] == hex[0]);
        }
    }
    assert(seed_text(hex) == hex);
    lemma_radix_text_parses(seed as nat, 16, u64::MAX as nat);
    let d = radix_text(dim as nat, 10);
    let line = d + spaced_sizes(sizes);
    assert(ls[7] == line);
    lemma_radix_text(dim as nat, 10);
    lemma_spaced_sizes_tokens(sizes);
    let rest = spaced_sizes(sizes);
    assert(rest == seq![' '] + radix_text(sizes[0] as nat, 10) + spaced_sizes(sizes.skip(1)));
    assert(rest[0] == ' ');
    assert(is_ws(' '));
    lemma_tokens_word(d, rest);
    let toks = tokens(line);
    assert(toks == seq![d] + tokens(rest));
    lemma_radix_text_parses(dim as nat, 10, usize::MAX as nat);
    assert(toks[0] == d);
    assert(decimal(toks[0]) == Some(dim as nat));
    assert forall|s: int| 0 <= s < dim implies (#[trigger] decimal(toks[1 + s])) == Some(
        sizes[s] as nat,
    ) by {
        assert(toks[1 + s] == radix_text(sizes[s] as nat, 10));
        lemma_radix_text_parses(sizes[s] as nat, 10, usize::MAX as nat);
    }
    assert(sizes_of(toks) == Ok::<Seq<usize>, IsingFileError>(sizes)) by {
        assert(Seq::new(dim as nat, |s: int| decimal(toks[1 + s])->0 as usize) =~= sizes);
    }
}

/// A text written as a single token that does not begin with `$`, as a real
/// number is written.
pub open spec fn plain_token(t: Seq<char>) -> bool {
    &&& first_token(t) == Some(t)
    &&& t[0] != '$'
}

/// A keyword is no prefix of a line that is shorter, or that begins with
/// another character, or that differs from it at its second character.
proof fn lemma_not_prefix(key: Seq<char>, line: Seq<char>)
    requires
        key.len() >= 2,
        line.len() < key.len() || line[0] != key[0] || line[1] != key[1],
    ensures
        !key.is_prefix_of(line),
{
    if key.is_prefix_of(line) {
        assert(line.subrange(0, key.len() as int)[0] == line[0]);
        assert(line.subrange(0, key.len() as int)[1] == line[1]);
    }
}

/// A generated file reads back as it was generated: the temperature, seed
/// and side lengths, the weight tokens as far as the grid reads weights
/// (which is at most one per point and axis, as many as are written), the
/// magnetic moment and field, no starting configurations and no ground
/// state; for a grid that fits the machine, a dimension equal to the number
/// of side lengths and not zero, as many weights and field entries as are
/// written for it, and real numbers written as single tokens.
pub proof fn lemma_generated_file_reads_back(
    temp: Seq<char>,
    seed: u64,
    sizes: Seq<usize>,
    edges: Seq<Seq<char>>,
    ext_field: Seq<char>,
    field: Seq<Seq<char>>,
)
    requires
        plain_token(temp),
        plain_token(ext_field),
        forall|i: int| 0 <= i < edges.len() ==> plain_token(#[trigger] edges[i]),
        forall|i: int| 0 <= i < field.len() ==> plain_token(#[trigger] field[i]),
        0 < sizes.len(),
        grid_fits(sizes),
        edges.len() == product(sizes) * sizes.len(),
        field.len() == product(sizes),
    ensures
        ({
            let ls = generated_lines(
                temp,
                seed,
                sizes.len() as usize,
                sizes,
                edges,
                ext_field,
                field,
            );
            let n_reads = reads_before(sizes, product(sizes) * (2 * sizes.len()));
            &&& ising_file_spec(ls) matches Ok(f)
            &&& f.temp == temp
            &&& f.seed == seed
            &&& f.sizes == sizes
            &&& n_reads <= edges.len()
            &&& f.weight_tokens == edges.take(n_reads as int)
            &&& f.mu == ext_field
            &&& f.field == field
            &&& f.starting is None
            &&& f.ground is Absent
        }),
{
    let dim = sizes.len() as usize;
    let ls = generated_lines(temp, seed, dim, sizes, edges, ext_field, field);
    let n = product(sizes);
    let e = edges.len() as int;
    let total = n * (2 * sizes.len());
    let n_reads = reads_before(sizes, total);
    lemma_generated_header_reads_back(temp, seed, sizes, edges, ext_field, field);
    lemma_reads_at_most_half(sizes);
    assert(total == 2 * e) by (nonlinear_arith)
        requires
            total == n * (2 * sizes.len()),
            e == n * sizes.len(),
    ;
    reveal_strlit("$temp");
    reveal_strlit("$rng_seed");
    reveal_strlit("$dim_sizes");
    reveal_strlit("$edge_weights_start");
    reveal_strlit("$mu");
    reveal_strlit("$external_magnetic_field");
    reveal_strlit("$starting_configs");
    reveal_strlit("$ground_state_approx");
    reveal_strlit("");
    assert(ls.len() == 15 + e + n);
    assert forall|r: int| 0 <= r < e implies #[trigger] ls[10 + r] == edges[r] by {}
    assert forall|r: int| 0 <= r < n implies #[trigger] ls[15 + e + r] == field[r] by {}
    assert(ls[8] == ""@);
    assert(ls[9] == "$edge_weights_start"@);
    assert(ls[10 + e] == ""@);
    assert(ls[11 + e] == "$mu"@);
    assert(ls[12 + e] == ext_field);
    assert(ls[13 + e] == ""@);
    assert(ls[14 + e] == "$external_magnetic_field"@);
    // The weights.
    assert(find_line(ls, 9, "$edge_weights_start"@) == Some(9nat));
    assert(find_line(ls, 8, "$edge_weights_start"@) == Some(9nat));
    assert(!exists|r: int|
        0 <= r < n_reads && 9 + 1 + r < ls.len() && (#[trigger] first_token(ls[9 + 1 + r]))
            is None) by {
        assert forall|r: int| 0 <= r < n_reads implies (#[trigger] first_token(ls[9 + 1 + r]))
            is Some by {
            assert(ls[10 + r] == edges[r]);
        }
    }
    assert(Seq::new(n_reads, |r: int| first_token(ls[9 + 1 + r])->0) =~= edges.take(
        n_reads as int,
    )) by {
        assert forall|r: int| 0 <= r < n_reads implies first_token(ls[9 + 1 + r])->0 == edges[r] by {
            assert(ls[10 + r] == edges[r]);
        }
    }
    // The magnetic moment.
    let c4 = (10 + n_reads) as nat;
    assert forall|i: int| c4 <= i < 11 + e implies !"$mu"@.is_prefix_of(#[trigger] ls[i]) by {
        if i < 10 + e {
            assert(ls[i] == edges[i - 10]);
            lemma_not_prefix("$mu"@, ls[i]);
        } else {
            lemma_not_prefix("$mu"@, ls[i]);
        }
    }
    assert("$mu"@.is_prefix_of(ls[11 + e]));
    lemma_find_line_at(ls, c4, "$mu"@, (11 + e) as nat);
    assert(value_after(ls, c4, "$mu"@, IsingFileError::NoMu, IsingFileError::NoMu,
        IsingFileError::BlankMu) == Ok::<(Seq<char>, nat), IsingFileError>((ext_field, (13 + e) as nat)));
    // The field.
    let key = "$external_magnetic_field"@;
    lemma_not_prefix(key, ls[13 + e]);
    lemma_find_line_at(ls, (13 + e) as nat, key, (14 + e) as nat);
    assert(!exists|r: int|
        0 <= r < n && 14 + e + 1 + r < ls.len() && (#[trigger] first_token(ls[14 + e + 1 + r]))
            is None) by {
        assert forall|r: int| 0 <= r < n implies (#[trigger] first_token(ls[14 + e + 1 + r])) is Some by {
            assert(ls[15 + e + r] == field[r]);
        }
    }
    assert(Seq::new(n, |r: int| first_token(ls[14 + e + 1 + r])->0) =~= field) by {
        assert forall|r: int| 0 <= r < n implies first_token(ls[14 + e + 1 + r])->0 == field[r] by {
            assert(ls[15 + e + r] == field[r]);
        }
    }
    // No starting configurations and no ground state.
    assert(find_line(ls, (15 + e + n) as nat, "$starting_configs"@) is None);
    let g = "$ground_state_approx"@;
    assert forall|i: int| 0 <= i < ls.len() implies !g.is_prefix_of(#[trigger] ls[i]) by {
        if 10 <= i < 10 + e {
            assert(ls[i] == edges[i - 10]);
        } else if 15 + e <= i {
            assert(ls[i] == field[i - 15 - e]);
        }
        if i == 4 || i == 7 {
            lemma_radix_text(seed as nat, 16);
            lemma_radix_text(dim as nat, 10);
            assert(digit_value(ls[i][0]) < 36);
        }
        lemma_not_prefix(g, ls[i]);
    }
    lemma_find_line_absent(ls, 0, g);
}

} // verus!
