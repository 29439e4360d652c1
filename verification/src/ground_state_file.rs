//! Adding a `$ground_state_approx` section to the lines of a model file.

use vstd::prelude::*;
use crate::config_hex::{config_text, lemma_config_text_first, lemma_config_text_round_trip};
use crate::ising_file::{
    field_step, find_line, first_token, ground_state_step, ising_file_spec, lemma_find_line_at,
    seed_step, seed_text, sizes_of, sizes_step, starting_lines, starting_step, temp_step,
    value_after, weights_step, reads_before, GroundStateSpec, IsingFileError, IsingFileSpec,
};
use crate::lattice::product;
use crate::text::{
    chars_of, is_blank, is_ws, line_is_blank, parse_unsigned_spec, starts_with, tokens, trim,
    trim_end, trim_start,
};

verus! {

/// Why a ground state could not be added to a model file.
#[derive(Clone, Copy, Debug, PartialEq, Eq, Structural)]
pub enum GroundStateWriteError {
    /// The file has a `$ground_state_approx` line already.
    AlreadyPresent,
    /// The file has neither a `$starting_configs` nor an
    /// `$external_magnetic_field` line.
    NoSection,
}

/// The index of the first blank line at or after `from`, or the number of
/// lines where there is none.
pub open spec fn first_blank(ls: Seq<Seq<char>>, from: nat) -> nat
    decreases ls.len() - from,
{
    if from >= ls.len() {
        ls.len()
    } else if is_blank(ls[from as int]) {
        from
    } else {
        first_blank(ls, from + 1)
    }
}

/// The line that the new section follows: the `$starting_configs` line, or
/// failing that the `$external_magnetic_field` line.
pub open spec fn anchor_line(ls: Seq<Seq<char>>) -> Option<nat> {
    match find_line(ls, 0, "$starting_configs"@) {
        Some(t) => Some(t),
        None => find_line(ls, 0, "$external_magnetic_field"@),
    }
}

/// The lines with the section added: an empty line, `$ground_state_approx`
/// and the ground state line go in at the first blank line after the anchor
/// (or at the end), taking that blank line's place.
pub open spec fn with_ground_state(ls: Seq<Seq<char>>, ground: Seq<char>) -> Result<
    Seq<Seq<char>>,
    GroundStateWriteError,
> {
    if find_line(ls, 0, "$ground_state_approx"@) is Some {
        Err(GroundStateWriteError::AlreadyPresent)
    } else {
        match anchor_line(ls) {
            None => Err(GroundStateWriteError::NoSection),
            Some(t) => {
                let at = first_blank(ls, t + 1);
                let rest = if at < ls.len() && is_blank(ls[at as int]) {
                    ls.skip(at + 1 as int)
                } else {
                    ls.skip(at as int)
                };
                Ok(ls.take(at as int) + seq![""@, "$ground_state_approx"@, ground] + rest)
            },
        }
    }
}

/// The index of the first blank line at or after `from`.
fn first_blank_from(ls: &Vec<String>, from: usize) -> (r: usize)
    ensures
        r == first_blank(ls@.map_values(|l: String| l@), from as nat),
        r <= ls@.len(),
{
    let ghost lv = ls@.map_values(|l: String| l@);
    if from >= ls.len() {
        return ls.len();
    }
    proof {
        lemma_first_blank_bound(lv, from as nat);
    }
    let mut i = from;
    while i < ls.len()
        invariant
            lv == ls@.map_values(|l: String| l@),
            from <= i <= ls@.len(),
            first_blank(lv, from as nat) == first_blank(lv, i as nat),
            first_blank(lv, from as nat) <= ls@.len(),
        decreases ls@.len() - i,
    {
        let line = chars_of(ls[i].as_str());
        assert(line@ == lv[i as int]);
        if line_is_blank(&line) {
            return i;
        }
        i = i + 1;
    }
    i
}

/// The index of the first line that starts with `prefix`.
fn find_string_line(ls: &Vec<String>, prefix: &str) -> (r: Option<usize>)
    ensures
        match r {
            Some(i) => find_line(ls@.map_values(|l: String| l@), 0, prefix@) == Some(i as nat),
            None => find_line(ls@.map_values(|l: String| l@), 0, prefix@) is None,
        },
        r matches Some(i) ==> i < ls@.len(),
{
    let ghost lv = ls@.map_values(|l: String| l@);
    let p = chars_of(prefix);
    let mut i: usize = 0;
    while i < ls.len()
        invariant
            lv == ls@.map_values(|l: String| l@),
            p@ == prefix@,
            i <= ls@.len(),
            find_line(lv, 0, prefix@) == find_line(lv, i as nat, prefix@),
        decreases ls@.len() - i,
    {
        let line = chars_of(ls[i].as_str());
        assert(line@ == lv[i as int]);
        if starts_with(&line, &p) {
            return Some(i);
        }
        i = i + 1;
    }
    None
}

/// The lines of a model file with a `$ground_state_approx` section holding
/// `ground_state_string` added after the starting configurations (or, where
/// there are none, after the magnetic field).
pub fn insert_ground_state(lines: &Vec<String>, ground_state_string: &String) -> (r: Result<
    Vec<String>,
    GroundStateWriteError,
>)
    ensures
        match r {
            Ok(out) => with_ground_state(
                lines@.map_values(|l: String| l@),
                ground_state_string@,
            ) == Ok::<Seq<Seq<char>>, GroundStateWriteError>(out@.map_values(|l: String| l@)),
            Err(e) => with_ground_state(lines@.map_values(|l: String| l@), ground_state_string@)
                == Err::<Seq<Seq<char>>, GroundStateWriteError>(e),
        },
{
    let ghost lv = lines@.map_values(|l: String| l@);
    if find_string_line(lines, "$ground_state_approx").is_some() {
        return Err(GroundStateWriteError::AlreadyPresent);
    }
    let anchor = match find_string_line(lines, "$starting_configs") {
        Some(t) => t,
        None => match find_string_line(lines, "$external_magnetic_field") {
            Some(t) => t,
            None => {
                return Err(GroundStateWriteError::NoSection);
            },
        },
    };
    let n_lines = lines.len();
    assert(anchor < n_lines);
    let at = first_blank_from(lines, anchor + 1);
    let mut out: Vec<String> = Vec::new();
    let mut i: usize = 0;
    while i < at
        invariant
            lv == lines@.map_values(|l: String| l@),
            at <= lines@.len(),
            i <= at,
            out@.map_values(|l: String| l@) == lv.take(i as int),
        decreases at - i,
    {
        let ghost before = out@;
        out.push(lines[i].clone());
        proof {
            assert(out@.map_values(|l: String| l@) =~= before.map_values(|l: String| l@).push(
                lv[i as int],
            ));
            assert(lv.take(i + 1) =~= lv.take(i as int).push(lv[i as int]));
        }
        i = i + 1;
    }
    let ghost head = out@;
    let empty = String::new();
    let key = "$ground_state_approx".to_owned();
    let line = ground_state_string.clone();
    proof {
        reveal_strlit("");
        assert(empty@ == ""@);
        assert(key@ == "$ground_state_approx"@);
    }
    out.push(empty);
    out.push(key);
    out.push(line);
    proof {
        assert(out@ == head.push(empty).push(key).push(line));
        assert(out@.map_values(|l: String| l@) =~= head.map_values(|l: String| l@) + seq![
            ""@,
            "$ground_state_approx"@,
            ground_state_string@,
        ]);
    }
    let skip_blank = if at < lines.len() {
        let line = chars_of(lines[at].as_str());
        assert(line@ == lv[at as int]);
        line_is_blank(&line)
    } else {
        false
    };
    let mut k: usize = if skip_blank {
        at + 1
    } else {
        at
    };
    let ghost start = k as int;
    let ghost mid = out@.map_values(|l: String| l@);
    while k < lines.len()
        invariant
            lv == lines@.map_values(|l: String| l@),
            0 <= start <= k <= lines@.len(),
            out@.map_values(|l: String| l@) == mid + lv.subrange(start, k as int),
        decreases lines@.len() - k,
    {
        let ghost before = out@;
        out.push(lines[k].clone());
        proof {
            assert(out@.map_values(|l: String| l@) =~= before.map_values(|l: String| l@).push(
                lv[k as int],
            ));
            assert(lv.subrange(start, k + 1) =~= lv.subrange(start, k as int).push(lv[k as int]));
        }
        k = k + 1;
    }
    assert(lv.subrange(start, lines@.len() as int) =~= lv.skip(start));
    Ok(out)
}

/// A search that finds nothing passes only lines without the prefix.
proof fn lemma_find_line_none(ls: Seq<Seq<char>>, from: nat, prefix: Seq<char>, i: int)
    requires
        find_line(ls, from, prefix) is None,
        from <= i < ls.len(),
    ensures
        !prefix.is_prefix_of(ls[i]),
    decreases i - from,
{
    if from < i {
        lemma_find_line_none(ls, from + 1, prefix, i);
    }
}

/// The blank line that the search finds lies at or after where it starts.
proof fn lemma_first_blank_bound(ls: Seq<Seq<char>>, from: nat)
    requires
        from <= ls.len(),
    ensures
        from <= first_blank(ls, from) <= ls.len(),
    decreases ls.len() - from,
{
    if from < ls.len() && !is_blank(ls[from as int]) {
        lemma_first_blank_bound(ls, from + 1);
    }
}

/// Writing a ground state into a model file and reading the file's ground
/// state back gives the configuration written, for any configuration of at
/// least one point.
pub proof fn lemma_ground_state_round_trip(
    ls: Seq<Seq<char>>,
    config: Seq<bool>,
    out: Seq<Seq<char>>,
)
    requires
        config.len() > 0,
        with_ground_state(ls, config_text(config)) == Ok::<
            Seq<Seq<char>>,
            GroundStateWriteError,
        >(out),
    ensures
        ground_state_step(out, config.len()) == Ok::<
            GroundStateSpec,
            crate::ising_file::IsingFileError,
        >(GroundStateSpec::Config(config)),
{
    let text = config_text(config);
    let t = anchor_line(ls)->0;
    assert(t < ls.len()) by {
        if find_line(ls, 0, "$starting_configs"@) is Some {
            crate::ising_file::lemma_find_line_found(ls, 0, "$starting_configs"@);
        } else {
            crate::ising_file::lemma_find_line_found(ls, 0, "$external_magnetic_field"@);
        }
    }
    let at = first_blank(ls, t + 1);
    lemma_first_blank_bound(ls, t + 1);
    let key = "$ground_state_approx"@;
    reveal_strlit("$ground_state_approx");
    reveal_strlit("");
    assert(out[at as int] == ""@);
    assert(out[at + 1 as int] == key);
    assert(out[at + 2 as int] == text);
    assert forall|i: int| 0 <= i < at + 1 implies !key.is_prefix_of(#[trigger] out[i]) by {
        if i < at {
            assert(out[i] == ls[i]);
            lemma_find_line_none(ls, 0, key, i);
        } else {
            assert(out[i].len() == 0);
        }
    }
    lemma_find_line_at(out, 0, key, at + 1);
    lemma_config_text_round_trip(config);
    assert(text.len() > 0) by {
        crate::config_hex::lemma_config_text_nonempty(config);
    }
}

/// The lines with the section inserted at `at`: an empty line, the
/// keyword and the ground state line take the place of the blank line at
/// `at` (or follow the last line).
pub open spec fn inserted(ls: Seq<Seq<char>>, at: nat, ground: Seq<char>) -> Seq<Seq<char>> {
    ls.take(at as int) + seq![""@, "$ground_state_approx"@, ground] + if at < ls.len() {
        ls.skip(at + 1 as int)
    } else {
        ls.skip(at as int)
    }
}

/// Where a line of the file, or a position between lines, lands once the
/// section is inserted at `at`.
pub open spec fn shift(at: nat, i: int) -> int {
    if i <= at {
        i
    } else {
        i + 2
    }
}

/// The section is inserted at `at`, which is a blank line or the end, and
/// the ground state line begins with something other than `$`.
pub open spec fn insertion(ls: Seq<Seq<char>>, out: Seq<Seq<char>>, at: nat, ground: Seq<char>) -> bool {
    &&& at <= ls.len()
    &&& at < ls.len() ==> is_blank(ls[at as int])
    &&& out == inserted(ls, at, ground)
    &&& ground.len() > 0
    &&& ground[0] != '$'
}

/// A section keyword other than `$ground_state_approx`: it begins with `$`
/// and its second character is not `g`.
pub open spec fn other_keyword(p: Seq<char>) -> bool {
    &&& p.len() >= 2
    &&& p[0] == '$'
    &&& p[1] != 'g'
}

/// The first blank line that the search finds is blank.
proof fn lemma_first_blank_is_blank(ls: Seq<Seq<char>>, from: nat)
    requires
        from <= ls.len(),
    ensures
        first_blank(ls, from) < ls.len() ==> is_blank(ls[first_blank(ls, from) as int]),
    decreases ls.len() - from,
{
    if from < ls.len() && !is_blank(ls[from as int]) {
        lemma_first_blank_is_blank(ls, from + 1);
    }
}

/// A blank line has no tokens, trims to nothing and gives no seed.
proof fn lemma_blank_line(s: Seq<char>)
    requires
        is_blank(s),
    ensures
        tokens(s).len() == 0,
        trim_start(s).len() == 0,
        seed_text(s).len() == 0,
    decreases s.len(),
{
    if s.len() > 0 {
        assert(is_ws(s[0]));
        let t = s.skip(1);
        assert forall|i: int| 0 <= i < t.len() implies is_ws(#[trigger] t[i]) by {
            assert(t[i] == s[i + 1]);
        }
        lemma_blank_line(t);
    }
    reveal_strlit("0x");
    reveal_strlit("0X");
    assert(trim(s) == trim_end(trim_start(s)));
}

/// A line with a token, or that starts with `$`, is not blank.
proof fn lemma_not_blank(s: Seq<char>)
    ensures
        tokens(s).len() > 0 ==> !is_blank(s),
        s.len() > 0 && s[0] == '$' ==> !is_blank(s),
{
    if is_blank(s) {
        lemma_blank_line(s);
    }
}

/// The lines of the file keep their places, shifted past the insertion.
proof fn lemma_inserted_lines(ls: Seq<Seq<char>>, out: Seq<Seq<char>>, at: nat, ground: Seq<char>)
    requires
        insertion(ls, out, at, ground),
    ensures
        forall|i: int| 0 <= i < ls.len() && i != at ==> #[trigger] out[shift(at, i)] == ls[i],
        out[at as int] == ""@,
        out[at + 1 as int] == "$ground_state_approx"@,
        out[at + 2 as int] == ground,
        out.len() == shift(at, ls.len() as int) + if at < ls.len() { 0int } else { 3int },
{
    reveal_strlit("");
    assert forall|i: int| 0 <= i < ls.len() && i != at implies #[trigger] out[shift(at, i)]
        == ls[i] by {
        if i > at {
            assert(out[i + 2] == ls.skip(at + 1 as int)[i - at - 1]);
        }
    }
}

/// A keyword line other than the inserted one is found at its shifted place,
/// searching from the shifted place.
proof fn lemma_find_transport(
    ls: Seq<Seq<char>>,
    out: Seq<Seq<char>>,
    at: nat,
    ground: Seq<char>,
    p: Seq<char>,
    c: nat,
)
    requires
        insertion(ls, out, at, ground),
        other_keyword(p),
        c <= ls.len(),
    ensures
        find_line(out, shift(at, c as int) as nat, p) == match find_line(ls, c, p) {
            Some(i) => Some(shift(at, i as int) as nat),
            None => None,
        },
    decreases ls.len() - c,
{
    lemma_inserted_lines(ls, out, at, ground);
    reveal_strlit("$ground_state_approx");
    reveal_strlit("");
    let k = "$ground_state_approx"@;
    // None of the inserted lines starts with `p`.
    assert(!p.is_prefix_of(out[at as int]));
    assert(!p.is_prefix_of(out[at + 1 as int])) by {
        if p.is_prefix_of(out[at + 1 as int]) {
            assert(out[at + 1 as int].subrange(0, p.len() as int)[1] == k[1]);
        }
    }
    assert(!p.is_prefix_of(out[at + 2 as int])) by {
        if p.is_prefix_of(out[at + 2 as int]) {
            assert(out[at + 2 as int].subrange(0, p.len() as int)[0] == ground[0]);
        }
    }
    if c == ls.len() {
        if at < ls.len() {
        } else {
            assert(find_line(out, (at + 3) as nat, p) is None);
            assert(find_line(out, (at + 2) as nat, p) is None);
            assert(find_line(out, (at + 1) as nat, p) is None);
        }
    } else if c == at {
        assert(!p.is_prefix_of(ls[c as int])) by {
            lemma_not_blank(p);
            if p.is_prefix_of(ls[c as int]) {
                assert(ls[c as int].subrange(0, p.len() as int)[0] == p[0]);
                assert(ls[c as int][0] == '$');
                lemma_not_blank(ls[c as int]);
            }
        }
        lemma_find_transport(ls, out, at, ground, p, c + 1);
        assert(shift(at, c + 1 as int) == at + 3);
        assert(find_line(out, (at + 2) as nat, p) == find_line(out, (at + 3) as nat, p));
        assert(find_line(out, (at + 1) as nat, p) == find_line(out, (at + 3) as nat, p));
    } else {
        assert(out[shift(at, c as int)] == ls[c as int]);
        if !p.is_prefix_of(ls[c as int]) {
            lemma_find_transport(ls, out, at, ground, p, c + 1);
            assert(shift(at, c + 1 as int) == shift(at, c as int) + 1);
        }
    }
}

/// A run of nonblank lines after line `i` lies wholly on one side of the
/// insertion, so it keeps its order and spacing.
proof fn lemma_run(ls: Seq<Seq<char>>, out: Seq<Seq<char>>, at: nat, ground: Seq<char>, i: int, k: int)
    requires
        insertion(ls, out, at, ground),
        0 <= i,
        0 <= k,
        i + k < ls.len(),
        forall|r: int| 0 <= r <= k ==> !is_blank(#[trigger] ls[i + r]),
    ensures
        forall|r: int| 0 <= r <= k + 1 ==> #[trigger] shift(at, i + r) == shift(at, i) + r,
        forall|r: int| 0 <= r <= k ==> #[trigger] out[shift(at, i) + r] == ls[i + r],
{
    lemma_inserted_lines(ls, out, at, ground);
    if i < at {
        if at <= i + k {
            assert(!is_blank(ls[i + (at - i)]));
        }
        assert(i + k < at);
    }
    if at < ls.len() {
        assert(i != at) by {
            assert(!is_blank(ls[i + 0]));
        }
    }
    assert forall|r: int| 0 <= r <= k implies #[trigger] out[shift(at, i) + r] == ls[i + r] by {
        assert(!is_blank(ls[i + r]));
        assert(shift(at, i + r) == shift(at, i) + r);
    }
}

/// A value after a keyword reads the same from the file with the section
/// inserted, and reading goes on at the shifted place.
proof fn lemma_value_after_transport(
    ls: Seq<Seq<char>>,
    out: Seq<Seq<char>>,
    at: nat,
    ground: Seq<char>,
    c: nat,
    p: Seq<char>,
    e1: IsingFileError,
    e2: IsingFileError,
    e3: IsingFileError,
)
    requires
        insertion(ls, out, at, ground),
        other_keyword(p),
        c <= ls.len(),
        value_after(ls, c, p, e1, e2, e3) is Ok,
    ensures
        value_after(out, shift(at, c as int) as nat, p, e1, e2, e3) == Ok::<
            (Seq<char>, nat),
            IsingFileError,
        >(
            (
                value_after(ls, c, p, e1, e2, e3)->Ok_0.0,
                shift(at, value_after(ls, c, p, e1, e2, e3)->Ok_0.1 as int) as nat,
            ),
        ),
{
    lemma_find_transport(ls, out, at, ground, p, c);
    let i = find_line(ls, c, p)->0 as int;
    crate::ising_file::lemma_find_line_found(ls, c, p);
    lemma_keyword_line(ls[i], p);
    lemma_not_blank(ls[i + 1]);
    lemma_run(ls, out, at, ground, i, 1);
    assert(shift(at, i + 1) == shift(at, i) + 1);
    assert(shift(at, i + 2) == shift(at, i) + 2);
}

/// A line that starts with a keyword is not blank.
proof fn lemma_keyword_line(line: Seq<char>, p: Seq<char>)
    requires
        other_keyword(p),
        p.is_prefix_of(line),
    ensures
        !is_blank(line),
{
    assert(line.subrange(0, p.len() as int)[0] == p[0]);
    lemma_not_blank(line);
}

/// The seed reads the same from the file with the section inserted.
proof fn lemma_seed_transport(ls: Seq<Seq<char>>, out: Seq<Seq<char>>, at: nat, ground: Seq<char>, c: nat)
    requires
        insertion(ls, out, at, ground),
        c <= ls.len(),
        seed_step(ls, c) is Ok,
    ensures
        seed_step(out, shift(at, c as int) as nat) == Ok::<(u64, nat), IsingFileError>(
            (seed_step(ls, c)->Ok_0.0, shift(at, seed_step(ls, c)->Ok_0.1 as int) as nat),
        ),
{
    let p = "$rng_seed"@;
    reveal_strlit("$rng_seed");
    lemma_find_transport(ls, out, at, ground, p, c);
    let i = find_line(ls, c, p)->0 as int;
    crate::ising_file::lemma_find_line_found(ls, c, p);
    lemma_keyword_line(ls[i], p);
    if is_blank(ls[i + 1]) {
        lemma_blank_line(ls[i + 1]);
    }
    lemma_run(ls, out, at, ground, i, 1);
}

/// The side lengths read the same from the file with the section inserted.
proof fn lemma_sizes_transport(ls: Seq<Seq<char>>, out: Seq<Seq<char>>, at: nat, ground: Seq<char>, c: nat)
    requires
        insertion(ls, out, at, ground),
        c <= ls.len(),
        sizes_step(ls, c) is Ok,
    ensures
        sizes_step(out, shift(at, c as int) as nat) == Ok::<(Seq<usize>, nat), IsingFileError>(
            (sizes_step(ls, c)->Ok_0.0, shift(at, sizes_step(ls, c)->Ok_0.1 as int) as nat),
        ),
{
    let p = "$dim_sizes"@;
    reveal_strlit("$dim_sizes");
    lemma_find_transport(ls, out, at, ground, p, c);
    let i = find_line(ls, c, p)->0 as int;
    crate::ising_file::lemma_find_line_found(ls, c, p);
    lemma_keyword_line(ls[i], p);
    if is_blank(ls[i + 1]) {
        lemma_blank_line(ls[i + 1]);
    }
    lemma_run(ls, out, at, ground, i, 1);
}

/// The weights read the same from the file with the section inserted.
proof fn lemma_weights_transport(
    ls: Seq<Seq<char>>,
    out: Seq<Seq<char>>,
    at: nat,
    ground: Seq<char>,
    c: nat,
    sizes: Seq<usize>,
)
    requires
        insertion(ls, out, at, ground),
        c <= ls.len(),
        weights_step(ls, c, sizes) is Ok,
    ensures
        weights_step(out, shift(at, c as int) as nat, sizes) == Ok::<
            (Seq<Seq<char>>, Seq<Option<nat>>, nat),
            IsingFileError,
        >(
            (
                weights_step(ls, c, sizes)->Ok_0.0,
                weights_step(ls, c, sizes)->Ok_0.1,
                shift(at, weights_step(ls, c, sizes)->Ok_0.2 as int) as nat,
            ),
        ),
{
    let p = "$edge_weights_start"@;
    reveal_strlit("$edge_weights_start");
    lemma_find_transport(ls, out, at, ground, p, c);
    let e = find_line(ls, c, p)->0 as int;
    crate::ising_file::lemma_find_line_found(ls, c, p);
    let n_reads = reads_before(sizes, product(sizes) * (2 * sizes.len())) as int;
    assert forall|r: int| 0 <= r <= n_reads implies !is_blank(#[trigger] ls[e + r]) by {
        if r == 0 {
            lemma_keyword_line(ls[e], p);
        } else {
            assert(first_token(ls[e + 1 + (r - 1)]) is Some);
            lemma_not_blank(ls[e + r]);
        }
    }
    lemma_run(ls, out, at, ground, e, n_reads);
    lemma_inserted_lines(ls, out, at, ground);
    let se = shift(at, e);
    assert forall|r: int| 0 <= r < n_reads implies #[trigger] out[se + 1 + r] == ls[e + 1 + r] by {
        assert(out[se + (r + 1)] == ls[e + (r + 1)]);
    }
    assert(!exists|r: int|
        0 <= r < n_reads && se + 1 + r < out.len() && (#[trigger] first_token(out[se + 1 + r]))
            is None) by {
        assert forall|r: int| 0 <= r < n_reads implies (#[trigger] first_token(out[se + 1 + r]))
            is Some by {
            assert(out[se + 1 + r] == ls[e + 1 + r]);
        }
    }
    assert(Seq::new(n_reads as nat, |r: int| first_token(out[se + 1 + r])->0) =~= Seq::new(
        n_reads as nat,
        |r: int| first_token(ls[e + 1 + r])->0,
    )) by {
        assert forall|r: int| 0 <= r < n_reads implies (#[trigger] first_token(out[se + 1 + r]))->0
            == first_token(ls[e + 1 + r])->0 by {
            assert(out[se + 1 + r] == ls[e + 1 + r]);
        }
    }
    assert(shift(at, e + (n_reads + 1)) == se + n_reads + 1);
}

/// The field reads the same from the file with the section inserted.
proof fn lemma_field_transport(
    ls: Seq<Seq<char>>,
    out: Seq<Seq<char>>,
    at: nat,
    ground: Seq<char>,
    c: nat,
    n: nat,
)
    requires
        insertion(ls, out, at, ground),
        c <= ls.len(),
        field_step(ls, c, n) is Ok,
    ensures
        field_step(out, shift(at, c as int) as nat, n) == Ok::<(Seq<Seq<char>>, nat), IsingFileError>(
            (field_step(ls, c, n)->Ok_0.0, shift(at, field_step(ls, c, n)->Ok_0.1 as int) as nat),
        ),
{
    let p = "$external_magnetic_field"@;
    reveal_strlit("$external_magnetic_field");
    lemma_find_transport(ls, out, at, ground, p, c);
    let f = find_line(ls, c, p)->0 as int;
    crate::ising_file::lemma_find_line_found(ls, c, p);
    let k = n as int;
    assert forall|r: int| 0 <= r <= k implies !is_blank(#[trigger] ls[f + r]) by {
        if r == 0 {
            lemma_keyword_line(ls[f], p);
        } else {
            assert(first_token(ls[f + 1 + (r - 1)]) is Some);
            lemma_not_blank(ls[f + r]);
        }
    }
    lemma_run(ls, out, at, ground, f, k);
    lemma_inserted_lines(ls, out, at, ground);
    let sf = shift(at, f);
    assert forall|r: int| 0 <= r < k implies #[trigger] out[sf + 1 + r] == ls[f + 1 + r] by {
        assert(out[sf + (r + 1)] == ls[f + (r + 1)]);
    }
    assert(!exists|r: int|
        0 <= r < n && sf + 1 + r < out.len() && (#[trigger] first_token(out[sf + 1 + r])) is None)
        by {
        assert forall|r: int| 0 <= r < n implies (#[trigger] first_token(out[sf + 1 + r])) is Some by {
            assert(out[sf + 1 + r] == ls[f + 1 + r]);
        }
    }
    assert(Seq::new(n, |r: int| first_token(out[sf + 1 + r])->0) =~= Seq::new(
        n,
        |r: int| first_token(ls[f + 1 + r])->0,
    )) by {
        assert forall|r: int| 0 <= r < n implies (#[trigger] first_token(out[sf + 1 + r]))->0 == first_token(
            ls[f + 1 + r],
        )->0 by {
            assert(out[sf + 1 + r] == ls[f + 1 + r]);
        }
    }
    assert(shift(at, f + (k + 1)) == sf + k + 1);
}

/// The starting configuration lines from `i` read the same from the file
/// with the section inserted, from the shifted place.
proof fn lemma_starting_lines_transport(
    ls: Seq<Seq<char>>,
    out: Seq<Seq<char>>,
    at: nat,
    ground: Seq<char>,
    i: nat,
    n: nat,
)
    requires
        insertion(ls, out, at, ground),
        i <= ls.len(),
    ensures
        starting_lines(out, shift(at, i as int) as nat, n) == starting_lines(ls, i, n),
    decreases ls.len() - i,
{
    lemma_inserted_lines(ls, out, at, ground);
    reveal_strlit("");
    if i == ls.len() {
        if at == ls.len() {
            assert(out[i as int] == ""@);
            assert(is_blank(out[i as int]));
        }
    } else if i == at {
        assert(is_blank(out[at as int]));
    } else {
        assert(out[shift(at, i as int)] == ls[i as int]);
        if !is_blank(ls[i as int]) {
            lemma_starting_lines_transport(ls, out, at, ground, i + 1, n);
            assert(shift(at, i + 1 as int) == shift(at, i as int) + 1);
        }
    }
}

/// The starting configurations read the same from the file with the
/// section inserted.
proof fn lemma_starting_transport(
    ls: Seq<Seq<char>>,
    out: Seq<Seq<char>>,
    at: nat,
    ground: Seq<char>,
    c: nat,
    n: nat,
)
    requires
        insertion(ls, out, at, ground),
        c <= ls.len(),
    ensures
        starting_step(out, shift(at, c as int) as nat, n) == starting_step(ls, c, n),
{
    let p = "$starting_configs"@;
    reveal_strlit("$starting_configs");
    lemma_find_transport(ls, out, at, ground, p, c);
    if find_line(ls, c, p) is Some {
        let s = find_line(ls, c, p)->0 as int;
        crate::ising_file::lemma_find_line_found(ls, c, p);
        lemma_keyword_line(ls[s], p);
        lemma_run(ls, out, at, ground, s, 0);
        lemma_starting_lines_transport(ls, out, at, ground, (s + 1) as nat, n);
    }
}

/// Writing a ground state into a model file changes nothing else that the
/// file is read for: read back, it holds the same temperature, seed, side
/// lengths, weights, magnetic moment, field and starting configurations as
/// before, and the written configuration as its ground state (for a
/// configuration of as many points as the grid has, at least one).
pub proof fn lemma_ground_state_keeps_file(
    ls: Seq<Seq<char>>,
    config: Seq<bool>,
    out: Seq<Seq<char>>,
)
    requires
        ising_file_spec(ls) is Ok,
        config.len() == product(ising_file_spec(ls)->Ok_0.sizes),
        config.len() > 0,
        with_ground_state(ls, config_text(config)) == Ok::<
            Seq<Seq<char>>,
            GroundStateWriteError,
        >(out),
    ensures
        ({
            let f = ising_file_spec(ls)->Ok_0;
            ising_file_spec(out) == Ok::<IsingFileSpec, IsingFileError>(
                IsingFileSpec {
                    temp: f.temp,
                    seed: f.seed,
                    sizes: f.sizes,
                    weight_tokens: f.weight_tokens,
                    weight_slots: f.weight_slots,
                    mu: f.mu,
                    field: f.field,
                    starting: f.starting,
                    ground: GroundStateSpec::Config(config),
                },
            )
        }),
{
    let g = config_text(config);
    lemma_config_text_first(config);
    let t = anchor_line(ls)->0;
    if find_line(ls, 0, "$starting_configs"@) is Some {
        crate::ising_file::lemma_find_line_found(ls, 0, "$starting_configs"@);
    } else {
        crate::ising_file::lemma_find_line_found(ls, 0, "$external_magnetic_field"@);
    }
    let at = first_blank(ls, t + 1);
    lemma_first_blank_bound(ls, t + 1);
    lemma_first_blank_is_blank(ls, t + 1);
    assert(insertion(ls, out, at, g));
    reveal_strlit("$temp");
    reveal_strlit("$mu");
    assert(other_keyword("$temp"@));
    assert(other_keyword("$mu"@));
    let (temp, c1) = temp_step(ls)->Ok_0;
    lemma_value_after_transport(
        ls,
        out,
        at,
        g,
        0,
        "$temp"@,
        IsingFileError::NoTemperature,
        IsingFileError::NoTemperatureLine,
        IsingFileError::BlankTemperature,
    );
    assert(temp_step(out) == Ok::<(Seq<char>, nat), IsingFileError>((temp, shift(at, c1 as int) as nat)));
    let (seed, c2) = seed_step(ls, c1)->Ok_0;
    lemma_seed_transport(ls, out, at, g, c1);
    let (sizes, c3) = sizes_step(ls, c2)->Ok_0;
    lemma_sizes_transport(ls, out, at, g, c2);
    let (wt, ws, c4) = weights_step(ls, c3, sizes)->Ok_0;
    lemma_weights_transport(ls, out, at, g, c3, sizes);
    let (mu, c5) = value_after(
        ls,
        c4,
        "$mu"@,
        IsingFileError::NoMu,
        IsingFileError::NoMu,
        IsingFileError::BlankMu,
    )->Ok_0;
    lemma_value_after_transport(
        ls,
        out,
        at,
        g,
        c4,
        "$mu"@,
        IsingFileError::NoMu,
        IsingFileError::NoMu,
        IsingFileError::BlankMu,
    );
    let (field, c6) = field_step(ls, c5, product(sizes))->Ok_0;
    lemma_field_transport(ls, out, at, g, c5, product(sizes));
    lemma_starting_transport(ls, out, at, g, c6, product(sizes));
    lemma_ground_state_round_trip(ls, config, out);
}

} // verus!
