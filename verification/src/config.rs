//! A bypass configuration file turned into the launch arguments of the
//! service: placeholders filled in, then the text cut into arguments.
use vstd::prelude::*;
use vstd::string::*;
use crate::text::{contains_seq, join_seq, lacks_char, law_replace_absent, lemma_join_lacks, lemma_lacks_no_match, lemma_split_join_marked, lemma_split_nonempty, lemma_join_split, replace_seq, replace_str, split_seq, split_str};

verus! {

/// The game filter value written for the `%GameFilter%` placeholder.
pub const GAME_FILTER_MN: u8 = 12;

/// The character of the decimal digit `d`.
pub open spec fn digit_char(d: int) -> char {
    (48 + d) as char
}

/// The decimal notation of `n`, without leading zeros.
pub open spec fn decimal_seq(n: nat) -> Seq<char>
    decreases n,
{
    if n < 10 {
        seq![digit_char(n as int)]
    } else {
        decimal_seq(n / 10).push(digit_char((n % 10) as int))
    }
}

/// The text of the digit `d`.
fn digit_str(d: u8) -> (r: &'static str)
    requires
        d < 10,
    ensures
        r@ == seq![digit_char(d as int)],
{
    proof {
        reveal_strlit("0");
        reveal_strlit("1");
        reveal_strlit("2");
        reveal_strlit("3");
        reveal_strlit("4");
        reveal_strlit("5");
        reveal_strlit("6");
        reveal_strlit("7");
        reveal_strlit("8");
        reveal_strlit("9");
    }
    match d {
        0 => "0",
        1 => "1",
        2 => "2",
        3 => "3",
        4 => "4",
        5 => "5",
        6 => "6",
        7 => "7",
        8 => "8",
        _ => "9",
    }
}

/// The decimal notation of `n`, as `u8::to_string` writes it.
pub fn decimal_u8(n: u8) -> (r: String)
    ensures
        r@ == decimal_seq(n as nat),
{
    let mut r = String::new();
    if n >= 100 {
        r.append(digit_str(n / 100));
    }
    if n >= 10 {
        r.append(digit_str((n / 10) % 10));
    }
    r.append(digit_str(n % 10));
    proof {
        let m = n as nat;
        if m >= 100 {
            assert(decimal_seq(m / 100) == seq![digit_char((m / 100) as int)]);
            assert((m / 10) / 10 == m / 100);
            assert(decimal_seq(m / 10) == decimal_seq(m / 100).push(digit_char(((m / 10) % 10) as int)));
        } else if m >= 10 {
            assert(decimal_seq(m / 10) == seq![digit_char((m / 10) as int)]);
        }
    }
    r
}

/// The configuration text with its placeholders filled in, in this order:
/// `%GameFilter%` by the game filter value, `%LISTS%` by the lists
/// directory, `%BIN%` by the binaries directory.
pub open spec fn placeholders_filled(data: Seq<char>, lists: Seq<char>, bin: Seq<char>) -> Seq<char> {
    let a = replace_seq(data, "%GameFilter%"@, decimal_seq(GAME_FILTER_MN as nat));
    let b = replace_seq(a, "%LISTS%"@, lists);
    replace_seq(b, "%BIN%"@, bin)
}

/// Fills in the placeholders of a configuration text.
pub fn replace_placeholders(data: &str, lists: &str, bin: &str) -> (r: String)
    ensures
        r@ == placeholders_filled(data@, lists@, bin@),
{
    proof {
        reveal_strlit("%GameFilter%");
        reveal_strlit("%LISTS%");
        reveal_strlit("%BIN%");
    }
    let game = decimal_u8(GAME_FILTER_MN);
    let a = replace_str(data, "%GameFilter%", game.as_str());
    let b = replace_str(a.as_str(), "%LISTS%", lists);
    replace_str(b.as_str(), "%BIN%", bin)
}

/// `--` followed by `x`.
pub open spec fn dashed(x: Seq<char>) -> Seq<char> {
    "--"@ + x
}

/// The launch arguments of the service for a configuration text: the text
/// with its placeholders filled in is cut at every ` --` into pieces
/// `p0, p1, ..., pn`; the arguments are `p0`, then `--p1, ..., --pn`, then
/// `p1, ..., pn`.
pub open spec fn service_args_spec(data: Seq<char>, lists: Seq<char>, bin: Seq<char>) -> Seq<
    Seq<char>,
> {
    let p = split_seq(placeholders_filled(data, lists, bin), " --"@);
    seq![p[0]] + p.skip(1).map_values(|x: Seq<char>| dashed(x)) + p.skip(1)
}

/// The launch arguments of the service for the configuration text `data`,
/// given the lists and binaries directories.
pub fn service_args(data: &str, lists: &str, bin: &str) -> (r: Vec<String>)
    ensures
        r.deep_view() == service_args_spec(data@, lists@, bin@),
{
    proof {
        reveal_strlit(" --");
        reveal_strlit("--");
    }
    let text = replace_placeholders(data, lists, bin);
    let pieces = split_str(text.as_str(), " --");
    let ghost p = pieces.deep_view();
    proof {
        crate::text::lemma_split_nonempty(text@, " --"@);
    }
    let n = pieces.len();
    let mut r: Vec<String> = Vec::new();
    r.push(pieces[0].clone());
    let mut i: usize = 1;
    assert(r.deep_view() =~= seq![p[0]]);
    while i < n
        invariant
            p == pieces.deep_view(),
            n == p.len(),
            1 <= i <= n,
            r.deep_view() == seq![p[0]] + p.subrange(1, i as int).map_values(
                |x: Seq<char>| dashed(x),
            ),
        decreases n - i,
    {
        let mut a = String::from_str("--");
        a.append(pieces[i].as_str());
        let ghost before = r.deep_view();
        r.push(a);
        assert(p.subrange(1, i + 1).map_values(|x: Seq<char>| dashed(x)) =~= p.subrange(
            1,
            i as int,
        ).map_values(|x: Seq<char>| dashed(x)).push(dashed(p[i as int])));
        assert(r.deep_view() =~= before.push(dashed(p[i as int])));
        i = i + 1;
    }
    let ghost head = r.deep_view();
    assert(p.subrange(1, n as int) =~= p.skip(1));
    let mut j: usize = 1;
    while j < n
        invariant
            p == pieces.deep_view(),
            n == p.len(),
            1 <= j <= n,
            r.deep_view() == head + p.subrange(1, j as int),
        decreases n - j,
    {
        let ghost before = r.deep_view();
        r.push(pieces[j].clone());
        assert(r.deep_view() =~= before.push(p[j as int]));
        assert(p.subrange(1, j + 1) =~= p.subrange(1, j as int).push(p[j as int]));
        j = j + 1;
    }
    r
}


/// A configuration text without placeholders is used as it is.
pub proof fn law_no_placeholders(data: Seq<char>, lists: Seq<char>, bin: Seq<char>)
    requires
        !contains_seq(data, "%GameFilter%"@),
        !contains_seq(data, "%LISTS%"@),
        !contains_seq(data, "%BIN%"@),
    ensures
        placeholders_filled(data, lists, bin) == data,
{
    reveal_strlit("%GameFilter%");
    reveal_strlit("%LISTS%");
    reveal_strlit("%BIN%");
    law_replace_absent(data, "%GameFilter%"@, decimal_seq(GAME_FILTER_MN as nat));
    law_replace_absent(data, "%LISTS%"@, lists);
    law_replace_absent(data, "%BIN%"@, bin);
}


/// The arguments for a configuration whose filled-in text has the pieces
/// `p0, ..., p(n-1)` when cut at ` --`: there are `2n - 1` of them, the
/// first is `p0`, argument `i` is `--` followed by `p_i`, and argument
/// `n - 1 + i` is `p_i`, for every `1 <= i < n`.
pub proof fn law_service_args_shape(data: Seq<char>, lists: Seq<char>, bin: Seq<char>)
    ensures
        ({
            let p = split_seq(placeholders_filled(data, lists, bin), " --"@);
            let a = service_args_spec(data, lists, bin);
            let n = p.len() as int;
            &&& n >= 1
            &&& a.len() == 2 * n - 1
            &&& a[0] == p[0]
            &&& forall|i: int| 1 <= i < n ==> a[i] == "--"@ + p[i]
            &&& forall|i: int| 1 <= i < n ==> a[n - 1 + i] == p[i]
        }),
{
    let p = split_seq(placeholders_filled(data, lists, bin), " --"@);
    lemma_split_nonempty(placeholders_filled(data, lists, bin), " --"@);
    let n = p.len() as int;
    let a = service_args_spec(data, lists, bin);
    let m = p.skip(1).map_values(|x: Seq<char>| dashed(x));
    assert(a == seq![p[0]] + m + p.skip(1));
    assert forall|i: int| 1 <= i < n implies a[i] == "--"@ + p[i] by {
        assert(m[i - 1] == dashed(p.skip(1)[i - 1]));
        assert((seq![p[0]] + m)[i] == m[i - 1]);
    }
    assert forall|i: int| 1 <= i < n implies a[n - 1 + i] == p[i] by {
        assert(p.skip(1)[i - 1] == p[i]);
    }
}

/// A text whose only placeholders are `%LISTS%` has each of them replaced
/// by the lists directory: with pieces free of `%` between the
/// placeholders, a lists directory free of `%` and no `%GameFilter%`, the
/// result is the pieces joined with the lists directory.
pub proof fn law_every_lists_placeholder_filled(parts: Seq<Seq<char>>, lists: Seq<char>, bin: Seq<char>)
    requires
        parts.len() >= 1,
        forall|k: int| 0 <= k < parts.len() ==> lacks_char(#[trigger] parts[k], '%'),
        lacks_char(lists, '%'),
        !contains_seq(join_seq(parts, "%LISTS%"@), "%GameFilter%"@),
    ensures
        placeholders_filled(join_seq(parts, "%LISTS%"@), lists, bin) == join_seq(parts, lists),
{
    reveal_strlit("%GameFilter%");
    reveal_strlit("%LISTS%");
    reveal_strlit("%BIN%");
    let data = join_seq(parts, "%LISTS%"@);
    law_replace_absent(data, "%GameFilter%"@, decimal_seq(GAME_FILTER_MN as nat));
    lemma_split_join_marked(parts, "%LISTS%"@);
    let b = join_seq(parts, lists);
    lemma_join_lacks(parts, lists, '%');
    lemma_lacks_no_match(b, "%BIN%"@);
    law_replace_absent(b, "%BIN%"@, bin);
}

/// A text whose only placeholders are `%BIN%` has each of them replaced by
/// the binaries directory.
pub proof fn law_every_bin_placeholder_filled(parts: Seq<Seq<char>>, lists: Seq<char>, bin: Seq<char>)
    requires
        parts.len() >= 1,
        forall|k: int| 0 <= k < parts.len() ==> lacks_char(#[trigger] parts[k], '%'),
        lacks_char(bin, '%'),
        !contains_seq(join_seq(parts, "%BIN%"@), "%GameFilter%"@),
        !contains_seq(join_seq(parts, "%BIN%"@), "%LISTS%"@),
    ensures
        placeholders_filled(join_seq(parts, "%BIN%"@), lists, bin) == join_seq(parts, bin),
{
    reveal_strlit("%GameFilter%");
    reveal_strlit("%LISTS%");
    reveal_strlit("%BIN%");
    let data = join_seq(parts, "%BIN%"@);
    law_replace_absent(data, "%GameFilter%"@, decimal_seq(GAME_FILTER_MN as nat));
    law_replace_absent(data, "%LISTS%"@, lists);
    lemma_split_join_marked(parts, "%BIN%"@);
}

/// A text whose only placeholders are `%GameFilter%` has each of them
/// replaced by the game filter value `12`.
pub proof fn law_every_game_filter_placeholder_filled(parts: Seq<Seq<char>>, lists: Seq<char>, bin: Seq<char>)
    requires
        parts.len() >= 1,
        forall|k: int| 0 <= k < parts.len() ==> lacks_char(#[trigger] parts[k], '%'),
    ensures
        placeholders_filled(join_seq(parts, "%GameFilter%"@), lists, bin) == join_seq(parts, "12"@),
{
    reveal_strlit("%GameFilter%");
    reveal_strlit("%LISTS%");
    reveal_strlit("%BIN%");
    reveal_strlit("12");
    reveal_strlit("1");
    reveal_strlit("2");
    assert(decimal_seq(12) == decimal_seq(1).push(digit_char(2)));
    assert(decimal_seq(12) =~= "12"@);
    let data = join_seq(parts, "%GameFilter%"@);
    lemma_split_join_marked(parts, "%GameFilter%"@);
    let a = join_seq(parts, "12"@);
    assert(lacks_char("12"@, '%'));
    lemma_join_lacks(parts, "12"@, '%');
    lemma_lacks_no_match(a, "%LISTS%"@);
    law_replace_absent(a, "%LISTS%"@, lists);
    lemma_lacks_no_match(a, "%BIN%"@);
    law_replace_absent(a, "%BIN%"@, bin);
}


/// The first piece followed by the other pieces, each after `--`.
pub open spec fn dashed_tail(p: Seq<Seq<char>>) -> Seq<Seq<char>> {
    seq![p[0]] + p.skip(1).map_values(|x: Seq<char>| dashed(x))
}

proof fn lemma_join_dashed(p: Seq<Seq<char>>)
    requires
        p.len() >= 1,
    ensures
        join_seq(dashed_tail(p), " "@) == join_seq(p, " --"@),
    decreases p.len(),
{
    reveal_strlit(" ");
    reveal_strlit("--");
    reveal_strlit(" --");
    let f = dashed_tail(p);
    if p.len() == 1 {
        assert(f =~= seq![p[0]]);
    } else {
        let q = p.drop_first();
        let fq = dashed_tail(q);
        let g = f.drop_first();
        assert(g =~= p.skip(1).map_values(|x: Seq<char>| dashed(x)));
        assert(g[0] == "--"@ + q[0]);
        assert(g.drop_first() =~= fq.drop_first()) by {
            assert(q.skip(1) =~= p.skip(2));
            assert(p.skip(1).drop_first() =~= p.skip(2));
        }
        lemma_join_dashed(q);
        if g.len() == 1 {
            assert(fq =~= seq![q[0]]);
            assert(join_seq(g, " "@) == "--"@ + join_seq(fq, " "@));
        } else {
            assert(fq.len() > 1);
            assert(fq[0] == q[0]);
            assert(join_seq(g, " "@) =~= "--"@ + join_seq(fq, " "@));
        }
        assert(f.len() > 1);
        assert(join_seq(f, " "@) == f[0] + " "@ + join_seq(g, " "@));
        assert(" "@ + "--"@ =~= " --"@);
        assert(join_seq(f, " "@) =~= join_seq(p, " --"@));
    }
}

/// The first `n` arguments, one per piece, joined with spaces give back the
/// configuration text with its placeholders filled in: the arguments split
/// the text at ` --` without losing or adding anything.
pub proof fn law_service_args_rebuild_text(data: Seq<char>, lists: Seq<char>, bin: Seq<char>)
    ensures
        ({
            let text = placeholders_filled(data, lists, bin);
            let n = split_seq(text, " --"@).len() as int;
            join_seq(service_args_spec(data, lists, bin).take(n), " "@) == text
        }),
{
    reveal_strlit(" --");
    let text = placeholders_filled(data, lists, bin);
    let p = split_seq(text, " --"@);
    lemma_split_nonempty(text, " --"@);
    let n = p.len() as int;
    let a = service_args_spec(data, lists, bin);
    assert(a.take(n) =~= dashed_tail(p));
    lemma_join_dashed(p);
    lemma_join_split(text, " --"@);
}

} // verus!
