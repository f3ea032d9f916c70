//! Text primitives on the character view of strings: splitting at a
//! separator, joining with one, replacing, trimming and searching.
use vstd::prelude::*;
use vstd::string::*;

verus! {

/// `pat` occurs in `s` starting at position `i`.
pub open spec fn matches_at(s: Seq<char>, pat: Seq<char>, i: int) -> bool {
    0 <= i && i + pat.len() <= s.len() && s.subrange(i, i + pat.len()) == pat
}

/// The leftmost position at or after `i` where `pat` occurs in `s`.
pub open spec fn first_match_from(s: Seq<char>, pat: Seq<char>, i: int) -> Option<int>
    decreases s.len() + 1 - i,
{
    if i < 0 || i + pat.len() > s.len() {
        None
    } else if matches_at(s, pat, i) {
        Some(i)
    } else {
        first_match_from(s, pat, i + 1)
    }
}

/// `s` cut at every leftmost, non-overlapping occurrence of a non-empty
/// `pat`; the pieces keep their order and the occurrences are dropped.
/// An empty `s` gives one empty piece.
pub open spec fn split_seq(s: Seq<char>, pat: Seq<char>) -> Seq<Seq<char>>
    decreases s.len(),
{
    if pat.len() == 0 {
        seq![s]
    } else {
        match first_match_from(s, pat, 0) {
            None => seq![s],
            Some(i) => {
                proof {
                    lemma_first_match(s, pat, 0);
                }
                seq![s.take(i)] + split_seq(s.skip(i + pat.len()), pat)
            },
        }
    }
}

/// The pieces of `parts` written one after another with `sep` between
/// neighbours.
pub open spec fn join_seq(parts: Seq<Seq<char>>, sep: Seq<char>) -> Seq<char>
    decreases parts.len(),
{
    if parts.len() == 0 {
        Seq::empty()
    } else if parts.len() == 1 {
        parts[0]
    } else {
        parts[0] + sep + join_seq(parts.drop_first(), sep)
    }
}

/// Every occurrence of `from` found by `split_seq` replaced by `to`.
pub open spec fn replace_seq(s: Seq<char>, from: Seq<char>, to: Seq<char>) -> Seq<char> {
    join_seq(split_seq(s, from), to)
}

/// `needle` occurs somewhere in `hay`.
pub open spec fn contains_seq(hay: Seq<char>, needle: Seq<char>) -> bool {
    exists|i: int| matches_at(hay, needle, i)
}

/// What `first_match_from` finds: the first occurrence, and nothing before it.
pub proof fn lemma_first_match(s: Seq<char>, pat: Seq<char>, i: int)
    requires
        0 <= i,
    ensures
        match first_match_from(s, pat, i) {
            Some(j) => {
                &&& i <= j
                &&& j + pat.len() <= s.len()
                &&& matches_at(s, pat, j)
                &&& forall|k: int| i <= k < j ==> !matches_at(s, pat, k)
            },
            None => forall|k: int| i <= k ==> !matches_at(s, pat, k),
        },
    decreases s.len() + 1 - i,
{
    if i + pat.len() > s.len() {
    } else if matches_at(s, pat, i) {
    } else {
        lemma_first_match(s, pat, i + 1);
    }
}

/// The first occurrence at or after `i` is `j` when `pat` is at `j` and at
/// no position in between.
pub proof fn lemma_first_match_is(s: Seq<char>, pat: Seq<char>, i: int, j: int)
    requires
        0 <= i <= j,
        matches_at(s, pat, j),
        forall|k: int| i <= k < j ==> !matches_at(s, pat, k),
    ensures
        first_match_from(s, pat, i) == Some(j),
{
    lemma_first_match(s, pat, i);
}

/// No occurrence at or after `i`.
pub proof fn lemma_first_match_none(s: Seq<char>, pat: Seq<char>, i: int)
    requires
        0 <= i,
        forall|k: int| i <= k ==> !matches_at(s, pat, k),
    ensures
        first_match_from(s, pat, i) is None,
{
    lemma_first_match(s, pat, i);
}

/// Occurrences in a suffix are occurrences in the whole, shifted.
pub proof fn lemma_matches_skip(s: Seq<char>, pat: Seq<char>, a: int, k: int)
    requires
        0 <= a <= s.len(),
        0 <= k,
    ensures
        matches_at(s.skip(a), pat, k) <==> matches_at(s, pat, k + a),
{
    if 0 <= k && k + pat.len() <= s.len() - a {
        assert(s.skip(a).subrange(k, k + pat.len()) =~= s.subrange(k + a, k + a + pat.len()));
    }
}

/// The characters of `s`, one by one.
pub fn to_chars(s: &str) -> (r: Vec<char>)
    ensures
        r@ == s@,
{
    let n = s.unicode_len();
    let mut r: Vec<char> = Vec::new();
    let mut i: usize = 0;
    while i < n
        invariant
            n == s@.len(),
            i <= n,
            r@ == s@.take(i as int),
        decreases n - i,
    {
        let c = s.get_char(i);
        r.push(c);
        i = i + 1;
        assert(r@ =~= s@.take(i as int));
    }
    assert(r@ =~= s@);
    r
}

/// Whether `pat` occurs in `s` at position `i`.
pub fn matches_here(s: &Vec<char>, pat: &Vec<char>, i: usize) -> (r: bool)
    ensures
        r == matches_at(s@, pat@, i as int),
{
    let n = s.len();
    let m = pat.len();
    if i > n || m > n - i {
        return false;
    }
    let mut j: usize = 0;
    while j < m
        invariant
            n == s@.len(),
            m == pat@.len(),
            i + m <= n,
            j <= m,
            forall|k: int| 0 <= k < j ==> s@[i + k] == pat@[k],
        decreases m - j,
    {
        if s[i + j] != pat[j] {
            assert(s@.subrange(i as int, i + m)[j as int] != pat@[j as int]);
            return false;
        }
        j = j + 1;
    }
    assert(s@.subrange(i as int, i + m) =~= pat@);
    true
}

/// `s` cut at every occurrence of the non-empty `pat`, as `str::split` does.
pub fn split_str(s: &str, pat: &str) -> (r: Vec<String>)
    requires
        pat@.len() > 0,
    ensures
        r.deep_view() == split_seq(s@, pat@),
{
    let c = to_chars(s);
    let p = to_chars(pat);
    let n = c.len();
    let m = p.len();
    let mut parts: Vec<String> = Vec::new();
    let mut start: usize = 0;
    let mut i: usize = 0;
    assert(c@.skip(0) =~= c@);
    assert(parts.deep_view() + split_seq(c@, p@) =~= split_seq(c@, p@));
    while i < n
        invariant
            c@ == s@,
            p@ == pat@,
            n == c@.len(),
            m == p@.len(),
            m > 0,
            start <= i <= n,
            forall|k: int| start <= k < i ==> !matches_at(c@, p@, k),
            parts.deep_view() + split_seq(c@.skip(start as int), p@) == split_seq(c@, p@),
        decreases n - i,
    {
        if matches_here(&c, &p, i) {
            let ghost rest = c@.skip(start as int);
            proof {
                assert forall|k: int| 0 <= k < i - start implies !matches_at(rest, p@, k) by {
                    lemma_matches_skip(c@, p@, start as int, k);
                }
                lemma_matches_skip(c@, p@, start as int, i - start);
                lemma_first_match_is(rest, p@, 0, i - start);
                assert(rest.take(i - start) =~= c@.subrange(start as int, i as int));
                assert(rest.skip(i - start + m) =~= c@.skip(i + m));
            }
            let piece = s.substring_char(start, i);
            let ghost before = parts.deep_view();
            parts.push(String::from_str(piece));
            proof {
                assert(parts.deep_view() =~= before.push(c@.subrange(start as int, i as int)));
                assert(split_seq(rest, p@) == seq![c@.subrange(start as int, i as int)] + split_seq(
                    c@.skip(i + m),
                    p@,
                ));
                assert(parts.deep_view() + split_seq(c@.skip(i + m), p@) =~= before + split_seq(
                    rest,
                    p@,
                ));
            }
            i = i + m;
            start = i;
        } else {
            i = i + 1;
        }
    }
    let ghost rest = c@.skip(start as int);
    proof {
        assert forall|k: int| 0 <= k implies !matches_at(rest, p@, k) by {
            lemma_matches_skip(c@, p@, start as int, k);
        }
        lemma_first_match_none(rest, p@, 0);
        assert(rest =~= c@.subrange(start as int, n as int));
    }
    let piece = s.substring_char(start, n);
    let ghost before = parts.deep_view();
    parts.push(String::from_str(piece));
    assert(parts.deep_view() =~= before + split_seq(rest, p@));
    parts
}


/// A split never yields an empty list of pieces.
pub proof fn lemma_split_nonempty(s: Seq<char>, pat: Seq<char>)
    ensures
        split_seq(s, pat).len() >= 1,
    decreases s.len(),
{
    if pat.len() > 0 {
        lemma_first_match(s, pat, 0);
        match first_match_from(s, pat, 0) {
            None => {},
            Some(i) => {
                lemma_split_nonempty(s.skip(i + pat.len()), pat);
            },
        }
    }
}

/// Joining a list that ends in `x` appends `sep` and `x` to the join of
/// the rest.
pub proof fn lemma_join_push(parts: Seq<Seq<char>>, sep: Seq<char>, x: Seq<char>)
    ensures
        join_seq(parts.push(x), sep) == if parts.len() == 0 {
            x
        } else {
            join_seq(parts, sep) + sep + x
        },
    decreases parts.len(),
{
    if parts.len() == 0 {
        assert(parts.push(x) =~= seq![x]);
    } else if parts.len() == 1 {
        assert(parts.push(x).drop_first() =~= seq![x]);
        assert(join_seq(seq![x], sep) == x);
        assert(parts.push(x)[0] == parts[0]);
    } else {
        assert(parts.push(x).drop_first() =~= parts.drop_first().push(x));
        lemma_join_push(parts.drop_first(), sep, x);
        assert(join_seq(parts.push(x), sep) =~= join_seq(parts, sep) + sep + x);
    }
}

/// Joining the pieces of a split with the separator gives back the text.
pub proof fn lemma_join_split(s: Seq<char>, pat: Seq<char>)
    requires
        pat.len() > 0,
    ensures
        join_seq(split_seq(s, pat), pat) == s,
    decreases s.len(),
{
    lemma_first_match(s, pat, 0);
    match first_match_from(s, pat, 0) {
        None => {},
        Some(i) => {
            let rest = s.skip(i + pat.len());
            lemma_join_split(rest, pat);
            lemma_split_nonempty(rest, pat);
            let l = split_seq(rest, pat);
            assert((seq![s.take(i)] + l).drop_first() =~= l);
            assert(s =~= s.take(i) + pat + rest);
        },
    }
}

/// No piece of a split holds the separator.
pub proof fn lemma_split_pieces_clean(s: Seq<char>, pat: Seq<char>)
    requires
        pat.len() > 0,
    ensures
        forall|k: int|
            0 <= k < split_seq(s, pat).len() ==> !contains_seq(#[trigger] split_seq(s, pat)[k], pat),
    decreases s.len(),
{
    lemma_first_match(s, pat, 0);
    match first_match_from(s, pat, 0) {
        None => {
            assert forall|k: int| 0 <= k < split_seq(s, pat).len() implies !contains_seq(
                #[trigger] split_seq(s, pat)[k],
                pat,
            ) by {
                assert(split_seq(s, pat)[k] == s);
            }
        },
        Some(i) => {
            let rest = s.skip(i + pat.len());
            lemma_split_pieces_clean(rest, pat);
            let head = s.take(i);
            assert forall|j: int| !matches_at(head, pat, j) by {
                if matches_at(head, pat, j) {
                    assert(head.subrange(j, j + pat.len()) =~= s.subrange(j, j + pat.len()));
                    assert(matches_at(s, pat, j));
                }
            }
            assert forall|k: int| 0 <= k < split_seq(s, pat).len() implies !contains_seq(
                #[trigger] split_seq(s, pat)[k],
                pat,
            ) by {
                if k > 0 {
                    assert(split_seq(s, pat)[k] == split_seq(rest, pat)[k - 1]);
                } else {
                    assert(split_seq(s, pat)[k] == head);
                }
            }
        },
    }
}

/// Splitting at a one-character separator the join of pieces that do not
/// hold it gives back the pieces.
pub proof fn lemma_split_join(parts: Seq<Seq<char>>, sep: Seq<char>)
    requires
        parts.len() >= 1,
        sep.len() == 1,
        forall|k: int| 0 <= k < parts.len() ==> !contains_seq(#[trigger] parts[k], sep),
    ensures
        split_seq(join_seq(parts, sep), sep) == parts,
    decreases parts.len(),
{
    let j = join_seq(parts, sep);
    let a = parts[0];
    assert(!contains_seq(parts[0], sep));
    if parts.len() == 1 {
        assert forall|k: int| 0 <= k implies !matches_at(j, sep, k) by {}
        lemma_first_match_none(j, sep, 0);
        assert(seq![j] =~= parts);
    } else {
        let rest = parts.drop_first();
        let jr = join_seq(rest, sep);
        assert(j == a + sep + jr);
        let i = a.len() as int;
        assert(j.subrange(i, i + 1) =~= sep);
        assert forall|k: int| 0 <= k < i implies !matches_at(j, sep, k) by {
            if matches_at(j, sep, k) {
                assert(a.subrange(k, k + 1) =~= j.subrange(k, k + 1));
                assert(matches_at(a, sep, k));
            }
        }
        lemma_first_match_is(j, sep, 0, i);
        assert forall|k: int| 0 <= k < rest.len() implies !contains_seq(#[trigger] rest[k], sep) by {
            assert(rest[k] == parts[k + 1]);
        }
        lemma_split_join(rest, sep);
        assert(j.take(i) =~= a);
        assert(j.skip(i + 1) =~= jr);
        assert(seq![a] + rest =~= parts);
    }
}

/// The texts of `parts` joined with `sep` between neighbours.
pub fn join_str(parts: &Vec<String>, sep: &str) -> (r: String)
    ensures
        r@ == join_seq(parts.deep_view(), sep@),
{
    let ghost v = parts.deep_view();
    let n = parts.len();
    let mut r = String::new();
    let mut i: usize = 0;
    assert(v.take(0) =~= Seq::<Seq<char>>::empty());
    while i < n
        invariant
            n == parts.len(),
            v == parts.deep_view(),
            i <= n,
            r@ == join_seq(v.take(i as int), sep@),
        decreases n - i,
    {
        if i > 0 {
            r.append(sep);
        }
        r.append(parts[i].as_str());
        proof {
            lemma_join_push(v.take(i as int), sep@, v[i as int]);
            assert(v.take(i + 1) =~= v.take(i as int).push(v[i as int]));
        }
        i = i + 1;
    }
    assert(v.take(n as int) =~= v);
    r
}

/// `s` with every occurrence of the non-empty `from` replaced by `to`, as
/// `str::replace` does.
pub fn replace_str(s: &str, from: &str, to: &str) -> (r: String)
    requires
        from@.len() > 0,
    ensures
        r@ == replace_seq(s@, from@, to@),
{
    let parts = split_str(s, from);
    join_str(&parts, to)
}

/// Whether `needle` occurs in `hay`.
pub fn contains_str(hay: &str, needle: &str) -> (r: bool)
    ensures
        r == contains_seq(hay@, needle@),
{
    let h = to_chars(hay);
    let p = to_chars(needle);
    let n = h.len();
    let mut i: usize = 0;
    while i < n
        invariant
            h@ == hay@,
            p@ == needle@,
            n == h@.len(),
            i <= n,
            forall|k: int| 0 <= k < i ==> !matches_at(h@, p@, k),
        decreases n - i,
    {
        if matches_here(&h, &p, i) {
            return true;
        }
        i = i + 1;
    }
    if matches_here(&h, &p, n) {
        return true;
    }
    assert forall|k: int| !matches_at(h@, p@, k) by {}
    false
}


/// White space as `char::is_whitespace` defines it: the characters with
/// the Unicode property White_Space.
pub open spec fn is_whitespace(c: char) -> bool {
    let u = c as u32;
    ||| 0x9 <= u <= 0xd
    ||| u == 0x20
    ||| u == 0x85
    ||| u == 0xa0
    ||| u == 0x1680
    ||| 0x2000 <= u <= 0x200a
    ||| u == 0x2028
    ||| u == 0x2029
    ||| u == 0x202f
    ||| u == 0x205f
    ||| u == 0x3000
}

/// `s` without its leading white space.
pub open spec fn trim_start_seq(s: Seq<char>) -> Seq<char>
    decreases s.len(),
{
    if s.len() > 0 && is_whitespace(s[0]) {
        trim_start_seq(s.drop_first())
    } else {
        s
    }
}

/// `s` without its trailing white space.
pub open spec fn trim_end_seq(s: Seq<char>) -> Seq<char>
    decreases s.len(),
{
    if s.len() > 0 && is_whitespace(s.last()) {
        trim_end_seq(s.drop_last())
    } else {
        s
    }
}

/// `s` without leading and trailing white space, as `str::trim` gives it.
pub open spec fn trim_seq(s: Seq<char>) -> Seq<char> {
    trim_end_seq(trim_start_seq(s))
}

/// Whether `c` is white space.
pub fn is_whitespace_char(c: char) -> (r: bool)
    ensures
        r == is_whitespace(c),
{
    let u = c as u32;
    (0x9 <= u && u <= 0xd) || u == 0x20 || u == 0x85 || u == 0xa0 || u == 0x1680 || (0x2000 <= u
        && u <= 0x200a) || u == 0x2028 || u == 0x2029 || u == 0x202f || u == 0x205f || u == 0x3000
}

proof fn lemma_trim_start(s: Seq<char>, a: int)
    requires
        0 <= a <= s.len(),
        forall|k: int| 0 <= k < a ==> is_whitespace(s[k]),
        a == s.len() || !is_whitespace(s[a]),
    ensures
        trim_start_seq(s) == s.skip(a),
    decreases a,
{
    if a == 0 {
        assert(s.skip(0) =~= s);
    } else {
        assert forall|k: int| 0 <= k < a - 1 implies is_whitespace(s.drop_first()[k]) by {
            assert(s.drop_first()[k] == s[k + 1]);
        }
        if a - 1 < s.len() - 1 {
            assert(s.drop_first()[a - 1] == s[a]);
        }
        lemma_trim_start(s.drop_first(), a - 1);
        assert(s.drop_first().skip(a - 1) =~= s.skip(a));
    }
}

proof fn lemma_trim_end(s: Seq<char>, b: int)
    requires
        0 <= b <= s.len(),
        forall|k: int| b <= k < s.len() ==> is_whitespace(s[k]),
        b == 0 || !is_whitespace(s[b - 1]),
    ensures
        trim_end_seq(s) == s.take(b),
    decreases s.len() - b,
{
    if b == s.len() {
        assert(s.take(b) =~= s);
    } else {
        assert(s.drop_last().take(b) =~= s.take(b));
        lemma_trim_end(s.drop_last(), b);
    }
}

/// `s` without leading and trailing white space.
pub fn trim_str(s: &str) -> (r: &str)
    ensures
        r@ == trim_seq(s@),
{
    let c = to_chars(s);
    let n = c.len();
    let mut a: usize = 0;
    while a < n && is_whitespace_char(c[a])
        invariant
            c@ == s@,
            n == c@.len(),
            a <= n,
            forall|k: int| 0 <= k < a ==> is_whitespace(c@[k]),
        decreases n - a,
    {
        a = a + 1;
    }
    let mut b: usize = n;
    while b > a && is_whitespace_char(c[b - 1])
        invariant
            c@ == s@,
            n == c@.len(),
            a <= b <= n,
            forall|k: int| b <= k < n ==> is_whitespace(c@[k]),
        decreases b - a,
    {
        b = b - 1;
    }
    proof {
        lemma_trim_start(c@, a as int);
        let t = c@.skip(a as int);
        assert forall|k: int| b - a <= k < t.len() implies is_whitespace(t[k]) by {
            assert(t[k] == c@[k + a]);
        }
        if b > a {
            assert(t[b - a - 1] == c@[b - 1]);
        }
        lemma_trim_end(t, b - a);
        assert(t.take(b - a) =~= c@.subrange(a as int, b as int));
    }
    s.substring_char(a, b)
}

/// `a` comes before `b`, or equals it, in the order of `str`'s `Ord`:
/// lexicographic by character code, a prefix before its extensions.
pub open spec fn lex_le(a: Seq<char>, b: Seq<char>) -> bool
    decreases a.len(),
{
    if a.len() == 0 {
        true
    } else if b.len() == 0 {
        false
    } else if a[0] != b[0] {
        (a[0] as int) < (b[0] as int)
    } else {
        lex_le(a.drop_first(), b.drop_first())
    }
}

/// Any two texts are ordered one way or the other.
pub proof fn lemma_lex_total(a: Seq<char>, b: Seq<char>)
    ensures
        lex_le(a, b) || lex_le(b, a),
    decreases a.len(),
{
    if a.len() > 0 && b.len() > 0 && a[0] == b[0] {
        lemma_lex_total(a.drop_first(), b.drop_first());
    }
}

/// The order is transitive.
pub proof fn lemma_lex_transitive(a: Seq<char>, b: Seq<char>, c: Seq<char>)
    requires
        lex_le(a, b),
        lex_le(b, c),
    ensures
        lex_le(a, c),
    decreases a.len(),
{
    if a.len() > 0 && b.len() > 0 && c.len() > 0 && a[0] == b[0] && b[0] == c[0] {
        lemma_lex_transitive(a.drop_first(), b.drop_first(), c.drop_first());
    }
}

/// Whether `a` comes before `b` or equals it.
pub fn lex_le_chars(a: &Vec<char>, b: &Vec<char>) -> (r: bool)
    ensures
        r == lex_le(a@, b@),
{
    let mut i: usize = 0;
    assert(a@.skip(0) =~= a@);
    assert(b@.skip(0) =~= b@);
    while i < a.len() && i < b.len() && a[i] == b[i]
        invariant
            i <= a@.len(),
            i <= b@.len(),
            lex_le(a@, b@) == lex_le(a@.skip(i as int), b@.skip(i as int)),
        decreases a@.len() - i,
    {
        proof {
            let sa = a@.skip(i as int);
            let sb = b@.skip(i as int);
            assert(sa.drop_first() =~= a@.skip(i + 1));
            assert(sb.drop_first() =~= b@.skip(i + 1));
        }
        i = i + 1;
    }
    proof {
        let sa = a@.skip(i as int);
        let sb = b@.skip(i as int);
        if i < a.len() && i < b.len() {
            assert(sa[0] == a@[i as int]);
            assert(sb[0] == b@[i as int]);
        }
    }
    if i == a.len() {
        true
    } else if i == b.len() {
        false
    } else {
        a[i] < b[i]
    }
}


/// Whether `a` and `b` hold the same characters.
pub fn str_eq(a: &str, b: &str) -> (r: bool)
    ensures
        r == (a@ == b@),
{
    let x = to_chars(a);
    let y = to_chars(b);
    if x.len() != y.len() {
        return false;
    }
    let mut i: usize = 0;
    while i < x.len()
        invariant
            x@ == a@,
            y@ == b@,
            x@.len() == y@.len(),
            i <= x@.len(),
            forall|k: int| 0 <= k < i ==> x@[k] == y@[k],
        decreases x@.len() - i,
    {
        if x[i] != y[i] {
            return false;
        }
        i = i + 1;
    }
    assert(x@ =~= y@);
    true
}


/// The lowercase form of a text under Unicode's case mapping: what
/// `str::to_lowercase` returns.
pub uninterp spec fn lowercase_of(s: Seq<char>) -> Seq<char>;

/// Calls `str::to_lowercase` of std. The contract claims only that the
/// result is a fixed function of the text, named `lowercase_of`; the
/// Unicode case mapping itself is not stated.
#[verifier::external_body]
pub(crate) fn to_lowercase(s: &str) -> (r: String)
    ensures
        r@ == lowercase_of(s@),
{
    s.to_lowercase()
}


/// Replacing a text that does not occur leaves the text unchanged.
pub proof fn law_replace_absent(s: Seq<char>, from: Seq<char>, to: Seq<char>)
    requires
        from.len() > 0,
        !contains_seq(s, from),
    ensures
        replace_seq(s, from, to) == s,
{
    lemma_first_match_none(s, from, 0);
}


/// The character `c` does not occur in `s`.
pub open spec fn lacks_char(s: Seq<char>, c: char) -> bool {
    forall|i: int| 0 <= i < s.len() ==> s[i] != c
}

/// A text without the first character of a pattern holds no occurrence of it.
pub proof fn lemma_lacks_no_match(s: Seq<char>, pat: Seq<char>)
    requires
        pat.len() > 0,
        lacks_char(s, pat[0]),
    ensures
        !contains_seq(s, pat),
{
    assert forall|k: int| !matches_at(s, pat, k) by {
        if matches_at(s, pat, k) {
            assert(s.subrange(k, k + pat.len())[0] == pat[0]);
        }
    }
}

/// Joining pieces and a separator that all lack `c` gives a text that lacks `c`.
pub proof fn lemma_join_lacks(parts: Seq<Seq<char>>, sep: Seq<char>, c: char)
    requires
        forall|k: int| 0 <= k < parts.len() ==> lacks_char(#[trigger] parts[k], c),
        lacks_char(sep, c),
    ensures
        lacks_char(join_seq(parts, sep), c),
    decreases parts.len(),
{
    if parts.len() > 1 {
        let rest = parts.drop_first();
        assert forall|k: int| 0 <= k < rest.len() implies lacks_char(#[trigger] rest[k], c) by {
            assert(rest[k] == parts[k + 1]);
        }
        lemma_join_lacks(rest, sep, c);
        assert(lacks_char(parts[0], c));
        let j = join_seq(parts, sep);
        assert(j == parts[0] + sep + join_seq(rest, sep));
        assert forall|i: int| 0 <= i < j.len() implies j[i] != c by {
            let a = parts[0];
            if i < a.len() {
                assert(j[i] == a[i]);
            } else if i < a.len() + sep.len() {
                assert(j[i] == sep[i - a.len()]);
            } else {
                assert(j[i] == join_seq(rest, sep)[i - a.len() - sep.len()]);
            }
        }
    } else if parts.len() == 1 {
        assert(lacks_char(parts[0], c));
    }
}

/// Splitting the join of pieces that lack the separator's first character
/// at that separator gives back the pieces, whatever the separator's length.
pub proof fn lemma_split_join_marked(parts: Seq<Seq<char>>, sep: Seq<char>)
    requires
        parts.len() >= 1,
        sep.len() > 0,
        forall|k: int| 0 <= k < parts.len() ==> lacks_char(#[trigger] parts[k], sep[0]),
    ensures
        split_seq(join_seq(parts, sep), sep) == parts,
    decreases parts.len(),
{
    let j = join_seq(parts, sep);
    let a = parts[0];
    assert(lacks_char(parts[0], sep[0]));
    if parts.len() == 1 {
        lemma_lacks_no_match(j, sep);
        lemma_first_match_none(j, sep, 0);
        assert(seq![j] =~= parts);
    } else {
        let rest = parts.drop_first();
        let jr = join_seq(rest, sep);
        assert(j == a + sep + jr);
        let i = a.len() as int;
        assert(j.subrange(i, i + sep.len()) =~= sep);
        assert forall|k: int| 0 <= k < i implies !matches_at(j, sep, k) by {
            if matches_at(j, sep, k) {
                assert(j.subrange(k, k + sep.len())[0] == sep[0]);
                assert(j[k] == a[k]);
            }
        }
        lemma_first_match_is(j, sep, 0, i);
        assert forall|k: int| 0 <= k < rest.len() implies lacks_char(#[trigger] rest[k], sep[0]) by {
            assert(rest[k] == parts[k + 1]);
        }
        lemma_split_join_marked(rest, sep);
        assert(j.take(i) =~= a);
        assert(j.skip(i + sep.len()) =~= jr);
        assert(seq![a] + rest =~= parts);
    }
}

/// At a one-character separator, the pieces of `a`, the separator, `b` are
/// the pieces of `a` followed by the pieces of `b`.
pub proof fn lemma_split_concat(a: Seq<char>, sep: Seq<char>, b: Seq<char>)
    requires
        sep.len() == 1,
    ensures
        split_seq(a + sep + b, sep) == split_seq(a, sep) + split_seq(b, sep),
    decreases a.len(),
{
    let s = a + sep + b;
    lemma_first_match(a, sep, 0);
    match first_match_from(a, sep, 0) {
        Some(i) => {
            assert forall|k: int| 0 <= k <= i implies matches_at(s, sep, k) == matches_at(a, sep, k) by {
                assert(k + 1 <= a.len());
                assert(s.subrange(k, k + 1) =~= a.subrange(k, k + 1));
            }
            lemma_first_match_is(s, sep, 0, i);
            let ar = a.skip(i + 1);
            lemma_split_concat(ar, sep, b);
            assert(s.take(i) =~= a.take(i));
            assert(s.skip(i + 1) =~= ar + sep + b);
            assert(split_seq(s, sep) =~= split_seq(a, sep) + split_seq(b, sep));
        },
        None => {
            let i = a.len() as int;
            assert(s.subrange(i, i + 1) =~= sep);
            assert forall|k: int| 0 <= k < i implies !matches_at(s, sep, k) by {
                assert(!matches_at(a, sep, k));
                if k + 1 <= a.len() {
                    assert(s.subrange(k, k + 1) =~= a.subrange(k, k + 1));
                }
            }
            lemma_first_match_is(s, sep, 0, i);
            assert(s.take(i) =~= a);
            assert(s.skip(i + 1) =~= b);
            assert(split_seq(a, sep) == seq![a]);
        },
    }
}

} // verus!
