//! Text as sequences of characters: the vocabulary in which the contracts of
//! this crate speak of strings, and the string operations that the rules need.
use vstd::prelude::*;

verus! {

/// The index of the first `c` in `s`, or the length of `s` where there is none.
pub open spec fn position(s: Seq<char>, c: char) -> int
    decreases s.len(),
{
    if s.len() == 0 || s[0] == c {
        0
    } else {
        1 + position(s.drop_first(), c)
    }
}

/// What stands before the first `c` of `s`: all of `s` where there is none.
pub open spec fn before(s: Seq<char>, c: char) -> Seq<char> {
    s.take(position(s, c))
}

/// What stands after the first `c` of `s`.
pub open spec fn after(s: Seq<char>, c: char) -> Seq<char>
    recommends
        s.contains(c),
{
    s.skip(position(s, c) + 1)
}

/// The pieces of `s` between the separators `c`: one more than there are separators.
pub open spec fn pieces(s: Seq<char>, c: char) -> Seq<Seq<char>>
    decreases s.len(),
{
    if 0 <= position(s, c) < s.len() {
        seq![before(s, c)] + pieces(after(s, c), c)
    } else {
        seq![s]
    }
}

/// The parts one after another, with `sep` between each two neighbours.
pub open spec fn joined(parts: Seq<Seq<char>>, sep: Seq<char>) -> Seq<char>
    decreases parts.len(),
{
    if parts.len() == 0 {
        Seq::empty()
    } else if parts.len() == 1 {
        parts[0]
    } else {
        parts[0] + sep + joined(parts.drop_first(), sep)
    }
}

/// Whether `pat` stands in `s` at index `i`.
pub open spec fn occurs_at(s: Seq<char>, pat: Seq<char>, i: int) -> bool {
    0 <= i && i + pat.len() <= s.len() && s.subrange(i, i + pat.len()) == pat
}

/// The index of the first occurrence of `pat` in `s` at or after `from`.
pub open spec fn occurrence(s: Seq<char>, pat: Seq<char>, from: int) -> Option<int>
    decreases s.len() + 1 - from,
{
    if from < 0 || from + pat.len() > s.len() {
        None
    } else if occurs_at(s, pat, from) {
        Some(from)
    } else {
        occurrence(s, pat, from + 1)
    }
}

/// Whether `pat` stands anywhere in `s`.
pub open spec fn occurs(s: Seq<char>, pat: Seq<char>) -> bool {
    exists|i: int| occurs_at(s, pat, i)
}

/// `s` with every occurrence of `pat` replaced by `to`, found from left to
/// right without overlap.
pub open spec fn replaced(s: Seq<char>, pat: Seq<char>, to: Seq<char>) -> Seq<char>
    decreases s.len(),
{
    match occurrence(s, pat, 0) {
        Some(i) => if pat.len() > 0 && 0 <= i && i + pat.len() <= s.len() {
            s.take(i) + to + replaced(s.skip(i + pat.len()), pat, to)
        } else {
            s
        },
        None => s,
    }
}

/// The texts of a list of string slices.
pub open spec fn slices(parts: Seq<&str>) -> Seq<Seq<char>> {
    parts.map_values(|part: &str| part@)
}

/// The texts of a list of strings.
pub open spec fn texts(parts: Seq<String>) -> Seq<Seq<char>> {
    parts.map_values(|part: String| part@)
}

/// The characters of a string slice.
pub fn chars_of(s: &str) -> (chars: Vec<char>)
    ensures
        chars@ == s@,
{
    let mut chars: Vec<char> = Vec::new();
    for c in it: s.chars()
        invariant
            chars@ == it.seq().take(it.index() as int),
    {
        chars.push(c);
    }
    chars
}

/// Whether two string slices hold the same text.
pub fn same(a: &str, b: &str) -> (r: bool)
    ensures
        r == (a@ == b@),
{
    let x: Vec<char> = chars_of(a);
    let y: Vec<char> = chars_of(b);
    if x.len() != y.len() {
        return false;
    }
    let mut i: usize = 0;
    while i < x.len()
        invariant
            i <= x.len(),
            x.len() == y.len(),
            x@ == a@,
            y@ == b@,
            forall|k: int| 0 <= k < i ==> x@[k] == y@[k],
        decreases x.len() - i,
    {
        if x[i] != y[i] {
            return false;
        }
        i += 1;
    }
    assert(a@ =~= b@);
    true
}

/// Whether `s` begins with `prefix`.
pub fn starts_with(s: &str, prefix: &str) -> (r: bool)
    ensures
        r == prefix@.is_prefix_of(s@),
{
    let x: Vec<char> = chars_of(s);
    let p: Vec<char> = chars_of(prefix);
    if p.len() > x.len() {
        return false;
    }
    let mut i: usize = 0;
    while i < p.len()
        invariant
            i <= p.len() <= x.len(),
            x@ == s@,
            p@ == prefix@,
            forall|k: int| 0 <= k < i ==> x@[k] == p@[k],
        decreases p.len() - i,
    {
        if x[i] != p[i] {
            assert(s@.subrange(0, p@.len() as int)[i as int] != p@[i as int]);
            return false;
        }
        i += 1;
    }
    true
}

/// `position` is the index of a `c` that has no `c` before it.
pub proof fn lemma_position_at(s: Seq<char>, c: char, k: int)
    requires
        0 <= k <= s.len(),
        k < s.len() ==> s[k] == c,
        forall|j: int| 0 <= j < k ==> s[j] != c,
    ensures
        position(s, c) == k,
    decreases s.len(),
{
    if k > 0 {
        lemma_position_at(s.drop_first(), c, k - 1);
    }
}

/// What `position` says of the characters of `s`.
pub proof fn lemma_position(s: Seq<char>, c: char)
    ensures
        0 <= position(s, c) <= s.len(),
        position(s, c) < s.len() ==> s[position(s, c)] == c,
        forall|j: int| 0 <= j < position(s, c) ==> s[j] != c,
        s.contains(c) <==> position(s, c) < s.len(),
    decreases s.len(),
{
    if s.len() > 0 && s[0] != c {
        lemma_position(s.drop_first(), c);
        assert forall|j: int| 0 <= j < position(s, c) implies s[j] != c by {
            if j > 0 {
                assert(s.drop_first()[j - 1] == s[j]);
            }
        }
        if s.contains(c) {
            let i = s.index_of(c);
            assert(s.drop_first()[i - 1] == c);
        }
    }
}

/// The first occurrence of `pat` is one, and none stands between `from` and it.
pub proof fn lemma_occurrence(s: Seq<char>, pat: Seq<char>, from: int)
    requires
        0 <= from,
    ensures
        match occurrence(s, pat, from) {
            Some(i) => from <= i && occurs_at(s, pat, i) && forall|j: int|
                from <= j < i ==> !occurs_at(s, pat, j),
            None => forall|j: int| from <= j ==> !occurs_at(s, pat, j),
        },
    decreases s.len() + 1 - from,
{
    if from + pat.len() <= s.len() && !occurs_at(s, pat, from) {
        lemma_occurrence(s, pat, from + 1);
    }
}

/// An occurrence with none before it is the first one.
pub proof fn lemma_occurrence_at(s: Seq<char>, pat: Seq<char>, from: int, k: int)
    requires
        0 <= from <= k,
        occurs_at(s, pat, k),
        forall|j: int| from <= j < k ==> !occurs_at(s, pat, j),
    ensures
        occurrence(s, pat, from) == Some(k),
    decreases k - from,
{
    if from < k {
        lemma_occurrence_at(s, pat, from + 1, k);
    }
}

/// Whether the text holds the character.
pub fn has_char(s: &str, c: char) -> (r: bool)
    ensures
        r == s@.contains(c),
{
    let x: Vec<char> = chars_of(s);
    let mut i: usize = 0;
    while i < x.len()
        invariant
            i <= x.len(),
            x@ == s@,
            forall|k: int| 0 <= k < i ==> s@[k] != c,
        decreases x.len() - i,
    {
        if x[i] == c {
            assert(s@[i as int] == c);
            return true;
        }
        i += 1;
    }
    false
}

/// The index of the first `c` in `s`, or the number of characters of `s`.
pub fn find_char(s: &str, c: char) -> (at: usize)
    ensures
        at == position(s@, c),
        at <= s@.len(),
{
    let x: Vec<char> = chars_of(s);
    let mut i: usize = 0;
    while i < x.len() && x[i] != c
        invariant
            i <= x.len(),
            x@ == s@,
            forall|k: int| 0 <= k < i ==> s@[k] != c,
        decreases x.len() - i,
    {
        i += 1;
    }
    proof {
        lemma_position_at(s@, c, i as int);
    }
    i
}

/// What stands before the first `c` of `s`: all of `s` where there is none.
pub fn head<'a>(s: &'a str, c: char) -> (r: &'a str)
    ensures
        r@ == before(s@, c),
{
    let at: usize = find_char(s, c);
    s.substring_char(0, at)
}

/// What stands before and after the first `c` of `s`, where there is one.
pub fn split_once<'a>(s: &'a str, c: char) -> (r: Option<(&'a str, &'a str)>)
    ensures
        r is Some <==> s@.contains(c),
        r matches Some(parts) ==> parts.0@ == before(s@, c) && parts.1@ == after(s@, c),
{
    let at: usize = find_char(s, c);
    proof {
        lemma_position(s@, c);
    }
    let n: usize = s.unicode_len();
    if at < n {
        Some((s.substring_char(0, at), s.substring_char(at + 1, n)))
    } else {
        None
    }
}

/// The pieces of `s` between the separators `c`.
pub fn split<'a>(s: &'a str, c: char) -> (parts: Vec<&'a str>)
    ensures
        slices(parts@) == pieces(s@, c),
{
    let x: Vec<char> = chars_of(s);
    let mut parts: Vec<&'a str> = Vec::new();
    let mut start: usize = 0;
    let mut i: usize = 0;
    assert(s@.skip(0) =~= s@);
    assert(slices(parts@) =~= Seq::<Seq<char>>::empty());
    while i < x.len()
        invariant
            start <= i <= x.len(),
            x@ == s@,
            slices(parts@) + pieces(s@.skip(start as int), c) == pieces(s@, c),
            forall|k: int| start <= k < i ==> s@[k] != c,
        decreases x.len() - i,
    {
        if x[i] == c {
            let ghost rest = s@.skip(start as int);
            let ghost before_push = slices(parts@);
            proof {
                lemma_position_at(rest, c, i - start);
            }
            let part = s.substring_char(start, i);
            parts.push(part);
            proof {
                assert(part@ =~= before(rest, c));
                assert(s@.skip(i + 1) =~= after(rest, c));
                assert(slices(parts@) =~= before_push.push(part@));
                assert(slices(parts@) + pieces(s@.skip(i + 1), c) =~= before_push + pieces(
                    rest,
                    c,
                ));
            }
            start = i + 1;
        }
        i += 1;
    }
    let ghost rest = s@.skip(start as int);
    let ghost before_push = slices(parts@);
    proof {
        lemma_position_at(rest, c, rest.len() as int);
    }
    let part = s.substring_char(start, x.len());
    parts.push(part);
    proof {
        assert(part@ =~= rest);
        assert(slices(parts@) =~= before_push + seq![rest]);
    }
    parts
}

/// Whether `pat` stands in `s` at index `at`, over the characters of both.
fn stands_at(s: &Vec<char>, pat: &Vec<char>, at: usize) -> (r: bool)
    requires
        at + pat@.len() <= s@.len(),
    ensures
        r == occurs_at(s@, pat@, at as int),
{
    let mut i: usize = 0;
    while i < pat.len()
        invariant
            i <= pat.len(),
            at + pat.len() <= s.len(),
            forall|k: int| 0 <= k < i ==> s@[at + k] == pat@[k],
        decreases pat.len() - i,
    {
        if s[at + i] != pat[i] {
            assert(s@.subrange(at as int, at + pat@.len())[i as int] != pat@[i as int]);
            return false;
        }
        i += 1;
    }
    assert(s@.subrange(at as int, at + pat@.len()) =~= pat@);
    true
}

/// The index of the first occurrence of `pat` in `s` at or after `from`.
fn find_from(s: &Vec<char>, pat: &Vec<char>, from: usize) -> (r: Option<usize>)
    requires
        from <= s@.len(),
    ensures
        match r {
            Some(i) => occurrence(s@, pat@, from as int) == Some(i as int) && from <= i && i
                + pat@.len() <= s@.len(),
            None => occurrence(s@, pat@, from as int) is None,
        },
{
    let mut i: usize = from;
    while pat.len() <= s.len() && i <= s.len() - pat.len()
        invariant
            from <= i,
            occurrence(s@, pat@, from as int) == occurrence(s@, pat@, i as int),
        decreases s.len() + 1 - i,
    {
        if stands_at(s, pat, i) {
            return Some(i);
        }
        assert(pat@.len() == 0 ==> s@.subrange(i as int, i as int) =~= pat@);
        i += 1;
    }
    None
}

/// Whether `pat` stands anywhere in `s`.
pub fn contains(s: &str, pat: &str) -> (r: bool)
    ensures
        r == occurs(s@, pat@),
{
    let x: Vec<char> = chars_of(s);
    let p: Vec<char> = chars_of(pat);
    proof {
        lemma_occurrence(s@, pat@, 0);
    }
    find_from(&x, &p, 0).is_some()
}

/// `s` with every occurrence of `pat` replaced by `to`.
pub fn replace(s: &str, pat: &str, to: &str) -> (r: String)
    requires
        pat@.len() > 0,
    ensures
        r@ == replaced(s@, pat@, to@),
{
    let x: Vec<char> = chars_of(s);
    let p: Vec<char> = chars_of(pat);
    let mut r: String = String::new();
    let mut start: usize = 0;
    assert(s@.skip(0) =~= s@);
    assert(r@ + replaced(s@, pat@, to@) =~= replaced(s@, pat@, to@));
    loop
        invariant
            x@ == s@,
            p@ == pat@,
            pat@.len() > 0,
            start <= x.len(),
            r@ + replaced(s@.skip(start as int), pat@, to@) == replaced(s@, pat@, to@),
        decreases x.len() - start,
    {
        let ghost rest = s@.skip(start as int);
        match find_from(&x, &p, start) {
            Some(at) => {
                let ghost before_append = r@;
                proof {
                    lemma_occurrence_shift(s@, pat@, start as int);
                }
                r.append(s.substring_char(start, at));
                r.append(to);
                proof {
                    assert(s@.subrange(start as int, at as int) =~= rest.take(at - start));
                    assert(s@.skip(at + pat@.len()) =~= rest.skip(at - start + pat@.len()));
                    assert(r@ + replaced(s@.skip(at + pat@.len()), pat@, to@) =~= before_append
                        + replaced(rest, pat@, to@));
                }
                start = at + p.len();
            },
            None => {
                proof {
                    lemma_occurrence_shift(s@, pat@, start as int);
                }
                r.append(s.substring_char(start, x.len()));
                assert(s@.subrange(start as int, x@.len() as int) =~= rest);
                return r;
            },
        }
    }
}

/// Occurrences from `from` on are those of the text that begins there.
pub proof fn lemma_occurrence_shift(s: Seq<char>, pat: Seq<char>, from: int)
    requires
        0 <= from <= s.len(),
    ensures
        occurrence(s.skip(from), pat, 0) == match occurrence(s, pat, from) {
            Some(i) => Some(i - from),
            None => None::<int>,
        },
{
    let rest = s.skip(from);
    lemma_occurrence(s, pat, from);
    lemma_occurrence(rest, pat, 0);
    assert forall|j: int| 0 <= j implies occurs_at(rest, pat, j) == occurs_at(s, pat, from + j) by {
        if j + pat.len() <= rest.len() {
            assert(rest.subrange(j, j + pat.len()) =~= s.subrange(
                from + j,
                from + j + pat.len(),
            ));
        }
    }
    match occurrence(s, pat, from) {
        Some(i) => {
            assert(occurs_at(rest, pat, i - from));
            lemma_occurrence_at(rest, pat, 0, i - from);
        },
        None => {},
    }
}

/// The parts one after another, with `sep` between each two neighbours.
pub fn join(parts: &[String], sep: &str) -> (r: String)
    ensures
        r@ == joined(texts(parts@), sep@),
{
    let n: usize = parts.len();
    let ghost all = texts(parts@);
    let mut r: String = String::new();
    if n == 0 {
        return r;
    }
    let mut i: usize = 0;
    assert(all.skip(0) =~= all);
    assert(r@ + joined(all, sep@) =~= joined(all, sep@));
    while i < n - 1
        invariant
            i < n,
            n == parts@.len(),
            all == texts(parts@),
            r@ + joined(all.skip(i as int), sep@) == joined(all, sep@),
        decreases n - i,
    {
        let ghost before_append = r@;
        r.append(parts[i].as_str());
        r.append(sep);
        proof {
            let rest = all.skip(i as int);
            assert(rest[0] == parts@[i as int]@);
            assert(all.skip(i + 1) =~= rest.drop_first());
            assert(r@ + joined(all.skip(i + 1), sep@) =~= before_append + joined(rest, sep@));
        }
        i += 1;
    }
    r.append(parts[i].as_str());
    proof {
        let rest = all.skip(i as int);
        assert(rest.len() == 1);
        assert(rest[0] == parts@[i as int]@);
    }
    r
}

} // verus!
