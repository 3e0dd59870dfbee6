//! Taking texts apart.
use vstd::prelude::*;

verus! {

/// Whether a character is white space.
pub open spec fn is_white(c: char) -> bool {
    ||| '\u{9}' <= c <= '\u{d}'
    ||| c == ' '
    ||| c == '\u{85}'
    ||| c == '\u{a0}'
    ||| c == '\u{1680}'
    ||| '\u{2000}' <= c <= '\u{200a}'
    ||| c == '\u{2028}'
    ||| c == '\u{2029}'
    ||| c == '\u{202f}'
    ||| c == '\u{205f}'
    ||| c == '\u{3000}'
}

/// Whether a character is white space.
pub fn white(c: char) -> (r: bool)
    ensures
        r == is_white(c),
{
    ('\u{9}' <= c && c <= '\u{d}') || c == ' ' || c == '\u{85}' || c == '\u{a0}' || c == '\u{1680}'
        || ('\u{2000}' <= c && c <= '\u{200a}') || c == '\u{2028}' || c == '\u{2029}' || c
        == '\u{202f}' || c == '\u{205f}' || c == '\u{3000}'
}

/// The text without the characters at its start that satisfy `p`.
pub open spec fn trimmed_start(s: Seq<char>, p: spec_fn(char) -> bool) -> Seq<char>
    decreases s.len(),
{
    if s.len() > 0 && p(s[0]) {
        trimmed_start(s.drop_first(), p)
    } else {
        s
    }
}

/// The text without the characters at its end that satisfy `p`.
pub open spec fn trimmed_end(s: Seq<char>, p: spec_fn(char) -> bool) -> Seq<char>
    decreases s.len(),
{
    if s.len() > 0 && p(s.last()) {
        trimmed_end(s.drop_last(), p)
    } else {
        s
    }
}

/// [`is_white`] as a function.
pub open spec fn whites() -> spec_fn(char) -> bool {
    |c: char| is_white(c)
}

/// The text without white space around it.
pub open spec fn trimmed(s: Seq<char>) -> Seq<char> {
    trimmed_end(trimmed_start(s, whites()), whites())
}

/// Whether a character is a round bracket.
pub open spec fn round() -> spec_fn(char) -> bool {
    |c: char| c == '(' || c == ')'
}

/// The text without round brackets around it.
pub open spec fn bare(s: Seq<char>) -> Seq<char> {
    trimmed_end(trimmed_start(s, round()), round())
}

proof fn lemma_trimmed_start(s: Seq<char>, p: spec_fn(char) -> bool, i: int)
    requires
        0 <= i <= s.len(),
        forall|k: int| 0 <= k < i ==> p(#[trigger] s[k]),
        i < s.len() ==> !p(s[i]),
    ensures
        trimmed_start(s, p) == s.skip(i),
    decreases i,
{
    if i > 0 {
        assert(p(s[0]));
        lemma_trimmed_start(s.drop_first(), p, i - 1);
        assert(s.drop_first().skip(i - 1) =~= s.skip(i));
    } else {
        assert(s.skip(0) =~= s);
    }
}

proof fn lemma_trimmed_end(s: Seq<char>, p: spec_fn(char) -> bool, i: int)
    requires
        0 <= i <= s.len(),
        forall|k: int| i <= k < s.len() ==> p(#[trigger] s[k]),
        i > 0 ==> !p(s[i - 1]),
    ensures
        trimmed_end(s, p) == s.take(i),
    decreases s.len(),
{
    if i < s.len() {
        assert(p(s[s.len() - 1]));
        lemma_trimmed_end(s.drop_last(), p, i);
        assert(s.drop_last().take(i) =~= s.take(i));
    } else {
        assert(s.take(i) =~= s);
    }
}

/// A part of a text.
pub fn part(s: &Vec<char>, from: usize, to: usize) -> (r: Vec<char>)
    requires
        from <= to <= s@.len(),
    ensures
        r@ == s@.subrange(from as int, to as int),
{
    let mut r: Vec<char> = Vec::new();
    for i in from..to
        invariant
            from <= i <= to <= s@.len(),
            r@ == s@.subrange(from as int, i as int),
    {
        r.push(s[i]);
        assert(r@ =~= s@.subrange(from as int, i + 1));
    }
    r
}

/// The text without white space around it.
pub fn trim(s: &Vec<char>) -> (r: Vec<char>)
    ensures
        r@ == trimmed(s@),
{
    let mut i: usize = 0;
    while i < s.len() && white(s[i])
        invariant
            i <= s@.len(),
            forall|k: int| 0 <= k < i ==> is_white(#[trigger] s@[k]),
        decreases s@.len() - i,
    {
        i = i + 1;
    }
    proof {
        assert forall|k: int| 0 <= k < i implies whites()(#[trigger] s@[k]) by {
            assert(is_white(s@[k]));
        }
        lemma_trimmed_start(s@, whites(), i as int);
    }
    let ghost t = s@.skip(i as int);
    let mut j: usize = s.len();
    while j > i && white(s[j - 1])
        invariant
            i <= j <= s@.len(),
            forall|k: int| j <= k < s@.len() ==> is_white(#[trigger] s@[k]),
        decreases j,
    {
        j = j - 1;
    }
    proof {
        assert forall|k: int| j - i <= k < t.len() implies whites()(#[trigger] t[k]) by {
            assert(is_white(s@[i + k]));
        }
        lemma_trimmed_end(t, whites(), j - i);
        assert(t.take(j - i) =~= s@.subrange(i as int, j as int));
    }
    part(s, i, j)
}

/// The text without round brackets around it.
pub fn trim_round(s: &Vec<char>) -> (r: Vec<char>)
    ensures
        r@ == bare(s@),
{
    let mut i: usize = 0;
    while i < s.len() && (s[i] == '(' || s[i] == ')')
        invariant
            i <= s@.len(),
            forall|k: int| 0 <= k < i ==> (#[trigger] s@[k] == '(' || s@[k] == ')'),
        decreases s@.len() - i,
    {
        i = i + 1;
    }
    proof {
        assert forall|k: int| 0 <= k < i implies round()(#[trigger] s@[k]) by {}
        lemma_trimmed_start(s@, round(), i as int);
    }
    let ghost t = s@.skip(i as int);
    let mut j: usize = s.len();
    while j > i && (s[j - 1] == '(' || s[j - 1] == ')')
        invariant
            i <= j <= s@.len(),
            forall|k: int| j <= k < s@.len() ==> (#[trigger] s@[k] == '(' || s@[k] == ')'),
        decreases j,
    {
        j = j - 1;
    }
    proof {
        assert forall|k: int| j - i <= k < t.len() implies round()(#[trigger] t[k]) by {
            assert(t[k] == s@[i + k]);
        }
        lemma_trimmed_end(t, round(), j - i);
        assert(t.take(j - i) =~= s@.subrange(i as int, j as int));
    }
    part(s, i, j)
}

/// Whether `p` stands in `s` at `i`.
pub open spec fn occurs_at(s: Seq<char>, p: Seq<char>, i: int) -> bool {
    0 <= i && i + p.len() <= s.len() && s.subrange(i, i + p.len()) == p
}

/// The first place from `i` on at which `p` stands in `s`.
pub open spec fn place_from(s: Seq<char>, p: Seq<char>, i: int) -> Option<int>
    decreases s.len() + 1 - i,
{
    if i + p.len() > s.len() {
        None
    } else if occurs_at(s, p, i) {
        Some(i)
    } else {
        place_from(s, p, i + 1)
    }
}

/// Whether `p` stands in `s`.
pub open spec fn has_part(s: Seq<char>, p: Seq<char>) -> bool {
    place_from(s, p, 0) is Some
}

/// What stands before and behind the first `p` in `s`.
pub open spec fn split_once(s: Seq<char>, p: Seq<char>) -> Option<(Seq<char>, Seq<char>)> {
    match place_from(s, p, 0) {
        Some(i) => Some((s.take(i), s.skip(i + p.len()))),
        None => None,
    }
}

/// What stands before the first `p` in `s`, or all of it.
pub open spec fn before(s: Seq<char>, p: Seq<char>) -> Seq<char> {
    match split_once(s, p) {
        Some((a, _)) => a,
        None => s,
    }
}

/// Whether a text stands at a place of another.
fn stands_at(s: &Vec<char>, p: &Vec<char>, i: usize) -> (r: bool)
    requires
        i + p@.len() <= s@.len(),
    ensures
        r == occurs_at(s@, p@, i as int),
{
    let n: usize = s.len();
    let m: usize = p.len();
    let ghost t = s@.subrange(i as int, i + p@.len());
    for j in 0..m
        invariant
            n == s@.len(),
            m == p@.len(),
            i + m <= n,
            t == s@.subrange(i as int, i + p@.len()),
            forall|k: int| 0 <= k < j ==> t[k] == p@[k],
    {
        assert(t[j as int] == s@[i + j]);
        if s[i + j] != p[j] {
            return false;
        }
    }
    assert(t =~= p@);
    true
}

/// The first place at which a text stands in another.
pub fn place_of(s: &Vec<char>, p: &str) -> (r: Option<usize>)
    ensures
        match r {
            Some(i) => place_from(s@, p@, 0) == Some(i as int) && i + p@.len() <= s@.len(),
            None => place_from(s@, p@, 0) is None,
        },
{
    let q: Vec<char> = crate::text::to_chars(p);
    let n: usize = s.len();
    let m: usize = q.len();
    let mut i: usize = 0;
    while i < n && m <= n - i
        invariant
            n == s@.len(),
            m == p@.len(),
            q@ == p@,
            i <= n,
            place_from(s@, p@, 0) == place_from(s@, p@, i as int),
        decreases n - i,
    {
        if stands_at(s, &q, i) {
            return Some(i);
        }
        i = i + 1;
    }
    if m == 0 {
        assert(s@.subrange(i as int, i as int) =~= p@);
        return Some(i);
    }
    None
}

/// Whether a text stands in another.
pub fn contains(s: &Vec<char>, p: &str) -> (r: bool)
    ensures
        r == has_part(s@, p@),
{
    place_of(s, p).is_some()
}

/// What stands before and behind the first `p` in a text.
pub fn cut(s: &Vec<char>, p: &str) -> (r: Option<(Vec<char>, Vec<char>)>)
    ensures
        match r {
            Some((a, b)) => split_once(s@, p@) == Some((a@, b@)),
            None => split_once(s@, p@) is None,
        },
{
    let m: usize = crate::text::to_chars(p).len();
    match place_of(s, p) {
        Some(i) => {
            let n: usize = s.len();
            let a: Vec<char> = part(s, 0, i);
            let b: Vec<char> = part(s, i + m, n);
            assert(a@ =~= s@.take(i as int));
            assert(b@ =~= s@.skip(i + m));
            Some((a, b))
        },
        None => None,
    }
}

/// What stands between the characters `c` of a text.
pub open spec fn split(s: Seq<char>, c: char) -> Seq<Seq<char>>
    decreases s.len(),
{
    if s.len() == 0 {
        seq![s]
    } else {
        let rest = split(s.drop_last(), c);
        if s.last() == c {
            rest.push(Seq::empty())
        } else {
            rest.update(rest.len() - 1, rest.last().push(s.last()))
        }
    }
}

/// The texts as sequences of characters.
pub open spec fn char_seqs(v: Seq<Vec<char>>) -> Seq<Seq<char>> {
    Seq::new(v.len(), |i: int| v[i]@)
}

/// What stands between the characters `c` of a text.
pub fn split_on(s: &Vec<char>, c: char) -> (r: Vec<Vec<char>>)
    ensures
        char_seqs(r@) == split(s@, c),
        r@.len() > 0,
{
    let mut done: Vec<Vec<char>> = Vec::new();
    let mut last: Vec<char> = Vec::new();
    let n: usize = s.len();
    assert(s@.take(0) =~= Seq::empty());
    assert(char_seqs(done@).push(last@) =~= split(s@.take(0), c)) by {
        assert(last@ =~= s@.take(0));
    }
    for i in 0..n
        invariant
            n == s@.len(),
            char_seqs(done@).push(last@) == split(s@.take(i as int), c),
    {
        let ghost d = char_seqs(done@);
        let ghost l = last@;
        let ghost t = s@.take(i + 1);
        assert(t.drop_last() =~= s@.take(i as int));
        if s[i] == c {
            done.push(last);
            last = Vec::new();
            assert(char_seqs(done@) =~= d.push(l));
            assert(last@ =~= Seq::empty());
        } else {
            last.push(s[i]);
            assert(d.push(last@) =~= d.push(l).update(d.push(l).len() - 1, l.push(s@[i as int])));
        }
    }
    let ghost d = char_seqs(done@);
    let ghost l = last@;
    done.push(last);
    assert(char_seqs(done@) =~= d.push(l));
    assert(s@.take(n as int) =~= s@);
    done
}

/// The text without `p` at its start, however often it stands there.
pub open spec fn without_prefixes(s: Seq<char>, p: Seq<char>) -> Seq<char>
    decreases s.len(),
{
    if p.len() > 0 && occurs_at(s, p, 0) {
        without_prefixes(s.skip(p.len() as int), p)
    } else {
        s
    }
}

/// The text without `p` at its start, however often it stands there.
pub fn strip_all(s: &Vec<char>, p: &str) -> (r: Vec<char>)
    ensures
        r@ == without_prefixes(s@, p@),
{
    let q: Vec<char> = crate::text::to_chars(p);
    let m: usize = q.len();
    let mut i: usize = 0;
    assert(s@.skip(0) =~= s@);
    if m > 0 {
        while m <= s.len() - i && stands_at(s, &q, i)
            invariant
                i <= s@.len(),
                m == q@.len(),
                m > 0,
                without_prefixes(s@, q@) == without_prefixes(s@.skip(i as int), q@),
            decreases s@.len() - i,
        {
            proof {
                let t = s@.skip(i as int);
                assert(t.subrange(0, m as int) =~= s@.subrange(i as int, i + m));
                assert(t.skip(m as int) =~= s@.skip(i + m));
            }
            i = i + m;
        }
        proof {
            let t = s@.skip(i as int);
            if m <= s@.len() - i {
                assert(t.subrange(0, m as int) =~= s@.subrange(i as int, i + m));
            }
        }
    }
    let r: Vec<char> = part(s, i, s.len());
    assert(r@ =~= s@.skip(i as int));
    r
}

} // verus!
