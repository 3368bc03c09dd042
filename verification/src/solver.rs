//! The constraint matcher: compiles a used-letters string and a slot pattern
//! into a `CompiledConstraint`, scans a newline-delimited corpus for the words
//! that satisfy it, and ranks untried letters by how many candidates contain
//! them.

use vstd::prelude::*;

verus! {

/// A lowercase ASCII letter, the alphabet words and patterns range over.
pub open spec fn is_lower(c: char) -> bool {
    97 <= c as u32 <= 122
}

/// A character a used-letters string or a pattern may hold: a lowercase
/// letter or the wildcard marker `_`.
pub open spec fn is_symbol(c: char) -> bool {
    is_lower(c) || c == '_'
}

pub open spec fn all_symbols(s: Seq<char>) -> bool {
    forall|i: int| 0 <= i < s.len() ==> is_symbol(s[i])
}

/// The set of letters a used-letters string names; wildcard markers in the
/// string carry no constraint and are ignored.
pub open spec fn used_set(s: Seq<char>) -> Set<char> {
    s.to_set().remove('_')
}

/// Why `compile` rejected its input.
#[derive(Clone, Copy, Debug, PartialEq, Eq, Structural)]
pub enum ConstraintError {
    /// The used-letters string holds a character that is neither a lowercase
    /// letter nor the wildcard marker.
    InvalidUsedLetters,
    /// The pattern holds a character that is neither a lowercase letter nor
    /// the wildcard marker.
    InvalidPattern,
}

/// One query's compiled constraints: the pattern, one symbol per slot, and
/// the set of letters already tried, which no wildcard slot may resolve to.
#[derive(Debug)]
pub struct CompiledConstraint {
    slots: Vec<char>,
    used: Vec<char>,
}

impl CompiledConstraint {
    /// The slot pattern, one symbol per letter position of the target word.
    pub closed spec fn pat(self) -> Seq<char> {
        self.slots@
    }

    /// The letters already tried.
    pub closed spec fn used(self) -> Set<char> {
        self.used@.to_set()
    }
}

proof fn lemma_contains_push<A>(s: Seq<A>, x: A)
    ensures
        forall|y: A| s.push(x).contains(y) <==> (s.contains(y) || y == x),
{
    assert forall|y: A| s.push(x).contains(y) implies (s.contains(y) || y == x) by {
        let k: int = choose|k: int| 0 <= k < s.push(x).len() && s.push(x)[k] == y;
        if k < s.len() {
            assert(s[k] == y);
        }
    }
    assert forall|y: A| (s.contains(y) || y == x) implies s.push(x).contains(y) by {
        if s.contains(y) {
            let k: int = choose|k: int| 0 <= k < s.len() && s[k] == y;
            assert(s.push(x)[k] == y);
        } else {
            assert(s.push(x)[s.len() as int] == y);
        }
    }
}

/// Builds the predicate a candidate word must satisfy: every fixed slot must
/// match its letter exactly, and every wildcard slot must take a lowercase
/// letter that is not among the used letters. Both inputs are rejected, with
/// the error saying which, as soon as they hold a character outside the
/// lowercase alphabet plus `_`.
pub fn compile(used_letters: &str, pattern: &str) -> (r: Result<
    CompiledConstraint,
    ConstraintError,
>)
    ensures
        r is Ok <==> all_symbols(used_letters@) && all_symbols(pattern@),
        r is Ok ==> (r->Ok_0).pat() == pattern@,
        r is Ok ==> (r->Ok_0).used() == used_set(used_letters@),
        !all_symbols(used_letters@) ==> r == Err::<CompiledConstraint, ConstraintError>(
            ConstraintError::InvalidUsedLetters,
        ),
        all_symbols(used_letters@) && !all_symbols(pattern@) ==> r == Err::<
            CompiledConstraint,
            ConstraintError,
        >(ConstraintError::InvalidPattern),
{
    let un: usize = used_letters.unicode_len();
    let mut used: Vec<char> = Vec::new();
    let mut i: usize = 0;
    while i < un
        invariant
            i <= un,
            un == used_letters@.len(),
            forall|j: int| 0 <= j < i ==> is_symbol(used_letters@[j]),
            forall|x: char|
                used@.contains(x) <==> (used_letters@.take(i as int).contains(x) && x != '_'),
        decreases un - i,
    {
        let c = used_letters.get_char(i);
        let u: u32 = c as u32;
        proof {
            assert(used_letters@.take(i + 1) =~= used_letters@.take(i as int).push(
                used_letters@[i as int],
            ));
            lemma_contains_push(used_letters@.take(i as int), used_letters@[i as int]);
        }
        if c == '_' {
            // a wildcard marker among the used letters carries no constraint
            proof {
                assert(forall|x: char|
                    used@.contains(x) <==> (used_letters@.take(i + 1).contains(x) && x != '_'));
            }
        } else if 97 <= u && u <= 122 {
            let ghost pre: Seq<char> = used@;
            proof {
                lemma_contains_push(pre, c);
            }
            used.push(c);
            proof {
                assert(used@ == pre.push(c));
                assert(c != '_');
                assert forall|x: char|
                    used@.contains(x) <==> (used_letters@.take(i + 1).contains(x)
                        && x != '_') by {
                    assert(used@.contains(x) <==> (pre.contains(x) || x == c));
                    assert(used_letters@.take(i + 1).contains(x) <==> (used_letters@.take(
                        i as int,
                    ).contains(x) || x == c));
                };
            }
        } else {
            return Err(ConstraintError::InvalidUsedLetters);
        }
        i += 1;
    }
    proof {
        assert(used_letters@.take(un as int) =~= used_letters@);
    }
    let pn: usize = pattern.unicode_len();
    let mut slots: Vec<char> = Vec::new();
    let mut k: usize = 0;
    while k < pn
        invariant
            k <= pn,
            pn == pattern@.len(),
            all_symbols(used_letters@),
            forall|x: char| used@.contains(x) <==> used_set(used_letters@).contains(x),
            forall|j: int| 0 <= j < k ==> is_symbol(pattern@[j]),
            slots@ == pattern@.take(k as int),
        decreases pn - k,
    {
        let c = pattern.get_char(k);
        let u: u32 = c as u32;
        if c == '_' || (97 <= u && u <= 122) {
            slots.push(c);
            proof {
                assert(slots@ =~= pattern@.take(k + 1));
            }
        } else {
            return Err(ConstraintError::InvalidPattern);
        }
        k += 1;
    }
    proof {
        assert(pattern@.take(pn as int) =~= pattern@);
    }
    let c = CompiledConstraint { slots, used };
    proof {
        assert(c.used() =~= used_set(used_letters@));
    }
    Ok(c)
}

/// A word character for the trailing-boundary test: the characters that may
/// extend a token (ASCII letters, digits, `_`). A match must end where no
/// word character follows, so a longer run is never matched in part.
pub open spec fn is_word_char(c: char) -> bool {
    is_lower(c) || (65 <= c as u32 <= 90) || (48 <= c as u32 <= 57) || c == '_'
}

/// Whether one slot accepts one character: a fixed slot exactly its own
/// letter, a wildcard slot any lowercase letter that was not tried yet.
pub open spec fn slot_ok(used: Set<char>, p: char, c: char) -> bool {
    if p == '_' {
        is_lower(c) && !used.contains(c)
    } else {
        c == p
    }
}

/// Whether a corpus line yields a match: the line starts with a token, one
/// character per slot, each accepted by its slot, and the token ends at a
/// word boundary. An empty pattern matches, as an empty token, only at the
/// boundary in front of a word character.
pub open spec fn line_matches(used: Set<char>, pat: Seq<char>, line: Seq<char>) -> bool {
    &&& line.len() >= pat.len()
    &&& (forall|j: int| 0 <= j < pat.len() ==> slot_ok(used, pat[j], line[j]))
    &&& if pat.len() == 0 {
        line.len() > 0 && is_word_char(line[0])
    } else {
        line.len() == pat.len() || !is_word_char(line[pat.len() as int])
    }
}

/// The index of the first newline in `s`, or `s.len()` if there is none.
pub open spec fn first_nl(s: Seq<char>) -> int
    decreases s.len(),
{
    if s.len() == 0 {
        0
    } else if s[0] == '\n' {
        0
    } else {
        1 + first_nl(s.drop_first())
    }
}

/// `first_nl` is pinned by its characterization: no newline before it, and a
/// newline or the end of the text at it.
proof fn lemma_first_nl_is(s: Seq<char>, k: int)
    requires
        0 <= k <= s.len(),
        forall|j: int| 0 <= j < k ==> s[j] != '\n',
        k == s.len() || s[k] == '\n',
    ensures
        first_nl(s) == k,
    decreases s.len(),
{
    if s.len() == 0 {
    } else if s[0] == '\n' {
        assert(k == 0);
    } else {
        assert(s[0] != '\n');
        assert(k >= 1);
        assert forall|j: int| 0 <= j < k - 1 implies s.drop_first()[j] != '\n' by {
            assert(s.drop_first()[j] == s[j + 1]);
        }
        if k < s.len() {
            assert(s.drop_first()[k - 1] == s[k]);
        }
        lemma_first_nl_is(s.drop_first(), k - 1);
    }
}

/// The corpus split at newlines. The separators are not part of the lines,
/// and the text after the last newline is a line of its own, so a text of n
/// newlines has n + 1 lines.
pub open spec fn split_lines(s: Seq<char>) -> Seq<Seq<char>>
    decreases s.len(),
{
    let i: int = first_nl(s);
    if 0 <= i < s.len() {
        seq![s.take(i)] + split_lines(s.skip(i + 1))
    } else {
        seq![s]
    }
}

/// The matched tokens of the given lines, in order: for each line that
/// satisfies the constraint, the token made of its first `pat.len()`
/// characters.
pub open spec fn scan_lines(used: Set<char>, pat: Seq<char>, lines: Seq<Seq<char>>) -> Seq<
    Seq<char>,
>
    decreases lines.len(),
{
    if lines.len() == 0 {
        Seq::empty()
    } else {
        let rest = scan_lines(used, pat, lines.drop_first());
        if line_matches(used, pat, lines[0]) {
            seq![lines[0].take(pat.len() as int)] + rest
        } else {
            rest
        }
    }
}

/// What `scan` returns: the matched tokens of the corpus lines, in corpus
/// order.
pub open spec fn scan_spec(used: Set<char>, pat: Seq<char>, corpus: Seq<char>) -> Seq<Seq<char>> {
    scan_lines(used, pat, split_lines(corpus))
}

proof fn lemma_scan_lines_app(used: Set<char>, pat: Seq<char>, l1: Seq<Seq<char>>, l2: Seq<
    Seq<char>,
>)
    ensures
        scan_lines(used, pat, l1 + l2) == scan_lines(used, pat, l1) + scan_lines(used, pat, l2),
    decreases l1.len(),
{
    if l1.len() == 0 {
        assert(l1 + l2 =~= l2);
        assert(scan_lines(used, pat, l1) =~= Seq::<Seq<char>>::empty());
        assert(Seq::<Seq<char>>::empty() + scan_lines(used, pat, l2) =~= scan_lines(used, pat, l2));
    } else {
        assert((l1 + l2)[0] == l1[0]);
        assert((l1 + l2).drop_first() =~= l1.drop_first() + l2);
        lemma_scan_lines_app(used, pat, l1.drop_first(), l2);
        if line_matches(used, pat, l1[0]) {
            assert(seq![l1[0].take(pat.len() as int)] + (scan_lines(used, pat, l1.drop_first())
                + scan_lines(used, pat, l2)) =~= (seq![l1[0].take(pat.len() as int)] + scan_lines(
                used,
                pat,
                l1.drop_first(),
            )) + scan_lines(used, pat, l2));
        }
    }
}

/// Splitting off the head line: if `s[k]` is the first newline at or after
/// `start`, the lines of `s` from `start` on are the line `s[start..k]`
/// followed by the lines after the newline.
proof fn lemma_split_at_nl(s: Seq<char>, start: int, k: int)
    requires
        0 <= start <= k < s.len(),
        s[k] == '\n',
        forall|j: int| start <= j < k ==> s[j] != '\n',
    ensures
        split_lines(s.skip(start)) == seq![s.subrange(start, k)] + split_lines(s.skip(k + 1)),
{
    let r = s.skip(start);
    assert forall|j: int| 0 <= j < k - start implies r[j] != '\n' by {
        assert(r[j] == s[start + j]);
    }
    assert(r[k - start] == s[k]);
    lemma_first_nl_is(r, k - start);
    assert(r.take(k - start) =~= s.subrange(start, k));
    assert(r.skip(k - start + 1) =~= s.skip(k + 1));
}

/// Without a newline at or after `start`, the rest of the text is one line.
proof fn lemma_split_no_nl(s: Seq<char>, start: int)
    requires
        0 <= start <= s.len(),
        forall|j: int| start <= j < s.len() ==> s[j] != '\n',
    ensures
        split_lines(s.skip(start)) == seq![s.subrange(start, s.len() as int)],
{
    let r = s.skip(start);
    assert forall|j: int| 0 <= j < r.len() implies r[j] != '\n' by {
        assert(r[j] == s[start + j]);
    }
    lemma_first_nl_is(r, r.len() as int);
    assert(r =~= s.subrange(start, s.len() as int));
}

fn vec_contains_char(v: &Vec<char>, c: char) -> (b: bool)
    ensures
        b == v@.contains(c),
{
    let n: usize = v.len();
    let mut i: usize = 0;
    while i < n
        invariant
            i <= n,
            n == v@.len(),
            forall|j: int| 0 <= j < i ==> v@[j] != c,
        decreases n - i,
    {
        if v[i] == c {
            return true;
        }
        i += 1;
    }
    false
}

fn is_word_char_exec(c: char) -> (b: bool)
    ensures
        b == is_word_char(c),
{
    let u: u32 = c as u32;
    (97 <= u && u <= 122) || (65 <= u && u <= 90) || (48 <= u && u <= 57) || c == '_'
}

/// Whether the corpus line `corpus[start..end]` yields a match.
fn line_match_at(corpus: &str, constraint: &CompiledConstraint, start: usize, end: usize) -> (b:
    bool)
    requires
        start <= end <= corpus@.len(),
    ensures
        b == line_matches(
            constraint.used(),
            constraint.pat(),
            corpus@.subrange(start as int, end as int),
        ),
{
    let ghost line = corpus@.subrange(start as int, end as int);
    let l: usize = constraint.slots.len();
    if end - start < l {
        return false;
    }
    let mut j: usize = 0;
    while j < l
        invariant
            j <= l,
            l == constraint.pat().len(),
            start + l <= end <= corpus@.len(),
            line == corpus@.subrange(start as int, end as int),
            constraint.pat() == constraint.slots@,
            forall|t: int| 0 <= t < j ==> slot_ok(constraint.used(), constraint.pat()[t], line[t]),
        decreases l - j,
    {
        let p: char = constraint.slots[j];
        let c: char = corpus.get_char(start + j);
        proof {
            assert(line[j as int] == corpus@[start + j]);
        }
        if p == '_' {
            let u: u32 = c as u32;
            if u < 97 || u > 122 {
                return false;
            }
            if vec_contains_char(&constraint.used, c) {
                return false;
            }
        } else {
            if c != p {
                return false;
            }
        }
        j += 1;
    }
    if l == 0 {
        if end == start {
            return false;
        }
        let c0: char = corpus.get_char(start);
        proof {
            assert(line[0] == corpus@[start as int]);
        }
        return is_word_char_exec(c0);
    }
    if end - start == l {
        return true;
    }
    let cb: char = corpus.get_char(start + l);
    proof {
        assert(line[l as int] == corpus@[start + l]);
    }
    let b = is_word_char_exec(cb);
    !b
}

/// Tests the corpus line `corpus[start..end]` and appends its token to `res`
/// when it matches.
fn push_line_match(
    corpus: &str,
    constraint: &CompiledConstraint,
    start: usize,
    end: usize,
    res: &mut Vec<String>,
)
    requires
        start <= end <= corpus@.len(),
    ensures
        final (res).deep_view() == old(res).deep_view() + scan_lines(
            constraint.used(),
            constraint.pat(),
            seq![corpus@.subrange(start as int, end as int)],
        ),
{
    let ghost line = corpus@.subrange(start as int, end as int);
    let ghost used = constraint.used();
    let ghost pat = constraint.pat();
    proof {
        assert(seq![line].drop_first() =~= Seq::<Seq<char>>::empty());
        assert(scan_lines(used, pat, Seq::<Seq<char>>::empty()) =~= Seq::<Seq<char>>::empty());
    }
    let m = line_match_at(corpus, constraint, start, end);
    if m {
        let l: usize = constraint.slots.len();
        proof {
            assert(l <= end - start);
        }
        let tok: &str = corpus.substring_char(start, start + l);
        let s: String = tok.to_owned();
        proof {
            assert(s@ =~= line.take(pat.len() as int));
        }
        let ghost pre = res.deep_view();
        res.push(s);
        proof {
            assert(res.deep_view() =~= pre.push(line.take(pat.len() as int)));
            assert(pre.push(line.take(pat.len() as int)) =~= pre + scan_lines(
                used,
                pat,
                seq![line],
            ));
        }
    } else {
        proof {
            assert(res.deep_view() =~= res.deep_view() + scan_lines(used, pat, seq![line]));
        }
    }
}

/// Applies the compiled constraint to the corpus and returns the matching
/// tokens in corpus line order. Each line is tested on its own: a line
/// matches when its head satisfies the slots and ends at a word boundary,
/// and the token handed back is that head, so a match is never a partial
/// hit inside a longer run of word characters.
pub fn scan(corpus: &str, constraint: &CompiledConstraint) -> (matches: Vec<String>)
    ensures
        matches.deep_view() == scan_spec(constraint.used(), constraint.pat(), corpus@),
{
    let ghost used = constraint.used();
    let ghost pat = constraint.pat();
    let n: usize = corpus.unicode_len();
    let mut res: Vec<String> = Vec::new();
    let mut start: usize = 0;
    let mut i: usize = 0;
    proof {
        assert(corpus@.skip(0) =~= corpus@);
        assert(res.deep_view() =~= Seq::<Seq<char>>::empty());
        assert(Seq::<Seq<char>>::empty() + scan_lines(used, pat, split_lines(corpus@))
            =~= scan_lines(used, pat, split_lines(corpus@)));
    }
    while i < n
        invariant
            start <= i <= n,
            n == corpus@.len(),
            used == constraint.used(),
            pat == constraint.pat(),
            forall|j: int| start <= j < i ==> corpus@[j] != '\n',
            scan_spec(used, pat, corpus@) == res.deep_view() + scan_lines(
                used,
                pat,
                split_lines(corpus@.skip(start as int)),
            ),
        decreases n - i,
    {
        let c = corpus.get_char(i);
        if c == '\n' {
            proof {
                lemma_split_at_nl(corpus@, start as int, i as int);
                lemma_scan_lines_app(
                    used,
                    pat,
                    seq![corpus@.subrange(start as int, i as int)],
                    split_lines(corpus@.skip(i + 1)),
                );
            }
            let ghost pre = res.deep_view();
            push_line_match(corpus, constraint, start, i, &mut res);
            proof {
                assert(pre + (scan_lines(
                    used,
                    pat,
                    seq![corpus@.subrange(start as int, i as int)],
                ) + scan_lines(used, pat, split_lines(corpus@.skip(i + 1)))) =~= res.deep_view()
                    + scan_lines(used, pat, split_lines(corpus@.skip(i + 1))));
            }
            start = i + 1;
        }
        i += 1;
    }
    proof {
        lemma_split_no_nl(corpus@, start as int);
    }
    push_line_match(corpus, constraint, start, n, &mut res);
    res
}

/// A letter the suggestion may recommend: lowercase and not yet tried.
pub open spec fn is_candidate(used: Seq<char>, c: char) -> bool {
    is_lower(c) && !used.contains(c)
}

/// In how many of the given words the letter occurs at least once; repeated
/// occurrences inside one word count once.
pub open spec fn presence_count(ms: Seq<Seq<char>>, c: char) -> nat
    decreases ms.len(),
{
    if ms.len() == 0 {
        0
    } else {
        presence_count(ms.drop_last(), c) + (if ms.last().contains(c) {
            1nat
        } else {
            0nat
        })
    }
}

/// The letter with index `j` in the alphabet: 0 is 'a', 25 is 'z'.
pub open spec fn letter_of(j: int) -> char {
    ((97 + j) as u32) as char
}

proof fn lemma_presence_count_le(ms: Seq<Seq<char>>, c: char)
    ensures
        presence_count(ms, c) <= ms.len(),
    decreases ms.len(),
{
    if ms.len() > 0 {
        lemma_presence_count_le(ms.drop_last(), c);
    }
}

fn str_contains_char(s: &str, c: char) -> (b: bool)
    ensures
        b == s@.contains(c),
{
    let n: usize = s.unicode_len();
    let mut i: usize = 0;
    while i < n
        invariant
            i <= n,
            n == s@.len(),
            forall|j: int| 0 <= j < i ==> s@[j] != c,
        decreases n - i,
    {
        if s.get_char(i) == c {
            proof {
                assert(s@[i as int] == c);
            }
            return true;
        }
        i += 1;
    }
    false
}

fn string_contains_char(w: &String, c: char) -> (b: bool)
    ensures
        b == w@.contains(c),
{
    str_contains_char(w.as_str(), c)
}

/// Recommends the next letter to try: the lowercase letter not yet among the
/// used letters that occurs in the most matches, counted once per match.
/// Ties go to the alphabetically first such letter. When no untried letter
/// occurs in any match, the fallback `('a', 0)` comes back, and a count of
/// zero means no informative suggestion was available, not a recommendation.
pub fn suggest_next_letter(used_letters: &str, matches: &Vec<String>) -> (r: (char, u64))
    ensures
        (exists|c: char|
            is_candidate(used_letters@, c) && presence_count(matches.deep_view(), c) > 0) ==> ({
            let ms = matches.deep_view();
            &&& is_candidate(used_letters@, r.0)
            &&& presence_count(ms, r.0) == r.1
            &&& r.1 > 0
            &&& forall|c: char| is_candidate(used_letters@, c) ==> presence_count(ms, c) <= r.1
            &&& forall|c: char|
                is_candidate(used_letters@, c) && (c as u32) < (r.0 as u32) ==> presence_count(ms, c)
                    < r.1
        }),
        !(exists|c: char|
            is_candidate(used_letters@, c) && presence_count(matches.deep_view(), c) > 0) ==> r
            == ('a', 0u64),
        r.1 > 0 ==> is_candidate(used_letters@, r.0),
{
    let ghost ms = matches.deep_view();
    let mut counts: Vec<u64> = Vec::new();
    let mut j: usize = 0;
    while j < 26
        invariant
            j <= 26,
            counts@.len() == j,
            forall|t: int| 0 <= t < j ==> counts@[t] == 0,
        decreases 26 - j,
    {
        counts.push(0);
        j += 1;
    }
    proof {
        assert(ms.take(0) =~= Seq::<Seq<char>>::empty());
    }
    let m: usize = matches.len();
    let mut i: usize = 0;
    while i < m
        invariant
            i <= m,
            m == matches@.len(),
            ms == matches.deep_view(),
            counts@.len() == 26,
            forall|t: int|
                0 <= t < 26 ==> counts@[t] == presence_count(ms.take(i as int), letter_of(t)),
        decreases m - i,
    {
        let w: &String = &matches[i];
        proof {
            assert(ms[i as int] == matches@[i as int]@);
            assert(ms.take(i + 1).drop_last() =~= ms.take(i as int));
            assert(ms.take(i + 1).last() == ms[i as int]);
        }
        let mut k: usize = 0;
        while k < 26
            invariant
                k <= 26,
                0 <= i < m,
                m == matches@.len(),
                ms == matches.deep_view(),
                w@ == ms[i as int],
                ms.take(i + 1).drop_last() == ms.take(i as int),
                ms.take(i + 1).last() == ms[i as int],
                counts@.len() == 26,
                forall|t: int|
                    k <= t < 26 ==> counts@[t] == presence_count(ms.take(i as int), letter_of(t)),
                forall|t: int|
                    0 <= t < k ==> counts@[t] == presence_count(ms.take(i + 1), letter_of(t)),
            decreases 26 - k,
        {
            let letter: char = ((97 + k) as u8) as char;
            proof {
                assert(letter == letter_of(k as int));
            }
            if string_contains_char(w, letter) {
                let cur: u64 = counts[k];
                proof {
                    lemma_presence_count_le(ms.take(i as int), letter_of(k as int));
                }
                counts[k] = cur + 1;
            }
            proof {
                assert(counts@[k as int] == presence_count(ms.take(i + 1), letter_of(k as int)));
            }
            k += 1;
        }
        i += 1;
    }
    proof {
        assert(ms.take(m as int) =~= ms);
    }
    let mut best_letter: char = 'a';
    let mut best_count: u64 = 0;
    let mut t: usize = 0;
    while t < 26
        invariant
            t <= 26,
            counts@.len() == 26,
            ms == matches.deep_view(),
            forall|q: int| 0 <= q < 26 ==> counts@[q] == presence_count(ms, letter_of(q)),
            best_count == 0 ==> best_letter == 'a',
            best_count > 0 ==> is_candidate(used_letters@, best_letter) && presence_count(
                ms,
                best_letter,
            ) == best_count,
            best_count > 0 ==> (exists|q: int| 0 <= q < t && letter_of(q) == best_letter),
            forall|q: int|
                0 <= q < t && is_candidate(used_letters@, letter_of(q)) ==> presence_count(
                    ms,
                    letter_of(q),
                ) <= best_count,
            forall|q: int|
                0 <= q < t && is_candidate(used_letters@, letter_of(q)) && (letter_of(q) as u32)
                    < (best_letter as u32) ==> presence_count(ms, letter_of(q)) < best_count,
        decreases 26 - t,
    {
        let letter: char = ((97 + t) as u8) as char;
        proof {
            assert(letter == letter_of(t as int));
            assert(is_lower(letter));
        }
        let cnt: u64 = counts[t];
        if cnt > best_count {
            if !str_contains_char(used_letters, letter) {
                best_letter = letter;
                best_count = cnt;
            }
        }
        t += 1;
    }
    proof {
        if exists|c: char| is_candidate(used_letters@, c) && presence_count(ms, c) > 0 {
            let c0 = choose|c: char| is_candidate(used_letters@, c) && presence_count(ms, c) > 0;
            let q0: int = c0 as u32 - 97;
            vstd::utf8::char_u32_cast(c0, c0 as u32);
            assert(letter_of(q0) == c0);
            assert(presence_count(ms, letter_of(q0)) <= best_count);
            assert(best_count > 0);
            assert forall|c: char| is_candidate(used_letters@, c) implies presence_count(ms, c)
                <= best_count by {
                let q: int = c as u32 - 97;
                vstd::utf8::char_u32_cast(c, c as u32);
                assert(letter_of(q) == c);
            }
            assert forall|c: char|
                is_candidate(used_letters@, c) && (c as u32)
                    < (best_letter as u32) implies presence_count(ms, c) < best_count by {
                let q: int = c as u32 - 97;
                vstd::utf8::char_u32_cast(c, c as u32);
                assert(letter_of(q) == c);
            }
        } else {
            if best_count > 0 {
                assert(is_candidate(used_letters@, best_letter) && presence_count(ms, best_letter)
                    > 0);
            }
        }
    }
    (best_letter, best_count)
}

proof fn lemma_scan_lines_fixed(used: Set<char>, pat: Seq<char>, lines: Seq<Seq<char>>)
    requires
        forall|j: int| 0 <= j < pat.len() ==> pat[j] != '_',
    ensures
        forall|i: int|
            0 <= i < scan_lines(used, pat, lines).len() ==> scan_lines(used, pat, lines)[i] == pat,
    decreases lines.len(),
{
    if lines.len() > 0 {
        lemma_scan_lines_fixed(used, pat, lines.drop_first());
        let res = scan_lines(used, pat, lines);
        let rest = scan_lines(used, pat, lines.drop_first());
        if line_matches(used, pat, lines[0]) {
            assert(lines[0].take(pat.len() as int) =~= pat);
            assert forall|i: int| 0 <= i < res.len() implies res[i] == pat by {
                if i > 0 {
                    assert(res[i] == rest[i - 1]);
                }
            }
        }
    }
}

/// With no wildcard in the pattern, the scan degenerates to exact matching:
/// every token it returns is the pattern itself, never a substring or
/// partial hit, so the distinct results are at most the one exact match.
pub proof fn lemma_fixed_pattern_exact(used: Set<char>, pat: Seq<char>, corpus: Seq<char>)
    requires
        forall|j: int| 0 <= j < pat.len() ==> pat[j] != '_',
    ensures
        forall|i: int|
            0 <= i < scan_spec(used, pat, corpus).len() ==> scan_spec(used, pat, corpus)[i] == pat,
{
    lemma_scan_lines_fixed(used, pat, split_lines(corpus));
}

proof fn lemma_scan_lines_wildcards(used: Set<char>, pat: Seq<char>, lines: Seq<Seq<char>>)
    ensures
        forall|i: int|
            0 <= i < scan_lines(used, pat, lines).len() ==> scan_lines(used, pat, lines)[i].len()
                == pat.len(),
        forall|i: int, j: int|
            0 <= i < scan_lines(used, pat, lines).len() && 0 <= j < pat.len() && pat[j] == '_'
                ==> is_lower(scan_lines(used, pat, lines)[i][j]) && !used.contains(
                scan_lines(used, pat, lines)[i][j],
            ),
    decreases lines.len(),
{
    if lines.len() > 0 {
        lemma_scan_lines_wildcards(used, pat, lines.drop_first());
        let res = scan_lines(used, pat, lines);
        let rest = scan_lines(used, pat, lines.drop_first());
        if line_matches(used, pat, lines[0]) {
            let tok = lines[0].take(pat.len() as int);
            assert forall|i: int| 0 <= i < res.len() implies res[i].len() == pat.len() by {
                if i > 0 {
                    assert(res[i] == rest[i - 1]);
                }
            }
            assert forall|i: int, j: int|
                0 <= i < res.len() && 0 <= j < pat.len() && pat[j]
                    == '_' implies is_lower(res[i][j]) && !used.contains(res[i][j]) by {
                if i == 0 {
                    assert(res[0] == tok);
                    assert(tok[j] == lines[0][j]);
                    assert(slot_ok(used, pat[j], lines[0][j]));
                } else {
                    assert(res[i] == rest[i - 1]);
                }
            }
        }
    }
}

/// A used letter never appears in a wildcard-resolved position of a returned
/// match: every match has the pattern's length, and each wildcard slot of it
/// holds a lowercase letter outside the used set.
pub proof fn lemma_wildcards_avoid_used(used: Set<char>, pat: Seq<char>, corpus: Seq<char>)
    ensures
        forall|i: int|
            0 <= i < scan_spec(used, pat, corpus).len() ==> scan_spec(
                used,
                pat,
                corpus,
            )[i].len() == pat.len(),
        forall|i: int, j: int|
            0 <= i < scan_spec(used, pat, corpus).len() && 0 <= j < pat.len() && pat[j] == '_'
                ==> is_lower(scan_spec(used, pat, corpus)[i][j]) && !used.contains(
                scan_spec(used, pat, corpus)[i][j],
            ),
{
    lemma_scan_lines_wildcards(used, pat, split_lines(corpus));
}

/// Compiling identical inputs twice yields predicates with identical match
/// behavior over any corpus: `compile`'s contract pins the compiled model
/// (pattern and used set) from the inputs alone, and the scan's result is a
/// function of that model and the corpus.
pub proof fn lemma_compile_idempotent(
    used_letters: Seq<char>,
    pattern: Seq<char>,
    c1: CompiledConstraint,
    c2: CompiledConstraint,
    corpus: Seq<char>,
)
    requires
        c1.pat() == pattern,
        c1.used() == used_set(used_letters),
        c2.pat() == pattern,
        c2.used() == used_set(used_letters),
    ensures
        scan_spec(c1.used(), c1.pat(), corpus) == scan_spec(c2.used(), c2.pat(), corpus),
{
}

proof fn lemma_line_matches_mono(u1: Set<char>, u2: Set<char>, pat: Seq<char>, line: Seq<char>)
    requires
        u1.subset_of(u2),
        line_matches(u2, pat, line),
    ensures
        line_matches(u1, pat, line),
{
    assert forall|j: int| 0 <= j < pat.len() implies slot_ok(u1, pat[j], line[j]) by {
        assert(slot_ok(u2, pat[j], line[j]));
    }
}

proof fn lemma_scan_lines_mono(u1: Set<char>, u2: Set<char>, pat: Seq<char>, lines: Seq<Seq<char>>)
    requires
        u1.subset_of(u2),
    ensures
        scan_lines(u2, pat, lines).len() <= scan_lines(u1, pat, lines).len(),
    decreases lines.len(),
{
    if lines.len() > 0 {
        lemma_scan_lines_mono(u1, u2, pat, lines.drop_first());
        if line_matches(u2, pat, lines[0]) {
            lemma_line_matches_mono(u1, u2, pat, lines[0]);
        }
    }
}

/// Constraints only tighten: scanning with a larger used set (the pattern
/// unchanged) never returns more matches.
pub proof fn lemma_used_monotone(u1: Set<char>, u2: Set<char>, pat: Seq<char>, corpus: Seq<char>)
    requires
        u1.subset_of(u2),
    ensures
        scan_spec(u2, pat, corpus).len() <= scan_spec(u1, pat, corpus).len(),
{
    lemma_scan_lines_mono(u1, u2, pat, split_lines(corpus));
}

/// Adding a letter to the used-letters string grows its used set.
pub proof fn lemma_used_set_grows(s: Seq<char>, c: char)
    ensures
        used_set(s).subset_of(used_set(s.push(c))),
{
    lemma_contains_push(s, c);
}

/// Adding a letter to the used-letters string never increases the match set
/// size: the constraints only tighten.
pub proof fn lemma_adding_letter_tightens(
    used_letters: Seq<char>,
    c: char,
    pat: Seq<char>,
    corpus: Seq<char>,
)
    ensures
        scan_spec(used_set(used_letters.push(c)), pat, corpus).len() <= scan_spec(
            used_set(used_letters),
            pat,
            corpus,
        ).len(),
{
    lemma_used_set_grows(used_letters, c);
    lemma_used_monotone(used_set(used_letters), used_set(used_letters.push(c)), pat, corpus);
}

} // verus!
