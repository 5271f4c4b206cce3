//! The text side of a small full-text search engine: documents, an
//! analyzer that lower-cases text and cuts it into ASCII words and CJK
//! n-grams, and term counting.  Scoring with TF-IDF weights works on
//! floating-point numbers and is left to the application.

use crate::text::{chars_of, string_from_chars};
use vstd::prelude::*;

verus! {

/// A document of the collection.
#[derive(Debug)]
pub struct Document {
    pub id: usize,
    pub title: String,
    pub body: String,
}

impl Document {
    pub fn new(id: usize, title: &str, body: &str) -> (d: Document)
        ensures
            d.id == id,
            d.title@ == title@,
            d.body@ == body@,
    {
        Document { id, title: String::from_str(title), body: String::from_str(body) }
    }

    /// The text that is indexed: the title, a space and the body.
    pub fn searchable_text(&self) -> (s: String)
        ensures
            s@ == self.title@ + seq![' '] + self.body@,
    {
        let s = self.title.clone().concat(" ");
        proof {
            reveal_strlit(" ");
        }
        s.concat(self.body.as_str())
    }

    pub fn duplicate(&self) -> (d: Document)
        ensures
            d == *self,
    {
        Document { id: self.id, title: self.title.clone(), body: self.body.clone() }
    }
}

/// The lower-case mapping of `c`, as `char::to_lowercase` yields it.
pub uninterp spec fn lowercase_of(c: char) -> Seq<char>;

/// The ASCII lower case of `c`: `A` to `Z` become `a` to `z`; every other
/// character stays.
pub open spec fn ascii_lower(c: char) -> char {
    if 'A' <= c && c <= 'Z' {
        ((c as u32) + 32) as char
    } else {
        c
    }
}

/// The lower-case mapping of `c`, collected from `char::to_lowercase`,
/// which yields one or more characters; an ASCII character maps to its
/// ASCII lower case alone.
#[verifier::external_body]
fn lowercase(c: char) -> (r: Vec<char>)
    ensures
        r@ == lowercase_of(c),
        r@.len() >= 1,
        (c as u32) < 0x80 ==> r@ == seq![ascii_lower(c)],
{
    c.to_lowercase().collect()
}

/// An ASCII digit or letter.
pub open spec fn is_ascii_alnum(c: char) -> bool {
    ('0' <= c && c <= '9') || ('a' <= c && c <= 'z') || ('A' <= c && c <= 'Z')
}

/// A character of the Hiragana, Katakana, CJK Unified Ideographs (with
/// Extension A) or CJK Compatibility Ideographs blocks.
pub open spec fn is_cjk(c: char) -> bool {
    let u = c as u32;
    (0x3040 <= u && u <= 0x309F) || (0x30A0 <= u && u <= 0x30FF) || (0x3400 <= u && u <= 0x4DBF) || (0x4E00 <= u
        && u <= 0x9FFF) || (0xF900 <= u && u <= 0xFAFF)
}

/// The text after lower-casing each character.
pub open spec fn lowered(s: Seq<char>) -> Seq<char>
    decreases s.len(),
{
    if s.len() == 0 {
        Seq::empty()
    } else {
        lowered(s.drop_last()) + lowercase_of(s.last())
    }
}

/// The token of a run of ASCII letters and digits, if any.
pub open spec fn ascii_tokens(run: Seq<char>) -> Seq<Seq<char>> {
    if run.len() == 0 {
        Seq::empty()
    } else {
        seq![run]
    }
}

/// The tokens of a run of CJK characters: the run itself, and when it is
/// longer than `n`, each of its `n`-grams in order.
pub open spec fn cjk_tokens(run: Seq<char>, n: nat) -> Seq<Seq<char>> {
    if run.len() == 0 {
        Seq::empty()
    } else if run.len() <= n {
        seq![run]
    } else {
        seq![run] + Seq::new((run.len() - n + 1) as nat, |i: int| run.subrange(i, i + n))
    }
}

/// Reading `s` left to right: the tokens finished so far, the pending run
/// of ASCII letters and digits and the pending run of CJK characters.  A
/// character of one kind ends a run of the other kind; any other
/// character ends both.
pub open spec fn scan(s: Seq<char>, n: nat) -> (Seq<Seq<char>>, Seq<char>, Seq<char>)
    decreases s.len(),
{
    if s.len() == 0 {
        (Seq::empty(), Seq::empty(), Seq::empty())
    } else {
        let (tokens, ascii, cjk) = scan(s.drop_last(), n);
        let c = s.last();
        if is_ascii_alnum(c) {
            (tokens + cjk_tokens(cjk, n), ascii.push(c), Seq::empty())
        } else if is_cjk(c) {
            (tokens + ascii_tokens(ascii), Seq::empty(), cjk.push(c))
        } else {
            (tokens + ascii_tokens(ascii) + cjk_tokens(cjk, n), Seq::empty(), Seq::empty())
        }
    }
}

/// The tokens of `text` with CJK `n`-grams: the runs of the lower-cased
/// text, in order, with the runs still pending at the end.
pub open spec fn analysis(text: Seq<char>, n: nat) -> Seq<Seq<char>> {
    terms_of(lowered(text), n)
}

/// The terms of text that is already lower-cased: those finished while
/// reading it, then the pending runs.
pub open spec fn terms_of(low: Seq<char>, n: nat) -> Seq<Seq<char>> {
    let (tokens, ascii, cjk) = scan(low, n);
    tokens + ascii_tokens(ascii) + cjk_tokens(cjk, n)
}

/// The texts of `tokens`.
pub open spec fn texts(tokens: Seq<String>) -> Seq<Seq<char>> {
    tokens.map_values(|t: String| t@)
}

/// Cuts text into search terms.
#[derive(Debug)]
pub struct Analyzer {
    cjk_ngram: usize,
}

impl Analyzer {
    #[verifier::type_invariant]
    spec fn inv(self) -> bool {
        self.cjk_ngram >= 1
    }

    /// The length of the CJK n-grams.
    pub closed spec fn ngram(&self) -> nat {
        self.cjk_ngram as nat
    }

    /// An analyzer with CJK `cjk_ngram`-grams (at least 1).
    pub fn new(cjk_ngram: usize) -> (a: Analyzer)
        ensures
            a.ngram() == if cjk_ngram < 1 {
                1
            } else {
                cjk_ngram
            },
    {
        Analyzer {
            cjk_ngram: if cjk_ngram < 1 {
                1
            } else {
                cjk_ngram
            },
        }
    }

    pub fn duplicate(&self) -> (a: Analyzer)
        ensures
            a.ngram() == self.ngram(),
    {
        proof {
            use_type_invariant(self);
        }
        Analyzer { cjk_ngram: self.cjk_ngram }
    }

    /// Whether `c` is a Hiragana, Katakana or CJK ideograph character.
    pub fn is_cjk_or_japanese(c: char) -> (b: bool)
        ensures
            b == is_cjk(c),
    {
        let u = c as u32;
        (0x3040 <= u && u <= 0x309F) || (0x30A0 <= u && u <= 0x30FF) || (0x3400 <= u && u <= 0x4DBF) || (0x4E00
            <= u && u <= 0x9FFF) || (0xF900 <= u && u <= 0xFAFF)
    }
}

impl Default for Analyzer {
    /// Bigrams for CJK text.
    fn default() -> (a: Analyzer)
        ensures
            a.ngram() == 2,
    {
        Analyzer { cjk_ngram: 2 }
    }
}


/// Whether `c` is an ASCII digit or letter.
fn ascii_alnum(c: char) -> (b: bool)
    ensures
        b == is_ascii_alnum(c),
{
    ('0' <= c && c <= '9') || ('a' <= c && c <= 'z') || ('A' <= c && c <= 'Z')
}

/// The characters `chars[from..to]`.
fn chars_between(chars: &Vec<char>, from: usize, to: usize) -> (r: Vec<char>)
    requires
        from <= to <= chars@.len(),
    ensures
        r@ == chars@.subrange(from as int, to as int),
{
    let mut r: Vec<char> = Vec::new();
    let mut i = from;
    while i < to
        invariant
            from <= i <= to <= chars@.len(),
            r@ == chars@.subrange(from as int, i as int),
        decreases to - i,
    {
        r.push(chars[i]);
        i += 1;
    }
    r
}

impl Analyzer {
    /// Ends a pending ASCII run: its token, if any, is appended.
    pub fn flush_ascii(tokens: &mut Vec<String>, buf: &mut Vec<char>)
        ensures
            texts(final(tokens)@) == texts(old(tokens)@) + ascii_tokens(old(buf)@),
            final(buf)@.len() == 0,
    {
        if buf.len() > 0 {
            tokens.push(string_from_chars(buf));
            buf.clear();
            assert(texts(tokens@) =~= texts(old(tokens)@) + ascii_tokens(old(buf)@));
        } else {
            assert(texts(tokens@) =~= texts(old(tokens)@) + ascii_tokens(old(buf)@));
        }
    }

    /// Ends a pending CJK run: the run, and when it is longer than `n` its
    /// `n`-grams, are appended.
    pub fn flush_cjk(tokens: &mut Vec<String>, buf: &mut Vec<char>, n: usize)
        requires
            n >= 1,
        ensures
            texts(final(tokens)@) == texts(old(tokens)@) + cjk_tokens(old(buf)@, n as nat),
            final(buf)@.len() == 0,
    {
        if buf.len() == 0 {
            assert(texts(tokens@) =~= texts(old(tokens)@) + cjk_tokens(old(buf)@, n as nat));
            return;
        }
        tokens.push(string_from_chars(buf));
        if buf.len() > n {
            let ghost run = buf@;
            let ghost base = texts(old(tokens)@).push(run);
            let len = buf.len();
            let count = len - n + 1;
            let mut i: usize = 0;
            assert(texts(tokens@) =~= base);
            while i < count
                invariant
                    buf@ == run,
                    len == run.len(),
                    run.len() > n >= 1,
                    count == run.len() - n + 1,
                    i <= count,
                    texts(tokens@) =~= base + Seq::new(i as nat, |k: int| run.subrange(k, k + n)),
                decreases count - i,
            {
                let window = chars_between(buf, i, i + n);
                let ghost prev = tokens@;
                tokens.push(string_from_chars(&window));
                proof {
                    assert(texts(tokens@) =~= texts(prev).push(run.subrange(i as int, i + n)));
                    assert(texts(tokens@) =~= base + Seq::new((i + 1) as nat, |k: int| run.subrange(k, k + n)));
                }
                i += 1;
            }
            assert(texts(tokens@) =~= texts(old(tokens)@) + cjk_tokens(old(buf)@, n as nat));
        } else {
            assert(texts(tokens@) =~= texts(old(tokens)@) + cjk_tokens(old(buf)@, n as nat));
        }
        buf.clear();
    }
}


/// One step of `scan`.
proof fn lemma_scan_push(s: Seq<char>, c: char, n: nat)
    ensures
        scan(s.push(c), n) == ({
            let (tokens, ascii, cjk) = scan(s, n);
            if is_ascii_alnum(c) {
                (tokens + cjk_tokens(cjk, n), ascii.push(c), Seq::<char>::empty())
            } else if is_cjk(c) {
                (tokens + ascii_tokens(ascii), Seq::<char>::empty(), cjk.push(c))
            } else {
                (tokens + ascii_tokens(ascii) + cjk_tokens(cjk, n), Seq::<char>::empty(), Seq::<char>::empty())
            }
        }),
{
    assert(s.push(c).drop_last() == s);
}

impl Analyzer {
    /// The search terms of `text`: it is lower-cased; each maximal run of
    /// ASCII letters and digits is a term; each maximal run of CJK
    /// characters is a term, followed, when it is longer than the n-gram
    /// length, by each of its n-grams; every other character separates.
    /// Lower-casing maps each ASCII character of `text` to its ASCII lower
    /// case.
    pub fn analyze(&self, text: &str) -> (tokens: Vec<String>)
        ensures
            texts(tokens@) == analysis(text@, self.ngram()),
            forall|i: int|
                0 <= i < text@.len() && (text@[i] as u32) < 0x80 ==> lowercase_of(#[trigger] text@[i]) == seq![
                    ascii_lower(text@[i]),
                ],
    {
        let chars = chars_of(text);
        let mut low: Vec<char> = Vec::new();
        let mut i: usize = 0;
        while i < chars.len()
            invariant
                chars@ == text@,
                i <= chars@.len(),
                low@ == lowered(chars@.take(i as int)),
                forall|j: int|
                    0 <= j < i && (chars@[j] as u32) < 0x80 ==> lowercase_of(#[trigger] chars@[j]) == seq![
                        ascii_lower(chars@[j]),
                    ],
            decreases chars@.len() - i,
        {
            let mut lows = lowercase(chars[i]);
            proof {
                assert(chars@.take(i + 1).drop_last() =~= chars@.take(i as int));
                assert(lowered(chars@.take(i + 1)) == low@ + lowercase_of(chars@[i as int]));
            }
            low.append(&mut lows);
            i += 1;
        }
        proof {
            assert(chars@.take(chars@.len() as int) =~= chars@);
        }
        self.analyze_lowered(low.as_slice())
    }

    /// The search terms of text that is already lower-cased: each maximal
    /// run of ASCII letters and digits is a term; each maximal run of CJK
    /// characters is a term, followed, when it is longer than the n-gram
    /// length, by each of its n-grams; every other character separates.
    pub fn analyze_lowered(&self, low: &[char]) -> (tokens: Vec<String>)
        ensures
            texts(tokens@) == terms_of(low@, self.ngram()),
    {
        proof {
            use_type_invariant(self);
        }
        let n = self.cjk_ngram;
        let mut tokens: Vec<String> = Vec::new();
        let mut ascii_buf: Vec<char> = Vec::new();
        let mut cjk_buf: Vec<char> = Vec::new();
        let mut j: usize = 0;
        assert(low@.take(0) =~= Seq::<char>::empty());
        while j < low.len()
            invariant
                n >= 1,
                n == self.ngram(),
                j <= low@.len(),
                scan(low@.take(j as int), n as nat) == (texts(tokens@), ascii_buf@, cjk_buf@),
            decreases low@.len() - j,
        {
            let c = low[j];
            proof {
                assert(low@.take(j + 1) =~= low@.take(j as int).push(c));
                lemma_scan_push(low@.take(j as int), c, n as nat);
            }
            if ascii_alnum(c) {
                Self::flush_cjk(&mut tokens, &mut cjk_buf, n);
                ascii_buf.push(c);
            } else if Self::is_cjk_or_japanese(c) {
                Self::flush_ascii(&mut tokens, &mut ascii_buf);
                cjk_buf.push(c);
            } else {
                Self::flush_ascii(&mut tokens, &mut ascii_buf);
                Self::flush_cjk(&mut tokens, &mut cjk_buf, n);
            }
            proof {
                assert(ascii_buf@.len() == 0 ==> ascii_buf@ =~= Seq::<char>::empty());
                assert(cjk_buf@.len() == 0 ==> cjk_buf@ =~= Seq::<char>::empty());
            }
            j += 1;
        }
        proof {
            assert(low@.take(low@.len() as int) =~= low@);
        }
        Self::flush_ascii(&mut tokens, &mut ascii_buf);
        Self::flush_cjk(&mut tokens, &mut cjk_buf, n);
        tokens
    }
}


proof fn lemma_lowered_concat(a: Seq<char>, b: Seq<char>)
    ensures
        lowered(a + b) == lowered(a) + lowered(b),
    decreases b.len(),
{
    if b.len() == 0 {
        assert(a + b =~= a);
        assert(lowered(a) + lowered(b) =~= lowered(a));
    } else {
        lemma_lowered_concat(a, b.drop_last());
        assert((a + b).drop_last() =~= a + b.drop_last());
        assert((a + b).last() == b.last());
        assert(lowered(a + b) =~= lowered(a) + lowered(b));
    }
}

/// Reading on from a point where no run is pending is reading the rest
/// alone, after the tokens so far.
proof fn lemma_scan_from_clear(r: Seq<char>, q: Seq<char>, n: nat)
    requires
        scan(r, n).1.len() == 0,
        scan(r, n).2.len() == 0,
    ensures
        scan(r + q, n) == (scan(r, n).0 + scan(q, n).0, scan(q, n).1, scan(q, n).2),
    decreases q.len(),
{
    if q.len() == 0 {
        assert(r + q =~= r);
        assert(scan(r, n).0 + scan(q, n).0 =~= scan(r, n).0);
        assert(scan(r, n).1 =~= Seq::<char>::empty());
        assert(scan(r, n).2 =~= Seq::<char>::empty());
    } else {
        lemma_scan_from_clear(r, q.drop_last(), n);
        assert((r + q).drop_last() =~= r + q.drop_last());
        assert((r + q).last() == q.last());
        let t = scan(r, n).0;
        let (t1, a1, c1) = scan(q.drop_last(), n);
        let d = q.last();
        if is_ascii_alnum(d) {
            assert(t + t1 + cjk_tokens(c1, n) =~= t + (t1 + cjk_tokens(c1, n)));
        } else if is_cjk(d) {
            assert(t + t1 + ascii_tokens(a1) =~= t + (t1 + ascii_tokens(a1)));
        } else {
            assert(t + t1 + ascii_tokens(a1) + cjk_tokens(c1, n) =~= t + (t1 + ascii_tokens(a1) + cjk_tokens(c1, n)));
        }
    }
}

/// Law: a character that lower-cases to itself and is neither an ASCII
/// letter or digit nor a CJK character separates the text into two parts
/// that are analysed apart.
pub proof fn lemma_analysis_splits(x: Seq<char>, c: char, y: Seq<char>, n: nat)
    requires
        lowercase_of(c) == seq![c],
        !is_ascii_alnum(c),
        !is_cjk(c),
    ensures
        analysis(x.push(c) + y, n) == analysis(x, n) + analysis(y, n),
{
    lemma_lowered_concat(x.push(c), y);
    assert(x.push(c).drop_last() =~= x);
    assert(lowered(x.push(c)) == lowered(x) + seq![c]);
    let lx = lowered(x);
    let r = lx.push(c);
    assert(lowered(x.push(c)) =~= r);
    assert(r.drop_last() =~= lx);
    let (t, a, cj) = scan(lx, n);
    assert(scan(r, n) == (t + ascii_tokens(a) + cjk_tokens(cj, n), Seq::<char>::empty(), Seq::<char>::empty()));
    lemma_scan_from_clear(r, lowered(y), n);
    let (t2, a2, c2) = scan(lowered(y), n);
    assert(t + ascii_tokens(a) + cjk_tokens(cj, n) + t2 + ascii_tokens(a2) + cjk_tokens(c2, n) =~= (t + ascii_tokens(a)
        + cjk_tokens(cj, n)) + (t2 + ascii_tokens(a2) + cjk_tokens(c2, n)));
}

/// The distinct elements of `s` in the order of their first occurrence.
pub open spec fn first_occurrences(s: Seq<Seq<char>>) -> Seq<Seq<char>>
    decreases s.len(),
{
    if s.len() == 0 {
        Seq::empty()
    } else {
        let d = first_occurrences(s.drop_last());
        if d.contains(s.last()) {
            d
        } else {
            d.push(s.last())
        }
    }
}

/// How often `t` occurs in `s`.
pub open spec fn occurrences(s: Seq<Seq<char>>, t: Seq<char>) -> nat
    decreases s.len(),
{
    if s.len() == 0 {
        0
    } else {
        occurrences(s.drop_last(), t) + if s.last() == t {
            1nat
        } else {
            0nat
        }
    }
}

/// `counts` holds each distinct term of `terms` once, in the order of first
/// occurrence, with the number of its occurrences.
pub open spec fn counts_terms(counts: Seq<(String, usize)>, terms: Seq<Seq<char>>) -> bool {
    let keys = first_occurrences(terms);
    &&& counts.len() == keys.len()
    &&& forall|j: int| 0 <= j < counts.len() ==> #[trigger] counts[j].0@ == keys[j]
    &&& forall|j: int| 0 <= j < counts.len() ==> #[trigger] counts[j].1 == occurrences(terms, keys[j])
}

proof fn lemma_push_contains(p: Seq<Seq<char>>, x: Seq<char>, t: Seq<char>)
    ensures
        p.push(x).contains(t) <==> (p.contains(t) || x == t),
{
    let s = p.push(x);
    if p.contains(t) {
        let k = choose|k: int| 0 <= k < p.len() && p[k] == t;
        assert(s[k] == t);
    }
    if x == t {
        assert(s[p.len() as int] == t);
    }
    if s.contains(t) {
        let k = choose|k: int| 0 <= k < s.len() && s[k] == t;
        if k < p.len() {
            assert(p[k] == t);
        }
    }
}

proof fn lemma_first_occurrences(s: Seq<Seq<char>>)
    ensures
        forall|t: Seq<char>| #[trigger] first_occurrences(s).contains(t) <==> s.contains(t),
        forall|i: int, j: int|
            0 <= i < j < first_occurrences(s).len() ==> first_occurrences(s)[i] != first_occurrences(s)[j],
        forall|t: Seq<char>| !s.contains(t) ==> #[trigger] occurrences(s, t) == 0,
        forall|t: Seq<char>| #[trigger] occurrences(s, t) <= s.len(),
    decreases s.len(),
{
    if s.len() > 0 {
        let p = s.drop_last();
        let x = s.last();
        let d = first_occurrences(p);
        lemma_first_occurrences(p);
        assert(s == p.push(x));
        assert forall|t: Seq<char>| #[trigger] first_occurrences(s).contains(t) <==> s.contains(t) by {
            lemma_push_contains(p, x, t);
            lemma_push_contains(d, x, t);
        }
        assert forall|t: Seq<char>| !s.contains(t) implies #[trigger] occurrences(s, t) == 0 by {
            lemma_push_contains(p, x, t);
            assert(occurrences(p, t) == 0);
            assert(x != t);
        }
        assert forall|t: Seq<char>| #[trigger] occurrences(s, t) <= s.len() by {
            assert(occurrences(p, t) <= p.len());
        }
    }
}

/// Counts the occurrences of each term, in the order of first occurrence.
pub fn count_terms(terms: Vec<String>) -> (counts: Vec<(String, usize)>)
    ensures
        counts_terms(counts@, texts(terms@)),
{
    let ghost all = texts(terms@);
    let mut counts: Vec<(String, usize)> = Vec::new();
    let mut k: usize = 0;
    while k < terms.len()
        invariant
            k <= terms@.len(),
            all == texts(terms@),
            counts_terms(counts@, all.take(k as int)),
        decreases terms@.len() - k,
    {
        let ghost before = all.take(k as int);
        let ghost t = all[k as int];
        proof {
            assert(all.take(k + 1) =~= before.push(t));
            assert(all.take(k + 1).drop_last() =~= before);
            lemma_first_occurrences(before);
            lemma_first_occurrences(all.take(k + 1));
        }
        let mut j: usize = 0;
        let mut found = false;
        while j < counts.len() && !found
            invariant
                j <= counts@.len(),
                k < terms@.len(),
                counts_terms(counts@, before),
                t == terms@[k as int]@,
                found ==> j < counts@.len() && counts@[j as int].0@ == t,
                !found ==> forall|i: int| 0 <= i < j ==> #[trigger] counts@[i].0@ != t,
            decreases counts@.len() - j + if found {
                0int
            } else {
                1int
            },
        {
            if counts[j].0 == terms[k] {
                found = true;
            } else {
                j += 1;
            }
        }
        if found {
            let old_count = counts[j].1;
            proof {
                assert(first_occurrences(before).contains(t)) by {
                    assert(first_occurrences(before)[j as int] == t);
                }
                assert(occurrences(before, t) <= before.len());
            }
            let key = counts[j].0.clone();
            counts.set(j, (key, old_count + 1));
            proof {
                assert forall|i: int| 0 <= i < counts@.len() implies #[trigger] counts@[i].1 == occurrences(
                    all.take(k + 1),
                    first_occurrences(all.take(k + 1))[i],
                ) by {
                    if i != j {
                        assert(first_occurrences(before)[i] != first_occurrences(before)[j as int]);
                    }
                }
            }
        } else {
            proof {
                assert(!first_occurrences(before).contains(t)) by {
                    if first_occurrences(before).contains(t) {
                        let i = choose|i: int| 0 <= i < first_occurrences(before).len() && first_occurrences(before)[i] == t;
                        assert(counts@[i].0@ == t);
                    }
                }
                assert(occurrences(before, t) == 0);
            }
            counts.push((terms[k].clone(), 1));
            proof {
                assert forall|i: int| 0 <= i < counts@.len() implies #[trigger] counts@[i].1 == occurrences(
                    all.take(k + 1),
                    first_occurrences(all.take(k + 1))[i],
                ) by {
                    if i < counts@.len() - 1 {
                        assert(first_occurrences(before)[i] != t);
                    }
                }
            }
        }
        k += 1;
    }
    proof {
        assert(all.take(terms@.len() as int) =~= all);
    }
    counts
}


/// The terms of a count table.
pub open spec fn keys_of(counts: Seq<(String, usize)>) -> Seq<Seq<char>> {
    counts.map_values(|p: (String, usize)| p.0@)
}

/// No term occurs twice in a count table.
pub open spec fn distinct_keys(counts: Seq<(String, usize)>) -> bool {
    forall|i: int, j: int| 0 <= i < j < counts.len() ==> counts[i].0@ != counts[j].0@
}

/// The terms of all the tables, table after table.
pub open spec fn flat_keys(tables: Seq<Vec<(String, usize)>>) -> Seq<Seq<char>>
    decreases tables.len(),
{
    if tables.len() == 0 {
        Seq::empty()
    } else {
        flat_keys(tables.drop_last()) + keys_of(tables.last()@)
    }
}

/// The number of tables that hold `t`.
pub open spec fn tables_containing(tables: Seq<Vec<(String, usize)>>, t: Seq<char>) -> nat
    decreases tables.len(),
{
    if tables.len() == 0 {
        0
    } else {
        tables_containing(tables.drop_last(), t) + if keys_of(tables.last()@).contains(t) {
            1nat
        } else {
            0nat
        }
    }
}

proof fn lemma_occurrences_append(a: Seq<Seq<char>>, b: Seq<Seq<char>>, t: Seq<char>)
    ensures
        occurrences(a + b, t) == occurrences(a, t) + occurrences(b, t),
    decreases b.len(),
{
    if b.len() == 0 {
        assert(a + b =~= a);
    } else {
        lemma_occurrences_append(a, b.drop_last(), t);
        assert((a + b).drop_last() =~= a + b.drop_last());
    }
}

proof fn lemma_occurrences_distinct(s: Seq<Seq<char>>, t: Seq<char>)
    requires
        forall|i: int, j: int| 0 <= i < j < s.len() ==> s[i] != s[j],
    ensures
        occurrences(s, t) == if s.contains(t) {
            1nat
        } else {
            0nat
        },
    decreases s.len(),
{
    if s.len() > 0 {
        let p = s.drop_last();
        lemma_occurrences_distinct(p, t);
        lemma_push_contains(p, s.last(), t);
        assert(s == p.push(s.last()));
        if p.contains(t) && s.last() == t {
            let k = choose|k: int| 0 <= k < p.len() && p[k] == t;
            assert(s[k] == s[s.len() - 1]);
        }
    }
}

proof fn lemma_flat_keys_count(tables: Seq<Vec<(String, usize)>>, t: Seq<char>)
    requires
        forall|i: int| 0 <= i < tables.len() ==> #[trigger] distinct_keys(tables[i]@),
    ensures
        occurrences(flat_keys(tables), t) == tables_containing(tables, t),
    decreases tables.len(),
{
    if tables.len() > 0 {
        let p = tables.drop_last();
        assert forall|i: int| 0 <= i < p.len() implies #[trigger] distinct_keys(p[i]@) by {
            assert(p[i] == tables[i]);
        }
        lemma_flat_keys_count(p, t);
        let ks = keys_of(tables.last()@);
        lemma_occurrences_append(flat_keys(p), ks, t);
        assert(distinct_keys(tables[tables.len() - 1]@));
        lemma_occurrences_distinct(ks, t);
    }
}

/// The terms of each document, counted.
pub fn document_terms(docs: &Vec<Document>, analyzer: &Analyzer) -> (tables: Vec<Vec<(String, usize)>>)
    ensures
        tables@.len() == docs@.len(),
        forall|i: int|
            0 <= i < docs@.len() ==> counts_terms(
                #[trigger] tables@[i]@,
                analysis(docs@[i].title@ + seq![' '] + docs@[i].body@, analyzer.ngram()),
            ),
        forall|i: int| 0 <= i < docs@.len() ==> #[trigger] distinct_keys(tables@[i]@),
{
    let mut tables: Vec<Vec<(String, usize)>> = Vec::new();
    let mut i: usize = 0;
    while i < docs.len()
        invariant
            i <= docs@.len(),
            tables@.len() == i,
            forall|k: int|
                0 <= k < i ==> counts_terms(
                    #[trigger] tables@[k]@,
                    analysis(docs@[k].title@ + seq![' '] + docs@[k].body@, analyzer.ngram()),
                ),
            forall|k: int| 0 <= k < i ==> #[trigger] distinct_keys(tables@[k]@),
        decreases docs@.len() - i,
    {
        let text = docs[i].searchable_text();
        let terms = analyzer.analyze(text.as_str());
        let ghost words = texts(terms@);
        let counts = count_terms(terms);
        proof {
            lemma_counts_distinct(counts@, words);
        }
        tables.push(counts);
        i += 1;
    }
    tables
}

/// Count tables hold each term once.
proof fn lemma_counts_distinct(counts: Seq<(String, usize)>, terms: Seq<Seq<char>>)
    requires
        counts_terms(counts, terms),
    ensures
        distinct_keys(counts),
{
    lemma_first_occurrences(terms);
}

/// For each term of the documents' count tables, in the order of first
/// occurrence, the number of documents that hold it.
pub fn document_frequencies(tables: &Vec<Vec<(String, usize)>>) -> (df: Vec<(String, usize)>)
    requires
        forall|i: int| 0 <= i < tables@.len() ==> #[trigger] distinct_keys(tables@[i]@),
    ensures
        df@.len() == first_occurrences(flat_keys(tables@)).len(),
        forall|j: int| 0 <= j < df@.len() ==> #[trigger] df@[j].0@ == first_occurrences(flat_keys(tables@))[j],
        forall|j: int| 0 <= j < df@.len() ==> #[trigger] df@[j].1 == tables_containing(tables@, df@[j].0@),
{
    let mut all: Vec<String> = Vec::new();
    let mut i: usize = 0;
    while i < tables.len()
        invariant
            i <= tables@.len(),
            texts(all@) == flat_keys(tables@.take(i as int)),
        decreases tables@.len() - i,
    {
        let ghost before = all@;
        let mut k: usize = 0;
        while k < tables[i].len()
            invariant
                i < tables@.len(),
                k <= tables@[i as int]@.len(),
                texts(all@) == texts(before) + keys_of(tables@[i as int]@).take(k as int),
            decreases tables@[i as int]@.len() - k,
        {
            let ghost prev = all@;
            all.push(tables[i][k].0.clone());
            proof {
                assert(texts(all@) =~= texts(prev).push(tables@[i as int]@[k as int].0@));
                assert(keys_of(tables@[i as int]@).take(k + 1) =~= keys_of(tables@[i as int]@).take(k as int).push(
                    tables@[i as int]@[k as int].0@,
                ));
                assert(texts(all@) =~= texts(before) + keys_of(tables@[i as int]@).take(k + 1));
            }
            k += 1;
        }
        proof {
            assert(keys_of(tables@[i as int]@).take(tables@[i as int]@.len() as int) =~= keys_of(tables@[i as int]@));
            assert(tables@.take(i + 1).drop_last() =~= tables@.take(i as int));
        }
        i += 1;
    }
    proof {
        assert(tables@.take(tables@.len() as int) =~= tables@);
    }
    let df = count_terms(all);
    proof {
        assert forall|j: int| 0 <= j < df@.len() implies #[trigger] df@[j].1 == tables_containing(tables@, df@[j].0@) by {
            lemma_flat_keys_count(tables@, df@[j].0@);
        }
    }
    df
}


/// The documents the application starts with.
pub fn sample_documents() -> (docs: Vec<Document>)
    ensures
        docs@.len() == 5,
        forall|i: int| 0 <= i < 5 ==> #[trigger] docs@[i].id == i + 1,
        docs@[0].title@ == "Rustで作る小さな検索エンジン"@,
        docs@[0].body@ == "転置インデックスとTF-IDFとコサイン類似度で文書をランキングする。"@,
        docs@[1].title@ == "RustのWebフレームワーク比較"@,
        docs@[1].body@ == "axumやactix-webを使ってHTTP APIを実装する。"@,
        docs@[2].title@ == "家系図グラフの可視化"@,
        docs@[2].body@ == "人物と親子関係をグラフとして扱い、eguiで表示する。"@,
        docs@[3].title@ == "全文検索の基礎"@,
        docs@[3].body@ == "文書をベクトル空間に写像し、クエリとの内積で適合度を計算する。"@,
        docs@[4].title@ == "英語と日本語のトークン化"@,
        docs@[4].body@ == "ASCII wordと日本語n-gramを同じ転置インデックスに登録する。"@,
{
    let mut docs: Vec<Document> = Vec::new();
    docs.push(
        Document::new(
            1,
            "Rustで作る小さな検索エンジン",
            "転置インデックスとTF-IDFとコサイン類似度で文書をランキングする。",
        ),
    );
    docs.push(Document::new(2, "RustのWebフレームワーク比較", "axumやactix-webを使ってHTTP APIを実装する。"));
    docs.push(Document::new(3, "家系図グラフの可視化", "人物と親子関係をグラフとして扱い、eguiで表示する。"));
    docs.push(
        Document::new(4, "全文検索の基礎", "文書をベクトル空間に写像し、クエリとの内積で適合度を計算する。"),
    );
    docs.push(
        Document::new(
            5,
            "英語と日本語のトークン化",
            "ASCII wordと日本語n-gramを同じ転置インデックスに登録する。",
        ),
    );
    docs
}

} // verus!
