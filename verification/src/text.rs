//! Text as a sequence of characters: splitting, trimming, searching and numbers.

use vstd::prelude::*;

verus! {

/// `String::push` appends one character.
pub assume_specification[ String::push ](s: &mut String, ch: char)
    ensures
        final(s)@ == old(s)@.push(ch),
;

/// The Unicode lower-case form of a text, as the standard library computes it.
pub uninterp spec fn unicode_lowercase(s: Seq<char>) -> Seq<char>;

/// Whether a text holds ASCII characters only.
pub open spec fn is_ascii_text(s: Seq<char>) -> bool {
    forall|i: int| 0 <= i < s.len() ==> (#[trigger] s[i] as u32) < 128
}

/// The lower-case form of an ASCII character.
pub open spec fn ascii_lower(c: char) -> char {
    if 'A' <= c <= 'Z' {
        ((c as u32 + 32) as u32) as char
    } else {
        c
    }
}

/// The lower-case form of a text.
pub open spec fn lowercase(s: Seq<char>) -> Seq<char> {
    if is_ascii_text(s) {
        s.map_values(|c: char| ascii_lower(c))
    } else {
        unicode_lowercase(s)
    }
}

/// Calls `str::to_lowercase`. On ASCII text it replaces each of `A` to `Z` by the letter 32 code
/// points above it and keeps the rest; on other text the result is a function of the text alone.
#[verifier::external_body]
fn to_lowercase(s: &str) -> (res: String)
    ensures
        is_ascii_text(s@) ==> res@ == s@.map_values(|c: char| ascii_lower(c)),
        !is_ascii_text(s@) ==> res@ == unicode_lowercase(s@),
{
    s.to_lowercase()
}

/// The lower-case form of a text.
pub fn lower(s: &str) -> (res: String)
    ensures
        res@ == lowercase(s@),
{
    to_lowercase(s)
}

/// The contents of a list of strings.
pub open spec fn texts(v: Seq<String>) -> Seq<Seq<char>> {
    v.map_values(|s: String| s@)
}

/// A copy of a list of strings.
pub fn copied(v: &Vec<String>) -> (res: Vec<String>)
    ensures
        texts(res@) == texts(v@),
{
    let mut res: Vec<String> = Vec::new();
    let mut i: usize = 0;
    while i < v.len()
        invariant
            i <= v@.len(),
            res@.len() == i,
            forall|k: int| 0 <= k < i ==> (#[trigger] res@[k])@ == v@[k]@,
        decreases v@.len() - i,
    {
        res.push(v[i].clone());
        i = i + 1;
    }
    assert(texts(res@) =~= texts(v@));
    res
}

/// The characters of `s`.
pub fn chars_of(s: &str) -> (res: Vec<char>)
    ensures
        res@ == s@,
{
    let mut res: Vec<char> = Vec::new();
    for c in it: s.chars()
        invariant
            res@ == it.seq().take(it.index() as int),
            it.seq() == s@,
    {
        res.push(c);
    }
    assert(s@.take(s@.len() as int) == s@);
    res
}

/// The text made of the characters `from..to` of `v`.
pub fn text_of(v: &Vec<char>, from: usize, to: usize) -> (res: String)
    requires
        from <= to <= v@.len(),
    ensures
        res@ == v@.subrange(from as int, to as int),
{
    let mut res = String::new();
    let mut i: usize = from;
    while i < to
        invariant
            from <= i <= to <= v@.len(),
            res@ == v@.subrange(from as int, i as int),
        decreases to - i,
    {
        res.push(v[i]);
        i = i + 1;
    }
    res
}

/// Whether two texts are the same.
pub fn same(a: &str, b: &str) -> (res: bool)
    ensures
        res == (a@ == b@),
{
    a.to_owned() == b.to_owned()
}

/// `a` followed by `b`.
pub fn concat(a: &str, b: &str) -> (res: String)
    ensures
        res@ == a@ + b@,
{
    let mut res = a.to_owned();
    res.append(b);
    res
}

/// The white space characters of Unicode (the `White_Space` property).
pub open spec fn is_space(c: char) -> bool {
    let n = c as u32;
    ||| 0x9 <= n <= 0xD
    ||| n == 0x20
    ||| n == 0x85
    ||| n == 0xA0
    ||| n == 0x1680
    ||| 0x2000 <= n <= 0x200A
    ||| n == 0x2028
    ||| n == 0x2029
    ||| n == 0x202F
    ||| n == 0x205F
    ||| n == 0x3000
}

/// Decides [`is_space`].
pub fn white_space(c: char) -> (res: bool)
    ensures
        res == is_space(c),
{
    let n: u32 = c as u32;
    (0x9 <= n && n <= 0xD) || n == 0x20 || n == 0x85 || n == 0xA0 || n == 0x1680 || (0x2000 <= n
        && n <= 0x200A) || n == 0x2028 || n == 0x2029 || n == 0x202F || n == 0x205F || n == 0x3000
}

/// `s` without the white space at its start.
pub open spec fn trim_start(s: Seq<char>) -> Seq<char>
    decreases s.len(),
{
    if s.len() > 0 && is_space(s[0]) {
        trim_start(s.drop_first())
    } else {
        s
    }
}

/// `s` without the white space at its end.
pub open spec fn trim_end(s: Seq<char>) -> Seq<char>
    decreases s.len(),
{
    if s.len() > 0 && is_space(s.last()) {
        trim_end(s.drop_last())
    } else {
        s
    }
}

/// `s` without the white space at both ends.
pub open spec fn trimmed(s: Seq<char>) -> Seq<char> {
    trim_end(trim_start(s))
}

/// Removes the white space at both ends.
pub fn trim(s: &str) -> (res: String)
    ensures
        res@ == trimmed(s@),
{
    let v = chars_of(s);
    let mut from: usize = 0;
    assert(v@.skip(0) == v@);
    while from < v.len() && white_space(v[from])
        invariant
            from <= v@.len(),
            trim_start(v@) == trim_start(v@.skip(from as int)),
        decreases v@.len() - from,
    {
        assert(v@.skip(from as int).drop_first() == v@.skip(from + 1));
        from = from + 1;
    }
    proof {
        assert(trim_start(v@) == v@.skip(from as int));
    }
    let mut to: usize = v.len();
    while from < to && white_space(v[to - 1])
        invariant
            from <= to <= v@.len(),
            trimmed(v@) == trim_end(v@.subrange(from as int, to as int)),
        decreases to,
    {
        assert(v@.subrange(from as int, to as int).drop_last() == v@.subrange(
            from as int,
            to - 1,
        ));
        to = to - 1;
    }
    text_of(&v, from, to)
}

/// `s` without the run of `c` at its end.
pub open spec fn trim_end_char(s: Seq<char>, c: char) -> Seq<char>
    decreases s.len(),
{
    if s.len() > 0 && s.last() == c {
        trim_end_char(s.drop_last(), c)
    } else {
        s
    }
}

/// Removes the run of `c` at the end.
pub fn trim_end_matches(s: &str, c: char) -> (res: String)
    ensures
        res@ == trim_end_char(s@, c),
{
    let v = chars_of(s);
    let mut to: usize = v.len();
    assert(v@.take(v@.len() as int) == v@);
    while 0 < to && v[to - 1] == c
        invariant
            to <= v@.len(),
            trim_end_char(v@, c) == trim_end_char(v@.take(to as int), c),
        decreases to,
    {
        assert(v@.take(to as int).drop_last() == v@.take(to - 1));
        to = to - 1;
    }
    assert(v@.subrange(0, to as int) == v@.take(to as int));
    text_of(&v, 0, to)
}

/// Whether `part` stands at position `at` of `v`.
fn stands_at(v: &Vec<char>, at: usize, part: &Vec<char>) -> (res: bool)
    requires
        at + part@.len() <= v@.len(),
    ensures
        res == (v@.subrange(at as int, at + part@.len()) == part@),
{
    let n: usize = v.len();
    let mut i: usize = 0;
    while i < part.len()
        invariant
            i <= part@.len(),
            n == v@.len(),
            at + part@.len() <= n,
            forall|k: int| 0 <= k < i ==> v@[at + k] == part@[k],
        decreases part@.len() - i,
    {
        if v[at + i] != part[i] {
            assert(v@.subrange(at as int, at + part@.len())[i as int] != part@[i as int]);
            return false;
        }
        i = i + 1;
    }
    assert(v@.subrange(at as int, at + part@.len()) == part@);
    true
}

/// Whether `s` starts with `prefix`.
pub fn starts_with(s: &str, prefix: &str) -> (res: bool)
    ensures
        res == prefix@.is_prefix_of(s@),
{
    let v = chars_of(s);
    let p = chars_of(prefix);
    p.len() <= v.len() && stands_at(&v, 0, &p)
}

/// Whether `s` ends with `suffix`.
pub fn ends_with(s: &str, suffix: &str) -> (res: bool)
    ensures
        res == suffix@.is_suffix_of(s@),
{
    let v = chars_of(s);
    let p = chars_of(suffix);
    p.len() <= v.len() && stands_at(&v, v.len() - p.len(), &p)
}

/// Whether `c` is the last character of `s`.
pub fn ends_with_char(s: &str, c: char) -> (res: bool)
    ensures
        res == (s@.len() > 0 && s@.last() == c),
{
    let v = chars_of(s);
    v.len() > 0 && v[v.len() - 1] == c
}

/// Whether `part` occurs in `s`.
pub open spec fn occurs_in(part: Seq<char>, s: Seq<char>) -> bool {
    exists|i: int|
        0 <= i <= s.len() - part.len() && #[trigger] s.subrange(i, i + part.len()) == part
}

/// Decides [`occurs_in`].
pub fn contains(s: &str, part: &str) -> (res: bool)
    ensures
        res == occurs_in(part@, s@),
{
    let v = chars_of(s);
    let p = chars_of(part);
    if p.len() > v.len() {
        return false;
    }
    let last: usize = v.len() - p.len();
    let mut at: usize = 0;
    while at < last
        invariant
            p@ == part@,
            v@ == s@,
            last == v@.len() - p@.len(),
            at <= last,
            forall|i: int| 0 <= i < at ==> #[trigger] v@.subrange(i, i + p@.len()) != p@,
        decreases last - at,
    {
        if stands_at(&v, at, &p) {
            return true;
        }
        at = at + 1;
    }
    stands_at(&v, last, &p)
}

/// Being the character `c`.
pub open spec fn is_char(c: char) -> spec_fn(char) -> bool {
    |x: char| x == c
}

/// Being white space.
pub open spec fn is_blank() -> spec_fn(char) -> bool {
    |x: char| is_space(x)
}

/// Being a text with at least one character.
pub open spec fn is_full() -> spec_fn(Seq<char>) -> bool {
    |w: Seq<char>| w.len() > 0
}

/// How often `c` occurs in `s`.
pub open spec fn count_of(s: Seq<char>, c: char) -> nat {
    s.filter(is_char(c)).len()
}

/// Counts the occurrences of `c`.
pub fn count(s: &str, c: char) -> (res: usize)
    ensures
        res == count_of(s@, c),
{
    let v = chars_of(s);
    let ghost f = is_char(c);
    let mut n: usize = 0;
    let mut i: usize = 0;
    assert(v@.take(0).filter(f) == Seq::<char>::empty()) by {
        reveal(Seq::filter);
    }
    while i < v.len()
        invariant
            i <= v@.len(),
            n <= i,
            f == is_char(c),
            n == v@.take(i as int).filter(f).len(),
        decreases v@.len() - i,
    {
        proof {
            reveal(Seq::filter);
            assert(v@.take(i + 1).drop_last() == v@.take(i as int));
        }
        if v[i] == c {
            n = n + 1;
        }
        i = i + 1;
    }
    assert(v@.take(v@.len() as int) == v@);
    n
}

/// `s` cut at every character that `sep` holds of; there is one piece more than cuts.
pub open spec fn cut_at(s: Seq<char>, sep: spec_fn(char) -> bool) -> Seq<Seq<char>>
    decreases s.len(),
{
    if s.len() == 0 {
        seq![Seq::empty()]
    } else {
        let before = cut_at(s.drop_last(), sep);
        if sep(s.last()) {
            before.push(Seq::empty())
        } else {
            before.drop_last().push(before.last().push(s.last()))
        }
    }
}

/// `s` cut at every `c`.
pub open spec fn pieces(s: Seq<char>, c: char) -> Seq<Seq<char>> {
    cut_at(s, is_char(c))
}

/// The maximal runs of characters of `s` that are no white space.
pub open spec fn words(s: Seq<char>) -> Seq<Seq<char>> {
    cut_at(s, is_blank()).filter(is_full())
}

/// Cutting leaves at least one piece.
pub proof fn lemma_cut_nonempty(s: Seq<char>, sep: spec_fn(char) -> bool)
    ensures
        cut_at(s, sep).len() >= 1,
    decreases s.len(),
{
    if s.len() > 0 {
        lemma_cut_nonempty(s.drop_last(), sep);
    }
}

/// Cuts `s` at every `c`.
pub fn split(s: &str, c: char) -> (res: Vec<String>)
    ensures
        texts(res@) == pieces(s@, c),
        res@.len() >= 1,
{
    let v = chars_of(s);
    let ghost f = is_char(c);
    let mut res: Vec<String> = Vec::new();
    let mut cur = String::new();
    let mut i: usize = 0;
    assert(v@.take(0) == Seq::<char>::empty());
    while i < v.len()
        invariant
            i <= v@.len(),
            f == is_char(c),
            cut_at(v@.take(i as int), f) == texts(res@).push(cur@),
        decreases v@.len() - i,
    {
        let ghost before = texts(res@);
        assert(v@.take(i + 1).drop_last() == v@.take(i as int));
        if v[i] == c {
            res.push(cur);
            cur = String::new();
            assert(texts(res@) == cut_at(v@.take(i as int), f));
        } else {
            cur.push(v[i]);
            assert(texts(res@).push(cur@).drop_last() == before);
        }
        i = i + 1;
    }
    let ghost before = texts(res@);
    let ghost last = cur@;
    res.push(cur);
    assert(v@.take(v@.len() as int) == v@);
    assert(texts(res@) == before.push(last));
    res
}

/// The pieces of `s` between every `c`, each without the white space at its ends.
pub open spec fn trimmed_pieces(s: Seq<char>, c: char) -> Seq<Seq<char>> {
    pieces(s, c).map_values(|p: Seq<char>| trimmed(p))
}

/// Cuts `s` at every `c` and trims the pieces.
pub fn split_trimmed(s: &str, c: char) -> (res: Vec<String>)
    ensures
        texts(res@) == trimmed_pieces(s@, c),
        res@.len() >= 1,
{
    let parts = split(s, c);
    let ghost p = pieces(s@, c);
    let mut res: Vec<String> = Vec::new();
    let mut i: usize = 0;
    while i < parts.len()
        invariant
            i <= parts@.len(),
            texts(parts@) == p,
            texts(res@) == p.take(i as int).map_values(|p: Seq<char>| trimmed(p)),
        decreases parts@.len() - i,
    {
        let ghost before = texts(res@);
        assert(p[i as int] == parts@[i as int]@);
        let t = trim(parts[i].as_str());
        res.push(t);
        assert(texts(res@) == before.push(t@));
        assert(p.take(i + 1) == p.take(i as int).push(p[i as int]));
        i = i + 1;
    }
    assert(p.take(p.len() as int) == p);
    res
}

/// The texts of `v` that hold at least one character.
pub fn full_texts(v: Vec<String>) -> (res: Vec<String>)
    ensures
        texts(res@) == texts(v@).filter(is_full()),
{
    let ghost f = is_full();
    let ghost all = texts(v@);
    let mut res: Vec<String> = Vec::new();
    let mut i: usize = 0;
    assert(all.take(0).filter(f) == Seq::<Seq<char>>::empty()) by {
        reveal(Seq::filter);
    }
    while i < v.len()
        invariant
            i <= v@.len(),
            f == is_full(),
            all == texts(v@),
            texts(res@) == all.take(i as int).filter(f),
        decreases v@.len() - i,
    {
        let ghost before = texts(res@);
        proof {
            reveal(Seq::filter);
            assert(all.take(i + 1).drop_last() == all.take(i as int));
            assert(all.take(i + 1).last() == v@[i as int]@);
        }
        if !v[i].as_str().is_empty() {
            res.push(v[i].clone());
            assert(texts(res@) == before.push(v@[i as int]@));
        }
        i = i + 1;
    }
    assert(all.take(all.len() as int) == all);
    res
}

/// The words of `s`.
pub fn split_whitespace(s: &str) -> (res: Vec<String>)
    ensures
        texts(res@) == words(s@),
{
    let v = chars_of(s);
    let ghost f = is_blank();
    let ghost g = is_full();
    let mut res: Vec<String> = Vec::new();
    let mut cur = String::new();
    let mut i: usize = 0;
    proof {
        assert(v@.take(0) == Seq::<char>::empty());
        reveal(Seq::filter);
        assert(cut_at(v@.take(0), f).drop_last() == Seq::<Seq<char>>::empty());
    }
    while i < v.len()
        invariant
            i <= v@.len(),
            f == is_blank(),
            g == is_full(),
            cut_at(v@.take(i as int), f).len() >= 1,
            cut_at(v@.take(i as int), f).last() == cur@,
            cut_at(v@.take(i as int), f).drop_last().filter(g) == texts(res@),
        decreases v@.len() - i,
    {
        let ghost done = texts(res@);
        let ghost old_cut = cut_at(v@.take(i as int), f);
        assert(v@.take(i + 1).drop_last() == v@.take(i as int));
        if white_space(v[i]) {
            proof {
                assert(old_cut.push(Seq::empty()).drop_last() == old_cut);
                assert(old_cut == old_cut.drop_last().push(cur@));
                reveal(Seq::filter);
                assert(old_cut.filter(g) == if cur@.len() > 0 {
                    done.push(cur@)
                } else {
                    done
                });
            }
            if !cur.as_str().is_empty() {
                let ghost w = cur@;
                res.push(cur);
                assert(texts(res@) == done.push(w));
            }
            cur = String::new();
        } else {
            cur.push(v[i]);
            assert(old_cut.drop_last().push(cur@).drop_last() == old_cut.drop_last());
        }
        i = i + 1;
    }
    proof {
        let all = cut_at(v@, f);
        assert(v@.take(v@.len() as int) == v@);
        assert(all == all.drop_last().push(cur@));
        reveal(Seq::filter);
    }
    let ghost done = texts(res@);
    if !cur.as_str().is_empty() {
        let ghost w = cur@;
        res.push(cur);
        assert(texts(res@) == done.push(w));
    }
    res
}

/// The parts one after the other, with `sep` between neighbours.
pub open spec fn joined(parts: Seq<Seq<char>>, sep: Seq<char>) -> Seq<char>
    decreases parts.len(),
{
    if parts.len() == 0 {
        Seq::empty()
    } else if parts.len() == 1 {
        parts[0]
    } else {
        joined(parts.drop_last(), sep) + sep + parts.last()
    }
}

/// Joins the parts from number `from` on.
pub fn join(parts: &Vec<String>, from: usize, sep: &str) -> (res: String)
    requires
        from <= parts@.len(),
    ensures
        res@ == joined(texts(parts@).skip(from as int), sep@),
{
    let ghost all = texts(parts@);
    let mut res = String::new();
    let mut i: usize = from;
    while i < parts.len()
        invariant
            from <= i <= parts@.len(),
            all == texts(parts@),
            res@ == joined(all.subrange(from as int, i as int), sep@),
        decreases parts@.len() - i,
    {
        assert(all.subrange(from as int, i + 1).drop_last() == all.subrange(from as int, i as int));
        if i > from {
            res.append(sep);
        }
        res.append(parts[i].as_str());
        i = i + 1;
    }
    assert(all.subrange(from as int, all.len() as int) == all.skip(from as int));
    res
}

/// A terminated line without the carriage return before its terminator.
pub open spec fn without_return(line: Seq<char>) -> Seq<char> {
    if line.len() > 0 && line.last() == '\r' {
        line.drop_last()
    } else {
        line
    }
}

/// The lines of `s`: each ends at a line feed, or at a carriage return and a line feed; what
/// follows the last of them is a line if it is not empty.
pub open spec fn lines_of(s: Seq<char>) -> Seq<Seq<char>> {
    let p = pieces(s, '\n');
    let ended = p.drop_last().map_values(|l: Seq<char>| without_return(l));
    if p.last().len() == 0 {
        ended
    } else {
        ended.push(p.last())
    }
}

/// The lines of `s`.
pub fn lines(s: &str) -> (res: Vec<String>)
    ensures
        texts(res@) == lines_of(s@),
{
    let parts = split(s, '\n');
    let ghost p = pieces(s@, '\n');
    let mut res: Vec<String> = Vec::new();
    let mut i: usize = 0;
    let last: usize = parts.len() - 1;
    while i < last
        invariant
            i <= last,
            last == parts@.len() - 1,
            texts(parts@) == p,
            texts(res@) == p.take(i as int).map_values(|l: Seq<char>| without_return(l)),
        decreases last - i,
    {
        let ghost before = texts(res@);
        assert(p[i as int] == parts@[i as int]@);
        let v = chars_of(parts[i].as_str());
        let mut to: usize = v.len();
        if to > 0 && v[to - 1] == '\r' {
            to = to - 1;
        }
        let line = text_of(&v, 0, to);
        assert(line@ == without_return(p[i as int]));
        res.push(line);
        assert(texts(res@) == before.push(line@));
        assert(p.take(i + 1) == p.take(i as int).push(p[i as int]));
        i = i + 1;
    }
    assert(p.take(last as int) == p.drop_last());
    assert(p.last() == parts@[last as int]@);
    if !parts[last].as_str().is_empty() {
        let ghost before = texts(res@);
        res.push(parts[last].clone());
        assert(texts(res@) == before.push(p.last()));
    }
    res
}

/// `s` without the occurrences of `part`, which are sought from the left.
pub open spec fn without(s: Seq<char>, part: Seq<char>) -> Seq<char>
    decreases s.len(),
{
    if part.len() == 0 || s.len() < part.len() {
        s
    } else if s.take(part.len() as int) == part {
        without(s.skip(part.len() as int), part)
    } else {
        seq![s[0]] + without(s.drop_first(), part)
    }
}

/// Removes the occurrences of `part`.
pub fn remove_all(s: &str, part: &str) -> (res: String)
    requires
        part@.len() > 0,
    ensures
        res@ == without(s@, part@),
{
    let v = chars_of(s);
    let p = chars_of(part);
    let n: usize = v.len();
    let m: usize = p.len();
    let mut res = String::new();
    let mut at: usize = 0;
    assert(v@.skip(0) == v@);
    while at < n
        invariant
            at <= n == v@.len(),
            0 < m == p@.len(),
            without(v@, p@) == res@ + without(v@.skip(at as int), p@),
        decreases n - at,
    {
        let ghost rest = v@.skip(at as int);
        if m <= n - at && stands_at(&v, at, &p) {
            assert(rest.take(m as int) == v@.subrange(at as int, at + m));
            assert(rest.skip(m as int) == v@.skip(at + m));
            at = at + m;
        } else {
            let ghost before = res@;
            res.push(v[at]);
            proof {
                assert(rest.drop_first() == v@.skip(at + 1));
                if m <= n - at {
                    assert(rest.take(m as int) == v@.subrange(at as int, at + m));
                    assert(before + (seq![rest[0]] + without(rest.drop_first(), p@))
                        == before.push(rest[0]) + without(rest.drop_first(), p@));
                } else {
                    assert(before + rest == before.push(rest[0]) + rest.drop_first());
                }
            }
            at = at + 1;
        }
    }
    assert(res@ + without(v@.skip(n as int), p@) == res@);
    res
}

/// The character of a digit.
pub open spec fn digit(d: nat) -> char {
    ((48 + d) as u32) as char
}

/// The decimal notation of a number.
pub open spec fn decimal_of(n: nat) -> Seq<char>
    decreases n,
{
    if n < 10 {
        seq![digit(n)]
    } else {
        decimal_of(n / 10).push(digit(n % 10))
    }
}

/// The decimal notation of `n`.
pub fn decimal(n: u64) -> (res: String)
    ensures
        res@ == decimal_of(n as nat),
    decreases n,
{
    let d: u8 = 48 + (n % 10) as u8;
    let mut res = if n < 10 {
        String::new()
    } else {
        decimal(n / 10)
    };
    res.push(d as char);
    assert(d as char == digit((n % 10) as nat));
    res
}

/// The decimal digits.
pub open spec fn is_digit(c: char) -> bool {
    '0' <= c <= '9'
}

/// The number that a row of digits denotes.
pub open spec fn digits_value(s: Seq<char>) -> nat
    decreases s.len(),
{
    if s.len() == 0 {
        0
    } else {
        (digits_value(s.drop_last()) * 10 + (s.last() as u32 - 48)) as nat
    }
}

/// `s` without a plus sign at its start.
pub open spec fn unsigned(s: Seq<char>) -> Seq<char> {
    if s.len() > 0 && s[0] == '+' {
        s.drop_first()
    } else {
        s
    }
}

/// The number that `s` denotes: digits, and a plus sign before them if there is one.
pub open spec fn number_of(s: Seq<char>) -> Option<nat> {
    let d = unsigned(s);
    if d.len() > 0 && (forall|i: int| 0 <= i < d.len() ==> is_digit(#[trigger] d[i])) {
        Some(digits_value(d))
    } else {
        None
    }
}

/// A row of digits denotes at least as much as the row without its last digits.
proof fn lemma_digits_grow(s: Seq<char>, n: int)
    requires
        0 <= n <= s.len(),
        forall|i: int| 0 <= i < s.len() ==> is_digit(#[trigger] s[i]),
    ensures
        digits_value(s.take(n)) <= digits_value(s),
    decreases s.len() - n,
{
    if n < s.len() {
        lemma_digits_grow(s, n + 1);
        assert(s.take(n + 1).drop_last() == s.take(n));
        assert(is_digit(s[n]));
    } else {
        assert(s.take(n) == s);
    }
}

/// Reads a number that is at most `max`.
pub fn parse_number(s: &str, max: u64) -> (res: Option<u64>)
    ensures
        res == (match number_of(s@) {
            Some(n) => if n <= max {
                Some(n as u64)
            } else {
                None
            },
            None => None,
        }),
{
    let v = chars_of(s);
    let mut from: usize = 0;
    if v.len() > 0 && v[0] == '+' {
        from = 1;
    }
    let ghost d = v@.skip(from as int);
    assert(d == unsigned(s@));
    if from == v.len() {
        return None;
    }
    let mut i: usize = from;
    while i < v.len()
        invariant
            from <= i <= v@.len(),
            d == v@.skip(from as int),
            d == unsigned(s@),
            forall|k: int| 0 <= k < i - from ==> is_digit(#[trigger] d[k]),
        decreases v@.len() - i,
    {
        let c: char = v[i];
        assert(d[i - from] == c);
        if !('0' <= c && c <= '9') {
            return None;
        }
        i = i + 1;
    }
    let mut total: u64 = 0;
    i = from;
    while i < v.len()
        invariant
            from <= i <= v@.len(),
            d == v@.skip(from as int),
            d == unsigned(s@),
            forall|k: int| 0 <= k < d.len() ==> is_digit(#[trigger] d[k]),
            d.len() > 0,
            total == digits_value(d.take(i - from)),
            total <= max,
        decreases v@.len() - i,
    {
        let c: char = v[i];
        assert(d[i - from] == c);
        proof {
            assert(d.take(i + 1 - from).drop_last() == d.take(i - from));
            lemma_digits_grow(d, i + 1 - from);
        }
        let x: u64 = (c as u32 - 48) as u64;
        if total > (u64::MAX - x) / 10 {
            return None;
        }
        let next: u64 = total * 10 + x;
        if next > max {
            return None;
        }
        total = next;
        i = i + 1;
    }
    assert(d.take(d.len() as int) == d);
    Some(total)
}

/// `s` with spaces behind it, up to `width` characters in all.
pub open spec fn padded(s: Seq<char>, width: nat) -> Seq<char> {
    if s.len() >= width {
        s
    } else {
        s + Seq::new((width - s.len()) as nat, |i: int| ' ')
    }
}

/// Pads `s` with spaces.
pub fn pad_end(s: &str, width: usize) -> (res: String)
    ensures
        res@ == padded(s@, width as nat),
{
    let mut res = s.to_owned();
    let mut n: usize = s.unicode_len();
    while n < width
        invariant
            n >= s@.len(),
            n <= width || n == s@.len(),
            res@ == s@ + Seq::new((n - s@.len()) as nat, |i: int| ' '),
        decreases width - n,
    {
        res.push(' ');
        n = n + 1;
    }
    res
}

/// The order of texts by their first differing character.
pub open spec fn text_less(a: Seq<char>, b: Seq<char>) -> bool
    decreases a.len(),
{
    if b.len() == 0 {
        false
    } else if a.len() == 0 {
        true
    } else if a[0] != b[0] {
        a[0] < b[0]
    } else {
        text_less(a.drop_first(), b.drop_first())
    }
}

/// Decides [`text_less`].
pub fn less(a: &str, b: &str) -> (res: bool)
    ensures
        res == text_less(a@, b@),
{
    let v = chars_of(a);
    let w = chars_of(b);
    let mut i: usize = 0;
    assert(v@.skip(0) == v@);
    assert(w@.skip(0) == w@);
    while i < v.len() && i < w.len()
        invariant
            i <= v@.len(),
            i <= w@.len(),
            v@ == a@,
            w@ == b@,
            text_less(v@, w@) == text_less(v@.skip(i as int), w@.skip(i as int)),
        decreases v@.len() - i,
    {
        if v[i] != w[i] {
            return v[i] < w[i];
        }
        assert(v@.skip(i as int).drop_first() == v@.skip(i + 1));
        assert(w@.skip(i as int).drop_first() == w@.skip(i + 1));
        i = i + 1;
    }
    i < w.len()
}

/// Of two texts, either one is less than the other or they are the same.
pub proof fn lemma_text_order(a: Seq<char>, b: Seq<char>)
    ensures
        text_less(a, b) ==> !text_less(b, a) && a != b,
        !text_less(a, b) && !text_less(b, a) ==> a == b,
    decreases a.len(),
{
    if a.len() > 0 && b.len() > 0 {
        lemma_text_order(a.drop_first(), b.drop_first());
        if a[0] == b[0] && a.drop_first() == b.drop_first() {
            assert(a == seq![a[0]] + a.drop_first());
            assert(b == seq![b[0]] + b.drop_first());
        }
    }
}

/// The order of texts is transitive.
pub proof fn lemma_text_order_is_transitive(a: Seq<char>, b: Seq<char>, c: Seq<char>)
    requires
        text_less(a, b),
        text_less(b, c),
    ensures
        text_less(a, c),
    decreases a.len(),
{
    if a.len() > 0 && a[0] == b[0] && b[0] == c[0] {
        lemma_text_order_is_transitive(a.drop_first(), b.drop_first(), c.drop_first());
    }
}

/// No piece holds a character at which the text was cut.
pub proof fn lemma_cut_holds_no_separator(s: Seq<char>, sep: spec_fn(char) -> bool)
    ensures
        forall|k: int, i: int|
            0 <= k < cut_at(s, sep).len() && 0 <= i < cut_at(s, sep)[k].len() ==> !sep(
                #[trigger] cut_at(s, sep)[k][i],
            ),
    decreases s.len(),
{
    if s.len() > 0 {
        lemma_cut_nonempty(s.drop_last(), sep);
        lemma_cut_holds_no_separator(s.drop_last(), sep);
        let before = cut_at(s.drop_last(), sep);
        assert forall|k: int, i: int|
            0 <= k < cut_at(s, sep).len() && 0 <= i < cut_at(s, sep)[k].len() implies !sep(
            #[trigger] cut_at(s, sep)[k][i],
        ) by {
            if sep(s.last()) {
                if k < before.len() {
                    assert(!sep(before[k][i]));
                }
            } else if k < before.len() - 1 {
                assert(!sep(before[k][i]));
            } else if i < before.last().len() {
                assert(!sep(before[before.len() - 1][i]));
            }
        }
    }
}

/// What is left after trimming was there before.
pub proof fn lemma_trimmed_holds_the_same(s: Seq<char>, c: char)
    requires
        trimmed(s).contains(c),
    ensures
        s.contains(c),
{
    lemma_trim_start_holds_the_same(s, c);
    lemma_trim_end_holds_the_same(trim_start(s), c);
}

proof fn lemma_trim_start_holds_the_same(s: Seq<char>, c: char)
    ensures
        trim_start(s).contains(c) ==> s.contains(c),
    decreases s.len(),
{
    if s.len() > 0 && is_space(s[0]) {
        lemma_trim_start_holds_the_same(s.drop_first(), c);
        if s.drop_first().contains(c) {
            let i = s.drop_first().index_of(c);
            assert(s[i + 1] == c);
        }
    }
}

proof fn lemma_trim_end_holds_the_same(s: Seq<char>, c: char)
    ensures
        trim_end(s).contains(c) ==> s.contains(c),
    decreases s.len(),
{
    if s.len() > 0 && is_space(s.last()) {
        lemma_trim_end_holds_the_same(s.drop_last(), c);
        if s.drop_last().contains(c) {
            let i = s.drop_last().index_of(c);
            assert(s[i] == c);
        }
    }
}

/// A text in ASCII keeps its length in small letters; each of `A` to `Z` becomes the letter of the
/// same place among `a` to `z`, and all else stays.
pub proof fn law_small_letters(s: &str, res: String, i: int)
    requires
        call_ensures(lower, (s,), res),
        forall|k: int| 0 <= k < s@.len() ==> (#[trigger] s@[k] as u32) < 128,
        0 <= i < s@.len(),
    ensures
        res@.len() == s@.len(),
        'A' <= s@[i] <= 'Z' ==> 'a' <= res@[i] <= 'z' && res@[i] as u32 - 'a' as u32 == s@[i] as u32
            - 'A' as u32,
        !('A' <= s@[i] <= 'Z') ==> res@[i] == s@[i],
{
    let c = s@[i];
    if 'A' <= c <= 'Z' {
        let n = (c as u32 + 32) as u32;
        assert(97 <= n <= 122);
        assert((n as char) as u32 == n);
    }
}

/// What is left without a character at the end is a start of the text that does not end with the
/// character, and behind it stands nothing else.
pub proof fn law_trimmed_end(s: &str, c: char, res: String)
    requires
        call_ensures(trim_end_matches, (s, c), res),
    ensures
        res@.is_prefix_of(s@),
        res@.len() == 0 || res@.last() != c,
        forall|i: int| res@.len() <= i < s@.len() ==> #[trigger] s@[i] == c,
{
    lemma_trimmed_end(s@, c);
}

/// The same of texts as values.
pub proof fn lemma_trimmed_end(s: Seq<char>, c: char)
    ensures
        trim_end_char(s, c).is_prefix_of(s),
        trim_end_char(s, c).len() == 0 || trim_end_char(s, c).last() != c,
        forall|i: int| trim_end_char(s, c).len() <= i < s.len() ==> #[trigger] s[i] == c,
    decreases s.len(),
{
    if s.len() > 0 && s.last() == c {
        lemma_trimmed_end(s.drop_last(), c);
        let t = trim_end_char(s, c);
        assert(t =~= s.subrange(0, t.len() as int)) by {
            assert(t == s.drop_last().subrange(0, t.len() as int));
        }
        assert forall|i: int| t.len() <= i < s.len() implies #[trigger] s[i] == c by {
            if i < s.len() - 1 {
                assert(s.drop_last()[i] == c);
            }
        }
    } else {
        assert(s =~= s.subrange(0, s.len() as int));
    }
}

/// A start of a text that does not end with a character, with nothing else behind it, is what is
/// left of the text without the character at its end.
pub proof fn lemma_trimmed_end_is(s: Seq<char>, c: char, t: Seq<char>)
    requires
        t.is_prefix_of(s),
        t.len() == 0 || t.last() != c,
        forall|i: int| t.len() <= i < s.len() ==> #[trigger] s[i] == c,
    ensures
        trim_end_char(s, c) == t,
{
    lemma_trimmed_end(s, c);
    let u = trim_end_char(s, c);
    assert(t == s.subrange(0, t.len() as int));
    assert(u == s.subrange(0, u.len() as int));
    if u.len() < t.len() {
        assert(t.last() == s[t.len() - 1]);
    } else if t.len() < u.len() {
        assert(u.last() == s[u.len() - 1]);
    }
}

/// White space in ASCII is the space and the five characters from tab to carriage return, and
/// beyond it the spaces and separators of Unicode.
pub proof fn law_white_space(c: char, res: bool)
    requires
        call_ensures(white_space, (c,), res),
    ensures
        (c as u32) < 128 ==> (res <==> c == ' ' || '\t' <= c <= '\r'),
        c as u32 >= 128 && res ==> [
            0x85u32,
            0xA0,
            0x1680,
            0x2028,
            0x2029,
            0x202F,
            0x205F,
            0x3000,
        ]@.contains(c as u32) || 0x2000 <= c as u32 <= 0x200A,
        0x2000 <= c as u32 <= 0x200A ==> res,
        [0x85u32, 0xA0, 0x1680, 0x2028, 0x2029, 0x202F, 0x205F, 0x3000]@.contains(c as u32) ==> res,
{
    let others = [0x85u32, 0xA0, 0x1680, 0x2028, 0x2029, 0x202F, 0x205F, 0x3000]@;
    assert(others[0] == 0x85 && others[1] == 0xA0 && others[2] == 0x1680 && others[3] == 0x2028
        && others[4] == 0x2029 && others[5] == 0x202F && others[6] == 0x205F && others[7] == 0x3000);
}

/// A trimmed text stands in the text with white space before and behind it only, and does not
/// start or end with any.
pub proof fn law_trimmed(s: &str, res: String)
    requires
        call_ensures(trim, (s,), res),
    ensures
        exists|before: Seq<char>, behind: Seq<char>| #[trigger]
            (before + res@ + behind) == s@ && all_space(before) && all_space(behind),
        res@.len() > 0 ==> !is_space(res@[0]) && !is_space(res@.last()),
{
    let t = trim_start(s@);
    lemma_trim_start(s@);
    lemma_trim_end(t);
    let before = s@.take(s@.len() - t.len());
    let behind = t.skip(res@.len() as int);
    assert(before + res@ + behind =~= s@) by {
        assert(res@ + behind =~= t);
        assert(before + t =~= s@);
        assert(before + res@ + behind =~= before + (res@ + behind));
    }
    assert(all_space(before) && all_space(behind));
}

/// Whether a text is white space.
pub open spec fn all_space(s: Seq<char>) -> bool {
    forall|i: int| 0 <= i < s.len() ==> is_space(#[trigger] s[i])
}

proof fn lemma_trim_start(s: Seq<char>)
    ensures
        trim_start(s).len() <= s.len(),
        trim_start(s) == s.skip(s.len() - trim_start(s).len()),
        all_space(s.take(s.len() - trim_start(s).len())),
        trim_start(s).len() > 0 ==> !is_space(trim_start(s)[0]),
    decreases s.len(),
{
    if s.len() > 0 && is_space(s[0]) {
        let r = s.drop_first();
        lemma_trim_start(r);
        let t = trim_start(s);
        assert(s.skip(s.len() - t.len()) =~= r.skip(r.len() - t.len()));
        assert forall|i: int| 0 <= i < s.len() - t.len() implies is_space(#[trigger] s[i]) by {
            if i > 0 {
                assert(r.take(r.len() - t.len())[i - 1] == s[i]);
            }
        }
    } else {
        assert(s.skip(0) =~= s);
    }
}

proof fn lemma_trim_end(s: Seq<char>)
    ensures
        trim_end(s).len() <= s.len(),
        trim_end(s) == s.take(trim_end(s).len() as int),
        all_space(s.skip(trim_end(s).len() as int)),
        trim_end(s).len() > 0 ==> !is_space(trim_end(s).last()) && trim_end(s)[0] == s[0],
    decreases s.len(),
{
    if s.len() > 0 && is_space(s.last()) {
        let r = s.drop_last();
        lemma_trim_end(r);
        let t = trim_end(s);
        assert(s.take(t.len() as int) =~= r.take(t.len() as int));
        assert forall|i: int| 0 <= i < s.len() - t.len() implies is_space(
            #[trigger] s.skip(t.len() as int)[i],
        ) by {
            if i < r.len() - t.len() {
                assert(r.skip(t.len() as int)[i] == s.skip(t.len() as int)[i]);
            }
        }
    } else {
        assert(s.take(s.len() as int) =~= s);
    }
}

/// A text occurs in another exactly where that is made of something, the text, and something.
pub proof fn law_occurrences(s: &str, part: &str, res: bool)
    requires
        call_ensures(contains, (s, part), res),
    ensures
        res <==> exists|a: Seq<char>, b: Seq<char>| #[trigger] (a + part@ + b) == s@,
{
    if res {
        let i = choose|i: int|
            0 <= i <= s@.len() - part@.len() && #[trigger] s@.subrange(i, i + part@.len()) == part@;
        let a = s@.take(i);
        let b = s@.skip(i + part@.len());
        assert(a + part@ + b =~= s@);
    }
    if exists|a: Seq<char>, b: Seq<char>| #[trigger] (a + part@ + b) == s@ {
        let (a, b) = choose|a: Seq<char>, b: Seq<char>| #[trigger] (a + part@ + b) == s@;
        assert(s@.subrange(a.len() as int, (a.len() + part@.len()) as int) =~= part@);
    }
}

/// A character occurs in a text as often as in its two halves together, once in itself and not in
/// the empty text.
pub proof fn law_occurrences_add_up(a: Seq<char>, b: Seq<char>, c: char, d: char)
    ensures
        count_of(a + b, c) == count_of(a, c) + count_of(b, c),
        count_of(seq![d], c) == (if c == d {
            1nat
        } else {
            0nat
        }),
        count_of(Seq::empty(), c) == 0,
{
    reveal(Seq::filter);
    Seq::filter_distributes_over_add(a, b, is_char(c));
    let none = Seq::<char>::empty();
    assert(none.filter(is_char(c)) =~= none);
    assert(seq![d].drop_last() =~= none);
    assert(seq![d].filter(is_char(c)) == (if d == c {
        none.push(d)
    } else {
        none
    }));
}

/// A text that is cut at a character is what stands before its first one, and then what the rest is
/// cut into; a text without the character is not cut.
pub proof fn law_pieces(a: Seq<char>, c: char, rest: Seq<char>)
    requires
        !a.contains(c),
    ensures
        pieces(a, c) == seq![a],
        pieces(a + seq![c] + rest, c) == seq![a] + pieces(rest, c),
{
    lemma_cut_first(a, rest, c, is_char(c));
    lemma_cut_none(a, is_char(c));
}

/// A text without characters to cut at is not cut.
pub proof fn lemma_cut_none(a: Seq<char>, sep: spec_fn(char) -> bool)
    requires
        forall|i: int| 0 <= i < a.len() ==> !sep(#[trigger] a[i]),
    ensures
        cut_at(a, sep) == seq![a],
    decreases a.len(),
{
    if a.len() > 0 {
        lemma_cut_none(a.drop_last(), sep);
        assert(a.drop_last().push(a.last()) =~= a);
        let before = cut_at(a.drop_last(), sep);
        assert(before.drop_last().push(before.last().push(a.last())) =~= seq![a]);
    } else {
        assert(a =~= Seq::empty());
    }
}

/// What stands before the first character to cut at is the first piece.
pub proof fn lemma_cut_first(a: Seq<char>, rest: Seq<char>, c: char, sep: spec_fn(char) -> bool)
    requires
        forall|i: int| 0 <= i < a.len() ==> !sep(#[trigger] a[i]),
        sep(c),
    ensures
        cut_at(a + seq![c] + rest, sep) == seq![a] + cut_at(rest, sep),
    decreases rest.len(),
{
    let s = a + seq![c] + rest;
    if rest.len() == 0 {
        assert(s.drop_last() =~= a);
        assert(s.last() == c);
        lemma_cut_none(a, sep);
        assert(rest =~= Seq::empty());
        assert(cut_at(s, sep) =~= seq![a] + cut_at(rest, sep));
    } else {
        let r = rest.drop_last();
        lemma_cut_first(a, r, c, sep);
        lemma_cut_nonempty(r, sep);
        assert(s.drop_last() =~= a + seq![c] + r);
        assert(s.last() == rest.last());
        assert(cut_at(s, sep) =~= seq![a] + cut_at(rest, sep));
    }
}

/// Cutting at a character gives the pieces of [`law_pieces`].
pub proof fn law_split(s: &str, c: char, res: Vec<String>)
    requires
        call_ensures(split, (s, c), res),
    ensures
        res@.len() == count_of(s@, c) + 1,
        forall|k: int| 0 <= k < res@.len() ==> !(#[trigger] res@[k])@.contains(c),
        joined(texts(res@), seq![c]) == s@,
{
    lemma_cut_holds_no_separator(s@, is_char(c));
    assert forall|k: int| 0 <= k < res@.len() implies !(#[trigger] res@[k])@.contains(c) by {
        assert(texts(res@)[k] == res@[k]@);
        if res@[k]@.contains(c) {
            let i = res@[k]@.index_of(c);
            assert(!is_char(c)(pieces(s@, c)[k][i]));
        }
    }
    lemma_pieces_join(s@, c);
}

/// Pieces are one more than cuts, and joined again they are the text.
pub proof fn lemma_pieces_join(s: Seq<char>, c: char)
    ensures
        pieces(s, c).len() == count_of(s, c) + 1,
        joined(pieces(s, c), seq![c]) == s,
    decreases s.len(),
{
    reveal(Seq::filter);
    if s.len() > 0 {
        let r = s.drop_last();
        lemma_pieces_join(r, c);
        let before = pieces(r, c);
        let after = pieces(s, c);
        if s.last() == c {
            assert(after.drop_last() =~= before);
            assert(joined(after, seq![c]) =~= s);
        } else if before.len() == 1 {
            assert(after =~= seq![r.push(s.last())]);
            assert(joined(after, seq![c]) =~= s);
        } else {
            assert(after.drop_last() =~= before.drop_last());
            assert(joined(after, seq![c]) =~= joined(before, seq![c]).push(s.last()));
            assert(r.push(s.last()) =~= s);
        }
    } else {
        assert(joined(pieces(s, c), seq![c]) =~= s);
    }
}

/// Joined parts are the first, what is put between, and the joined others; one part is joined to
/// itself, and none to nothing.
pub proof fn law_joined(first: Seq<char>, others: Seq<Seq<char>>, sep: Seq<char>)
    ensures
        joined(Seq::empty(), sep) == Seq::<char>::empty(),
        joined(seq![first], sep) == first,
        others.len() > 0 ==> joined(seq![first] + others, sep) == first + sep + joined(others, sep),
    decreases others.len(),
{
    if others.len() == 1 {
        let all = seq![first] + others;
        assert(all.drop_last() =~= seq![first]);
        assert(all.last() == others[0]);
        assert(joined(seq![first], sep) == first);
        assert(joined(all, sep) == joined(all.drop_last(), sep) + sep + all.last());
        assert(joined(others, sep) == others[0]);
    } else if others.len() > 1 {
        law_joined(first, others.drop_last(), sep);
        let all = seq![first] + others;
        assert(all.drop_last() =~= seq![first] + others.drop_last());
        assert(all.last() == others.last());
        assert(joined(all, sep) =~= first + sep + joined(others, sep));
    }
}

/// The words of a text: white space before them counts for nothing, a text without white space is
/// one word, and a word ends at the first white space behind it.
pub proof fn law_words(blank: char, word: Seq<char>, rest: Seq<char>)
    requires
        is_space(blank),
        word.len() > 0,
        forall|i: int| 0 <= i < word.len() ==> !is_space(#[trigger] word[i]),
    ensures
        words(Seq::empty()) == Seq::<Seq<char>>::empty(),
        words(seq![blank] + rest) == words(rest),
        words(word) == seq![word],
        words(word + seq![blank] + rest) == seq![word] + words(rest),
{
    let f = is_blank();
    let g = is_full();
    let none = Seq::<char>::empty();
    reveal(Seq::filter);
    assert(cut_at(none, f) == seq![none]);
    assert(Seq::<Seq<char>>::empty().filter(g) =~= Seq::<Seq<char>>::empty());
    assert(seq![none].drop_last() =~= Seq::<Seq<char>>::empty());
    assert(seq![none].filter(g) =~= Seq::<Seq<char>>::empty());
    lemma_cut_first(none, rest, blank, f);
    assert(none + seq![blank] + rest =~= seq![blank] + rest);
    Seq::filter_distributes_over_add(seq![none], cut_at(rest, f), g);
    assert(Seq::<Seq<char>>::empty() + words(rest) =~= words(rest));
    lemma_cut_none(word, f);
    lemma_cut_first(word, rest, blank, f);
    assert(seq![word].drop_last() =~= Seq::<Seq<char>>::empty());
    assert(seq![word].filter(g) =~= seq![word]);
    Seq::filter_distributes_over_add(seq![word], cut_at(rest, f), g);
}

/// A number that is written in decimal digits is read again as itself, has no zero at its start
/// unless it is zero, and the longer the larger.
pub proof fn law_written_numbers_are_read(n: nat)
    ensures
        number_of(decimal_of(n)) == Some(n),
        number_of(seq!['+'] + decimal_of(n)) == Some(n),
        n > 0 ==> decimal_of(n)[0] != '0',
        n == 0 ==> decimal_of(n) == seq!['0'],
        forall|i: int| 0 <= i < decimal_of(n).len() ==> '0' <= #[trigger] decimal_of(n)[i] <= '9',
        decimal_of(n).len() > 0,
    decreases n,
{
    lemma_decimal(n);
    let d = decimal_of(n);
    assert(is_digit(d[0]));
    assert((seq!['+'] + d).drop_first() =~= d);
}

proof fn lemma_digit(d: nat)
    requires
        d < 10,
    ensures
        '0' <= digit(d) <= '9',
        digit(d) as u32 == 48 + d,
{
}

proof fn lemma_decimal(n: nat)
    ensures
        decimal_of(n).len() > 0,
        digits_value(decimal_of(n)) == n,
        n > 0 ==> decimal_of(n)[0] != '0',
        forall|i: int| 0 <= i < decimal_of(n).len() ==> is_digit(#[trigger] decimal_of(n)[i]),
    decreases n,
{
    let d = decimal_of(n);
    if n < 10 {
        lemma_digit(n);
        assert(d.drop_last() =~= Seq::empty());
        assert(digits_value(d.drop_last()) == 0);
    } else {
        lemma_decimal(n / 10);
        lemma_digit(n % 10);
        assert(d.drop_last() =~= decimal_of(n / 10));
    }
}

/// What is read as a number is a row of digits, with or without a plus sign before it, and the
/// digit behind others counts for itself and makes them count ten times.
pub proof fn law_numbers(s: Seq<char>, c: char)
    ensures
        number_of(Seq::empty()) is None,
        number_of(seq!['+']) is None,
        number_of(seq![c]) == (if '0' <= c <= '9' {
            Some((c as u32 - '0' as u32) as nat)
        } else {
            None
        }),
        number_of(s.push(c)) is Some ==> '0' <= c <= '9',
        number_of(s) is Some && '0' <= c <= '9' ==> number_of(s.push(c)) == Some(
            (10 * number_of(s)->Some_0 + (c as u32 - '0' as u32)) as nat,
        ),
        number_of(s.push(c)) is Some && s.len() > 0 && s != seq!['+'] ==> number_of(s) is Some,
{
    let none = Seq::<char>::empty();
    assert(seq!['+'].drop_first() =~= none);
    assert(seq![c].drop_last() =~= none);
    assert(digits_value(none) == 0);
    let t = s.push(c);
    if s.len() > 0 && s[0] == '+' {
        assert(t.drop_first() =~= s.drop_first().push(c));
    }
    if s.len() > 0 {
        let d = unsigned(s);
        let e = unsigned(t);
        assert(e =~= d.push(c));
        assert(e.drop_last() =~= d);
        assert(e.last() == c);
        if number_of(t) is Some {
            assert(is_digit(e[e.len() - 1]));
            assert forall|i: int| 0 <= i < d.len() implies is_digit(#[trigger] d[i]) by {
                assert(e[i] == d[i]);
            }
            if d.len() == 0 {
                assert(s =~= seq!['+']);
            }
        }
    } else {
        assert(t =~= seq![c]);
        assert(is_digit(c) == ('0' <= c <= '9'));
        if number_of(t) is Some {
            assert(is_digit(unsigned(t)[0]) || c == '+');
        }
    }
    if '0' <= c <= '9' {
        assert(unsigned(seq![c]) == seq![c]);
        assert(seq![c].last() == c);
    } else if c != '+' {
        assert(!is_digit(unsigned(seq![c])[0]));
    }
}

/// Of two texts the less is the one that ends where they part, or has the smaller character there.
pub proof fn law_text_order(a: &str, b: &str, res: bool)
    requires
        call_ensures(less, (a, b), res),
    ensures
        res <==> exists|k: int| #[trigger] parts_at(a@, b@, k),
{
    lemma_text_less(a@, b@);
}

/// Whether two texts are the same up to `k`, where the first ends or has the smaller character.
pub open spec fn parts_at(a: Seq<char>, b: Seq<char>, k: int) -> bool {
    &&& 0 <= k <= a.len()
    &&& k < b.len()
    &&& forall|i: int| 0 <= i < k ==> #[trigger] a[i] == b[i]
    &&& k == a.len() || a[k] < b[k]
}

/// The order of texts is by where they part.
pub proof fn lemma_text_less(a: Seq<char>, b: Seq<char>)
    ensures
        text_less(a, b) <==> exists|k: int| #[trigger] parts_at(a, b, k),
    decreases a.len(),
{
    if b.len() > 0 && a.len() > 0 && a[0] == b[0] {
        let x = a.drop_first();
        let y = b.drop_first();
        lemma_text_less(x, y);
        if text_less(x, y) {
            let k = choose|k: int| #[trigger] parts_at(x, y, k);
            assert forall|i: int| 0 <= i < k + 1 implies #[trigger] a[i] == b[i] by {
                if i > 0 {
                    assert(x[i - 1] == y[i - 1]);
                }
            }
            assert(parts_at(a, b, k + 1));
        }
        if exists|k: int| #[trigger] parts_at(a, b, k) {
            let k = choose|k: int| #[trigger] parts_at(a, b, k);
            assert(k > 0);
            assert forall|i: int| 0 <= i < k - 1 implies #[trigger] x[i] == y[i] by {
                assert(a[i + 1] == b[i + 1]);
            }
            assert(parts_at(x, y, k - 1));
        }
    } else if b.len() > 0 && (a.len() == 0 || a[0] < b[0]) {
        assert(parts_at(a, b, 0));
    }
}

/// The lines of a text: one ends at the first line feed, without a carriage return before that, and
/// the lines of the rest follow; what is behind the last line feed is a line unless it is empty.
pub proof fn law_lines(a: Seq<char>, rest: Seq<char>)
    requires
        !a.contains('\n'),
    ensures
        lines_of(Seq::empty()) == Seq::<Seq<char>>::empty(),
        a.len() > 0 ==> lines_of(a) == seq![a],
        a.len() > 0 && a.last() == '\r' ==> lines_of(a + seq!['\n'] + rest) == seq![a.drop_last()]
            + lines_of(rest),
        a.len() == 0 || a.last() != '\r' ==> lines_of(a + seq!['\n'] + rest) == seq![a]
            + lines_of(rest),
{
    law_pieces(a, '\n', rest);
    law_pieces(Seq::empty(), '\n', rest);
    lemma_cut_nonempty(rest, is_char('\n'));
    let p = pieces(rest, '\n');
    let q = seq![a] + p;
    let f = |l: Seq<char>| without_return(l);
    assert(q.last() == p.last());
    assert(q.drop_last() =~= seq![a] + p.drop_last());
    assert(q.drop_last().map_values(f) =~= seq![f(a)] + p.drop_last().map_values(f));
    let e = pieces(Seq::empty(), '\n');
    assert(lines_of(Seq::empty()) =~= Seq::<Seq<char>>::empty());
    if a.len() > 0 {
        assert(lines_of(a) =~= seq![a]);
    }
    assert(lines_of(a + seq!['\n'] + rest) =~= seq![f(a)] + lines_of(rest));
}

/// A text in which a part does not occur keeps all its characters, and one that is the part and
/// then something is what is left of the something.
pub proof fn law_removal(s: Seq<char>, part: Seq<char>)
    requires
        part.len() > 0,
    ensures
        without(part + s, part) == without(s, part),
        !(exists|a: Seq<char>, b: Seq<char>| #[trigger] (a + part + b) == s) ==> without(s, part)
            == s,
        without(s, part).len() <= s.len(),
    decreases s.len(),
{
    assert((part + s).take(part.len() as int) =~= part);
    assert((part + s).skip(part.len() as int) =~= s);
    if s.len() >= part.len() {
        if s.take(part.len() as int) == part {
            let b = s.skip(part.len() as int);
            assert(Seq::<char>::empty() + part + b =~= s);
            law_removal(b, part);
        } else {
            let r = s.drop_first();
            law_removal(r, part);
            if !(exists|a: Seq<char>, b: Seq<char>| #[trigger] (a + part + b) == s) {
                assert forall|a: Seq<char>, b: Seq<char>| #[trigger] (a + part + b) != r by {
                    if a + part + b == r {
                        assert((seq![s[0]] + a) + part + b =~= seq![s[0]] + (a + part + b));
                        assert(seq![s[0]] + r =~= s);
                    }
                }
            }
            assert(seq![s[0]] + r =~= s);
        }
    }
}

/// A padded text starts with the text, has spaces behind it, and is as long as asked for or as the
/// text.
pub proof fn law_padding(s: &str, width: usize, res: String)
    requires
        call_ensures(pad_end, (s, width), res),
    ensures
        s@.is_prefix_of(res@),
        res@.len() == (if s@.len() < width {
            width as nat
        } else {
            s@.len()
        }),
        forall|i: int| s@.len() <= i < res@.len() ==> #[trigger] res@[i] == ' ',
{
    assert(res@.subrange(0, s@.len() as int) =~= s@);
}

/// Whether a text in ASCII is `p` in letters of any size, with dots at its end or without; `p` is in
/// small letters and does not end with a dot.
pub open spec fn reads_as(s: Seq<char>, p: Seq<char>) -> bool {
    &&& p.len() <= s.len()
    &&& p.len() == 0 || p.last() != '.'
    &&& forall|i: int| 0 <= i < s.len() ==> (#[trigger] s[i] as u32) < 128
    &&& forall|i: int| p.len() <= i < s.len() ==> #[trigger] s[i] == '.'
    &&& forall|i: int|
        0 <= i < p.len() ==> {
            ||| #[trigger] p[i] == s[i] && !('A' <= s[i] <= 'Z')
            ||| 'A' <= s[i] <= 'Z' && p[i] as u32 == s[i] as u32 + 32
        }
}

/// Of a letter and the small one of the same place, the second is the lower-case form of the first.
proof fn lemma_small_letter(c: char, d: char)
    requires
        (d == c && !('A' <= c <= 'Z')) || ('A' <= c <= 'Z' && d as u32 == c as u32 + 32),
    ensures
        ascii_lower(c) == d,
{
}

/// In small letters and without dots at its end, a text is what it reads as.
pub proof fn lemma_reads_as(s: Seq<char>, p: Seq<char>)
    requires
        reads_as(s, p),
    ensures
        lowercase(trim_end_char(s, '.')) == p,
{
    let t = s.take(p.len() as int);
    assert(t =~= s.subrange(0, t.len() as int));
    if t.len() > 0 {
        assert(t.last() == s[p.len() - 1]);
        let c = p[p.len() - 1];
        assert(p.last() == c);
    }
    lemma_trimmed_end_is(s, '.', t);
    assert forall|i: int| 0 <= i < t.len() implies (#[trigger] t[i] as u32) < 128 by {
        assert(t[i] == s[i]);
    }
    assert forall|i: int| 0 <= i < p.len() implies ascii_lower(#[trigger] t[i]) == p[i] by {
        lemma_small_letter(s[i], p[i]);
    }
    assert(lowercase(t) =~= p);
}

/// White space at the end makes no difference to what is left of a text.
pub proof fn lemma_trimmed_without_last(s: Seq<char>)
    requires
        s.len() > 0,
        is_space(s.last()),
    ensures
        trimmed(s.drop_last()) == trimmed(s),
    decreases s.len(),
{
    let r = s.drop_last();
    if r.len() == 0 {
        assert(trim_start(s) == trim_start(s.drop_first()));
        assert(s.drop_first() =~= r);
    } else if is_space(s[0]) {
        lemma_trimmed_without_last(s.drop_first());
        assert(s.drop_first().drop_last() =~= r.drop_first());
    } else {
        assert(trim_start(s) == s && trim_start(r) == r);
    }
}

/// Beyond ASCII the small form of a text is what the standard library says.
pub proof fn law_small_letters_beyond_ascii(s: &str, res: String, i: int)
    requires
        call_ensures(lower, (s,), res),
        0 <= i < s@.len(),
        s@[i] as u32 >= 128,
    ensures
        res@ == unicode_lowercase(s@),
{
    assert(!is_ascii_text(s@));
}

/// A text is read as a number only if it is one that is not too large, and then as that number.
pub proof fn law_read_numbers(s: &str, max: u64, res: Option<u64>, n: u64, written: String)
    requires
        call_ensures(parse_number, (s, max), res),
        call_ensures(decimal, (n,), written),
    ensures
        res is Some <==> number_of(s@) is Some && number_of(s@)->Some_0 <= max,
        res is Some ==> res->Some_0 == number_of(s@)->Some_0,
        s@ == written@ ==> (res is Some <==> n <= max) && (n <= max ==> res == Some(n)),
{
    law_written_numbers_are_read(n as nat);
}

/// The texts that hold something are kept in their order.
pub proof fn law_full_texts(
    before: Vec<String>,
    last: String,
    all: Vec<String>,
    of_before: Vec<String>,
    of_all: Vec<String>,
)
    requires
        call_ensures(full_texts, (before,), of_before),
        call_ensures(full_texts, (all,), of_all),
        texts(all@) == texts(before@).push(last@),
    ensures
        before@.len() == 0 ==> of_before@.len() == 0,
        texts(of_all@) == (if last@.len() > 0 {
            texts(of_before@).push(last@)
        } else {
            texts(of_before@)
        }),
{
    reveal(Seq::filter);
    assert(texts(all@).drop_last() =~= texts(before@));
    assert(texts(before@).len() == before@.len());
    assert(texts(of_before@).len() == of_before@.len());
}

/// A text is cut at a character into the pieces of what stands before any one of them and those of
/// what stands behind it.
pub proof fn law_pieces_on_both_sides(a: Seq<char>, c: char, b: Seq<char>)
    ensures
        pieces(a + seq![c] + b, c) == pieces(a, c) + pieces(b, c),
    decreases b.len(),
{
    let s = a + seq![c] + b;
    let f = is_char(c);
    lemma_cut_nonempty(a, f);
    if b.len() == 0 {
        assert(s.drop_last() =~= a);
        assert(s.last() == c);
        assert(b =~= Seq::empty());
        assert(pieces(s, c) =~= pieces(a, c) + pieces(b, c));
    } else {
        let r = b.drop_last();
        law_pieces_on_both_sides(a, c, r);
        lemma_cut_nonempty(r, f);
        assert(s.drop_last() =~= a + seq![c] + r);
        assert(s.last() == b.last());
        assert(pieces(s, c) =~= pieces(a, c) + pieces(b, c));
    }
}

/// A character before a text that is not cut at it stands before the first piece.
pub proof fn lemma_cut_with_first(x: char, s: Seq<char>, sep: spec_fn(char) -> bool)
    requires
        !sep(x),
    ensures
        cut_at(seq![x] + s, sep).len() == cut_at(s, sep).len(),
        cut_at(seq![x] + s, sep)[0] == seq![x] + cut_at(s, sep)[0],
        forall|k: int|
            1 <= k < cut_at(s, sep).len() ==> cut_at(seq![x] + s, sep)[k] == #[trigger] cut_at(
                s,
                sep,
            )[k],
    decreases s.len(),
{
    let t = seq![x] + s;
    if s.len() == 0 {
        assert(t.drop_last() =~= s);
        assert(s =~= Seq::empty());
        assert(cut_at(t, sep)[0] =~= seq![x] + cut_at(s, sep)[0]);
    } else {
        let r = s.drop_last();
        lemma_cut_with_first(x, r, sep);
        lemma_cut_nonempty(r, sep);
        assert(t.drop_last() =~= seq![x] + r);
        assert(t.last() == s.last());
        let before = cut_at(r, sep);
        if !sep(s.last()) && before.len() == 1 {
            assert(cut_at(t, sep)[0] =~= seq![x] + cut_at(s, sep)[0]);
        }
    }
}

} // verus!
