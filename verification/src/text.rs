use vstd::prelude::*;

verus! {

/// `String::push` appends one character to the string.
pub assume_specification[ String::push ](s: &mut String, c: char)
    ensures
        final(s)@ == old(s)@.push(c),
;

/// The characters that Unicode calls white space.
pub open spec fn is_whitespace(c: char) -> bool {
    let n = c as u32;
    ||| 0x09 <= n <= 0x0D
    ||| n == 0x20
    ||| n == 0x85
    ||| n == 0xA0
    ||| n == 0x1680
    ||| 0x2000 <= n <= 0x200A
    ||| n == 0x2028
    ||| n == 0x2029
    ||| n == 0x202F
    ||| n == 0x205F
    ||| n == 0x3000
}

pub fn char_is_whitespace(c: char) -> (r: bool)
    ensures
        r == is_whitespace(c),
{
    let n: u32 = c as u32;
    (0x09 <= n && n <= 0x0D) || n == 0x20 || n == 0x85 || n == 0xA0 || n == 0x1680 || (0x2000 <= n
        && n <= 0x200A) || n == 0x2028 || n == 0x2029 || n == 0x202F || n == 0x205F || n == 0x3000
}

/// The characters of a string, one by one.
pub fn chars_of(s: &str) -> (v: Vec<char>)
    ensures
        v@ == s@,
{
    let mut v: Vec<char> = Vec::new();
    for c in it: s.chars()
        invariant
            it.seq() == s@,
            v@ == it.seq().take(it.index() as int),
    {
        v.push(c);
    }
    assert(s@.take(s@.len() as int) == s@);
    v
}

/// The string made of the characters `v[from..to]`.
pub fn text_of(v: &Vec<char>, from: usize, to: usize) -> (s: String)
    requires
        from <= to <= v.len(),
    ensures
        s@ == v@.subrange(from as int, to as int),
{
    let mut s = String::new();
    let mut i: usize = from;
    while i < to
        invariant
            from <= i <= to <= v.len(),
            s@ == v@.subrange(from as int, i as int),
        decreases to - i,
    {
        s.push(v[i]);
        assert(v@.subrange(from as int, i + 1) =~= v@.subrange(from as int, i as int).push(
            v@[i as int],
        ));
        i = i + 1;
    }
    s
}

/// `s` without the white space it begins with.
pub open spec fn trim_start(s: Seq<char>) -> Seq<char>
    decreases s.len(),
{
    if s.len() > 0 && is_whitespace(s[0]) {
        trim_start(s.drop_first())
    } else {
        s
    }
}

/// `s` without the white space it ends with.
pub open spec fn trim_end(s: Seq<char>) -> Seq<char>
    decreases s.len(),
{
    if s.len() > 0 && is_whitespace(s.last()) {
        trim_end(s.drop_last())
    } else {
        s
    }
}

/// `s` without the white space around it.
pub open spec fn trimmed(s: Seq<char>) -> Seq<char> {
    trim_end(trim_start(s))
}

proof fn lemma_trim_start(s: Seq<char>, i: int)
    requires
        0 <= i <= s.len(),
        forall|k: int| 0 <= k < i ==> is_whitespace(#[trigger] s[k]),
        i < s.len() ==> !is_whitespace(s[i]),
    ensures
        trim_start(s) == s.subrange(i, s.len() as int),
    decreases i,
{
    if i == 0 {
        assert(s.subrange(0, s.len() as int) =~= s);
    } else {
        assert(is_whitespace(s[0]));
        let t = s.drop_first();
        assert forall|k: int| 0 <= k < i - 1 implies is_whitespace(#[trigger] t[k]) by {
            assert(t[k] == s[k + 1]);
        }
        lemma_trim_start(t, i - 1);
        assert(t.subrange(i - 1, t.len() as int) =~= s.subrange(i, s.len() as int));
    }
}

proof fn lemma_trim_end(s: Seq<char>, j: int)
    requires
        0 <= j <= s.len(),
        forall|k: int| j <= k < s.len() ==> is_whitespace(#[trigger] s[k]),
        j > 0 ==> !is_whitespace(s[j - 1]),
    ensures
        trim_end(s) == s.subrange(0, j),
    decreases s.len() - j,
{
    if j == s.len() {
        assert(s.subrange(0, j) =~= s);
    } else {
        assert(is_whitespace(s[s.len() - 1]));
        let t = s.drop_last();
        assert forall|k: int| j <= k < t.len() implies is_whitespace(#[trigger] t[k]) by {
            assert(t[k] == s[k]);
        }
        lemma_trim_end(t, j);
        assert(t.subrange(0, j) =~= s.subrange(0, j));
    }
}

/// The bounds of `v[from..to]` without the white space around it.
pub fn trim_bounds(v: &Vec<char>, from: usize, to: usize) -> (r: (usize, usize))
    requires
        from <= to <= v.len(),
    ensures
        from <= r.0 <= r.1 <= to,
        v@.subrange(r.0 as int, r.1 as int) == trimmed(v@.subrange(from as int, to as int)),
{
    let ghost s = v@.subrange(from as int, to as int);
    let mut i: usize = from;
    while i < to && char_is_whitespace(v[i])
        invariant
            from <= i <= to <= v.len(),
            s == v@.subrange(from as int, to as int),
            forall|k: int| 0 <= k < i - from ==> is_whitespace(#[trigger] s[k]),
        decreases to - i,
    {
        i = i + 1;
    }
    let mut j: usize = to;
    while j > i && char_is_whitespace(v[j - 1])
        invariant
            from <= i <= j <= to <= v.len(),
            s == v@.subrange(from as int, to as int),
            forall|k: int| j - from <= k < s.len() ==> is_whitespace(#[trigger] s[k]),
        decreases j - i,
    {
        j = j - 1;
    }
    proof {
        lemma_trim_start(s, i - from);
        let t = s.subrange(i - from, s.len() as int);
        assert(t =~= v@.subrange(i as int, to as int));
        assert forall|k: int| j - i <= k < t.len() implies is_whitespace(#[trigger] t[k]) by {
            assert(t[k] == s[k + i - from]);
        }
        if j > i {
            assert(t[j - i - 1] == v@[j - 1]);
        } else {
            if i < to {
                assert(s[i - from] == v@[i as int]);
            }
        }
        lemma_trim_end(t, j - i);
        assert(t.subrange(0, j - i) =~= v@.subrange(i as int, j as int));
    }
    (i, j)
}

/// `s` without the white space around it.
pub fn trim(s: &str) -> (r: String)
    ensures
        r@ == trimmed(s@),
{
    let v = chars_of(s);
    let (i, j) = trim_bounds(&v, 0, v.len());
    assert(v@.subrange(0, v.len() as int) =~= v@);
    text_of(&v, i, j)
}

/// The pieces of `s[start..]` between the places where `sep` stands, when
/// no place before `i` is one: the next place is the first at or behind `i`,
/// and the search goes on behind it.
pub open spec fn split_from(s: Seq<char>, sep: Seq<char>, start: int, i: int) -> Seq<Seq<char>>
    decreases s.len() - i,
{
    if sep.len() == 0 || i < start || start < 0 || i + sep.len() > s.len() {
        seq![s.subrange(start, s.len() as int)]
    } else if s.subrange(i, i + sep.len()) == sep {
        seq![s.subrange(start, i)] + split_from(s, sep, i + sep.len(), i + sep.len())
    } else {
        split_from(s, sep, start, i + 1)
    }
}

/// The pieces of `s` between the places where `sep` stands, from left to
/// right; a separator that overlaps an earlier one does not count.
pub open spec fn split(s: Seq<char>, sep: Seq<char>) -> Seq<Seq<char>> {
    split_from(s, sep, 0, 0)
}

/// Whether `sep` stands in `v` at place `i`.
pub fn stands_at(v: &Vec<char>, sep: &Vec<char>, i: usize) -> (r: bool)
    requires
        i + sep.len() <= v.len(),
    ensures
        r == (v@.subrange(i as int, i + sep.len()) == sep@),
{
    let mut k: usize = 0;
    while k < sep.len()
        invariant
            k <= sep.len(),
            i + sep.len() <= v.len(),
            forall|m: int| 0 <= m < k ==> v@[i + m] == sep@[m],
        decreases sep.len() - k,
    {
        if v[i + k] != sep[k] {
            assert(v@.subrange(i as int, i + sep.len())[k as int] != sep@[k as int]);
            return false;
        }
        k = k + 1;
    }
    assert(v@.subrange(i as int, i + sep.len()) =~= sep@);
    true
}

/// The bounds of the pieces of `v[from..to]` between the places where `sep`
/// stands.
pub fn split_bounds(v: &Vec<char>, from: usize, to: usize, sep: &Vec<char>) -> (pieces: Vec<
    (usize, usize),
>)
    requires
        from <= to <= v.len(),
        sep.len() > 0,
    ensures
        pieces.len() == split(v@.subrange(from as int, to as int), sep@).len(),
        forall|k: int|
            0 <= k < pieces.len() ==> from <= (#[trigger] pieces[k]).0 <= pieces[k].1 <= to
                && v@.subrange(pieces[k].0 as int, pieces[k].1 as int) == split(
                v@.subrange(from as int, to as int),
                sep@,
            )[k],
{
    let ghost s = v@.subrange(from as int, to as int);
    let ghost mut done: Seq<Seq<char>> = Seq::empty();
    let mut pieces: Vec<(usize, usize)> = Vec::new();
    let mut start: usize = from;
    let mut i: usize = from;
    while sep.len() <= to - i
        invariant
            from <= start <= i <= to <= v.len(),
            sep.len() > 0,
            s == v@.subrange(from as int, to as int),
            done.len() == pieces.len(),
            forall|k: int|
                0 <= k < pieces.len() ==> from <= (#[trigger] pieces[k]).0 <= pieces[k].1 <= to
                    && v@.subrange(pieces[k].0 as int, pieces[k].1 as int) == done[k],
            split(s, sep@) == done + split_from(s, sep@, start - from, i - from),
        decreases to - i,
    {
        assert(s.subrange(i - from, i - from + sep.len()) =~= v@.subrange(i as int, i + sep.len()));
        if stands_at(v, sep, i) {
            proof {
                assert(s.subrange(start - from, i - from) =~= v@.subrange(start as int, i as int));
                assert(done + (seq![s.subrange(start - from, i - from)] + split_from(
                    s,
                    sep@,
                    i - from + sep.len(),
                    i - from + sep.len(),
                )) =~= done.push(s.subrange(start - from, i - from)) + split_from(
                    s,
                    sep@,
                    i - from + sep.len(),
                    i - from + sep.len(),
                ));
                done = done.push(s.subrange(start - from, i - from));
            }
            pieces.push((start, i));
            i = i + sep.len();
            start = i;
        } else {
            i = i + 1;
        }
    }
    proof {
        assert(s.subrange(start - from, s.len() as int) =~= v@.subrange(start as int, to as int));
        assert(done + seq![s.subrange(start - from, s.len() as int)] =~= done.push(
            s.subrange(start - from, s.len() as int),
        ));
        done = done.push(s.subrange(start - from, s.len() as int));
    }
    pieces.push((start, to));
    pieces
}

/// `s` with every `c` taken out.
pub open spec fn without_char(s: Seq<char>, c: char) -> Seq<char> {
    s.filter(other_than(c))
}

/// The test that a character is not `c`.
pub open spec fn other_than(c: char) -> spec_fn(char) -> bool {
    |x: char| x != c
}

/// The string made of `v[from..to]` with every `c` taken out.
pub fn text_without(v: &Vec<char>, from: usize, to: usize, c: char) -> (r: String)
    requires
        from <= to <= v.len(),
    ensures
        r@ == without_char(v@.subrange(from as int, to as int), c),
{
    let ghost pred = other_than(c);
    let mut r = String::new();
    let mut i: usize = from;
    assert(v@.subrange(from as int, from as int) =~= Seq::empty());
    while i < to
        invariant
            from <= i <= to <= v.len(),
            pred == other_than(c),
            r@ == v@.subrange(from as int, i as int).filter(pred),
        decreases to - i,
    {
        proof {
            assert(v@.subrange(from as int, i + 1) =~= v@.subrange(from as int, i as int).push(
                v@[i as int],
            ));
            v@.subrange(from as int, i as int).lemma_filter_push(v@[i as int], pred);
        }
        if v[i] != c {
            r.push(v[i]);
        }
        i = i + 1;
    }
    r
}

/// `s` without its first character.
pub open spec fn strip_first(s: Seq<char>) -> Seq<char> {
    if s.len() > 0 {
        s.subrange(1, s.len() as int)
    } else {
        s
    }
}

/// `s` without its first character.
pub fn without_first(s: &String) -> (r: String)
    ensures
        r@ == strip_first(s@),
{
    let v = chars_of(s.as_str());
    if v.len() > 0 {
        text_of(&v, 1, v.len())
    } else {
        assert(v@.subrange(0, 0) =~= s@);
        text_of(&v, 0, 0)
    }
}

/// Whether `s` ends with `tail`.
pub open spec fn ends_with(s: Seq<char>, tail: Seq<char>) -> bool {
    s.len() >= tail.len() && s.subrange(s.len() - tail.len(), s.len() as int) == tail
}

/// Whether the text `s` ends with `tail`.
pub fn text_ends_with(s: &str, tail: &str) -> (r: bool)
    ensures
        r == ends_with(s@, tail@),
{
    let v = chars_of(s);
    let t = chars_of(tail);
    if v.len() < t.len() {
        false
    } else {
        stands_at(&v, &t, v.len() - t.len())
    }
}

} // verus!
