//! Text as sequences of characters: the operations that the protocol and the
//! user interface are written with.

use vstd::prelude::*;
use vstd::string::*;

verus! {

/// `String::push` appends the given character.
pub assume_specification[ String::push ](s: &mut String, c: char)
    ensures
        final(s)@ == old(s)@.push(c),
;

// ---------------------------------------------------------------------------
// Characters
// ---------------------------------------------------------------------------

/// The characters with the Unicode property `White_Space`.
pub open spec fn is_space(c: char) -> bool {
    let n = c as u32;
    ||| 0x9 <= n <= 0xd
    ||| n == 0x20
    ||| n == 0x85
    ||| n == 0xa0
    ||| n == 0x1680
    ||| 0x2000 <= n <= 0x200a
    ||| n == 0x2028
    ||| n == 0x2029
    ||| n == 0x202f
    ||| n == 0x205f
    ||| n == 0x3000
}

pub fn space(c: char) -> (r: bool)
    ensures
        r == is_space(c),
{
    let n: u32 = c as u32;
    (0x9 <= n && n <= 0xd) || n == 0x20 || n == 0x85 || n == 0xa0 || n == 0x1680 || (0x2000 <= n
        && n <= 0x200a) || n == 0x2028 || n == 0x2029 || n == 0x202f || n == 0x205f || n == 0x3000
}

pub open spec fn is_ascii_letter(c: char) -> bool {
    ('a' <= c && c <= 'z') || ('A' <= c && c <= 'Z')
}

pub fn ascii_letter(c: char) -> (r: bool)
    ensures
        r == is_ascii_letter(c),
{
    ('a' <= c && c <= 'z') || ('A' <= c && c <= 'Z')
}

pub open spec fn upper_of(c: char) -> char {
    if 'a' <= c && c <= 'z' {
        (c as u8 - 32) as char
    } else {
        c
    }
}

pub fn ascii_upper(c: char) -> (r: char)
    ensures
        r == upper_of(c),
{
    if 'a' <= c && c <= 'z' {
        (c as u8 - 32) as char
    } else {
        c
    }
}

pub open spec fn lower_of(c: char) -> char {
    if 'A' <= c && c <= 'Z' {
        (c as u8 + 32) as char
    } else {
        c
    }
}

pub fn ascii_lower(c: char) -> (r: char)
    ensures
        r == lower_of(c),
{
    if 'A' <= c && c <= 'Z' {
        (c as u8 + 32) as char
    } else {
        c
    }
}

pub open spec fn is_digit(c: char) -> bool {
    '0' <= c && c <= '9'
}

pub open spec fn digit_value(c: char) -> int {
    c as int - '0' as int
}

pub open spec fn digit_char(d: int) -> char {
    (d + '0' as int) as char
}

// ---------------------------------------------------------------------------
// Strings and character vectors
// ---------------------------------------------------------------------------

pub fn chars_of(s: &str) -> (r: Vec<char>)
    ensures
        r@ == s@,
{
    let mut out: Vec<char> = Vec::new();
    for c in it: s.chars()
        invariant
            it.seq() == s@,
            out@ == s@.take(it.index() as int),
    {
        assert(s@.take(it.index() as int).push(c) =~= s@.take(it.index() as int + 1));
        out.push(c);
    }
    assert(s@.take(s@.len() as int) =~= s@);
    out
}

/// The characters from `from` up to `to` as a string.
pub fn string_range(v: &Vec<char>, from: usize, to: usize) -> (r: String)
    requires
        from <= to <= v@.len(),
    ensures
        r@ == v@.subrange(from as int, to as int),
{
    let mut out = String::new();
    let mut i: usize = from;
    while i < to
        invariant
            from <= i <= to <= v@.len(),
            out@ =~= v@.subrange(from as int, i as int),
        decreases to - i,
    {
        out.push(v[i]);
        i = i + 1;
    }
    out
}

pub fn same_text(a: &str, b: &str) -> (r: bool)
    ensures
        r == (a@ == b@),
{
    a.to_owned() == b.to_owned()
}

pub fn cat(a: &str, b: &str) -> (r: String)
    ensures
        r@ == a@ + b@,
{
    let mut out = a.to_owned();
    out.append(b);
    out
}

pub fn cat3(a: &str, b: &str, c: &str) -> (r: String)
    ensures
        r@ == a@ + b@ + c@,
{
    let mut out = a.to_owned();
    out.append(b);
    out.append(c);
    out
}

/// The first `n` characters of `s`, or all of it where it is shorter.
pub open spec fn first_chars(s: Seq<char>, n: int) -> Seq<char> {
    if s.len() <= n {
        s
    } else {
        s.take(n)
    }
}

pub fn take_chars(s: &str, n: usize) -> (r: String)
    ensures
        r@ == first_chars(s@, n as int),
{
    let v = chars_of(s);
    if v.len() <= n {
        s.to_owned()
    } else {
        let r = string_range(&v, 0, n);
        assert(v@.subrange(0, n as int) =~= v@.take(n as int));
        r
    }
}

// ---------------------------------------------------------------------------
// Trimming
// ---------------------------------------------------------------------------

pub open spec fn trim_start(s: Seq<char>) -> Seq<char>
    decreases s.len(),
{
    if s.len() > 0 && is_space(s[0]) {
        trim_start(s.skip(1))
    } else {
        s
    }
}

pub open spec fn trim_end(s: Seq<char>) -> Seq<char>
    decreases s.len(),
{
    if s.len() > 0 && is_space(s.last()) {
        trim_end(s.drop_last())
    } else {
        s
    }
}

/// `s` without the white space at its two ends.
pub open spec fn trimmed(s: Seq<char>) -> Seq<char> {
    trim_end(trim_start(s))
}

proof fn lemma_trim_start(s: Seq<char>, i: int)
    requires
        0 <= i <= s.len(),
        forall|k: int| 0 <= k < i ==> is_space(#[trigger] s[k]),
        i < s.len() ==> !is_space(s[i]),
    ensures
        trim_start(s) == s.skip(i),
    decreases i,
{
    if i == 0 {
        assert(s.skip(0) =~= s);
    } else {
        assert forall|k: int| 0 <= k < i - 1 implies is_space(#[trigger] s.skip(1)[k]) by {
            assert(s.skip(1)[k] == s[k + 1]);
        }
        lemma_trim_start(s.skip(1), i - 1);
        assert(is_space(s[0]));
        assert(s.skip(1).skip(i - 1) =~= s.skip(i));
    }
}

proof fn lemma_trim_end(s: Seq<char>, j: int)
    requires
        0 <= j <= s.len(),
        forall|k: int| j <= k < s.len() ==> is_space(#[trigger] s[k]),
        j > 0 ==> !is_space(s[j - 1]),
    ensures
        trim_end(s) == s.take(j),
    decreases s.len() - j,
{
    if j == s.len() {
        assert(s.take(j) =~= s);
    } else {
        assert(is_space(s[s.len() - 1]));
        assert forall|k: int| j <= k < s.drop_last().len() implies is_space(
            #[trigger] s.drop_last()[k],
        ) by {
            assert(s.drop_last()[k] == s[k]);
        }
        lemma_trim_end(s.drop_last(), j);
        assert(s.drop_last().take(j) =~= s.take(j));
    }
}

pub fn trim(s: &str) -> (r: String)
    ensures
        r@ == trimmed(s@),
{
    let v = chars_of(s);
    let mut i: usize = 0;
    while i < v.len() && space(v[i])
        invariant
            i <= v@.len(),
            forall|k: int| 0 <= k < i ==> is_space(#[trigger] v@[k]),
        decreases v@.len() - i,
    {
        i = i + 1;
    }
    proof {
        lemma_trim_start(v@, i as int);
    }
    let mut j: usize = v.len();
    while j > i && space(v[j - 1])
        invariant
            i <= j <= v@.len(),
            forall|k: int| j <= k < v@.len() ==> is_space(#[trigger] v@[k]),
        decreases j,
    {
        j = j - 1;
    }
    proof {
        let t = v@.skip(i as int);
        assert forall|k: int| j - i <= k < t.len() implies is_space(#[trigger] t[k]) by {
            assert(t[k] == v@[k + i]);
        }
        lemma_trim_end(t, j - i);
        assert(t.take(j - i) =~= v@.subrange(i as int, j as int));
    }
    string_range(&v, i, j)
}

/// Trimmed text neither begins nor ends with white space.
pub proof fn law_trimmed_has_no_outer_space(s: Seq<char>)
    ensures
        trimmed(s).len() > 0 ==> !is_space(trimmed(s)[0]) && !is_space(trimmed(s).last()),
{
    lemma_trim_start_first(s);
    lemma_trim_end_last(trim_start(s));
}

proof fn lemma_trim_start_first(s: Seq<char>)
    ensures
        trim_start(s).len() > 0 ==> !is_space(trim_start(s)[0]),
    decreases s.len(),
{
    if s.len() > 0 && is_space(s[0]) {
        lemma_trim_start_first(s.skip(1));
    }
}

proof fn lemma_trim_end_last(s: Seq<char>)
    ensures
        trim_end(s).len() > 0 ==> !is_space(trim_end(s).last()),
        trim_end(s).len() > 0 ==> trim_end(s)[0] == s[0],
    decreases s.len(),
{
    if s.len() > 0 && is_space(s.last()) {
        lemma_trim_end_last(s.drop_last());
    }
}

/// Trimming takes away white space at both ends and nothing else.
pub proof fn law_trimming_takes_only_space(s: Seq<char>) -> (r: (int, int))
    ensures
        0 <= r.0 <= r.1 <= s.len(),
        trimmed(s) == s.subrange(r.0, r.1),
        forall|k: int| 0 <= k < r.0 ==> is_space(#[trigger] s[k]),
        forall|k: int| r.1 <= k < s.len() ==> is_space(#[trigger] s[k]),
        trimmed(s).len() == 0 <==> forall|k: int| 0 <= k < s.len() ==> is_space(#[trigger] s[k]),
{
    let i = lemma_trim_start_cut(s);
    let t = s.skip(i);
    let j = lemma_trim_end_cut(t);
    assert(t.take(j) =~= s.subrange(i, i + j));
    assert forall|k: int| i + j <= k < s.len() implies is_space(#[trigger] s[k]) by {
        assert(t[k - i] == s[k]);
    }
    law_trimmed_has_no_outer_space(s);
    if trimmed(s).len() > 0 {
        assert(trimmed(s)[0] == s[i]);
        assert(!is_space(s[i]));
    }
    (i, i + j)
}

proof fn lemma_trim_start_cut(s: Seq<char>) -> (i: int)
    ensures
        0 <= i <= s.len(),
        trim_start(s) == s.skip(i),
        forall|k: int| 0 <= k < i ==> is_space(#[trigger] s[k]),
    decreases s.len(),
{
    if s.len() > 0 && is_space(s[0]) {
        let t = s.skip(1);
        let i = lemma_trim_start_cut(t);
        assert(t.skip(i) =~= s.skip(i + 1));
        assert forall|k: int| 0 <= k < i + 1 implies is_space(#[trigger] s[k]) by {
            if k > 0 {
                assert(t[k - 1] == s[k]);
            }
        }
        i + 1
    } else {
        assert(s.skip(0) =~= s);
        0
    }
}

proof fn lemma_trim_end_cut(s: Seq<char>) -> (j: int)
    ensures
        0 <= j <= s.len(),
        trim_end(s) == s.take(j),
        forall|k: int| j <= k < s.len() ==> is_space(#[trigger] s[k]),
    decreases s.len(),
{
    if s.len() > 0 && is_space(s.last()) {
        let t = s.drop_last();
        let j = lemma_trim_end_cut(t);
        assert(t.take(j) =~= s.take(j));
        assert forall|k: int| j <= k < s.len() implies is_space(#[trigger] s[k]) by {
            if k < t.len() {
                assert(t[k] == s[k]);
            }
        }
        j
    } else {
        assert(s.take(s.len() as int) =~= s);
        s.len() as int
    }
}

// ---------------------------------------------------------------------------
// Splitting and joining
// ---------------------------------------------------------------------------

/// The pieces of `s` between the characters `a` and `b`; there is always one
/// piece more than there are such characters.
pub open spec fn pieces(s: Seq<char>, a: char, b: char) -> Seq<Seq<char>>
    decreases s.len(),
{
    if s.len() == 0 {
        seq![Seq::empty()]
    } else {
        let r = pieces(s.drop_last(), a, b);
        if s.last() == a || s.last() == b {
            r.push(Seq::empty())
        } else {
            r.drop_last().push(r.last().push(s.last()))
        }
    }
}

pub proof fn lemma_pieces_nonempty(s: Seq<char>, a: char, b: char)
    ensures
        pieces(s, a, b).len() > 0,
    decreases s.len(),
{
    if s.len() > 0 {
        lemma_pieces_nonempty(s.drop_last(), a, b);
    }
}

pub fn split(v: &Vec<char>, from: usize, a: char, b: char) -> (r: Vec<String>)
    requires
        from <= v@.len(),
    ensures
        r.deep_view() == pieces(v@.skip(from as int), a, b),
        r@.len() > 0,
{
    let ghost s = v@.skip(from as int);
    let mut out: Vec<String> = Vec::new();
    let mut cur = String::new();
    let mut i: usize = from;
    proof {
        assert(s.take(0) =~= Seq::empty());
        assert(out.deep_view().push(cur@) =~= seq![Seq::<char>::empty()]);
    }
    while i < v.len()
        invariant
            from <= i <= v@.len(),
            s == v@.skip(from as int),
            out.deep_view().push(cur@) == pieces(s.take(i - from), a, b),
        decreases v@.len() - i,
    {
        let c = v[i];
        let ghost before = out.deep_view();
        let ghost cur_before = cur@;
        proof {
            assert(s.take(i - from + 1).drop_last() =~= s.take(i - from));
            assert(s.take(i - from + 1).last() == c);
            let r = before.push(cur_before);
            assert(r.drop_last() =~= before);
            assert(r.last() == cur_before);
        }
        if c == a || c == b {
            out.push(cur);
            cur = String::new();
            assert(out.deep_view() =~= before.push(cur_before));
        } else {
            cur.push(c);
        }
        i = i + 1;
    }
    assert(s.take(v@.len() - from) =~= s);
    let ghost before = out.deep_view();
    let ghost last = cur@;
    out.push(cur);
    assert(out.deep_view() =~= before.push(last));
    out
}

/// The parts in a row, with `sep` between any two.
pub open spec fn joined(parts: Seq<Seq<char>>, sep: char) -> Seq<char>
    decreases parts.len(),
{
    if parts.len() == 0 {
        Seq::empty()
    } else if parts.len() == 1 {
        parts[0]
    } else {
        joined(parts.drop_last(), sep).push(sep) + parts.last()
    }
}

pub fn join(parts: &Vec<String>, sep: char) -> (r: String)
    ensures
        r@ == joined(parts.deep_view(), sep),
{
    let mut out = String::new();
    let ghost p = parts.deep_view();
    let mut i: usize = 0;
    assert(p.take(0) =~= Seq::empty());
    while i < parts.len()
        invariant
            i <= parts@.len(),
            p == parts.deep_view(),
            out@ == joined(p.take(i as int), sep),
        decreases parts@.len() - i,
    {
        proof {
            assert(p.take(i + 1).drop_last() =~= p.take(i as int));
            assert(p.take(i + 1).last() == parts@[i as int]@);
        }
        if i > 0 {
            out.push(sep);
        }
        out.append(parts[i].as_str());
        proof {
            if i == 0 {
                assert(out@ =~= p.take(1)[0]);
            }
        }
        i = i + 1;
    }
    assert(p.take(parts@.len() as int) =~= p);
    out
}

// ---------------------------------------------------------------------------
// Searching and replacing
// ---------------------------------------------------------------------------

/// `pat` stands in `s` at position `i`.
pub open spec fn occurs_at(s: Seq<char>, pat: Seq<char>, i: int) -> bool {
    0 <= i && i + pat.len() <= s.len() && s.subrange(i, i + pat.len()) == pat
}

pub open spec fn contains_text(s: Seq<char>, pat: Seq<char>) -> bool {
    exists|i: int| occurs_at(s, pat, i)
}

fn matches_at(v: &Vec<char>, pat: &Vec<char>, i: usize) -> (r: bool)
    requires
        i <= v@.len(),
    ensures
        r == occurs_at(v@, pat@, i as int),
{
    if pat.len() > v.len() - i {
        return false;
    }
    let n = v.len();
    let mut k: usize = 0;
    while k < pat.len()
        invariant
            n == v@.len(),
            i + pat@.len() <= n,
            k <= pat@.len(),
            forall|j: int| 0 <= j < k ==> v@[i + j] == pat@[j],
        decreases pat@.len() - k,
    {
        if v[i + k] != pat[k] {
            assert(v@.subrange(i as int, i + pat@.len())[k as int] != pat@[k as int]);
            return false;
        }
        k = k + 1;
    }
    assert(v@.subrange(i as int, i + pat@.len()) =~= pat@);
    true
}

pub fn contains(s: &str, pat: &str) -> (r: bool)
    ensures
        r == contains_text(s@, pat@),
{
    let v = chars_of(s);
    let p = chars_of(pat);
    let mut i: usize = 0;
    loop
        invariant
            v@ == s@,
            p@ == pat@,
            i <= v@.len(),
            forall|k: int| 0 <= k < i ==> !occurs_at(s@, pat@, k),
        decreases v@.len() - i,
    {
        if matches_at(&v, &p, i) {
            return true;
        }
        if i == v.len() {
            assert forall|k: int| !occurs_at(s@, pat@, k) by {
                if occurs_at(s@, pat@, k) {
                    assert(0 <= k <= v@.len());
                }
            }
            return false;
        }
        i = i + 1;
    }
}

pub open spec fn has_char(s: Seq<char>, c: char) -> bool {
    exists|i: int| 0 <= i < s.len() && s[i] == c
}

pub fn contains_char(s: &str, c: char) -> (r: bool)
    ensures
        r == has_char(s@, c),
{
    let v = chars_of(s);
    let mut i: usize = 0;
    while i < v.len()
        invariant
            v@ == s@,
            i <= v@.len(),
            forall|k: int| 0 <= k < i ==> v@[k] != c,
        decreases v@.len() - i,
    {
        if v[i] == c {
            return true;
        }
        i = i + 1;
    }
    false
}

/// `s` with each `c` turned into `with`.
pub open spec fn with_char_replaced(s: Seq<char>, c: char, with: Seq<char>) -> Seq<char>
    decreases s.len(),
{
    if s.len() == 0 {
        Seq::empty()
    } else {
        let head = with_char_replaced(s.drop_last(), c, with);
        if s.last() == c {
            head + with
        } else {
            head.push(s.last())
        }
    }
}

pub fn replace_char(s: &str, c: char, with: &str) -> (r: String)
    ensures
        r@ == with_char_replaced(s@, c, with@),
{
    let v = chars_of(s);
    let mut out = String::new();
    let mut i: usize = 0;
    assert(v@.take(0) =~= Seq::empty());
    while i < v.len()
        invariant
            v@ == s@,
            i <= v@.len(),
            out@ == with_char_replaced(v@.take(i as int), c, with@),
        decreases v@.len() - i,
    {
        proof {
            assert(v@.take(i + 1).drop_last() =~= v@.take(i as int));
            assert(v@.take(i + 1).last() == v@[i as int]);
        }
        if v[i] == c {
            out.append(with);
        } else {
            out.push(v[i]);
        }
        i = i + 1;
    }
    assert(v@.take(v@.len() as int) =~= v@);
    out
}

/// Replacing by a text without `c` leaves no `c`.
pub proof fn lemma_replaced_char_is_gone(s: Seq<char>, c: char, with: Seq<char>)
    requires
        !has_char(with, c),
    ensures
        !has_char(with_char_replaced(s, c, with), c),
    decreases s.len(),
{
    if s.len() > 0 {
        lemma_replaced_char_is_gone(s.drop_last(), c, with);
        let head = with_char_replaced(s.drop_last(), c, with);
        let all = with_char_replaced(s, c, with);
        assert forall|i: int| 0 <= i < all.len() implies all[i] != c by {
            if i < head.len() {
                assert(all[i] == head[i]);
            } else if s.last() == c {
                assert(all[i] == with[i - head.len()]);
            }
        }
    }
}

/// `s` with the occurrences of `pat`, taken from the left and apart from each
/// other, turned into `with`.
pub open spec fn with_text_replaced(s: Seq<char>, pat: Seq<char>, with: Seq<char>) -> Seq<char>
    decreases s.len(),
{
    if pat.len() == 0 || s.len() < pat.len() {
        s
    } else if occurs_at(s, pat, 0) {
        with + with_text_replaced(s.skip(pat.len() as int), pat, with)
    } else {
        seq![s[0]] + with_text_replaced(s.skip(1), pat, with)
    }
}

/// Where `pat` begins at none of the first `n` characters, these stay.
pub proof fn lemma_replaced_behind(s: Seq<char>, pat: Seq<char>, with: Seq<char>, n: int)
    requires
        0 <= n <= s.len(),
        pat.len() > 0,
        forall|i: int| 0 <= i < n ==> !occurs_at(s, pat, i),
    ensures
        with_text_replaced(s, pat, with) == s.take(n) + with_text_replaced(s.skip(n), pat, with),
    decreases n,
{
    if n == 0 {
        assert(s.skip(0) =~= s);
        assert(s.take(0) + with_text_replaced(s, pat, with) =~= with_text_replaced(s, pat, with));
    } else if s.len() < pat.len() {
        assert(s.take(n) + s.skip(n) =~= s);
    } else {
        let t = s.skip(1);
        assert(!occurs_at(s, pat, 0));
        assert forall|i: int| 0 <= i < n - 1 implies !occurs_at(t, pat, i) by {
            assert(!occurs_at(s, pat, i + 1));
            if i + pat.len() <= t.len() {
                assert(t.subrange(i, i + pat.len()) =~= s.subrange(i + 1, i + 1 + pat.len()));
            }
        }
        lemma_replaced_behind(t, pat, with, n - 1);
        assert(t.skip(n - 1) =~= s.skip(n));
        assert(seq![s[0]] + t.take(n - 1) =~= s.take(n));
        assert(seq![s[0]] + (t.take(n - 1) + with_text_replaced(s.skip(n), pat, with)) =~= seq![s[0]]
            + t.take(n - 1) + with_text_replaced(s.skip(n), pat, with));
    }
}

/// Where `pat` stands in front, it goes, and the rest goes on.
pub proof fn lemma_replaced_in_front(pat: Seq<char>, rest: Seq<char>, with: Seq<char>)
    requires
        pat.len() > 0,
    ensures
        with_text_replaced(pat + rest, pat, with) == with + with_text_replaced(rest, pat, with),
{
    let s = pat + rest;
    assert(s.subrange(0, pat.len() as int) =~= pat);
    assert(occurs_at(s, pat, 0));
    assert(s.skip(pat.len() as int) =~= rest);
}

pub fn replace_text(s: &str, pat: &str, with: &str) -> (r: String)
    requires
        pat@.len() > 0,
    ensures
        r@ == with_text_replaced(s@, pat@, with@),
{
    let v = chars_of(s);
    let p = chars_of(pat);
    let mut out = String::new();
    let mut i: usize = 0;
    assert(v@.skip(0) =~= v@);
    assert(out@ + with_text_replaced(v@, pat@, with@) =~= with_text_replaced(v@, pat@, with@));
    while i < v.len()
        invariant
            v@ == s@,
            p@ == pat@,
            p@.len() > 0,
            i <= v@.len(),
            out@ + with_text_replaced(v@.skip(i as int), pat@, with@) == with_text_replaced(
                s@,
                pat@,
                with@,
            ),
        decreases v@.len() - i,
    {
        let ghost rest = v@.skip(i as int);
        let ghost so_far = out@;
        if matches_at(&v, &p, i) {
            proof {
                assert(rest.subrange(0, p@.len() as int) =~= v@.subrange(
                    i as int,
                    i + p@.len(),
                ));
                assert(rest.skip(p@.len() as int) =~= v@.skip(i + p@.len()));
                assert(so_far + (with@ + with_text_replaced(v@.skip(i + p@.len()), pat@, with@))
                    =~= (so_far + with@) + with_text_replaced(
                    v@.skip(i + p@.len()),
                    pat@,
                    with@,
                ));
            }
            out.append(with);
            i = i + p.len();
        } else {
            proof {
                if rest.len() >= p@.len() {
                    assert(rest.subrange(0, p@.len() as int) =~= v@.subrange(
                        i as int,
                        i + p@.len(),
                    ));
                }
                assert(rest.skip(1) =~= v@.skip(i + 1));
                assert(rest[0] == v@[i as int]);
                let tail = with_text_replaced(v@.skip(i + 1), pat@, with@);
                if rest.len() < p@.len() {
                    assert(tail == v@.skip(i + 1));
                    assert(so_far + rest =~= so_far.push(v@[i as int]) + tail);
                } else {
                    assert(so_far + (seq![rest[0]] + tail) =~= so_far.push(v@[i as int]) + tail);
                }
            }
            out.push(v[i]);
            i = i + 1;
        }
    }
    proof {
        assert(v@.skip(v@.len() as int) =~= Seq::empty());
        assert(out@ + Seq::<char>::empty() =~= out@);
    }
    out
}

/// `s` with the ASCII capitals turned into small letters.
pub open spec fn lowered(s: Seq<char>) -> Seq<char> {
    s.map_values(|c: char| lower_of(c))
}

/// `s` with the small ASCII letters turned into capitals.
pub open spec fn uppered(s: Seq<char>) -> Seq<char> {
    s.map_values(|c: char| upper_of(c))
}

/// What stands in a text stands in every longer one.
pub proof fn lemma_contained_in_longer(before: Seq<char>, s: Seq<char>, after: Seq<char>)
    ensures
        forall|pat: Seq<char>|
            contains_text(s, pat) ==> #[trigger] contains_text(before + s + after, pat),
{
    let all = before + s + after;
    assert forall|pat: Seq<char>| contains_text(s, pat) implies #[trigger] contains_text(
        all,
        pat,
    ) by {
        let i = choose|i: int| occurs_at(s, pat, i);
        let k = before.len() + i;
        assert(all.subrange(k, k + pat.len()) =~= s.subrange(i, i + pat.len()));
        assert(occurs_at(all, pat, k));
    }
}

pub fn to_ascii_lower(s: &str) -> (r: String)
    ensures
        r@ == lowered(s@),
{
    let v = chars_of(s);
    let mut out = String::new();
    let mut i: usize = 0;
    while i < v.len()
        invariant
            v@ == s@,
            i <= v@.len(),
            out@ =~= lowered(v@.take(i as int)),
        decreases v@.len() - i,
    {
        out.push(ascii_lower(v[i]));
        i = i + 1;
    }
    assert(v@.take(v@.len() as int) =~= v@);
    out
}

// ---------------------------------------------------------------------------
// Numbers
// ---------------------------------------------------------------------------

/// `n` in decimal digits, without leading zeros.
pub open spec fn decimal(n: nat) -> Seq<char>
    decreases n,
{
    if n < 10 {
        seq![digit_char(n as int)]
    } else {
        decimal(n / 10).push(digit_char((n % 10) as int))
    }
}

pub fn to_decimal(n: u64) -> (r: String)
    ensures
        r@ == decimal(n as nat),
    decreases n,
{
    let d: u8 = (n % 10) as u8;
    let c: char = (d + 48) as char;
    assert(c == digit_char((n % 10) as int));
    if n < 10 {
        let mut out = String::new();
        out.push(c);
        assert(out@ =~= seq![digit_char(n as int)]);
        out
    } else {
        let mut out = to_decimal(n / 10);
        out.push(c);
        out
    }
}

// ---------------------------------------------------------------------------
// Order
// ---------------------------------------------------------------------------

/// Whether `a` comes before `b` in the order of a dictionary by code points.
pub open spec fn is_before(a: Seq<char>, b: Seq<char>) -> bool
    decreases a.len(),
{
    if b.len() == 0 {
        false
    } else if a.len() == 0 {
        true
    } else if a[0] != b[0] {
        a[0] < b[0]
    } else {
        is_before(a.skip(1), b.skip(1))
    }
}

pub fn comes_before(a: &str, b: &str) -> (r: bool)
    ensures
        r == is_before(a@, b@),
{
    let x = chars_of(a);
    let y = chars_of(b);
    let mut i: usize = 0;
    assert(x@.skip(0) =~= x@);
    assert(y@.skip(0) =~= y@);
    while i < x.len() && i < y.len()
        invariant
            x@ == a@,
            y@ == b@,
            i <= x@.len(),
            i <= y@.len(),
            is_before(x@, y@) == is_before(x@.skip(i as int), y@.skip(i as int)),
        decreases x@.len() - i,
    {
        proof {
            assert(x@.skip(i as int)[0] == x@[i as int]);
            assert(y@.skip(i as int)[0] == y@[i as int]);
            assert(x@.skip(i as int).skip(1) =~= x@.skip(i + 1));
            assert(y@.skip(i as int).skip(1) =~= y@.skip(i + 1));
        }
        if x[i] != y[i] {
            return x[i] < y[i];
        }
        i = i + 1;
    }
    i < y.len()
}

/// Of three texts in order, the first comes no later than the last.
pub proof fn lemma_before_transitive(a: Seq<char>, b: Seq<char>, c: Seq<char>)
    requires
        !is_before(b, a),
        !is_before(c, b),
    ensures
        !is_before(c, a),
    decreases a.len(),
{
    if a.len() > 0 && b.len() > 0 && c.len() > 0 && a[0] == b[0] && b[0] == c[0] {
        lemma_before_transitive(a.skip(1), b.skip(1), c.skip(1));
    }
}

/// A character is replaced wherever it stands, and every other one stays.
pub proof fn law_replacing_goes_piece_by_piece(
    x: Seq<char>,
    y: Seq<char>,
    c: char,
    with: Seq<char>,
)
    ensures
        with_char_replaced(x + y, c, with) == with_char_replaced(x, c, with) + with_char_replaced(
            y,
            c,
            with,
        ),
        with_char_replaced(seq![c], c, with) == with,
        forall|d: char| d != c ==> #[trigger] with_char_replaced(seq![d], c, with) == seq![d],
    decreases y.len(),
{
    let all = x + y;
    if y.len() == 0 {
        assert(all =~= x);
        assert(with_char_replaced(x, c, with) + with_char_replaced(y, c, with)
            =~= with_char_replaced(x, c, with));
    } else {
        law_replacing_goes_piece_by_piece(x, y.drop_last(), c, with);
        assert(all.drop_last() =~= x + y.drop_last());
        assert(all.last() == y.last());
        assert(with_char_replaced(all, c, with) =~= with_char_replaced(x, c, with)
            + with_char_replaced(y, c, with));
    }
    assert(seq![c].drop_last() =~= Seq::<char>::empty());
    assert(seq![c].last() == c);
    assert(with_char_replaced(Seq::<char>::empty(), c, with) =~= Seq::<char>::empty());
    assert(with_char_replaced(seq![c], c, with) =~= with);
    assert forall|d: char| d != c implies #[trigger] with_char_replaced(seq![d], c, with)
        == seq![d] by {
        assert(seq![d].drop_last() =~= Seq::<char>::empty());
        assert(seq![d].last() == d);
        assert(with_char_replaced(seq![d], c, with) =~= seq![d]);
    }
}

/// The pieces of a text, joined again, are the text.
pub proof fn law_pieces_join_back(s: Seq<char>, sep: char)
    ensures
        joined(pieces(s, sep, sep), sep) == s,
    decreases s.len(),
{
    lemma_pieces_nonempty(s, sep, sep);
    if s.len() == 0 {
        assert(joined(pieces(s, sep, sep), sep) =~= s);
    } else {
        let t = s.drop_last();
        let p = pieces(t, sep, sep);
        law_pieces_join_back(t, sep);
        lemma_pieces_nonempty(t, sep, sep);
        let q = pieces(s, sep, sep);
        assert(s =~= t.push(s.last()));
        if s.last() == sep {
            assert(q.drop_last() =~= p);
            assert(joined(q, sep) =~= s);
        } else {
            assert(q.drop_last() =~= p.drop_last());
            assert(q.last() =~= p.last().push(s.last()));
            assert(joined(q, sep) =~= s);
        }
    }
}

/// A text is cut behind its first characters, and a shorter one is kept.
pub proof fn law_cut_keeps_the_front(s: Seq<char>, n: int)
    requires
        0 <= n,
    ensures
        n <= s.len() ==> first_chars(s, n) == s.take(n),
        n >= s.len() ==> first_chars(s, n) == s,
{
    assert(s.take(s.len() as int) =~= s);
}

/// Of two texts exactly one comes before the other, unless they are the same.
pub proof fn law_texts_are_ordered(a: Seq<char>, b: Seq<char>)
    ensures
        a == b ==> !is_before(a, b),
        a != b ==> is_before(a, b) != is_before(b, a),
    decreases a.len(),
{
    if a.len() > 0 && b.len() > 0 && a[0] == b[0] {
        law_texts_are_ordered(a.skip(1), b.skip(1));
        if a.skip(1) == b.skip(1) {
            assert(a =~= seq![a[0]] + a.skip(1));
            assert(b =~= seq![b[0]] + b.skip(1));
        }
    } else if a.len() == 0 && b.len() == 0 {
        assert(a =~= b);
    }
}

/// The order goes by the first character that differs, and a text comes
/// before its continuations.
pub proof fn law_order_goes_by_the_first_difference(
    front: Seq<char>,
    a: char,
    b: char,
    x: Seq<char>,
    y: Seq<char>,
)
    requires
        a < b,
    ensures
        is_before(front.push(a) + x, front.push(b) + y),
        is_before(front, front.push(a) + x),
    decreases front.len(),
{
    let p = front.push(a) + x;
    let q = front.push(b) + y;
    if front.len() > 0 {
        let f = front.skip(1);
        law_order_goes_by_the_first_difference(f, a, b, x, y);
        assert(p.skip(1) =~= f.push(a) + x);
        assert(q.skip(1) =~= f.push(b) + y);
    }
}

} // verus!
